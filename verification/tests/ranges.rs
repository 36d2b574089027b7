use utnfa::{intersect_ranges, subtract_ranges};

#[test]
fn char_ranges_test() {
    // intersection
    assert_eq!(intersect_ranges(('\x00', '\x01'), ('\x70', '\x73')), None);
    assert_eq!(intersect_ranges(('\x00', '\x6f'), ('\x70', '\x73')), None);
    assert_eq!(
        intersect_ranges(('\x00', '\x70'), ('\x70', '\x73')),
        Some(('\x70', '\x70'))
    );
    assert_eq!(
        intersect_ranges(('\u{800}', '\u{800}'), ('\u{800}', '\u{800}')),
        Some(('\u{800}', '\u{800}'))
    );
    assert_eq!(
        intersect_ranges(('\u{800}', '\u{010000}'), ('\u{0}', '\u{805}')),
        Some(('\u{800}', '\u{805}'))
    );

    // subtraction
    assert_eq!(*subtract_ranges(&[('a', 'd')], &[('c', 'd')]), [('a', 'b')]);
    assert_eq!(
        *subtract_ranges(&[('a', 'z')], &[('c', 'd')]),
        [('a', 'b'), ('e', 'z')]
    );
    assert_eq!(
        *subtract_ranges(&[('a', 'z')], &[('c', 'd'), ('y', 'y')]),
        [('a', 'b'), ('e', 'x'), ('z', 'z')]
    );
    assert_eq!(
        *subtract_ranges(&[('a', 'z')], &[('c', 'd'), ('y', 'y'), ('x', 'z')]),
        [('a', 'b'), ('e', 'w')]
    );
    assert_eq!(
        *subtract_ranges(
            &[('a', 'z')],
            &[('c', 'd'), ('y', 'y'), ('x', 'z'), ('w', 'e')]
        ),
        [('a', 'b'), ('e', 'w')]
    );
    assert_eq!(
        *subtract_ranges(
            &[('a', 'z')],
            &[('c', 'd'), ('y', 'y'), ('x', 'z'), ('w', 'e'), ('a', 'z')]
        ),
        []
    );
    assert_eq!(
        *subtract_ranges(&[('\u{0}', '\u{10ffff}')], &[('\u{0}', '\u{10fffe}')]),
        [('\u{10ffff}', '\u{10ffff}')]
    );
    assert_eq!(
        *subtract_ranges(&[('\u{0}', '\u{10ffff}')], &[('\u{1}', '\u{10ffff}')]),
        [('\u{0}', '\u{0}')]
    );
}

#[test]
fn intersection_is_symmetric() {
    let a = ('c', 'm');
    let b = ('h', 'z');
    assert_eq!(intersect_ranges(a, b), Some(('h', 'm')));
    assert_eq!(intersect_ranges(b, a), Some(('h', 'm')));
    assert_eq!(intersect_ranges(a, a), Some(a));
}

#[test]
fn reversed_ranges_meet_nothing() {
    assert_eq!(intersect_ranges(('z', 'a'), ('a', 'z')), None);
    assert_eq!(intersect_ranges(('a', 'z'), ('q', 'f')), None);
    assert_eq!(*subtract_ranges(&[('a', 'z')], &[('q', 'f')]), [('a', 'z')]);
    assert_eq!(*subtract_ranges(&[('z', 'a')], &[('a', 'z')]), [('z', 'a')]);
}

#[test]
fn nothing_taken_away_leaves_the_list() {
    assert_eq!(*subtract_ranges(&[('a', 'c'), ('x', 'z')], &[]), [('a', 'c'), ('x', 'z')]);
    let none: Vec<(char, char)> = Vec::new();
    assert_eq!(subtract_ranges(&[], &[('a', 'z')]), none);
}

#[test]
fn adjacent_ranges_do_not_touch() {
    assert_eq!(*subtract_ranges(&[('a', 'c')], &[('d', 'f')]), [('a', 'c')]);
    assert_eq!(*subtract_ranges(&[('d', 'f')], &[('a', 'c')]), [('d', 'f')]);
    assert_eq!(*subtract_ranges(&[('a', 'f')], &[('a', 'a')]), [('b', 'f')]);
    assert_eq!(*subtract_ranges(&[('a', 'f')], &[('f', 'f')]), [('a', 'e')]);
}

#[test]
fn one_range_cuts_several() {
    assert_eq!(
        *subtract_ranges(&[('a', 'e'), ('g', 'k'), ('m', 'q')], &[('c', 'o')]),
        [('a', 'b'), ('p', 'q')]
    );
    assert_eq!(
        *subtract_ranges(&[('a', 'e'), ('g', 'k'), ('m', 'q')], &[('h', 'i')]),
        [('a', 'e'), ('g', 'g'), ('j', 'k'), ('m', 'q')]
    );
}

#[test]
fn surrogate_block_is_stepped_over() {
    assert_eq!(
        *subtract_ranges(&[('\u{0}', '\u{10ffff}')], &[('\u{e000}', '\u{e000}')]),
        [('\u{0}', '\u{d7ff}'), ('\u{e001}', '\u{10ffff}')]
    );
    assert_eq!(
        *subtract_ranges(&[('\u{0}', '\u{10ffff}')], &[('\u{d7ff}', '\u{d7ff}')]),
        [('\u{0}', '\u{d7fe}'), ('\u{e000}', '\u{10ffff}')]
    );
    assert_eq!(
        *subtract_ranges(&[('\u{d000}', '\u{f000}')], &[('\u{d7ff}', '\u{e000}')]),
        [('\u{d000}', '\u{d7fe}'), ('\u{e001}', '\u{f000}')]
    );
}

#[test]
fn whole_range_taken_away_leaves_nothing() {
    let none: Vec<(char, char)> = Vec::new();
    assert_eq!(subtract_ranges(&[('q', 'q')], &[('q', 'q')]), none);
    assert_eq!(subtract_ranges(&[('\u{0}', '\u{10ffff}')], &[('\u{0}', '\u{10ffff}')]), none);
    assert_eq!(subtract_ranges(&[('b', 'y')], &[('a', 'z')]), none);
}
