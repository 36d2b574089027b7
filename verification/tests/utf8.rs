use utnfa::{Automata, UTnfa, Utf8Charset};

/// A fragment laid out for reading: its edges by the byte they read.
struct Reader {
    nodes: usize,
    begin: usize,
    finals: Vec<bool>,
    eps: Vec<(usize, usize)>,
    by_byte: Vec<Vec<(usize, usize)>>,
}

fn reader(f: &UTnfa) -> Reader {
    let mut r = Reader {
        nodes: f.nodes(),
        begin: f.begin(),
        finals: (0..f.nodes()).map(|i| f.is_final(i)).collect(),
        eps: Vec::new(),
        by_byte: vec![Vec::new(); 256],
    };
    for e in f.list_edges() {
        match e.2 {
            None => r.eps.push((e.0, e.1)),
            Some(b) => r.by_byte[b as usize].push((e.0, e.1)),
        }
    }
    r
}

fn close(r: &Reader, set: &mut Vec<bool>) {
    loop {
        let mut grown = false;
        for e in r.eps.iter() {
            if set[e.0] && !set[e.1] {
                set[e.1] = true;
                grown = true;
            }
        }
        if !grown {
            break;
        }
    }
}

fn reads(r: &Reader, input: &[u8]) -> bool {
    let mut now = vec![false; r.nodes];
    now[r.begin] = true;
    close(r, &mut now);
    for b in input {
        let mut next = vec![false; r.nodes];
        let mut any = false;
        for e in r.by_byte[*b as usize].iter() {
            if now[e.0] {
                next[e.1] = true;
                any = true;
            }
        }
        if !any {
            return false;
        }
        close(r, &mut next);
        now = next;
    }
    (0..r.nodes).any(|i| now[i] && r.finals[i])
}

fn class(ranges: &[(char, char)], invert: bool) -> UTnfa {
    let mut c = Utf8Charset::empty();
    for r in ranges {
        if r.0 == r.1 {
            c.add_char(r.0);
        } else {
            c.add_range(*r);
        }
    }
    c.invert(invert);
    assert!(c.fits());
    c.into()
}

fn encoded(c: char) -> Vec<u8> {
    let mut buf = [0u8; 4];
    c.encode_utf8(&mut buf).as_bytes().to_vec()
}

/// Scalar values worth trying: those next to every power of 64, to the
/// ends of the classes, to the surrogate block and to the given ranges,
/// and a thin sample of the rest.
fn probes(ranges: &[(char, char)]) -> Vec<char> {
    let mut marks: Vec<u32> = vec![0, 0x7f, 0x80, 0x7ff, 0x800, 0xd7ff, 0xe000, 0xffff, 0x10000, 0x10ffff];
    for r in ranges {
        marks.push(r.0 as u32);
        marks.push(r.1 as u32);
    }
    let mut v: Vec<u32> = Vec::new();
    for m in marks {
        for d in 0..4 {
            v.push(m.saturating_sub(d));
            v.push(m + d);
        }
    }
    let mut x = 0u32;
    while x <= 0x10ffff {
        for d in 0..2 {
            v.push(x + d);
            v.push(x.saturating_sub(d + 1));
        }
        x += 64;
    }
    let mut y = 0u32;
    while y <= 0x10ffff {
        v.push(y);
        y += 997;
    }
    v.sort();
    v.dedup();
    v.into_iter().filter_map(char::from_u32).collect()
}

fn within(ranges: &[(char, char)], c: char) -> bool {
    ranges.iter().any(|r| r.0 <= c && c <= r.1)
}

fn check_exactly(ranges: &[(char, char)], invert: bool) {
    let f = class(ranges, invert);
    let r = reader(&f);
    for c in probes(ranges) {
        assert_eq!(reads(&r, &encoded(c)), within(ranges, c) != invert, "{:?}", c);
    }
    for bad in malformed() {
        assert!(!reads(&r, &bad), "{:?}", bad);
    }
}

/// Byte strings that are no encoding of a single character.
fn malformed() -> Vec<Vec<u8>> {
    vec![
        vec![],
        vec![0x80],
        vec![0xbf],
        vec![0xc0, 0x80],
        vec![0xc1, 0xbf],
        vec![0xc2],
        vec![0xc2, 0x41],
        vec![0xc2, 0xc0],
        vec![0xe0, 0x80, 0x80],
        vec![0xe0, 0x9f, 0xbf],
        vec![0xe2, 0x82],
        vec![0xed, 0xa0, 0x80],
        vec![0xed, 0xbf, 0xbf],
        vec![0xf0, 0x80, 0x80, 0x80],
        vec![0xf0, 0x8f, 0xbf, 0xbf],
        vec![0xf0, 0x90, 0x80],
        vec![0xf4, 0x90, 0x80, 0x80],
        vec![0xf5, 0x80, 0x80, 0x80],
        vec![0xf8, 0x88, 0x80, 0x80, 0x80],
        vec![0xff],
        vec![0xfe],
        vec![0x41, 0x80],
        vec![0x41, 0x42],
        vec![0xc3, 0xa9, 0x80],
        vec![0xe2, 0x82, 0xac, 0x80],
        vec![0xf0, 0x9f, 0x98, 0x80, 0x80],
    ]
}

#[test]
fn digits() {
    check_exactly(&[('0', '9')], false);
    let r = reader(&class(&[('0', '9')], false));
    for b in 0..=255u8 {
        assert_eq!(reads(&r, &[b]), (b'0'..=b'9').contains(&b));
    }
    assert!(!reads(&r, b"00"));
}

#[test]
fn all_of_two_bytes() {
    check_exactly(&[('\u{80}', '\u{7ff}')], false);
}

#[test]
fn all_of_three_bytes() {
    check_exactly(&[('\u{800}', '\u{ffff}')], false);
}

#[test]
fn all_of_four_bytes() {
    check_exactly(&[('\u{10000}', '\u{10ffff}')], false);
}

#[test]
fn every_character() {
    check_exactly(&[('\u{0}', '\u{10ffff}')], false);
}

#[test]
fn ranges_that_need_cutting() {
    check_exactly(&[('\u{81}', '\u{7fe}')], false);
    check_exactly(&[('\u{a3}', '\u{1c5}')], false);
    check_exactly(&[('\u{900}', '\u{fffd}')], false);
    check_exactly(&[('\u{1234}', '\u{1235}')], false);
    check_exactly(&[('\u{fff}', '\u{1000}')], false);
    check_exactly(&[('\u{10001}', '\u{10fffe}')], false);
    check_exactly(&[('\u{3ffff}', '\u{40000}')], false);
    check_exactly(&[('\u{2f8a7}', '\u{e01ef}')], false);
}

#[test]
fn ranges_across_classes() {
    check_exactly(&[('a', '\u{3a9}')], false);
    check_exactly(&[('\u{7f}', '\u{80}')], false);
    check_exactly(&[('\u{7ff}', '\u{800}')], false);
    check_exactly(&[('\u{ffff}', '\u{10000}')], false);
    check_exactly(&[('\u{d000}', '\u{f000}')], false);
    check_exactly(&[('\u{d7ff}', '\u{e000}')], false);
    check_exactly(&[('\u{20}', '\u{1f600}')], false);
}

#[test]
fn single_characters() {
    check_exactly(&[('a', 'a')], false);
    check_exactly(&[('\u{e9}', '\u{e9}')], false);
    check_exactly(&[('\u{20ac}', '\u{20ac}')], false);
    check_exactly(&[('\u{1f600}', '\u{1f600}')], false);
    let r = reader(&class(&[('\u{20ac}', '\u{20ac}')], false));
    assert!(reads(&r, &[0xe2, 0x82, 0xac]));
    assert!(!reads(&r, &[0xe2, 0x82, 0xad]));
    assert!(!reads(&r, &[0xe2, 0x83, 0xac]));
    assert!(!reads(&r, &[0xe3, 0x82, 0xac]));
}

#[test]
fn several_ranges() {
    check_exactly(&[('a', 'z'), ('A', 'Z'), ('0', '9'), ('_', '_')], false);
    check_exactly(&[('\u{400}', '\u{4ff}'), ('a', 'f'), ('\u{1f300}', '\u{1f5ff}')], false);
    check_exactly(&[('m', 'z'), ('a', 'p')], false);
}

#[test]
fn no_range_accepts_nothing() {
    check_exactly(&[], false);
    let r = reader(&class(&[], false));
    assert!(!reads(&r, b""));
    assert!(!reads(&r, b"a"));
}

#[test]
fn reversed_range_accepts_nothing() {
    check_exactly(&[('z', 'a')], false);
    check_exactly(&[('\u{10ffff}', '\u{0}')], false);
}

#[test]
fn inverted_sets() {
    check_exactly(&[('0', '9')], true);
    check_exactly(&[('a', 'z'), ('A', 'Z')], true);
    check_exactly(&[('\u{80}', '\u{7ff}')], true);
    check_exactly(&[('\u{800}', '\u{ffff}')], true);
    check_exactly(&[('\u{10000}', '\u{10ffff}')], true);
    check_exactly(&[('\u{d7ff}', '\u{e000}')], true);
    check_exactly(&[('z', 'a')], true);
    check_exactly(&[('m', 'z'), ('a', 'p'), ('\u{3b1}', '\u{3c9}')], true);
}

#[test]
fn inverting_nothing_accepts_every_character() {
    check_exactly(&[], true);
}

#[test]
fn inverting_everything_accepts_nothing() {
    check_exactly(&[('\u{0}', '\u{10ffff}')], true);
    let r = reader(&class(&[('\u{0}', '\u{10ffff}')], true));
    for b in 0..=255u8 {
        assert!(!reads(&r, &[b]));
    }
}

#[test]
fn only_untagged_epsilon_edges() {
    let f = class(&[('a', '\u{10ffff}')], false);
    assert!(f.list_edges().iter().all(|e| e.3 == -1));
}
