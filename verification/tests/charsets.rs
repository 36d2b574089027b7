use utnfa::{Charset, Utf8Charset};

#[test]
fn charset_basic_test() {
    let c = Charset::from_range((b'1', b'9'));
    let v: Vec<u8> = c.iter().collect();
    assert_eq!(v.as_slice(), b"123456789");
    for i in 0..=255 {
        assert_eq!(c.contains(i), i >= b'1' && i <= b'9');
    }

    let c = Charset::from_range((0, 255));
    let v: Vec<u8> = c.iter().collect();
    for i in 0..=255 {
        assert!(c.contains(i));
        assert_eq!(v[i as usize], i);
    }

    for i in 0..=255 {
        let single = Charset::from_char(i);
        for j in 0..=255 {
            assert_eq!(single.contains(j), i == j);
        }
        assert_eq!(single.iter().collect(), vec![i]);
    }

    assert_eq!(
        Charset::from_range((0, 5)) | Charset::from_range((6, 10)),
        Charset::from_range((0, 10))
    );

    assert_eq!(Charset::from_char(b'\x7f').to_string().as_str(), "\\x7f");
    assert_eq!(Charset::from_char(b'a').to_string().as_str(), "a");
}

#[test]
fn empty_charset_has_no_member() {
    let c = Charset::empty();
    for i in 0..=255 {
        assert!(!c.contains(i));
    }
    assert_eq!(c.iter().collect(), Vec::<u8>::new());
    assert_eq!(c.to_string(), "");
    assert_eq!(c.iter().next(), None);
}

#[test]
fn reversed_byte_range_is_empty() {
    assert_eq!(Charset::from_range((9, 3)), Charset::empty());
    assert_eq!(Charset::from_range((255, 0)).iter().collect(), Vec::<u8>::new());
}

#[test]
fn full_byte_range_lists_every_byte_in_order() {
    let v = Charset::from_range((0, 255)).iter().collect();
    let want: Vec<u8> = (0..=255).collect();
    assert_eq!(v, want);
}

#[test]
fn top_bit_is_kept() {
    let c = Charset::from_char(255);
    assert!(c.contains(255));
    assert!(!c.contains(254));
    assert!(!c.contains(0));
    assert_eq!(c.iter().collect(), vec![255]);
    let d = Charset::from_range((200, 255));
    assert_eq!(d.iter().collect().len(), 56);
}

#[test]
fn contains_and_iter_agree() {
    let c = Charset::from_range((3, 7)) | Charset::from_char(200) | Charset::from_range((64, 65));
    let listed = c.iter().collect();
    for b in 0..=255u8 {
        assert_eq!(listed.contains(&b), c.contains(b));
    }
    assert_eq!(listed, vec![3, 4, 5, 6, 7, 64, 65, 200]);
}

#[test]
fn walk_is_lazy_and_can_start_again() {
    let c = Charset::from_char(b'x') | Charset::from_char(b'b');
    let mut it = c.iter();
    assert_eq!(it.next(), Some(b'b'));
    assert_eq!(it.next(), Some(b'x'));
    assert_eq!(it.next(), None);
    assert_eq!(it.next(), None);
    let mut again = c.iter();
    assert_eq!(again.next(), Some(b'b'));
    assert_eq!(again.collect(), vec![b'x']);
    assert_eq!(c.iter().collect(), vec![b'b', b'x']);
}

#[test]
fn union_laws_on_values() {
    let a = Charset::from_range((10, 20));
    let b = Charset::from_range((15, 40));
    let c = Charset::from_char(99);
    assert_eq!(a | b, b | a);
    assert_eq!((a | b) | c, a | (b | c));
    assert_eq!(a | a, a);
    assert_eq!(a | Charset::empty(), a);
    assert_eq!(a | b, Charset::from_range((10, 40)));
    assert_ne!(a | c, a);
    let mut d = a;
    d |= c;
    assert_eq!(d, a | c);
}

#[test]
fn rendering_of_bytes() {
    assert_eq!(Charset::from_char(0).to_string(), "\\x00");
    assert_eq!(Charset::from_char(0x1f).to_string(), "\\x1f");
    assert_eq!(Charset::from_char(b' ').to_string(), " ");
    assert_eq!(Charset::from_char(b'~').to_string(), "~");
    assert_eq!(Charset::from_char(0x7f).to_string(), "\\x7f");
    assert_eq!(Charset::from_char(0x80).to_string(), "\\x80");
    assert_eq!(Charset::from_char(0xab).to_string(), "\\xab");
    assert_eq!(Charset::from_char(0xff).to_string(), "\\xff");
    assert_eq!(Charset::from_range((b'a', b'e')).to_string(), "abcde");
    assert_eq!(
        (Charset::from_range((0x7d, 0x81)) | Charset::from_char(b'\\')).to_string(),
        "\\}~\\x7f\\x80\\x81"
    );
}

#[test]
fn clones_are_equal() {
    let a = Charset::from_range((1, 2));
    let b = a.clone();
    assert_eq!(a, b);
    assert_ne!(a, Charset::from_range((1, 3)));
}

#[test]
fn builder_accepts_every_call() {
    let mut c = Utf8Charset::empty();
    assert!(c.fits());
    c.add_char('a');
    c.add_range(('x', 'z'));
    c.invert(true);
    c.invert(false);
    let d = c.clone();
    assert!(d.fits());
}
