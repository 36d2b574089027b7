//! From sets of characters to fragments that read their UTF-8 encodings.
//!
//! A character of `k` bytes is a number of `k` digits in base 64: the
//! first byte holds the top digit above a marker that tells the length,
//! each later byte holds one digit above `0x80`.  A range of such numbers
//! is cut into pieces in which every byte position runs through a range
//! of its own; each piece is a chain of charset fragments, and the pieces
//! are united.

use crate::charsets::{byte_range, Charset};
use crate::language::{joined, lemma_charset_set, lemma_concat_set, lemma_union_set, singles};
use crate::ranges::{
    intersect_ranges, intersection, lemma_char_value, lemma_spans_push, span, spans,
};
use crate::utnfa::{lemma_concat_wf, lemma_union_wf, Nfa, UTnfa};
use vstd::prelude::*;
use vstd::utf8::{
    encode_scalar, has_width_3_encoding, last_continuation_byte, leading_byte_width_1,
    leading_byte_width_2, leading_byte_width_3, leading_byte_width_4,
    second_last_continuation_byte, third_last_continuation_byte,
};

verus! {

/// The weight of the digit that has `k` digits after it: 64 to the `k`.
pub open spec fn place(k: int) -> int {
    if k <= 0 {
        1
    } else if k == 1 {
        64
    } else if k == 2 {
        4096
    } else {
        262144
    }
}

/// The `k` bytes that spell the number `x`: its top digit above `lead`,
/// then each later digit above `0x80`.
pub open spec fn spelled(x: int, k: int, lead: int) -> Seq<u8>
    decreases k,
{
    if k <= 1 {
        seq![(lead + x) as u8]
    } else {
        seq![(lead + x / place(k - 1)) as u8] + spelled(x % place(k - 1), k - 1, 0x80)
    }
}

/// The spellings of the numbers from `lo` to `hi`.
pub open spec fn spellings(lo: int, hi: int, k: int, lead: int) -> Set<Seq<u8>> {
    Set::new(|w: Seq<u8>| exists|x: int| lo <= x <= hi && w == #[trigger] spelled(x, k, lead))
}

/// The most nodes that a fragment for numbers of `k` digits has.
pub open spec fn size_bound(k: int) -> int
    decreases k,
{
    if k <= 1 {
        2
    } else {
        3 * size_bound(k - 1) + 10
    }
}

/// A number is its top digit times the weight of that digit, and the
/// rest.
pub proof fn lemma_digits(x: int, m: int)
    requires
        0 <= x,
        m == 64 || m == 4096 || m == 262144,
    ensures
        x == (x / m) * m + x % m,
        0 <= x % m < m,
        0 <= x / m,
{
    if m == 64 {
        assert(x == (x / 64) * 64 + x % 64);
    } else if m == 4096 {
        assert(x == (x / 4096) * 4096 + x % 4096);
    } else {
        assert(x == (x / 262144) * 262144 + x % 262144);
    }
}

/// The digits after the top one spell a number whose own top digit,
/// above `0x80`, is a byte.
pub proof fn lemma_rest_fits(y: int, k: int)
    requires
        2 <= k <= 4,
        0 <= y < place(k - 1),
    ensures
        0x80 + y / place(k - 2) <= 255,
{
    if k == 2 {
        assert(y / 1 <= 63);
    } else if k == 3 {
        assert(y / 64 <= 63);
    } else {
        assert(y / 4096 <= 63);
    }
}

/// Numbers of one digit: one byte out of a range.
pub proof fn lemma_spellings_one(lo: int, hi: int, lead: int)
    requires
        0 <= lo <= hi,
        0 <= lead,
        lead + hi <= 255,
    ensures
        singles(byte_range((lead + lo) as u8, (lead + hi) as u8)) == spellings(lo, hi, 1, lead),
{
    let l = singles(byte_range((lead + lo) as u8, (lead + hi) as u8));
    let r = spellings(lo, hi, 1, lead);
    assert forall|w: Seq<u8>| l.contains(w) <==> r.contains(w) by {
        if l.contains(w) {
            let x = w[0] - lead;
            assert(w =~= spelled(x, 1, lead));
        }
        if r.contains(w) {
            let x = choose|x: int| lo <= x <= hi && w == #[trigger] spelled(x, 1, lead);
            assert(w[0] == (lead + x) as u8);
        }
    }
    assert(l =~= r);
}

/// Numbers of several digits whose top digit runs from `a` to `b` and
/// whose other digits together run from `lr` to `hr`.  They are the
/// numbers from the least to the greatest of them where the top digit is
/// the same throughout, or where the other digits run through all values.
pub proof fn lemma_spellings_product(k: int, lead: int, a: int, b: int, lr: int, hr: int)
    requires
        2 <= k <= 4,
        0 <= a <= b,
        0 <= lr <= hr < place(k - 1),
        0 <= lead,
        lead + b <= 255,
        a == b || (lr == 0 && hr == place(k - 1) - 1),
    ensures
        joined(
            singles(byte_range((lead + a) as u8, (lead + b) as u8)),
            spellings(lr, hr, k - 1, 0x80),
        ) == spellings(a * place(k - 1) + lr, b * place(k - 1) + hr, k, lead),
{
    let m = place(k - 1);
    let firsts = singles(byte_range((lead + a) as u8, (lead + b) as u8));
    let rests = spellings(lr, hr, k - 1, 0x80);
    let l = joined(firsts, rests);
    let lo = a * m + lr;
    let hi = b * m + hr;
    let r = spellings(lo, hi, k, lead);
    assert(m == 64 || m == 4096 || m == 262144);
    assert forall|w: Seq<u8>| l.contains(w) <==> r.contains(w) by {
        if l.contains(w) {
            let (u, v) = choose|u: Seq<u8>, v: Seq<u8>| #[trigger]
                firsts.contains(u) && #[trigger] rests.contains(v) && w == u + v;
            let y = choose|y: int| lr <= y <= hr && v == #[trigger] spelled(y, k - 1, 0x80);
            let d = u[0] - lead;
            let x = d * m + y;
            assert(x / m == d && x % m == y) by {
                if m == 64 {
                    assert((d * 64 + y) / 64 == d && (d * 64 + y) % 64 == y);
                } else if m == 4096 {
                    assert((d * 4096 + y) / 4096 == d && (d * 4096 + y) % 4096 == y);
                } else {
                    assert((d * 262144 + y) / 262144 == d && (d * 262144 + y) % 262144 == y);
                }
            }
            assert(u =~= seq![(lead + d) as u8]);
            assert(w == spelled(x, k, lead));
            assert(lo <= x <= hi) by (nonlinear_arith)
                requires
                    x == d * m + y,
                    lo == a * m + lr,
                    hi == b * m + hr,
                    a <= d <= b,
                    lr <= y <= hr,
                    m > 0,
            ;
        }
        if r.contains(w) {
            let x = choose|x: int| lo <= x <= hi && w == #[trigger] spelled(x, k, lead);
            let d = x / m;
            let y = x % m;
            assert(a <= d <= b && lr <= y <= hr) by {
                if m == 64 {
                    assert(a <= x / 64 <= b && (a == b ==> lr <= x % 64 <= hr)) by (nonlinear_arith)
                        requires
                            a * 64 + lr <= x <= b * 64 + hr,
                            0 <= lr <= hr < 64,
                    ;
                } else if m == 4096 {
                    assert(a <= x / 4096 <= b && (a == b ==> lr <= x % 4096 <= hr)) by (nonlinear_arith)
                        requires
                            a * 4096 + lr <= x <= b * 4096 + hr,
                            0 <= lr <= hr < 4096,
                    ;
                } else {
                    assert(a <= x / 262144 <= b && (a == b ==> lr <= x % 262144 <= hr)) by (nonlinear_arith)
                        requires
                            a * 262144 + lr <= x <= b * 262144 + hr,
                            0 <= lr <= hr < 262144,
                    ;
                }
            }
            let u = seq![(lead + d) as u8];
            let v = spelled(y, k - 1, 0x80);
            assert(firsts.contains(u));
            assert(rests.contains(v));
            assert(w == u + v);
        }
    }
    assert(l =~= r);
}

/// A run of numbers is the run up to `mid` and the run after it.
pub proof fn lemma_spellings_split(lo: int, mid: int, hi: int, k: int, lead: int)
    requires
        lo <= mid + 1,
        mid <= hi,
    ensures
        spellings(lo, hi, k, lead) == spellings(lo, mid, k, lead).union(
            spellings(mid + 1, hi, k, lead),
        ),
{
    let whole = spellings(lo, hi, k, lead);
    let parts = spellings(lo, mid, k, lead).union(spellings(mid + 1, hi, k, lead));
    assert forall|w: Seq<u8>| whole.contains(w) <==> parts.contains(w) by {
        if whole.contains(w) {
            let x = choose|x: int| lo <= x <= hi && w == #[trigger] spelled(x, k, lead);
            if x <= mid {
                assert(spellings(lo, mid, k, lead).contains(w));
            } else {
                assert(spellings(mid + 1, hi, k, lead).contains(w));
            }
        }
        if spellings(lo, mid, k, lead).contains(w) {
            let x = choose|x: int| lo <= x <= mid && w == #[trigger] spelled(x, k, lead);
            assert(lo <= x <= hi);
        }
        if spellings(mid + 1, hi, k, lead).contains(w) {
            let x = choose|x: int| mid + 1 <= x <= hi && w == #[trigger] spelled(x, k, lead);
            assert(lo <= x <= hi);
        }
    }
    assert(whole =~= parts);
}

/// The UTF-8 encodings of the characters of `cs`.
pub open spec fn encodings(cs: Set<char>) -> Set<Seq<u8>> {
    Set::new(|w: Seq<u8>| exists|c: char| #[trigger] cs.contains(c) && w == encode_scalar(c as u32))
}

/// The characters whose encoding has `k` bytes, as a range, for the five
/// classes that there are: the characters of three bytes come in two
/// ranges, one on each side of the surrogate block.  `lead` is the marker
/// in the first byte.
pub open spec fn is_class(class: (char, char), k: int, lead: int) -> bool {
    ||| class == ('\u{0}', '\u{7f}') && k == 1 && lead == 0
    ||| class == ('\u{80}', '\u{7ff}') && k == 2 && lead == 0xc0
    ||| class == ('\u{800}', '\u{d7ff}') && k == 3 && lead == 0xe0
    ||| class == ('\u{e000}', '\u{ffff}') && k == 3 && lead == 0xe0
    ||| class == ('\u{10000}', '\u{10ffff}') && k == 4 && lead == 0xf0
}

proof fn lemma_bytes_1(x: u32)
    by (bit_vector)
    requires
        x <= 0x7f,
    ensures
        leading_byte_width_1(x) == x as u8,
{
}

proof fn lemma_bytes_2(x: u32)
    by (bit_vector)
    requires
        0x80 <= x <= 0x7ff,
    ensures
        leading_byte_width_2(x) == (0xc0 + x / 64) as u8,
        last_continuation_byte(x) == (0x80 + x % 64) as u8,
{
}

proof fn lemma_bytes_3(x: u32)
    by (bit_vector)
    requires
        0x800 <= x <= 0xffff,
    ensures
        leading_byte_width_3(x) == (0xe0 + x / 4096) as u8,
        second_last_continuation_byte(x) == (0x80 + (x % 4096) / 64) as u8,
        last_continuation_byte(x) == (0x80 + (x % 4096) % 64) as u8,
{
}

proof fn lemma_bytes_4(x: u32)
    by (bit_vector)
    requires
        0x10000 <= x <= 0x10ffff,
    ensures
        leading_byte_width_4(x) == (0xf0 + x / 262144) as u8,
        third_last_continuation_byte(x) == (0x80 + (x % 262144) / 4096) as u8,
        second_last_continuation_byte(x) == (0x80 + ((x % 262144) % 4096) / 64) as u8,
        last_continuation_byte(x) == (0x80 + ((x % 262144) % 4096) % 64) as u8,
{
}

/// The encoding of a character is the spelling of its scalar value with
/// the length and the marker of its class.
pub proof fn lemma_encoding_spelled(c: char, class: (char, char), k: int, lead: int)
    requires
        is_class(class, k, lead),
        span(class).contains(c),
    ensures
        encode_scalar(c as u32) == spelled(c as int, k, lead),
{
    lemma_char_value(c);
    lemma_char_value(class.0);
    lemma_char_value(class.1);
    let x = c as u32;
    reveal_with_fuel(spelled, 4);
    if k == 1 {
        lemma_bytes_1(x);
        assert(encode_scalar(x) =~= spelled(x as int, 1, 0));
    } else if k == 2 {
        lemma_bytes_2(x);
        assert(encode_scalar(x) =~= spelled(x as int, 2, 0xc0));
    } else if k == 3 {
        lemma_bytes_3(x);
        assert(has_width_3_encoding(x));
        assert(encode_scalar(x) =~= spelled(x as int, 3, 0xe0));
    } else {
        lemma_bytes_4(x);
        assert(encode_scalar(x) =~= spelled(x as int, 4, 0xf0));
    }
}

/// Within one class, the spellings of a run of scalar values are the
/// encodings of the characters of that run.
pub proof fn lemma_spellings_encodings(r: (char, char), class: (char, char), k: int, lead: int)
    requires
        is_class(class, k, lead),
        class.0 <= r.0,
        r.1 <= class.1,
    ensures
        spellings(r.0 as int, r.1 as int, k, lead) == encodings(span(r)),
{
    lemma_char_value(r.0);
    lemma_char_value(r.1);
    lemma_char_value(class.0);
    lemma_char_value(class.1);
    let l = spellings(r.0 as int, r.1 as int, k, lead);
    let e = encodings(span(r));
    assert forall|w: Seq<u8>| l.contains(w) <==> e.contains(w) by {
        if l.contains(w) {
            let x = choose|x: int| r.0 as int <= x <= r.1 as int && w == #[trigger] spelled(x, k, lead);
            let c = x as char;
            assert(c as int == x);
            assert(span(r).contains(c));
            assert(span(class).contains(c));
            lemma_encoding_spelled(c, class, k, lead);
        }
        if e.contains(w) {
            let c = choose|c: char| #[trigger] span(r).contains(c) && w == encode_scalar(c as u32);
            lemma_char_value(c);
            assert(span(class).contains(c));
            lemma_encoding_spelled(c, class, k, lead);
            assert(w == spelled(c as int, k, lead));
        }
    }
    assert(l =~= e);
}

/// The encodings of a union of sets of characters.
pub proof fn lemma_encodings_union(x: Set<char>, y: Set<char>)
    ensures
        encodings(x.union(y)) == encodings(x).union(encodings(y)),
{
    let l = encodings(x.union(y));
    let r = encodings(x).union(encodings(y));
    assert forall|w: Seq<u8>| l.contains(w) <==> r.contains(w) by {
        if l.contains(w) {
            let c = choose|c: char| #[trigger] x.union(y).contains(c) && w == encode_scalar(c as u32);
            if x.contains(c) {
                assert(encodings(x).contains(w));
            } else {
                assert(y.contains(c));
                assert(encodings(y).contains(w));
            }
        }
        if encodings(x).contains(w) {
            let c = choose|c: char| #[trigger] x.contains(c) && w == encode_scalar(c as u32);
            assert(x.union(y).contains(c));
        }
        if encodings(y).contains(w) {
            let c = choose|c: char| #[trigger] y.contains(c) && w == encode_scalar(c as u32);
            assert(x.union(y).contains(c));
        }
    }
    assert(l =~= r);
}

/// No character, no encoding.
pub proof fn lemma_encodings_empty()
    ensures
        encodings(Set::<char>::empty()) == Set::<Seq<u8>>::empty(),
{
    assert(encodings(Set::<char>::empty()) =~= Set::<Seq<u8>>::empty());
}

/// The fragment that accepts nothing: a charset fragment for no byte.
pub open spec fn nothing() -> Nfa {
    Nfa::charset(Set::<u8>::empty())
}

/// A charset fragment for the bytes from `lead + a` to `lead + b`,
/// followed by `rest`.
pub open spec fn chained(lead: int, a: int, b: int, rest: Nfa) -> Nfa {
    Nfa::charset(byte_range((lead + a) as u8, (lead + b) as u8)).concat(rest)
}

/// The fragment for the spellings of the numbers from `lo` to `hi`.
///
/// For one digit it is a charset fragment.  For more, where the top
/// digit is the same throughout or the other digits run through all
/// values, it is a charset fragment for the top digit followed by the
/// fragment for the other digits.  Else it is the union of three such
/// chains: for the least top digit, for the top digits in between if
/// there are any, and for the greatest top digit.
pub open spec fn numbers(lo: int, hi: int, k: int, lead: int) -> Nfa
    decreases k,
{
    if k <= 1 {
        Nfa::charset(byte_range((lead + lo) as u8, (lead + hi) as u8))
    } else {
        let m = place(k - 1);
        let a = lo / m;
        let b = hi / m;
        let lr = lo % m;
        let hr = hi % m;
        if a == b || (lr == 0 && hr == m - 1) {
            chained(lead, a, b, numbers(lr, hr, k - 1, 0x80))
        } else {
            let least = chained(lead, a, a, numbers(lr, m - 1, k - 1, 0x80));
            let between = if a + 1 < b {
                least.union(chained(lead, a + 1, b - 1, numbers(0, m - 1, k - 1, 0x80)))
            } else {
                least
            };
            between.union(chained(lead, b, b, numbers(0, hr, k - 1, 0x80)))
        }
    }
}

/// `res`, united with the fragment for what `range` holds of one class
/// of characters, if it holds any.
pub open spec fn with_class(res: Nfa, range: (char, char), class: (char, char), k: int, lead: int) -> Nfa {
    match intersection(range, class) {
        None => res,
        Some(part) => res.union(numbers(part.0 as int, part.1 as int, k, lead)),
    }
}

/// The fragment for the characters of one range: the fragment that
/// accepts nothing, united in turn with the fragment for each class of
/// characters that the range reaches into.
#[verifier::opaque]
pub open spec fn for_range(r: (char, char)) -> Nfa {
    let one = with_class(nothing(), r, ('\u{0}', '\u{7f}'), 1, 0);
    let two = with_class(one, r, ('\u{80}', '\u{7ff}'), 2, 0xc0);
    let low = with_class(two, r, ('\u{800}', '\u{d7ff}'), 3, 0xe0);
    let high = with_class(low, r, ('\u{e000}', '\u{ffff}'), 3, 0xe0);
    with_class(high, r, ('\u{10000}', '\u{10ffff}'), 4, 0xf0)
}

/// The fragment for the characters of a list of ranges: the fragment that
/// accepts nothing, united in turn with the fragment for each range.
pub open spec fn for_ranges(rs: Seq<(char, char)>) -> Nfa
    decreases rs.len(),
{
    if rs.len() == 0 {
        nothing()
    } else {
        for_ranges(rs.drop_last()).union(for_range(rs.last()))
    }
}

/// The fragment that accepts nothing is well formed, and accepts nothing.
pub proof fn lemma_nothing()
    ensures
        nothing().wf(),
        nothing().nodes == 2,
        nothing().language() == Set::<Seq<u8>>::empty(),
{
    lemma_charset_set(Set::<u8>::empty());
    assert(nothing().language() =~= Set::<Seq<u8>>::empty());
}

/// A chain is well formed and accepts a byte of its range followed by
/// what the rest accepts.
pub proof fn lemma_chained(lead: int, a: int, b: int, rest: Nfa)
    requires
        rest.wf(),
    ensures
        chained(lead, a, b, rest).wf(),
        chained(lead, a, b, rest).nodes == rest.nodes + 2,
        chained(lead, a, b, rest).language() == joined(
            singles(byte_range((lead + a) as u8, (lead + b) as u8)),
            rest.language(),
        ),
{
    let c = byte_range((lead + a) as u8, (lead + b) as u8);
    lemma_charset_set(c);
    lemma_concat_wf(Nfa::charset(c), rest);
    lemma_concat_set(Nfa::charset(c), rest);
}

/// The fragment for a run of numbers is well formed, accepts exactly
/// the spellings of those numbers, and has a bounded number of nodes.
pub proof fn lemma_numbers(lo: int, hi: int, k: int, lead: int)
    requires
        1 <= k <= 4,
        0 <= lo <= hi,
        0 <= lead,
        lead + hi / place(k - 1) <= 255,
    ensures
        numbers(lo, hi, k, lead).wf(),
        numbers(lo, hi, k, lead).language() == spellings(lo, hi, k, lead),
        2 <= numbers(lo, hi, k, lead).nodes <= size_bound(k),
    decreases k,
{
    reveal_with_fuel(size_bound, 4);
    if k == 1 {
        assert(hi / 1 == hi);
        lemma_spellings_one(lo, hi, lead);
        lemma_charset_set(byte_range((lead + lo) as u8, (lead + hi) as u8));
    } else {
        let m = place(k - 1);
        let a = lo / m;
        let b = hi / m;
        let lr = lo % m;
        let hr = hi % m;
        assert(m == 64 || m == 4096 || m == 262144);
        lemma_digits(lo, m);
        lemma_digits(hi, m);
        lemma_rest_fits(hr, k);
        lemma_rest_fits(m - 1, k);
        assert(a <= b) by {
            if m == 64 {
                assert(lo / 64 <= hi / 64);
            } else if m == 4096 {
                assert(lo / 4096 <= hi / 4096);
            } else {
                assert(lo / 262144 <= hi / 262144);
            }
        }
        if a == b || (lr == 0 && hr == m - 1) {
            let rest = numbers(lr, hr, k - 1, 0x80);
            lemma_numbers(lr, hr, k - 1, 0x80);
            lemma_chained(lead, a, b, rest);
            lemma_spellings_product(k, lead, a, b, lr, hr);
        } else {
            let top = a * m + m - 1;
            let r1 = numbers(lr, m - 1, k - 1, 0x80);
            lemma_numbers(lr, m - 1, k - 1, 0x80);
            let least = chained(lead, a, a, r1);
            lemma_chained(lead, a, a, r1);
            lemma_spellings_product(k, lead, a, a, lr, m - 1);
            assert(least.language() == spellings(lo, top, k, lead));
            let r3 = numbers(0, hr, k - 1, 0x80);
            lemma_numbers(0, hr, k - 1, 0x80);
            let greatest = chained(lead, b, b, r3);
            lemma_chained(lead, b, b, r3);
            lemma_spellings_product(k, lead, b, b, 0, hr);
            assert(greatest.language() == spellings(b * m, hi, k, lead));
            lemma_spellings_split(lo, b * m - 1, hi, k, lead);
            if a + 1 < b {
                let r2 = numbers(0, m - 1, k - 1, 0x80);
                lemma_numbers(0, m - 1, k - 1, 0x80);
                let middle = chained(lead, a + 1, b - 1, r2);
                lemma_chained(lead, a + 1, b - 1, r2);
                lemma_spellings_product(k, lead, a + 1, b - 1, 0, m - 1);
                assert((a + 1) * m + 0 == top + 1);
                assert((b - 1) * m + (m - 1) == b * m - 1);
                lemma_union_wf(least, middle);
                lemma_union_set(least, middle);
                lemma_spellings_split(lo, top, b * m - 1, k, lead);
                lemma_union_wf(least.union(middle), greatest);
                lemma_union_set(least.union(middle), greatest);
            } else {
                assert(top == b * m - 1);
                lemma_union_wf(least, greatest);
                lemma_union_set(least, greatest);
            }
        }
    }
}

/// Uniting with the fragment for one class of characters adds the
/// encodings of the characters of that class that the range holds.
pub proof fn lemma_with_class(res: Nfa, range: (char, char), class: (char, char), k: int, lead: int)
    requires
        res.wf(),
        is_class(class, k, lead),
    ensures
        with_class(res, range, class, k, lead).wf(),
        with_class(res, range, class, k, lead).language() == res.language().union(
            encodings(span(range).intersect(span(class))),
        ),
        res.nodes <= with_class(res, range, class, k, lead).nodes <= res.nodes + size_bound(k) + 2,
{
    reveal_with_fuel(size_bound, 4);
    lemma_char_value(class.0);
    lemma_char_value(class.1);
    lemma_char_value(range.0);
    lemma_char_value(range.1);
    let both = span(range).intersect(span(class));
    match intersection(range, class) {
        None => {
            assert(both =~= Set::<char>::empty());
            lemma_encodings_empty();
            assert(res.language().union(Set::<Seq<u8>>::empty()) =~= res.language());
        },
        Some(part) => {
            lemma_char_value(part.0);
            lemma_char_value(part.1);
            assert(span(part) =~= both);
            lemma_spellings_encodings(part, class, k, lead);
            lemma_numbers(part.0 as int, part.1 as int, k, lead);
            let u = numbers(part.0 as int, part.1 as int, k, lead);
            lemma_union_wf(res, u);
            lemma_union_set(res, u);
        },
    }
}

/// The fragment for one range is well formed, accepts exactly the
/// encodings of the characters of the range, and has at most 512 nodes.
pub proof fn lemma_for_range(r: (char, char))
    ensures
        for_range(r).wf(),
        for_range(r).language() == encodings(span(r)),
        for_range(r).nodes <= 512,
{
    reveal_with_fuel(size_bound, 4);
    reveal(for_range);
    let all = span(r);
    let c1 = all.intersect(span(('\u{0}', '\u{7f}')));
    let c2 = all.intersect(span(('\u{80}', '\u{7ff}')));
    let c3 = all.intersect(span(('\u{800}', '\u{d7ff}')));
    let c4 = all.intersect(span(('\u{e000}', '\u{ffff}')));
    let c5 = all.intersect(span(('\u{10000}', '\u{10ffff}')));
    let one = with_class(nothing(), r, ('\u{0}', '\u{7f}'), 1, 0);
    let two = with_class(one, r, ('\u{80}', '\u{7ff}'), 2, 0xc0);
    let low = with_class(two, r, ('\u{800}', '\u{d7ff}'), 3, 0xe0);
    let high = with_class(low, r, ('\u{e000}', '\u{ffff}'), 3, 0xe0);
    lemma_nothing();
    lemma_with_class(nothing(), r, ('\u{0}', '\u{7f}'), 1, 0);
    lemma_with_class(one, r, ('\u{80}', '\u{7ff}'), 2, 0xc0);
    lemma_with_class(two, r, ('\u{800}', '\u{d7ff}'), 3, 0xe0);
    lemma_with_class(low, r, ('\u{e000}', '\u{ffff}'), 3, 0xe0);
    lemma_with_class(high, r, ('\u{10000}', '\u{10ffff}'), 4, 0xf0);
    assert(one.language() =~= encodings(c1));
    lemma_encodings_union(c1, c2);
    lemma_encodings_union(c1.union(c2), c3);
    lemma_encodings_union(c1.union(c2).union(c3), c4);
    lemma_encodings_union(c1.union(c2).union(c3).union(c4), c5);
    assert forall|c: char| all.contains(c) implies c1.union(c2).union(c3).union(c4).union(
        c5,
    ).contains(c) by {
        lemma_char_value(c);
    }
    assert(c1.union(c2).union(c3).union(c4).union(c5) =~= all);
}

/// The fragment for a list of ranges is well formed, accepts exactly the
/// encodings of the characters of the ranges, and has at most 514 nodes
/// for each range, and two.
pub proof fn lemma_for_ranges(rs: Seq<(char, char)>)
    ensures
        for_ranges(rs).wf(),
        for_ranges(rs).language() == encodings(spans(rs)),
        for_ranges(rs).nodes <= 2 + 514 * rs.len(),
    decreases rs.len(),
{
    if rs.len() == 0 {
        lemma_nothing();
        lemma_encodings_empty();
        assert(spans(rs) =~= Set::<char>::empty());
    } else {
        let init = rs.drop_last();
        lemma_for_ranges(init);
        lemma_for_range(rs.last());
        lemma_union_wf(for_ranges(init), for_range(rs.last()));
        lemma_union_set(for_ranges(init), for_range(rs.last()));
        assert(rs =~= init.push(rs.last()));
        lemma_spans_push(init, rs.last());
        lemma_encodings_union(spans(init), span(rs.last()));
    }
}

/// 64 to the `k`.
fn place_of(k: u32) -> (m: u32)
    requires
        k <= 3,
    ensures
        m == place(k as int),
{
    if k == 0 {
        1
    } else if k == 1 {
        64
    } else if k == 2 {
        4096
    } else {
        262144
    }
}

/// The fragment that reads one byte from `lead + a` to `lead + b`,
/// followed by `rest`.
fn chain(lead: u8, a: u32, b: u32, rest: &UTnfa) -> (r: UTnfa)
    requires
        a <= b,
        lead + b <= 255,
        rest.wf(),
        rest@.nodes + 2 <= usize::MAX,
    ensures
        r.wf(),
        r@ == chained(lead as int, a as int, b as int, rest@),
{
    let first: u8 = lead + (a as u8);
    let last: u8 = lead + (b as u8);
    let mut r = UTnfa::charset(Charset::from_range((first, last)));
    r.concat(rest);
    r
}

/// Creates the fragment that reads the `k` bytes of any number from `lo`
/// to `hi`.
pub fn spelled_range(lo: u32, hi: u32, k: u32, lead: u8) -> (r: UTnfa)
    requires
        1 <= k <= 4,
        lo <= hi,
        lead + (hi as int) / place(k - 1) <= 255,
    ensures
        r@ == numbers(lo as int, hi as int, k as int, lead as int),
        r.wf(),
        r@.language() == spellings(lo as int, hi as int, k as int, lead as int),
        r@.nodes <= size_bound(k as int),
    decreases k,
{
    proof {
        reveal_with_fuel(size_bound, 4);
        lemma_numbers(lo as int, hi as int, k as int, lead as int);
    }
    if k == 1 {
        assert((hi as int) / 1 == hi);
        let first: u8 = lead + (lo as u8);
        let last: u8 = lead + (hi as u8);
        return UTnfa::charset(Charset::from_range((first, last)));
    }
    let m = place_of(k - 1);
    let a = lo / m;
    let b = hi / m;
    let lr = lo % m;
    let hr = hi % m;
    proof {
        assert(m == 64 || m == 4096 || m == 262144);
        lemma_digits(lo as int, m as int);
        lemma_digits(hi as int, m as int);
        lemma_rest_fits(hr as int, k as int);
        lemma_rest_fits(m - 1, k as int);
    }
    if a == b || (lr == 0 && hr == m - 1) {
        let rest = spelled_range(lr, hr, k - 1, 0x80);
        chain(lead, a, b, &rest)
    } else {
        let rest = spelled_range(lr, m - 1, k - 1, 0x80);
        let mut r = chain(lead, a, a, &rest);
        proof {
            lemma_chained(lead as int, a as int, a as int, rest@);
        }
        if a + 1 < b {
            let rest = spelled_range(0, m - 1, k - 1, 0x80);
            let between = chain(lead, a + 1, b - 1, &rest);
            proof {
                lemma_chained(lead as int, a + 1, b - 1, rest@);
                lemma_union_wf(r@, between@);
            }
            r.union(&between);
        }
        let rest = spelled_range(0, hr, k - 1, 0x80);
        let greatest = chain(lead, b, b, &rest);
        proof {
            lemma_chained(lead as int, b as int, b as int, rest@);
        }
        r.union(&greatest);
        r
    }
}

/// Adds to `res` what `range` holds of one class of characters.
fn add_class(res: &mut UTnfa, range: (char, char), class: (char, char), k: u32, lead: u8)
    requires
        old(res).wf(),
        is_class(class, k as int, lead as int),
        old(res)@.nodes + size_bound(k as int) + 2 <= usize::MAX,
    ensures
        final(res).wf(),
        final(res)@ == with_class(old(res)@, range, class, k as int, lead as int),
{
    proof {
        reveal_with_fuel(size_bound, 4);
    }
    match intersect_ranges(range, class) {
        None => {},
        Some(part) => {
            proof {
                lemma_char_value(part.0);
                lemma_char_value(part.1);
                lemma_char_value(class.0);
                lemma_char_value(class.1);
                lemma_char_value(range.0);
                lemma_char_value(range.1);
            }
            let u = spelled_range(part.0 as u32, part.1 as u32, k, lead);
            res.union(&u);
        },
    }
}

/// Creates UTnfa from character range: the range is split by the length
/// of the encoding, a fragment is made for each part, and the fragments
/// are united.
pub fn multibyte_range(a: char, b: char) -> (r: UTnfa)
    ensures
        r@ == for_range((a, b)),
        r.wf(),
        r@.language() == encodings(span((a, b))),
        r@.nodes <= 512,
{
    let mut res = UTnfa::charset(Charset::empty());
    proof {
        reveal_with_fuel(size_bound, 4);
        reveal(for_range);
        lemma_for_range((a, b));
        lemma_nothing();
        let one = with_class(nothing(), (a, b), ('\u{0}', '\u{7f}'), 1, 0);
        let two = with_class(one, (a, b), ('\u{80}', '\u{7ff}'), 2, 0xc0);
        let low = with_class(two, (a, b), ('\u{800}', '\u{d7ff}'), 3, 0xe0);
        let high = with_class(low, (a, b), ('\u{e000}', '\u{ffff}'), 3, 0xe0);
        lemma_with_class(nothing(), (a, b), ('\u{0}', '\u{7f}'), 1, 0);
        lemma_with_class(one, (a, b), ('\u{80}', '\u{7ff}'), 2, 0xc0);
        lemma_with_class(two, (a, b), ('\u{800}', '\u{d7ff}'), 3, 0xe0);
        lemma_with_class(low, (a, b), ('\u{e000}', '\u{ffff}'), 3, 0xe0);
    }
    add_class(&mut res, (a, b), ('\u{0}', '\u{7f}'), 1, 0);
    add_class(&mut res, (a, b), ('\u{80}', '\u{7ff}'), 2, 0xc0);
    add_class(&mut res, (a, b), ('\u{800}', '\u{d7ff}'), 3, 0xe0);
    add_class(&mut res, (a, b), ('\u{e000}', '\u{ffff}'), 3, 0xe0);
    add_class(&mut res, (a, b), ('\u{10000}', '\u{10ffff}'), 4, 0xf0);
    res
}

} // verus!
