//! Ranges of characters: meeting two of them, and taking ranges away.
//!
//! A range is a pair `(lo, hi)` and stands for the characters from `lo` to
//! `hi`, both included; with `lo > hi` it stands for none.  Characters are
//! Unicode scalar values, so a range that reaches across the surrogate
//! block simply has no members there.

use vstd::prelude::*;

verus! {

/// A character is its scalar value: below the surrogate block or above
/// it, and no greater than `U+10FFFF`.
pub proof fn lemma_char_value(c: char)
    ensures
        (c as u32) as int == c as int,
        0 <= c as int <= 0x10ffff,
        !(0xd800 <= c as int <= 0xdfff),
{
}

/// The characters of one range.
pub open spec fn span(r: (char, char)) -> Set<char> {
    Set::new(|c: char| r.0 <= c <= r.1)
}

/// The characters of a list of ranges.
pub open spec fn spans(rs: Seq<(char, char)>) -> Set<char> {
    Set::new(|c: char| exists|i: int| 0 <= i < rs.len() && span(#[trigger] rs[i]).contains(c))
}

/// No range is empty, and each lies wholly before the next.
pub open spec fn ordered(rs: Seq<(char, char)>) -> bool {
    &&& forall|i: int| 0 <= i < rs.len() ==> (#[trigger] rs[i]).0 <= rs[i].1
    &&& forall|i: int, j: int| 0 <= i < j < rs.len() ==> (#[trigger] rs[i]).1 < (#[trigger] rs[j]).0
}

/// The range that two ranges share, if they share a character.
pub open spec fn intersection(a: (char, char), b: (char, char)) -> Option<(char, char)> {
    let lo = if a.0 >= b.0 {
        a.0
    } else {
        b.0
    };
    let hi = if a.1 <= b.1 {
        a.1
    } else {
        b.1
    };
    if lo > hi {
        None
    } else {
        Some((lo, hi))
    }
}

/// The character just before `c`; the surrogate block is stepped over.
pub open spec fn before(c: char) -> char {
    if c == '\u{e000}' {
        '\u{d7ff}'
    } else {
        (c as u32 - 1) as char
    }
}

/// The character just after `c`; the surrogate block is stepped over.
pub open spec fn after(c: char) -> char {
    if c == '\u{d7ff}' {
        '\u{e000}'
    } else {
        (c as u32 + 1) as char
    }
}

/// What is left of `whole` once `s` is taken away: `whole` itself where the
/// two do not meet, else the part below `s` and the part above it, as far
/// as there is one.
pub open spec fn remainder(whole: (char, char), s: (char, char)) -> Seq<(char, char)> {
    match intersection(whole, s) {
        None => seq![whole],
        Some(x) => {
            let below = if whole.0 < x.0 {
                seq![(whole.0, before(x.0))]
            } else {
                Seq::empty()
            };
            let above = if whole.1 > x.1 {
                seq![(after(x.1), whole.1)]
            } else {
                Seq::empty()
            };
            below + above
        },
    }
}

/// The list `a` with `s` taken away from each of its ranges, in order.
pub open spec fn subtracted_one(a: Seq<(char, char)>, s: (char, char)) -> Seq<(char, char)>
    decreases a.len(),
{
    if a.len() == 0 {
        Seq::empty()
    } else {
        subtracted_one(a.drop_last(), s) + remainder(a.last(), s)
    }
}

/// The list `a` with the ranges of `sub` taken away one after the other.
pub open spec fn subtracted(a: Seq<(char, char)>, sub: Seq<(char, char)>) -> Seq<(char, char)>
    decreases sub.len(),
{
    if sub.len() == 0 {
        a
    } else {
        subtracted_one(subtracted(a, sub.drop_last()), sub.last())
    }
}

/// Some range of `a` holds `s` strictly inside: it begins before `s` and
/// ends after it.
pub open spec fn splits(a: Seq<(char, char)>, s: (char, char)) -> bool {
    exists|i: int| 0 <= i < a.len() && (#[trigger] a[i]).0 < s.0 && s.0 <= s.1 && s.1 < a[i].1
}

/// Taking `s` away from one range leaves exactly the characters of the
/// range that are not in `s`, in at most two pieces that lie inside the
/// range, in order.
pub proof fn lemma_remainder(whole: (char, char), s: (char, char))
    ensures
        spans(remainder(whole, s)) == span(whole).difference(span(s)),
        forall|k: int|
            0 <= k < remainder(whole, s).len() ==> whole.0 <= (#[trigger] remainder(whole, s)[k]).0
                && remainder(whole, s)[k].1 <= whole.1,
        whole.0 <= whole.1 ==> ordered(remainder(whole, s)),
        remainder(whole, s).len() <= 2,
        remainder(whole, s).len() == 2 ==> whole.0 < s.0 && s.0 <= s.1 && s.1 < whole.1,
        whole.0 <= whole.1 && whole == s ==> remainder(whole, s).len() == 0,
{
    lemma_char_value(whole.0);
    lemma_char_value(whole.1);
    lemma_char_value(s.0);
    lemma_char_value(s.1);
    let r = remainder(whole, s);
    let want = span(whole).difference(span(s));
    match intersection(whole, s) {
        None => {
            assert(r[0] == whole);
            assert forall|c: char| spans(r).contains(c) <==> want.contains(c) by {
                lemma_char_value(c);
                if want.contains(c) {
                    assert(span(r[0]).contains(c));
                }
            }
        },
        Some(x) => {
            lemma_char_value(x.0);
            lemma_char_value(x.1);
            let below = if whole.0 < x.0 {
                seq![(whole.0, before(x.0))]
            } else {
                Seq::empty()
            };
            let above = if whole.1 > x.1 {
                seq![(after(x.1), whole.1)]
            } else {
                Seq::empty()
            };
            assert(r == below + above);
            if whole.0 < x.0 {
                lemma_char_value(before(x.0));
                assert(r[0] == (whole.0, before(x.0)));
            }
            if whole.1 > x.1 {
                lemma_char_value(after(x.1));
                assert(r[below.len() as int] == (after(x.1), whole.1));
            }
            assert forall|c: char| spans(r).contains(c) <==> want.contains(c) by {
                lemma_char_value(c);
                if want.contains(c) {
                    if c < x.0 {
                        assert(span(r[0]).contains(c));
                    } else {
                        assert(c > x.1);
                        assert(span(r[below.len() as int]).contains(c));
                    }
                }
                if spans(r).contains(c) {
                    let i = choose|i: int| 0 <= i < r.len() && span(#[trigger] r[i]).contains(c);
                    if i < below.len() {
                        assert(r[i] == (whole.0, before(x.0)));
                    } else {
                        assert(r[i] == (after(x.1), whole.1));
                    }
                }
            }
        },
    }
    assert(spans(r) =~= want);
}

/// Taking `s` away from each range of a list leaves exactly the
/// characters of the list that are not in `s`.  Each piece lies inside
/// one range of the list.  An ordered list stays ordered and grows by at
/// most one range, the one that `s` cuts in two.
pub proof fn lemma_subtracted_one(a: Seq<(char, char)>, s: (char, char))
    ensures
        spans(subtracted_one(a, s)) == spans(a).difference(span(s)),
        forall|k: int|
            0 <= k < subtracted_one(a, s).len() ==> exists|i: int|
                0 <= i < a.len() && (#[trigger] a[i]).0 <= (#[trigger] subtracted_one(a, s)[k]).0
                    && subtracted_one(a, s)[k].1 <= a[i].1,
        ordered(a) ==> ordered(subtracted_one(a, s)),
        ordered(a) ==> subtracted_one(a, s).len() <= a.len() + if splits(a, s) {
            1int
        } else {
            0int
        },
    decreases a.len(),
{
    let r = subtracted_one(a, s);
    let want = spans(a).difference(span(s));
    if a.len() == 0 {
        assert(spans(r) =~= want);
    } else {
        let init = a.drop_last();
        let head = subtracted_one(init, s);
        let tail = remainder(a.last(), s);
        let n = a.len() - 1;
        lemma_subtracted_one(init, s);
        lemma_remainder(a.last(), s);
        assert(r == head + tail);
        assert forall|c: char| spans(r).contains(c) <==> want.contains(c) by {
            if spans(r).contains(c) {
                let k = choose|k: int| 0 <= k < r.len() && span(#[trigger] r[k]).contains(c);
                if k < head.len() {
                    assert(head[k] == r[k]);
                    assert(spans(head).contains(c));
                    let i = choose|i: int| 0 <= i < init.len() && span(#[trigger] init[i]).contains(c);
                    assert(a[i] == init[i]);
                } else {
                    assert(tail[k - head.len()] == r[k]);
                    assert(spans(tail).contains(c));
                    assert(span(a[n]).contains(c));
                }
            }
            if want.contains(c) {
                let i = choose|i: int| 0 <= i < a.len() && span(#[trigger] a[i]).contains(c);
                if i < n {
                    assert(init[i] == a[i]);
                    assert(spans(init).contains(c));
                    assert(spans(head).contains(c));
                    let k = choose|k: int| 0 <= k < head.len() && span(#[trigger] head[k]).contains(c);
                    assert(r[k] == head[k]);
                } else {
                    assert(span(a.last()).difference(span(s)).contains(c));
                    assert(spans(tail).contains(c));
                    let k = choose|k: int| 0 <= k < tail.len() && span(#[trigger] tail[k]).contains(c);
                    assert(r[head.len() + k] == tail[k]);
                }
            }
        }
        assert(spans(r) =~= want);
        assert forall|k: int| 0 <= k < r.len() implies exists|i: int|
            0 <= i < a.len() && (#[trigger] a[i]).0 <= (#[trigger] r[k]).0 && r[k].1 <= a[i].1 by {
            if k < head.len() {
                assert(head[k] == r[k]);
                let i = choose|i: int|
                    0 <= i < init.len() && (#[trigger] init[i]).0 <= head[k].0 && head[k].1
                        <= init[i].1;
                assert(a[i] == init[i]);
            } else {
                assert(tail[k - head.len()] == r[k]);
                assert(a[n].0 <= r[k].0 && r[k].1 <= a[n].1);
            }
        }
        if ordered(a) {
            assert forall|i: int| 0 <= i < init.len() implies (#[trigger] init[i]).0 <= init[i].1 by {
                assert(init[i] == a[i]);
            }
            assert forall|i: int, j: int| 0 <= i < j < init.len() implies (#[trigger] init[i]).1 < (
            #[trigger] init[j]).0 by {
                assert(init[i] == a[i] && init[j] == a[j]);
            }
            assert(ordered(init));
            assert(a[n].0 <= a[n].1);
            assert forall|k: int| 0 <= k < r.len() implies (#[trigger] r[k]).0 <= r[k].1 by {
                if k < head.len() {
                    assert(head[k] == r[k]);
                } else {
                    assert(tail[k - head.len()] == r[k]);
                }
            }
            assert forall|k: int, l: int| 0 <= k < l < r.len() implies (#[trigger] r[k]).1 < (
            #[trigger] r[l]).0 by {
                if l < head.len() {
                    assert(head[k] == r[k] && head[l] == r[l]);
                } else if k < head.len() {
                    assert(head[k] == r[k]);
                    assert(tail[l - head.len()] == r[l]);
                    let i = choose|i: int|
                        0 <= i < init.len() && (#[trigger] init[i]).0 <= head[k].0 && head[k].1
                            <= init[i].1;
                    assert(a[i] == init[i]);
                    assert(a[i].1 < a[n].0);
                } else {
                    assert(tail[k - head.len()] == r[k]);
                    assert(tail[l - head.len()] == r[l]);
                }
            }
            if tail.len() == 2 {
                if splits(init, s) {
                    let i = choose|i: int|
                        0 <= i < init.len() && (#[trigger] init[i]).0 < s.0 && s.0 <= s.1 && s.1
                            < init[i].1;
                    assert(a[i] == init[i]);
                    assert(a[i].1 < a[n].0);
                    assert(false);
                }
                assert(a[n].0 < s.0 && s.0 <= s.1 && s.1 < a[n].1);
                assert(splits(a, s));
            } else if splits(init, s) {
                let i = choose|i: int|
                    0 <= i < init.len() && (#[trigger] init[i]).0 < s.0 && s.0 <= s.1 && s.1
                        < init[i].1;
                assert(a[i] == init[i]);
                assert(splits(a, s));
            }
        }
    }
}

/// Taking a list of ranges away leaves exactly the characters that are in
/// the first list and in no range of the second.  An ordered list stays
/// ordered and grows by at most one range for each range taken away.
pub proof fn lemma_subtracted(a: Seq<(char, char)>, sub: Seq<(char, char)>)
    ensures
        spans(subtracted(a, sub)) == spans(a).difference(spans(sub)),
        ordered(a) ==> ordered(subtracted(a, sub)),
        ordered(a) ==> subtracted(a, sub).len() <= a.len() + sub.len(),
    decreases sub.len(),
{
    let r = subtracted(a, sub);
    let want = spans(a).difference(spans(sub));
    if sub.len() == 0 {
        assert(spans(r) =~= want);
    } else {
        let init = sub.drop_last();
        let s = sub.last();
        let mid = subtracted(a, init);
        lemma_subtracted(a, init);
        lemma_subtracted_one(mid, s);
        assert forall|c: char| spans(sub).contains(c) <==> (spans(init).contains(c) || span(
            s,
        ).contains(c)) by {
            if spans(sub).contains(c) {
                let i = choose|i: int| 0 <= i < sub.len() && span(#[trigger] sub[i]).contains(c);
                if i < init.len() {
                    assert(init[i] == sub[i]);
                }
            }
            if spans(init).contains(c) {
                let i = choose|i: int| 0 <= i < init.len() && span(#[trigger] init[i]).contains(c);
                assert(sub[i] == init[i]);
            }
            if span(s).contains(c) {
                assert(sub[sub.len() - 1] == s);
            }
        }
        assert(spans(r) =~= want);
    }
}

/// Taking a range that is not empty away from itself leaves nothing.
pub proof fn lemma_subtracted_whole(r: (char, char))
    requires
        r.0 <= r.1,
    ensures
        subtracted(seq![r], seq![r]) == Seq::<(char, char)>::empty(),
{
    let one = seq![r];
    lemma_remainder(r, r);
    assert(one.drop_last() =~= Seq::empty());
    assert(subtracted(one, one.drop_last()) == one);
    assert(subtracted_one(one.drop_last(), r) =~= Seq::empty());
    assert(subtracted_one(one, r) =~= remainder(r, r));
    assert(remainder(r, r) =~= Seq::empty());
}

/// One more range adds its characters.
pub proof fn lemma_spans_push(rs: Seq<(char, char)>, r: (char, char))
    ensures
        spans(rs.push(r)) == spans(rs).union(span(r)),
{
    let more = rs.push(r);
    assert forall|c: char| spans(more).contains(c) <==> spans(rs).union(span(r)).contains(c) by {
        if spans(more).contains(c) {
            let i = choose|i: int| 0 <= i < more.len() && span(#[trigger] more[i]).contains(c);
            if i < rs.len() {
                assert(rs[i] == more[i]);
            }
        }
        if spans(rs).contains(c) {
            let i = choose|i: int| 0 <= i < rs.len() && span(#[trigger] rs[i]).contains(c);
            assert(more[i] == rs[i]);
        }
        if span(r).contains(c) {
            assert(more[rs.len() as int] == r);
        }
    }
    assert(spans(more) =~= spans(rs).union(span(r)));
}

/// The four ranges of characters whose encodings have one, two, three
/// and four bytes.
pub open spec fn whole() -> Seq<(char, char)> {
    seq![
        ('\u{0}', '\u{7f}'),
        ('\u{80}', '\u{7ff}'),
        ('\u{800}', '\u{ffff}'),
        ('\u{10000}', '\u{10ffff}'),
    ]
}

/// The four ranges are in order and hold every character.
pub proof fn lemma_whole()
    ensures
        ordered(whole()),
        spans(whole()) == Set::<char>::full(),
{
    let w = whole();
    assert forall|c: char| spans(w).contains(c) by {
        lemma_char_value(c);
        if c <= '\u{7f}' {
            assert(span(w[0]).contains(c));
        } else if c <= '\u{7ff}' {
            assert(span(w[1]).contains(c));
        } else if c <= '\u{ffff}' {
            assert(span(w[2]).contains(c));
        } else {
            assert(span(w[3]).contains(c));
        }
    }
    assert(spans(w) =~= Set::<char>::full());
}

/// `char::from_u32`: the character with the given scalar value, or `None`
/// where the value is a surrogate or lies above `U+10FFFF`.
#[verifier::external_body]
fn char_from_u32(v: u32) -> (r: Option<char>)
    ensures
        r == if v <= 0xd7ff || (0xe000 <= v && v <= 0x10ffff) {
            Some(v as char)
        } else {
            None::<char>
        },
{
    char::from_u32(v)
}

/// The character just before `c`.
fn char_before(c: char) -> (r: char)
    requires
        c as u32 > 0,
    ensures
        r == before(c),
        r < c,
{
    if c == '\u{e000}' {
        '\u{d7ff}'
    } else {
        match char_from_u32(c as u32 - 1) {
            Some(r) => r,
            None => c,
        }
    }
}

/// The character just after `c`.
fn char_after(c: char) -> (r: char)
    requires
        (c as u32) < 0x10ffff,
    ensures
        r == after(c),
        r > c,
{
    if c == '\u{d7ff}' {
        '\u{e000}'
    } else {
        match char_from_u32(c as u32 + 1) {
            Some(r) => r,
            None => c,
        }
    }
}

/// Calculates intersection between 2 character ranges
/// If it the result is empty `None` is returned
pub fn intersect_ranges(a: (char, char), b: (char, char)) -> (r: Option<(char, char)>)
    ensures
        r == intersection(a, b),
        match r {
            Some(x) => span(x) == span(a).intersect(span(b)) && x.0 <= x.1,
            None => span(a).intersect(span(b)) == Set::<char>::empty(),
        },
{
    let lo = if a.0 >= b.0 {
        a.0
    } else {
        b.0
    };
    let hi = if a.1 <= b.1 {
        a.1
    } else {
        b.1
    };
    if lo > hi {
        assert(span(a).intersect(span(b)) =~= Set::<char>::empty());
        None
    } else {
        assert(span((lo, hi)) =~= span(a).intersect(span(b)));
        Some((lo, hi))
    }
}

/// Takes `s` away from the single range `whole`, appending what is left to `out`.
fn subtract_from(whole: (char, char), s: (char, char), out: &mut Vec<(char, char)>)
    ensures
        final(out)@ == old(out)@ + remainder(whole, s),
{
    proof {
        lemma_char_value(whole.0);
        lemma_char_value(whole.1);
        lemma_char_value(s.0);
        lemma_char_value(s.1);
    }
    match intersect_ranges(whole, s) {
        None => {
            out.push(whole);
            assert(out@ =~= old(out)@ + remainder(whole, s));
        },
        Some(x) => {
            if whole.0 < x.0 {
                let top = char_before(x.0);
                out.push((whole.0, top));
            }
            if whole.1 > x.1 {
                let bottom = char_after(x.1);
                out.push((bottom, whole.1));
            }
            assert(out@ =~= old(out)@ + remainder(whole, s));
        },
    }
}

/// Subtracts ranges `sub` from the ranges `a` and returns resulting list of ranges
pub fn subtract_ranges(a: &[(char, char)], sub: &[(char, char)]) -> (r: Vec<(char, char)>)
    ensures
        r@ == subtracted(a@, sub@),
{
    let mut current: Vec<(char, char)> = Vec::new();
    let mut k: usize = 0;
    while k < a.len()
        invariant
            k <= a.len(),
            current@ == a@.take(k as int),
        decreases a.len() - k,
    {
        current.push(a[k]);
        assert(current@ =~= a@.take(k as int + 1));
        k += 1;
    }
    assert(a@.take(a.len() as int) =~= a@);
    let mut i: usize = 0;
    while i < sub.len()
        invariant
            i <= sub.len(),
            current@ == subtracted(a@, sub@.take(i as int)),
        decreases sub.len() - i,
    {
        let s = sub[i];
        let mut next: Vec<(char, char)> = Vec::new();
        let mut j: usize = 0;
        while j < current.len()
            invariant
                j <= current.len(),
                next@ == subtracted_one(current@.take(j as int), s),
            decreases current.len() - j,
        {
            proof {
                let upto = current@.take(j as int + 1);
                assert(upto.drop_last() =~= current@.take(j as int));
                assert(upto.last() == current@[j as int]);
            }
            subtract_from(current[j], s, &mut next);
            j += 1;
        }
        proof {
            assert(current@.take(current.len() as int) =~= current@);
            let upto = sub@.take(i as int + 1);
            assert(upto.drop_last() =~= sub@.take(i as int));
            assert(upto.last() == s);
        }
        current = next;
        i += 1;
    }
    assert(sub@.take(sub.len() as int) =~= sub@);
    current
}

/// The four ranges of characters whose encodings have one, two, three
/// and four bytes.
pub fn utf8_ranges() -> (r: Vec<(char, char)>)
    ensures
        r@ == whole(),
{
    let mut r: Vec<(char, char)> = Vec::new();
    r.push(('\u{0}', '\u{7f}'));
    r.push(('\u{80}', '\u{7ff}'));
    r.push(('\u{800}', '\u{ffff}'));
    r.push(('\u{10000}', '\u{10ffff}'));
    assert(r@ =~= whole());
    r
}

} // verus!
