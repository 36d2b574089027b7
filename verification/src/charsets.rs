//! Sets of bytes with a lazy walk over their members, and sets of
//! characters as they are written down in a character class.

use crate::bitword::{bit_set, word_and, word_eq, word_one, word_or, word_shl, word_zero};
use crate::ranges::{
    lemma_subtracted, lemma_whole, spans, subtract_ranges, subtracted, utf8_ranges, whole,
};
use crate::utf8::{encodings, for_ranges, lemma_for_ranges, multibyte_range};
use crate::utnfa::{Nfa, UTnfa};
use primitive_types::U256;
use vstd::prelude::*;

verus! {

/// The bytes from `lo` to `hi`, both included; empty when `lo > hi`.
pub open spec fn byte_range(lo: u8, hi: u8) -> Set<u8> {
    Set::new(|b: u8| lo <= b <= hi)
}

/// The members of `s` that are at least `from`, in ascending order.
pub open spec fn listing(s: Set<u8>, from: int) -> Seq<u8>
    decreases 256 - from,
{
    if from < 0 || from >= 256 {
        Seq::empty()
    } else if s.contains(from as u8) {
        seq![from as u8] + listing(s, from + 1)
    } else {
        listing(s, from + 1)
    }
}

/// What [`listing`] is: it holds exactly the members of `s` from `from`
/// on, and it is strictly ascending.
pub proof fn lemma_listing(s: Set<u8>, from: int)
    requires
        0 <= from,
    ensures
        forall|b: u8| listing(s, from).contains(b) <==> (s.contains(b) && b >= from),
        forall|i: int, j: int|
            0 <= i < j < listing(s, from).len() ==> listing(s, from)[i] < listing(s, from)[j],
        forall|i: int| 0 <= i < listing(s, from).len() ==> listing(s, from)[i] >= from,
    decreases 256 - from,
{
    let l = listing(s, from);
    if from >= 256 {
        assert(l.len() == 0);
    } else {
        lemma_listing(s, from + 1);
        let rest = listing(s, from + 1);
        if s.contains(from as u8) {
            assert(l == seq![from as u8] + rest);
            assert(l[0] == from as u8);
            assert forall|i: int| 1 <= i < l.len() implies l[i] == rest[i - 1] by {}
            assert forall|b: u8| l.contains(b) <==> (s.contains(b) && b >= from) by {
                if l.contains(b) {
                    let i = choose|i: int| 0 <= i < l.len() && l[i] == b;
                    if i > 0 {
                        assert(rest[i - 1] == b);
                        assert(rest.contains(b));
                    }
                }
                if s.contains(b) && b >= from {
                    if b == from {
                        assert(l[0] == b);
                    } else {
                        assert(rest.contains(b));
                        let i = choose|i: int| 0 <= i < rest.len() && rest[i] == b;
                        assert(l[i + 1] == b);
                    }
                }
            }
            assert forall|i: int, j: int| 0 <= i < j < l.len() implies l[i] < l[j] by {
                if i > 0 {
                    assert(rest[i - 1] < rest[j - 1]);
                } else {
                    assert(rest[j - 1] >= from + 1);
                }
            }
        } else {
            assert(l == rest);
            assert forall|b: u8| l.contains(b) <==> (s.contains(b) && b >= from) by {}
        }
    }
}

/// A full byte range lists every byte from `from` on once, in order.
proof fn lemma_listing_full(from: int)
    requires
        0 <= from <= 256,
    ensures
        listing(byte_range(0, 255), from) == Seq::new((256 - from) as nat, |i: int| (from + i) as u8),
    decreases 256 - from,
{
    let s = byte_range(0, 255);
    let want = Seq::new((256 - from) as nat, |i: int| (from + i) as u8);
    if from < 256 {
        lemma_listing_full(from + 1);
        assert(s.contains(from as u8));
        assert(listing(s, from) =~= want);
    } else {
        assert(listing(s, from) =~= want);
    }
}

/// Every byte, listed from a full set: all 256 of them, in ascending
/// order.
pub proof fn lemma_full_listing()
    ensures
        listing(byte_range(0, 255), 0) == Seq::new(256, |i: int| i as u8),
{
    lemma_listing_full(0);
}

/// The walk over a set and the membership test agree: a byte is listed
/// exactly when it is a member.
pub proof fn lemma_iter_contains(c: Charset, b: u8)
    ensures
        listing(c@, 0).contains(b) <==> c@.contains(b),
{
    lemma_listing(c@, 0);
}

/// The union of charsets does not depend on the order of the two.
pub proof fn lemma_union_commutative(a: Charset, b: Charset)
    ensures
        a@.union(b@) == b@.union(a@),
{
    assert(a@.union(b@) =~= b@.union(a@));
}

/// The union of three charsets does not depend on which two are united
/// first.
pub proof fn lemma_union_associative(a: Charset, b: Charset, c: Charset)
    ensures
        a@.union(b@).union(c@) == a@.union(b@.union(c@)),
{
    assert(a@.union(b@).union(c@) =~= a@.union(b@.union(c@)));
}

/// The union of a charset with itself is that charset.
pub proof fn lemma_union_idempotent(a: Charset)
    ensures
        a@.union(a@) == a@,
{
    assert(a@.union(a@) =~= a@);
}

/// How one byte is written out: printable ASCII as itself, anything else
/// as `\x` and two lower-case hexadecimal digits.
pub open spec fn rendered_byte(b: u8) -> Seq<char> {
    if 0x20 <= b < 0x7f {
        seq![b as char]
    } else {
        seq!['\\', 'x', hex_digit(b / 16), hex_digit(b % 16)]
    }
}

/// The lower-case hexadecimal digit for a value below 16.
pub open spec fn hex_digit(n: u8) -> char {
    if n < 10 {
        (0x30 + n) as char
    } else {
        (0x61 + n - 10) as char
    }
}

/// The bytes of `bytes` written out one after the other.
pub open spec fn rendered(bytes: Seq<u8>) -> Seq<char>
    decreases bytes.len(),
{
    if bytes.len() == 0 {
        Seq::empty()
    } else {
        rendered(bytes.drop_last()) + rendered_byte(bytes.last())
    }
}

/// Set of single-byte characters, including `'\u{80}'..'\u{ff}'`.
/// Multi-byte character can be represented as `Utf8Charset`
#[derive(Clone, Copy, Debug)]
pub struct Charset {
    c: U256,
}

impl View for Charset {
    type V = Set<u8>;

    closed spec fn view(&self) -> Set<u8> {
        bit_set(self.c)
    }
}

impl Charset {
    /// Creates an empty charset
    pub fn empty() -> (s: Self)
        ensures
            s@ == Set::<u8>::empty(),
    {
        Self { c: word_zero() }
    }

    /// Creates a charset, that contains character `c`
    pub fn from_char(c: u8) -> (s: Self)
        ensures
            s@ == Set::<u8>::empty().insert(c),
    {
        let s = Self::from_range((c, c));
        assert(s@ =~= Set::<u8>::empty().insert(c));
        s
    }

    /// Creates a charset, that contains all characters within `r.0..=r.1`
    pub fn from_range(r: (u8, u8)) -> (s: Self)
        ensures
            s@ == byte_range(r.0, r.1),
    {
        let mut s = Self::empty();
        if r.0 > r.1 {
            assert(s@ =~= byte_range(r.0, r.1));
            return s;
        }
        let mut c: u8 = r.0;
        loop
            invariant_except_break
                r.0 <= c <= r.1,
                s@ == Set::<u8>::new(|b: u8| r.0 <= b < c),
            ensures
                s@ == byte_range(r.0, r.1),
            decreases r.1 - c,
        {
            let bit = word_shl(word_one(), c);
            assert(bit_set(bit) =~= Set::<u8>::empty().insert(c));
            let ghost before = s@;
            s.c = word_or(s.c, bit);
            assert(s@ =~= before.insert(c));
            if c == r.1 {
                assert(s@ =~= byte_range(r.0, r.1));
                break ;
            }
            c += 1;
            assert(s@ =~= Set::<u8>::new(|b: u8| r.0 <= b < c));
        }
        s
    }

    /// Returns iterator over all chars, contained within charset
    pub fn iter(&self) -> (it: CharsetIter)
        ensures
            it.set() == self@,
            it.position() == 0,
    {
        CharsetIter { c: *self, i: 0 }
    }

    /// Returns `true` if `self` contains char `c`
    pub fn contains(&self, c: u8) -> (r: bool)
        ensures
            r == self@.contains(c),
    {
        let mask = word_shl(word_one(), c);
        let hit = word_and(self.c, mask);
        let none = word_zero();
        proof {
            assert(bit_set(mask) =~= Set::<u8>::empty().insert(c));
            if self@.contains(c) {
                assert(bit_set(hit).contains(c));
            } else {
                assert(bit_set(hit) =~= Set::<u8>::empty());
            }
        }
        !word_eq(&hit, &none)
    }

    /// Writes the members out in ascending order: printable ASCII as
    /// itself, every other byte as `\x` and two hexadecimal digits.
    pub fn to_string(&self) -> (out: String)
        ensures
            out@ == rendered(listing(self@, 0)),
    {
        let members = self.iter().collect();
        let mut out = String::new();
        let mut k: usize = 0;
        while k < members.len()
            invariant
                k <= members.len(),
                out@ == rendered(members@.take(k as int)),
            decreases members.len() - k,
        {
            let b = members[k];
            proof {
                let upto = members@.take(k as int + 1);
                assert(upto.drop_last() =~= members@.take(k as int));
                assert(upto.last() == b);
            }
            if 0x20 <= b && b < 0x7f {
                push_char(&mut out, b as char);
            } else {
                push_char(&mut out, '\\');
                push_char(&mut out, 'x');
                push_char(&mut out, hex_digit_of(b / 16));
                push_char(&mut out, hex_digit_of(b % 16));
            }
            assert(out@ =~= rendered(members@.take(k as int)) + rendered_byte(b));
            k += 1;
        }
        assert(members@.take(members.len() as int) =~= members@);
        out
    }
}

/// The lower-case hexadecimal digit for a value below 16.
fn hex_digit_of(n: u8) -> (d: char)
    requires
        n < 16,
    ensures
        d == hex_digit(n),
{
    if n < 10 {
        (0x30 + n) as char
    } else {
        (0x61 + n - 10) as char
    }
}

/// `String::push`: appends one character.
#[verifier::external_body]
fn push_char(s: &mut String, c: char)
    ensures
        final(s)@ == old(s)@.push(c),
{
    s.push(c);
}

impl PartialEq for Charset {
    fn eq(&self, other: &Self) -> (r: bool) {
        word_eq(&self.c, &other.c)
    }
}

impl vstd::std_specs::cmp::PartialEqSpecImpl for Charset {
    open spec fn obeys_eq_spec() -> bool {
        true
    }

    open spec fn eq_spec(&self, other: &Self) -> bool {
        self@ == other@
    }
}

impl core::ops::BitOr for Charset {
    type Output = Charset;

    /// The union of two charsets.
    fn bitor(self, rhs: Charset) -> (r: Charset)
        ensures
            r@ == self@.union(rhs@),
    {
        Charset { c: word_or(self.c, rhs.c) }
    }
}

impl vstd::std_specs::ops::BitOrSpecImpl for Charset {
    open spec fn obeys_bitor_spec() -> bool {
        false
    }

    open spec fn bitor_req(self, rhs: Charset) -> bool {
        true
    }

    open spec fn bitor_spec(self, rhs: Charset) -> Charset {
        self
    }
}

impl core::ops::BitOrAssign for Charset {
    fn bitor_assign(&mut self, rhs: Charset)
        ensures
            final(self)@ == old(self)@.union(rhs@),
    {
        self.c = word_or(self.c, rhs.c);
    }
}

/// A walk over the members of a charset, in ascending order.
#[derive(Clone, Copy, Debug)]
pub struct CharsetIter {
    c: Charset,
    i: usize,
}

impl CharsetIter {
    /// The set that is walked.
    pub closed spec fn set(self) -> Set<u8> {
        self.c@
    }

    /// Where the walk stands: every member below this has been handed out.
    pub closed spec fn position(self) -> int {
        self.i as int
    }

    /// The members that are still to come, in the order in which they come.
    pub open spec fn pending(self) -> Seq<u8> {
        listing(self.set(), self.position())
    }

    /// Hands out the smallest member that has not been handed out yet.
    pub fn next(&mut self) -> (r: Option<u8>)
        ensures
            final(self).set() == old(self).set(),
            match r {
                Some(b) => {
                    &&& old(self).pending() == seq![b] + final(self).pending()
                    &&& old(self).position() <= b
                    &&& final(self).position() == b + 1
                    &&& old(self).set().contains(b)
                    &&& forall|x: u8| old(self).position() <= x < b ==> !old(self).set().contains(x)
                },
                None => {
                    &&& old(self).pending() == Seq::<u8>::empty()
                    &&& final(self).pending() == Seq::<u8>::empty()
                    &&& forall|x: u8| old(self).position() <= x ==> !old(self).set().contains(x)
                },
            },
    {
        proof {
            lemma_listing(self.set(), self.position());
        }
        while self.i < 256
            invariant
                self.c == old(self).c,
                old(self).i <= self.i,
                self.pending() == old(self).pending(),
                forall|x: u8| old(self).i <= x < self.i ==> !self.c@.contains(x),
            decreases 256 - self.i,
        {
            let b = self.i as u8;
            self.i += 1;
            if self.c.contains(b) {
                return Some(b);
            }
        }
        proof {
            lemma_listing(self.set(), self.position());
            assert(self.pending() =~= Seq::<u8>::empty());
        }
        None
    }

    /// Walks to the end and returns what was still to come.
    pub fn collect(self) -> (v: Vec<u8>)
        ensures
            v@ == self.pending(),
            forall|b: u8| v@.contains(b) <==> (self.set().contains(b) && b >= self.position()),
            forall|i: int, j: int| 0 <= i < j < v@.len() ==> v@[i] < v@[j],
    {
        let mut it = self;
        let mut v: Vec<u8> = Vec::new();
        proof {
            lemma_listing(self.set(), self.position());
        }
        loop
            invariant_except_break
                it.set() == self.set(),
                v@ + it.pending() == self.pending(),
            ensures
                v@ == self.pending(),
            decreases it.pending().len(),
        {
            match it.next() {
                Some(b) => {
                    assert(v@.push(b) + it.pending() =~= v@ + (seq![b] + it.pending()));
                    v.push(b);
                },
                None => {
                    assert(v@ + Seq::<u8>::empty() =~= v@);
                    break ;
                },
            }
        }
        v
    }
}

/// A set of characters as it is written down: a list of ranges, and
/// whether the characters outside them are meant in place of those inside.
pub struct CharClass {
    /// The ranges, in the order in which they were added.
    pub ranges: Seq<(char, char)>,
    /// Whether the set is the complement of the ranges.
    pub invert: bool,
}

impl CharClass {
    /// The set is small enough for its fragment to be built: the node
    /// count of the fragment, at most 514 for each range and for each of
    /// the four more that an inversion may add, fits the machine.
    pub open spec fn fits(self) -> bool {
        (self.ranges.len() + 4) * 514 + 2 <= usize::MAX
    }

    /// The characters of the set.
    pub open spec fn members(self) -> Set<char> {
        if self.invert {
            spans(self.ranges).complement()
        } else {
            spans(self.ranges)
        }
    }

    /// The ranges that hold the characters of the set: the ranges as
    /// they were added or, for an inverted set, what is left of all
    /// characters once they are taken away.
    pub open spec fn listed(self) -> Seq<(char, char)> {
        if self.invert {
            subtracted(whole(), self.ranges)
        } else {
            self.ranges
        }
    }

    /// The fragment that is built for the set.
    pub open spec fn fragment(self) -> Nfa {
        for_ranges(self.listed())
    }
}

/// Set of utf8-characters
pub struct Utf8Charset {
    ranges: Vec<(char, char)>,
    invert: bool,
}

impl Clone for Utf8Charset {
    fn clone(&self) -> (r: Self)
        ensures
            r@ == self@,
    {
        let mut ranges: Vec<(char, char)> = Vec::new();
        let mut i: usize = 0;
        while i < self.ranges.len()
            invariant
                i <= self.ranges.len(),
                ranges@ == self.ranges@.take(i as int),
            decreases self.ranges.len() - i,
        {
            ranges.push(self.ranges[i]);
            assert(ranges@ =~= self.ranges@.take(i as int + 1));
            i += 1;
        }
        assert(ranges@ =~= self.ranges@);
        Utf8Charset { ranges, invert: self.invert }
    }
}

impl View for Utf8Charset {
    type V = CharClass;

    closed spec fn view(&self) -> CharClass {
        CharClass { ranges: self.ranges@, invert: self.invert }
    }
}

impl Utf8Charset {
    /// Creates an empty utf-8 charset
    pub fn empty() -> (s: Self)
        ensures
            s@.ranges == Seq::<(char, char)>::empty(),
            !s@.invert,
    {
        Self { ranges: Vec::new(), invert: false }
    }

    /// Inverts the charset, i.e. applies `'^'` operator
    pub fn invert(&mut self, invert: bool)
        ensures
            final(self)@.ranges == old(self)@.ranges,
            final(self)@.invert == invert,
    {
        self.invert = invert;
    }

    /// Adds char `c` to `self`
    pub fn add_char(&mut self, c: char)
        ensures
            final(self)@.ranges == old(self)@.ranges.push((c, c)),
            final(self)@.invert == old(self)@.invert,
    {
        self.add_range((c, c));
    }

    /// Adds all characters in range `range.0..=range.1` to `self`
    pub fn add_range(&mut self, range: (char, char))
        ensures
            final(self)@.ranges == old(self)@.ranges.push(range),
            final(self)@.invert == old(self)@.invert,
    {
        self.ranges.push(range);
    }

    /// Whether the set is small enough for its fragment to be built.
    pub fn fits(&self) -> (r: bool)
        ensures
            r == self@.fits(),
    {
        let most: usize = (usize::MAX - 2) / 514 - 4;
        assert(self@.fits() <==> self.ranges.len() <= most) by {
            let n = self.ranges.len() as int;
            let top = usize::MAX as int;
            assert(((n + 4) * 514 + 2 <= top) <==> (n <= (top - 2) / 514 - 4)) by (nonlinear_arith)
                requires
                    top >= 0xffff_ffff,
                    n >= 0,
            ;
        }
        self.ranges.len() <= most
    }

    /// Creates the fragment that accepts the UTF-8 encodings of the
    /// characters of the set, and nothing else.
    pub fn into(self) -> (r: UTnfa)
        requires
            self@.fits(),
        ensures
            r@ == self@.fragment(),
            r.wf(),
            r@.language() == encodings(self@.members()),
    {
        proof {
            lemma_fragment(self@);
        }
        let ranges = if self.invert {
            let all = utf8_ranges();
            subtract_ranges(all.as_slice(), self.ranges.as_slice())
        } else {
            self.ranges
        };
        assert(ranges@ == self@.listed());
        assert(ranges@.len() * 514 <= (self@.ranges.len() + 4) * 514) by (nonlinear_arith)
            requires
                ranges@.len() <= self@.ranges.len() + 4,
        ;
        let mut res = UTnfa::charset(Charset::empty());
        proof {
            lemma_for_ranges(ranges@.take(0));
        }
        let mut i: usize = 0;
        while i < ranges.len()
            invariant
                i <= ranges.len(),
                res.wf(),
                res@ == for_ranges(ranges@.take(i as int)),
                ranges.len() * 514 + 2 <= usize::MAX,
            decreases ranges.len() - i,
        {
            let range = ranges[i];
            let part = multibyte_range(range.0, range.1);
            proof {
                let upto = ranges@.take(i as int + 1);
                assert(upto.drop_last() =~= ranges@.take(i as int));
                assert(upto.last() == range);
                lemma_for_ranges(ranges@.take(i as int));
                assert(i * 514 + 514 == (i + 1) * 514) by (nonlinear_arith);
                assert((i + 1) * 514 <= ranges.len() * 514) by (nonlinear_arith)
                    requires
                        i < ranges.len(),
                ;
            }
            res.union(&part);
            i += 1;
        }
        assert(ranges@.take(ranges.len() as int) =~= ranges@);
        res
    }
}

/// The fragment of a set of characters is well formed and accepts
/// exactly the UTF-8 encodings of the characters of the set, be the set
/// inverted or not.  An inversion adds at most four ranges to the list.
pub proof fn lemma_fragment(class: CharClass)
    ensures
        class.fragment().wf(),
        class.fragment().language() == encodings(class.members()),
        spans(class.listed()) == class.members(),
        class.listed().len() <= class.ranges.len() + 4,
{
    if class.invert {
        lemma_whole();
        lemma_subtracted(whole(), class.ranges);
        assert(spans(class.listed()) =~= spans(class.ranges).complement());
    }
    lemma_for_ranges(class.listed());
}

} // verus!
