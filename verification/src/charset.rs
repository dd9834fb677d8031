//! Character sets: a bitmap for ASCII and a list of ranges above it.

use vstd::prelude::*;
use vstd::utf8::is_scalar;
use crate::types::bit_of;

verus! {

/// A set of characters: ASCII membership in a 128-bit map, every other
/// character through a list of inclusive ranges.
#[derive(Debug, Clone, PartialEq, Eq, Hash, Default)]
pub struct CharSet {
    /// Bitmap for ASCII characters (0-127).
    pub(crate) ascii: u128,
    /// Inclusive ranges for characters from U+0080 on.
    unicode_ranges: Vec<(char, char)>,
}

/// The structural view of a set: the bitmap and the list of ranges.
pub type CharSetView = (u128, Seq<(char, char)>);

impl View for CharSet {
    type V = CharSetView;

    closed spec fn view(&self) -> CharSetView {
        (self.ascii, self.unicode_ranges@)
    }
}

/// Whether `c` lies in the inclusive range `r`.
pub open spec fn in_range(r: (char, char), c: char) -> bool {
    (r.0 as u32) <= (c as u32) && (c as u32) <= (r.1 as u32)
}

/// Whether some range of `rs` holds `c`.
pub open spec fn ranges_contain(rs: Seq<(char, char)>, c: char) -> bool {
    exists|i: int| 0 <= i < rs.len() && in_range(#[trigger] rs[i], c)
}

/// Membership in a set given by its view: ASCII through the bitmap,
/// everything else through the ranges.
pub open spec fn view_contains(v: CharSetView, c: char) -> bool {
    if (c as u32) < 128 {
        bit_of(v.0, c as u32)
    } else {
        ranges_contain(v.1, c)
    }
}

/// Every range is non-empty (start <= end).
pub open spec fn ranges_proper(rs: Seq<(char, char)>) -> bool {
    forall|i: int| 0 <= i < rs.len() ==> (#[trigger] rs[i]).0 as u32 <= rs[i].1 as u32
}

/// Every range starts above ASCII.
pub open spec fn ranges_above_ascii(rs: Seq<(char, char)>) -> bool {
    forall|i: int| 0 <= i < rs.len() ==> (#[trigger] rs[i]).0 as u32 >= 128
}

/// Ranges are in increasing order and separated.
pub open spec fn ranges_sorted_disjoint(rs: Seq<(char, char)>) -> bool {
    forall|i: int, j: int| 0 <= i < j < rs.len() ==> (#[trigger] rs[i]).1 as u32 <= (#[trigger] rs[j]).0 as u32 - 1
}

/// Ranges sorted by their start.
pub open spec fn ranges_sorted_by_start(rs: Seq<(char, char)>) -> bool {
    forall|i: int, j: int| 0 <= i < j < rs.len() ==> (#[trigger] rs[i]).0 as u32 <= (#[trigger] rs[j]).0 as u32
}

/// Between two ranges there is a character that neither holds, but for
/// ranges that meet across the surrogates (one ending at U+D7FF).
pub open spec fn ranges_separated(rs: Seq<(char, char)>) -> bool {
    forall|i: int, j: int|
        0 <= i < j < rs.len() ==> (#[trigger] rs[i]).1 as u32 + 1 < (#[trigger] rs[j]).0 as u32 || rs[i].1 as u32
            == 0xD7FF
}

/// The canonical form of a list of ranges.
pub open spec fn ranges_normalized(rs: Seq<(char, char)>) -> bool {
    ranges_proper(rs) && ranges_above_ascii(rs) && ranges_sorted_disjoint(rs)
}

/// The character a byte stands for when a byte string is matched:
/// byte `b` is the character with code point `b`.
pub open spec fn byte_char(b: u8) -> char {
    (b as u32) as char
}

/// The first character at or after code point `lo`: past the surrogates
/// where `lo` falls among them.
pub open spec fn char_at_or_after(lo: u32) -> u32 {
    if 0xD800 <= lo <= 0xDFFF {
        0xE000
    } else {
        lo
    }
}

/// The last character at or before code point `hi`: before the surrogates
/// where `hi` falls among them.
pub open spec fn char_at_or_before(hi: u32) -> u32 {
    if 0xD800 <= hi <= 0xDFFF {
        0xD7FF
    } else {
        hi
    }
}

/// What the complement has built after the first `n` ranges of `rs`, with
/// `prev` the first code point not yet covered: its ranges are canonical and
/// end below `prev`; below `prev` they hold exactly the characters from
/// U+0080 on that those ranges do not, and from `prev` on neither holds any.
pub open spec fn gaps_inv(rs: Seq<(char, char)>, n: int, out: Seq<(char, char)>, prev: u32) -> bool {
    &&& 0x80 <= prev <= 0x110000
    &&& n > 0 ==> prev == rs[n - 1].1 as u32 + 1
    &&& ranges_normalized(out)
    &&& forall|k: int| 0 <= k < out.len() ==> ((#[trigger] out[k]).1 as u32) < prev
    &&& forall|d: char|
        0x80 <= (d as u32) < prev ==> (#[trigger] ranges_contain(out, d) == !ranges_contain(rs.subrange(0, n), d))
    &&& forall|d: char|
        prev <= (d as u32) ==> !#[trigger] ranges_contain(out, d) && !ranges_contain(rs.subrange(0, n), d)
}

/// `m` is laid out as the set of the single character `c`: one bit for an
/// ASCII character, one one-character range for any other.
pub open spec fn is_char_minterm(m: CharSetView, c: char) -> bool {
    if (c as u32) < 128 {
        m.0 == 1u128 << (c as u32) && m.1.len() == 0
    } else {
        m.0 == 0 && m.1 == seq![(c, c)]
    }
}

/// A set laid out as a single character stands for one character only.
pub proof fn lemma_minterm_unique(m: CharSetView, c: char, d: char)
    requires
        is_char_minterm(m, c),
        is_char_minterm(m, d),
    ensures
        c == d,
{
    vstd::utf8::char_u32_cast(c, c as u32);
    vstd::utf8::char_u32_cast(d, d as u32);
    if (c as u32) < 128 && (d as u32) < 128 {
        lemma_bits(0, 0, c as u32, c as u32);
        lemma_bits(0, 0, c as u32, d as u32);
    } else if (c as u32) >= 128 && (d as u32) >= 128 {
        assert(m.1[0] == (c, c));
        assert(m.1[0] == (d, d));
    } else {
        assert(m.1.len() == 0);
        assert(m.1.len() == 1);
    }
}

pub proof fn lemma_bits(a: u128, b: u128, i: u32, k: u32)
    requires
        i < 128,
        k < 128,
    ensures
        bit_of(a | b, i) == (bit_of(a, i) || bit_of(b, i)),
        bit_of(a & b, i) == (bit_of(a, i) && bit_of(b, i)),
        bit_of(!a, i) == !bit_of(a, i),
        bit_of(1u128 << k, i) == (i == k),
        !bit_of(0u128, i),
        bit_of(!0u128, i),
        ((a & (1u128 << i)) != 0) == bit_of(a, i),
{
    assert(bit_of(a | b, i) == (bit_of(a, i) || bit_of(b, i))) by (bit_vector)
        requires
            i < 128,
    ;
    assert(bit_of(a & b, i) == (bit_of(a, i) && bit_of(b, i))) by (bit_vector)
        requires
            i < 128,
    ;
    assert(bit_of(!a, i) == !bit_of(a, i)) by (bit_vector)
        requires
            i < 128,
    ;
    assert(bit_of(1u128 << k, i) == (i == k)) by (bit_vector)
        requires
            i < 128,
            k < 128,
    ;
    assert(!bit_of(0u128, i)) by (bit_vector)
        requires
            i < 128,
    ;
    assert(bit_of(!0u128, i)) by (bit_vector)
        requires
            i < 128,
    ;
    assert(((a & (1u128 << i)) != 0) == bit_of(a, i)) by (bit_vector)
        requires
            i < 128,
    ;
}

pub proof fn lemma_ranges_contain_push(rs: Seq<(char, char)>, r: (char, char), c: char)
    ensures
        ranges_contain(rs.push(r), c) == (ranges_contain(rs, c) || in_range(r, c)),
{
    if ranges_contain(rs, c) {
        let i = choose|i: int| 0 <= i < rs.len() && in_range(#[trigger] rs[i], c);
        assert(rs.push(r)[i] == rs[i]);
    }
    if in_range(r, c) {
        assert(rs.push(r)[rs.len() as int] == r);
    }
    if ranges_contain(rs.push(r), c) {
        let i = choose|i: int| 0 <= i < rs.push(r).len() && in_range(#[trigger] rs.push(r)[i], c);
        if i < rs.len() {
            assert(rs[i] == rs.push(r)[i]);
        }
    }
}

pub proof fn lemma_ranges_contain_prefix(rs: Seq<(char, char)>, n: int, c: char)
    requires
        0 <= n < rs.len(),
    ensures
        ranges_contain(rs.subrange(0, n + 1), c) == (ranges_contain(rs.subrange(0, n), c)
            || in_range(rs[n], c)),
{
    assert(rs.subrange(0, n + 1) =~= rs.subrange(0, n).push(rs[n]));
    lemma_ranges_contain_push(rs.subrange(0, n), rs[n], c);
}

/// Merging two ranges whose second starts inside, or right after, the first
/// covers exactly the characters of both.
proof fn lemma_merge_ranges(cur: (char, char), next: (char, char), bound: char, c: char)
    requires
        cur.0 as u32 <= next.0 as u32,
        next.0 as u32 <= bound as u32,
        bound as u32 <= cur.1 as u32 + 1,
    ensures
        in_range((cur.0, if next.1 as u32 > cur.1 as u32 { next.1 } else { cur.1 }), c) == (
        in_range(cur, c) || in_range(next, c)),
{
}

/// Sorts ranges by their start (a stable sort of the standard library).
#[verifier::external_body]
fn sort_ranges_by_start(rs: &mut Vec<(char, char)>)
    ensures
        final(rs)@.to_multiset() == old(rs)@.to_multiset(),
        ranges_sorted_by_start(final(rs)@),
{
    rs.sort_by_key(|r| r.0)
}

/// `char::from_u32`: the character with the given code point, if there is one.
#[verifier::external_body]
fn char_from_u32(code: u32) -> (r: Option<char>)
    ensures
        r is Some <==> is_scalar(code),
        r matches Some(c) ==> c as u32 == code,
{
    char::from_u32(code)
}

proof fn lemma_same_elements_contain(a: Seq<(char, char)>, b: Seq<(char, char)>, c: char)
    requires
        a.to_multiset() == b.to_multiset(),
    ensures
        ranges_contain(a, c) == ranges_contain(b, c),
        ranges_proper(a) ==> ranges_proper(b),
        ranges_above_ascii(a) ==> ranges_above_ascii(b),
{
    broadcast use vstd::seq_lib::group_to_multiset_ensures;

    if ranges_contain(a, c) {
        let i = choose|i: int| 0 <= i < a.len() && in_range(#[trigger] a[i], c);
        assert(a.contains(a[i]));
        assert(b.to_multiset().count(a[i]) > 0);
        assert(b.contains(a[i]));
    }
    if ranges_contain(b, c) {
        let i = choose|i: int| 0 <= i < b.len() && in_range(#[trigger] b[i], c);
        assert(b.contains(b[i]));
        assert(a.to_multiset().count(b[i]) > 0);
        assert(a.contains(b[i]));
    }
    if ranges_proper(a) {
        assert forall|i: int| 0 <= i < b.len() implies (#[trigger] b[i]).0 as u32 <= b[i].1 as u32 by {
            assert(b.contains(b[i]));
            assert(a.to_multiset().count(b[i]) > 0);
            assert(a.contains(b[i]));
        }
    }
    if ranges_above_ascii(a) {
        assert forall|i: int| 0 <= i < b.len() implies (#[trigger] b[i]).0 as u32 >= 128 by {
            assert(b.contains(b[i]));
            assert(a.to_multiset().count(b[i]) > 0);
            assert(a.contains(b[i]));
        }
    }
}

/// Against the set of one character `c`, an intersection is empty exactly
/// when the other set lacks `c`.
pub proof fn lemma_meets_minterm(s: CharSetView, m: CharSetView, i: CharSetView, c: char)
    requires
        is_char_minterm(m, c),
        forall|d: char| ranges_contain(i.1, d) <==> (ranges_contain(s.1, d) && ranges_contain(m.1, d)),
        i.0 == s.0 & m.0,
        ranges_proper(i.1),
    ensures
        (i.0 == 0 && i.1.len() == 0) == !view_contains(s, c),
{
    vstd::utf8::char_u32_cast(c, c as u32);
    if i.1.len() > 0 {
        let r0 = i.1[0];
        assert(in_range(i.1[0], r0.0));
        assert(ranges_contain(i.1, r0.0));
        if (c as u32) < 128 {
            assert(!ranges_contain(m.1, r0.0));
        } else {
            assert(ranges_contain(m.1, r0.0));
            let k = choose|k: int| 0 <= k < m.1.len() && in_range(#[trigger] m.1[k], r0.0);
            assert(k == 0);
            vstd::utf8::char_u32_cast(r0.0, r0.0 as u32);
            assert(r0.0 == c);
        }
    }
    if (c as u32) < 128 {
        lemma_bits(s.0, 0, c as u32, c as u32);
    } else {
        assert(s.0 & 0u128 == 0u128) by (bit_vector);
        if ranges_contain(s.1, c) {
            assert(in_range(m.1[0], c));
            assert(ranges_contain(m.1, c));
            assert(ranges_contain(i.1, c));
        }
    }
}

impl CharSet {
    /// Whether the set holds `c`.
    pub open spec fn contains(&self, c: char) -> bool {
        view_contains(self@, c)
    }

    /// The ranges are canonical: proper, above ASCII, sorted and separated.
    pub open spec fn is_normalized(&self) -> bool {
        ranges_normalized(self@.1)
    }

    /// Every range is proper and above ASCII, which each constructor and
    /// operation keeps unless a range is inserted with its ends reversed.
    pub open spec fn ranges_valid(&self) -> bool {
        ranges_proper(self@.1) && ranges_above_ascii(self@.1)
    }

    /// Creates an empty character set (matches nothing).
    pub fn empty() -> (r: CharSet)
        ensures
            r@.0 == 0,
            r@.1 == Seq::<(char, char)>::empty(),
            forall|c: char| !r.contains(c),
            r.is_normalized(),
    {
        let r = CharSet { ascii: 0, unicode_ranges: Vec::new() };
        assert forall|c: char| !r.contains(c) by {
            if (c as u32) < 128 {
                lemma_bits(0, 0, c as u32, 0);
            }
        }
        r
    }

    /// Creates a full character set (matches any character).
    pub fn full() -> (r: CharSet)
        ensures
            r@.0 == !0u128,
            r@.1 == seq![('\u{80}', '\u{10FFFF}')],
            forall|c: char| r.contains(c),
            r.is_normalized(),
    {
        let mut v = Vec::new();
        v.push(('\u{80}', '\u{10FFFF}'));
        let r = CharSet { ascii: !0u128, unicode_ranges: v };
        assert forall|c: char| r.contains(c) by {
            vstd::utf8::char_is_scalar(c);
            if (c as u32) < 128 {
                lemma_bits(!0u128, 0, c as u32, 0);
            } else {
                assert(in_range(r.unicode_ranges@[0], c));
            }
        }
        r
    }

    /// An exact copy of the set.
    pub fn duplicate(&self) -> (r: CharSet)
        ensures
            r@ == self@,
    {
        let mut v: Vec<(char, char)> = Vec::new();
        let mut i: usize = 0;
        while i < self.unicode_ranges.len()
            invariant
                i <= self.unicode_ranges@.len(),
                v@ == self.unicode_ranges@.subrange(0, i as int),
            decreases self.unicode_ranges@.len() - i,
        {
            v.push(self.unicode_ranges[i]);
            i = i + 1;
            assert(v@ =~= self.unicode_ranges@.subrange(0, i as int));
        }
        assert(v@ =~= self.unicode_ranges@);
        CharSet { ascii: self.ascii, unicode_ranges: v }
    }

    /// Creates a character set containing a single character.
    pub fn singleton(c: char) -> (r: CharSet)
        ensures
            forall|d: char| r.contains(d) <==> d == c,
            r.ranges_valid(),
            (c as u32) < 128 ==> r@.1 == Seq::<(char, char)>::empty(),
    {
        let mut set = Self::empty();
        set.insert(c);
        set
    }

    /// The set holding only the character that byte `byte` stands for.
    pub fn ascii_singleton(byte: u8) -> (r: CharSet)
        ensures
            forall|d: char| r.contains(d) <==> d == byte_char(byte),
            (byte as u32) < 128 ==> r@.0 == 1u128 << (byte as u32) && r@.1.len() == 0,
            (byte as u32) >= 128 ==> r@.0 == 0 && r@.1 == seq![(byte_char(byte), byte_char(byte))],
            is_char_minterm(r@, byte_char(byte)),
            r.is_normalized(),
    {
        proof {
            vstd::utf8::char_u32_cast(byte_char(byte), byte as u32);
        }
        let c = byte as char;
        assert(c as u32 == byte as u32);
        if byte < 128 {
            let r = CharSet { ascii: 1u128 << (byte as u32), unicode_ranges: Vec::new() };
            assert forall|d: char| r.contains(d) <==> d == byte_char(byte) by {
                if (d as u32) < 128 {
                    lemma_bits(0, 0, d as u32, byte as u32);
                }
                vstd::utf8::char_u32_cast(d, d as u32);
                vstd::utf8::char_u32_cast(c, c as u32);
            }
            r
        } else {
            let mut v = Vec::new();
            v.push((c, c));
            let r = CharSet { ascii: 0, unicode_ranges: v };
            assert forall|d: char| r.contains(d) <==> d == byte_char(byte) by {
                if (d as u32) < 128 {
                    lemma_bits(0, 0, d as u32, 0);
                }
                vstd::utf8::char_u32_cast(d, d as u32);
                vstd::utf8::char_u32_cast(c, c as u32);
                if d == byte_char(byte) {
                    assert(in_range(r.unicode_ranges@[0], d));
                }
            }
            r
        }
    }

    /// Creates a character set from a range of characters.
    pub fn range(start: char, end: char) -> (r: CharSet)
        ensures
            forall|d: char| r.contains(d) <==> in_range((start, end), d),
            (start as u32) <= (end as u32) ==> r.ranges_valid(),
            (end as u32) < 128 ==> r@.1 == Seq::<(char, char)>::empty(),
    {
        let mut set = Self::empty();
        set.insert_range(start, end);
        set
    }

    /// The bitmap of the ASCII characters in the set.
    pub(crate) fn ascii_bits(&self) -> (r: u128)
        ensures
            r == self@.0,
    {
        self.ascii
    }

    /// Removes an ASCII character by clearing its bit.
    pub(crate) fn clear_ascii(&mut self, c: char)
        requires
            (c as u32) < 128,
        ensures
            forall|d: char| final(self).contains(d) <==> (old(self).contains(d) && d != c),
            final(self)@.1 == old(self)@.1,
    {
        let code = c as u32;
        self.ascii = self.ascii & !(1u128 << code);
        proof {
            assert forall|d: char| self.contains(d) <==> (old(self).contains(d) && d != c) by {
                vstd::utf8::char_u32_cast(d, d as u32);
                vstd::utf8::char_u32_cast(c, code);
                if (d as u32) < 128 {
                    lemma_bits(old(self).ascii, !(1u128 << code), d as u32, code);
                    lemma_bits(1u128 << code, 0, d as u32, code);
                }
            }
        }
    }

    /// Inserts a single character.
    pub fn insert(&mut self, c: char)
        ensures
            forall|d: char| final(self).contains(d) <==> (old(self).contains(d) || d == c),
            old(self).ranges_valid() ==> final(self).ranges_valid(),
            old(self).is_normalized() ==> final(self).is_normalized(),
            (c as u32) < 128 ==> final(self)@.1 == old(self)@.1,
            (c as u32) < 128 && old(self).contains(c) ==> final(self)@ == old(self)@,
    {
        let code = c as u32;
        if code < 128 {
            let ghost old_ascii = self.ascii;
            proof {
                if bit_of(old_ascii, code) {
                    assert(old_ascii | (1u128 << code) == old_ascii) by (bit_vector)
                        requires
                            code < 128,
                            (old_ascii >> code) & 1u128 == 1u128,
                    ;
                }
            }
            self.ascii = self.ascii | (1u128 << code);
            assert forall|d: char| self.contains(d) <==> (old(self).contains(d) || d == c) by {
                if (d as u32) < 128 {
                    lemma_bits(old_ascii, 1u128 << code, d as u32, code);
                }
                vstd::utf8::char_u32_cast(d, d as u32);
                vstd::utf8::char_u32_cast(c, c as u32);
            }
        } else {
            self.insert_unicode_range(c, c);
            assert forall|d: char| self.contains(d) <==> (old(self).contains(d) || d == c) by {
                vstd::utf8::char_u32_cast(d, d as u32);
                vstd::utf8::char_u32_cast(c, c as u32);
                assert(in_range((c, c), d) == (d == c));
                if (d as u32) < 128 {
                    assert(d != c);
                } else {
                    assert(ranges_contain(self@.1, d) == (ranges_contain(old(self)@.1, d) || in_range((c, c), d)));
                }
            }
        }
    }

    /// Inserts a range of characters.
    pub fn insert_range(&mut self, start: char, end: char)
        ensures
            forall|d: char| final(self).contains(d) <==> (old(self).contains(d) || in_range((start, end), d)),
            old(self).ranges_valid() && (start as u32) <= (end as u32) ==> final(self).ranges_valid(),
            old(self).is_normalized() && (start as u32) <= (end as u32) ==> final(self).is_normalized(),
            (end as u32) < 128 ==> final(self)@.1 == old(self)@.1,
    {
        let start_code = start as u32;
        let end_code = end as u32;
        let ascii_max: u32 = 127;
        let ghost old_ascii = self.ascii;
        if start_code < 128 {
            let ascii_end = if end_code < ascii_max { end_code } else { ascii_max };
            let mut i = start_code;
            while i <= ascii_end
                invariant
                    start_code <= i,
                    i <= ascii_end + 1 || i == start_code,
                    ascii_end <= 127,
                    ascii_end == if end_code < ascii_max { end_code } else { ascii_max },
                    self.unicode_ranges@ == old(self).unicode_ranges@,
                    forall|k: u32| #![trigger bit_of(self.ascii, k)] k < 128 ==> bit_of(self.ascii, k) == (bit_of(old_ascii, k) || (start_code <= k < i && k <= ascii_end)),
                decreases ascii_end + 1 - i,
            {
                let ghost before = self.ascii;
                self.ascii = self.ascii | (1u128 << i);
                assert forall|k: u32| k < 128 implies bit_of(self.ascii, k) == (bit_of(old_ascii, k) || (start_code <= k < i + 1 && k <= ascii_end)) by {
                    lemma_bits(before, 1u128 << i, k, i);
                }
                i = i + 1;
            }
            assert forall|k: u32| k < 128 implies bit_of(self.ascii, k) == (bit_of(old_ascii, k) || (start_code <= k <= end_code)) by {
                assert(i > ascii_end);
                assert(bit_of(self.ascii, k) == (bit_of(old_ascii, k) || (start_code <= k < i && k <= ascii_end)));
            }
        }
        let ghost mid = self.ascii;
        assert(forall|k: u32| k < 128 ==> bit_of(mid, k) == (bit_of(old_ascii, k) || (start_code <= k <= end_code)));
        if end_code >= 128 {
            let unicode_start = if start_code < 128 { '\u{80}' } else { start };
            self.insert_unicode_range(unicode_start, end);
        }
        assert forall|d: char| self.contains(d) <==> (old(self).contains(d) || in_range((start, end), d)) by {
            if (d as u32) < 128 {
                assert(bit_of(self@.0, d as u32) == bit_of(mid, d as u32));
            } else if end_code >= 128 {
                let us: char = if start_code < 128 { '\u{80}' } else { start };
                assert(in_range((us, end), d) == in_range((start, end), d));
                assert(ranges_contain(self@.1, d) == (ranges_contain(old(self)@.1, d) || in_range((us, end), d)));
            } else {
                assert(self@.1 == old(self)@.1);
            }
        }
    }

    /// Adds a range above ASCII and brings the ranges back to canonical form.
    pub fn insert_unicode_range(&mut self, start: char, end: char)
        requires
            start as u32 >= 128,
        ensures
            final(self)@.0 == old(self)@.0,
            forall|d: char| ranges_contain(final(self)@.1, d) <==> (ranges_contain(old(self)@.1, d) || in_range((start, end), d)),
            old(self).ranges_valid() && (start as u32) <= (end as u32) ==> final(self).ranges_valid(),
            old(self).ranges_valid() && (start as u32) <= (end as u32) ==> final(self).is_normalized(),
    {
        let ghost before = self.unicode_ranges@;
        self.unicode_ranges.push((start, end));
        proof {
            assert forall|d: char| ranges_contain(self.unicode_ranges@, d) <==> (ranges_contain(before, d) || in_range((start, end), d)) by {
                lemma_ranges_contain_push(before, (start, end), d);
            }
        }
        self.normalize_unicode_ranges();
    }

    /// Sorts the ranges by start and merges those that overlap or touch.
    pub fn normalize_unicode_ranges(&mut self)
        ensures
            final(self)@.0 == old(self)@.0,
            forall|d: char| ranges_contain(final(self)@.1, d) <==> ranges_contain(old(self)@.1, d),
            ranges_proper(old(self)@.1) ==> ranges_proper(final(self)@.1),
            ranges_above_ascii(old(self)@.1) ==> ranges_above_ascii(final(self)@.1),
            old(self).ranges_valid() ==> final(self).is_normalized(),
            old(self).ranges_valid() ==> ranges_separated(final(self)@.1),
            ranges_proper(old(self)@.1) ==> ranges_sorted_disjoint(final(self)@.1) && ranges_separated(final(self)@.1),
    {
        if self.unicode_ranges.len() <= 1 {
            return;
        }
        let ghost orig = self.unicode_ranges@;
        sort_ranges_by_start(&mut self.unicode_ranges);
        let ghost sorted = self.unicode_ranges@;
        proof {
            vstd::seq_lib::to_multiset_len(orig);
            vstd::seq_lib::to_multiset_len(sorted);
            assert(sorted.len() == orig.len());
            assert forall|d: char| ranges_contain(sorted, d) == ranges_contain(orig, d) by {
                lemma_same_elements_contain(orig, sorted, d);
            }
            lemma_same_elements_contain(orig, sorted, 'a');
            lemma_same_elements_contain(sorted, orig, 'a');
        }
        let n = self.unicode_ranges.len();
        let mut merged: Vec<(char, char)> = Vec::new();
        let mut current = self.unicode_ranges[0];
        let mut i: usize = 1;
        proof {
            assert(sorted.subrange(0, 1) =~= seq![sorted[0]]);
            assert forall|d: char| ranges_contain(merged@.push(current), d) == ranges_contain(sorted.subrange(0, 1), d) by {
                assert(merged@.push(current) =~= sorted.subrange(0, 1));
            }
        }
        while i < n
            invariant
                1 <= i <= n,
                n == sorted.len(),
                self.unicode_ranges@ == sorted,
                ranges_sorted_by_start(sorted),
                forall|d: char| ranges_contain(merged@.push(current), d) == ranges_contain(sorted.subrange(0, i as int), d),
                forall|j: int| i <= j < n ==> current.0 as u32 <= (#[trigger] sorted[j]).0 as u32,
                ranges_proper(sorted) ==> ranges_proper(merged@) && current.0 as u32 <= current.1 as u32,
                ranges_above_ascii(sorted) ==> ranges_above_ascii(merged@) && current.0 as u32 >= 128,
                ranges_proper(sorted) ==> ranges_sorted_disjoint(merged@),
                ranges_proper(sorted) ==> forall|j: int| 0 <= j < merged@.len() ==> (#[trigger] merged@[j]).1 as u32 <= current.0 as u32 - 1,
                ranges_proper(sorted) ==> ranges_separated(merged@),
                ranges_proper(sorted) ==> forall|j: int|
                    0 <= j < merged@.len() ==> (#[trigger] merged@[j]).1 as u32 + 1 < current.0 as u32 || merged@[j].1 as u32
                        == 0xD7FF,
            decreases n - i,
        {
            let (start, end) = self.unicode_ranges[i];
            proof {
                vstd::utf8::char_is_scalar(current.1);
            }
            let next_code = current.1 as u32 + 1;
            let next_char = match char_from_u32(next_code) {
                Some(c) => c,
                None => current.1,
            };
            let ghost old_current = current;
            let ghost old_merged = merged@;
            if (start as u32) <= (next_char as u32) {
                let new_end = if (end as u32) > (current.1 as u32) { end } else { current.1 };
                current = (current.0, new_end);
                proof {
                    assert forall|d: char| ranges_contain(merged@.push(current), d) == ranges_contain(sorted.subrange(0, i + 1), d) by {
                        lemma_merge_ranges(old_current, (start, end), next_char, d);
                        lemma_ranges_contain_push(merged@, current, d);
                        lemma_ranges_contain_push(merged@, old_current, d);
                        lemma_ranges_contain_prefix(sorted, i as int, d);
                    }
                }
            } else {
                merged.push(current);
                current = (start, end);
                proof {
                    assert forall|d: char| ranges_contain(merged@.push(current), d) == ranges_contain(sorted.subrange(0, i + 1), d) by {
                        lemma_ranges_contain_push(merged@, current, d);
                        lemma_ranges_contain_push(old_merged, old_current, d);
                        lemma_ranges_contain_prefix(sorted, i as int, d);
                    }
                    if ranges_proper(sorted) {
                        assert(sorted[i as int] == (start, end));
                        assert forall|j: int| 0 <= j < merged@.len() implies (#[trigger] merged@[j]).1 as u32 <= current.0 as u32 - 1 by {
                            if j < old_merged.len() {
                                assert(merged@[j] == old_merged[j]);
                            }
                        }
                        assert forall|a: int, b: int| 0 <= a < b < merged@.len() implies (#[trigger] merged@[a]).1 as u32 <= (#[trigger] merged@[b]).0 as u32 - 1 by {
                            if b < old_merged.len() {
                                assert(merged@[a] == old_merged[a]);
                                assert(merged@[b] == old_merged[b]);
                            } else {
                                assert(merged@[a] == old_merged[a]);
                            }
                        }
                        vstd::utf8::char_is_scalar(start);
                        assert(old_current.1 as u32 + 1 < start as u32 || old_current.1 as u32 == 0xD7FF);
                        assert forall|j: int| 0 <= j < merged@.len() implies (#[trigger] merged@[j]).1 as u32 + 1
                            < current.0 as u32 || merged@[j].1 as u32 == 0xD7FF by {
                            if j < old_merged.len() {
                                assert(merged@[j] == old_merged[j]);
                            }
                        }
                        assert forall|a: int, b: int| 0 <= a < b < merged@.len() implies (#[trigger] merged@[a]).1 as u32
                            + 1 < (#[trigger] merged@[b]).0 as u32 || merged@[a].1 as u32 == 0xD7FF by {
                            assert(merged@[a] == old_merged[a] || a == old_merged.len());
                            if b < old_merged.len() {
                                assert(merged@[a] == old_merged[a]);
                                assert(merged@[b] == old_merged[b]);
                            } else {
                                assert(merged@[b] == old_current);
                                assert(merged@[a] == old_merged[a]);
                            }
                        }
                    }
                }
            }
            i = i + 1;
        }
        let ghost pre_push = merged@;
        merged.push(current);
        proof {
            assert(sorted.subrange(0, n as int) =~= sorted);
            if ranges_proper(sorted) {
                assert forall|a: int, b: int| 0 <= a < b < merged@.len() implies (#[trigger] merged@[a]).1 as u32 + 1
                    < (#[trigger] merged@[b]).0 as u32 || merged@[a].1 as u32 == 0xD7FF by {
                    assert(merged@[a] == pre_push[a]);
                    if b < pre_push.len() {
                        assert(merged@[b] == pre_push[b]);
                    }
                }
                assert forall|a: int, b: int| 0 <= a < b < merged@.len() implies (#[trigger] merged@[a]).1 as u32 <= (#[trigger] merged@[b]).0 as u32 - 1 by {
                    if b < pre_push.len() {
                        assert(merged@[a] == pre_push[a]);
                        assert(merged@[b] == pre_push[b]);
                    } else {
                        assert(merged@[a] == pre_push[a]);
                    }
                }
            }
        }
        self.unicode_ranges = merged;
        proof {
            assert forall|d: char| ranges_contain(self.unicode_ranges@, d) == ranges_contain(orig, d) by {}
        }
    }

    /// Returns true if the set holds no ASCII bit and no range.
    pub fn is_empty(&self) -> (r: bool)
        ensures
            r == (self@.0 == 0 && self@.1.len() == 0),
    {
        self.ascii == 0 && self.unicode_ranges.len() == 0
    }

    /// Whether the ASCII character with code `code` is in the set.
    pub fn contains_ascii(&self, code: u8) -> (r: bool)
        requires
            code < 128,
        ensures
            r == bit_of(self@.0, code as u32),
    {
        proof {
            lemma_bits(self.ascii, 0, code as u32, 0);
        }
        (self.ascii & (1u128 << (code as u32))) != 0
    }

    /// Returns the union of two character sets.
    pub fn union(&self, other: &CharSet) -> (r: CharSet)
        ensures
            forall|d: char| r.contains(d) <==> (self.contains(d) || other.contains(d)),
            r@.0 == self@.0 | other@.0,
            self.ranges_valid() && other.ranges_valid() ==> r.ranges_valid(),
            self.ranges_valid() && other.ranges_valid() ==> r.is_normalized() && ranges_separated(r@.1),
    {
        let mut result = self.duplicate();
        result.ascii = result.ascii | other.ascii;
        let mut i: usize = 0;
        while i < other.unicode_ranges.len()
            invariant
                i <= other.unicode_ranges@.len(),
                result.ascii == self.ascii | other.ascii,
                forall|d: char| ranges_contain(result.unicode_ranges@, d) == (ranges_contain(self.unicode_ranges@, d)
                    || ranges_contain(other.unicode_ranges@.subrange(0, i as int), d)),
                ranges_proper(self.unicode_ranges@) && ranges_proper(other.unicode_ranges@) ==> ranges_proper(result.unicode_ranges@),
                ranges_above_ascii(self.unicode_ranges@) && ranges_above_ascii(other.unicode_ranges@) ==> ranges_above_ascii(result.unicode_ranges@),
            decreases other.unicode_ranges@.len() - i,
        {
            let r = other.unicode_ranges[i];
            let ghost before = result.unicode_ranges@;
            result.unicode_ranges.push(r);
            proof {
                assert forall|d: char| ranges_contain(result.unicode_ranges@, d) == (ranges_contain(self.unicode_ranges@, d)
                    || ranges_contain(other.unicode_ranges@.subrange(0, i + 1), d)) by {
                    lemma_ranges_contain_push(before, r, d);
                    lemma_ranges_contain_prefix(other.unicode_ranges@, i as int, d);
                }
            }
            i = i + 1;
        }
        proof {
            assert(other.unicode_ranges@.subrange(0, i as int) =~= other.unicode_ranges@);
        }
        result.normalize_unicode_ranges();
        proof {
            assert forall|d: char| result.contains(d) <==> (self.contains(d) || other.contains(d)) by {
                if (d as u32) < 128 {
                    lemma_bits(self.ascii, other.ascii, d as u32, 0);
                }
            }
        }
        result
    }

    /// Returns the intersection of two character sets.
    pub fn intersection(&self, other: &CharSet) -> (r: CharSet)
        ensures
            forall|d: char| r.contains(d) <==> (self.contains(d) && other.contains(d)),
            forall|d: char| ranges_contain(r@.1, d) <==> (ranges_contain(self@.1, d) && ranges_contain(other@.1, d)),
            r@.0 == self@.0 & other@.0,
            ranges_proper(r@.1),
            ranges_above_ascii(self@.1) ==> ranges_above_ascii(r@.1),
            ranges_above_ascii(self@.1) ==> r.is_normalized() && ranges_separated(r@.1),
    {
        let mut result = CharSet::empty();
        result.ascii = self.ascii & other.ascii;
        let mut i: usize = 0;
        let ghost a = self.unicode_ranges@;
        let ghost b = other.unicode_ranges@;
        while i < self.unicode_ranges.len()
            invariant
                i <= a.len(),
                a == self.unicode_ranges@,
                b == other.unicode_ranges@,
                result.ascii == self.ascii & other.ascii,
                forall|d: char| #![trigger ranges_contain(result.unicode_ranges@, d)] ranges_contain(result.unicode_ranges@, d) == (ranges_contain(a.subrange(0, i as int), d)
                    && ranges_contain(b, d)),
                ranges_proper(result.unicode_ranges@),
                ranges_above_ascii(a) ==> ranges_above_ascii(result.unicode_ranges@),
            decreases a.len() - i,
        {
            let (s1, e1) = self.unicode_ranges[i];
            let mut j: usize = 0;
            proof {
                assert forall|d: char| ranges_contain(result.unicode_ranges@, d) == ((ranges_contain(a.subrange(0, i as int), d)
                        && ranges_contain(b, d)) || (in_range((s1, e1), d) && ranges_contain(b.subrange(0, 0), d))) by {
                    assert(!ranges_contain(b.subrange(0, 0), d));
                    assert(ranges_contain(result.unicode_ranges@, d) == (ranges_contain(a.subrange(0, i as int), d)
                        && ranges_contain(b, d)));
                }
            }
            while j < other.unicode_ranges.len()
                invariant
                    i < a.len(),
                    j <= b.len(),
                    a == self.unicode_ranges@,
                    b == other.unicode_ranges@,
                    (s1, e1) == a[i as int],
                    result.ascii == self.ascii & other.ascii,
                    forall|d: char| #![trigger ranges_contain(result.unicode_ranges@, d)] ranges_contain(result.unicode_ranges@, d) == ((ranges_contain(a.subrange(0, i as int), d)
                        && ranges_contain(b, d)) || (in_range((s1, e1), d) && ranges_contain(b.subrange(0, j as int), d))),
                    ranges_proper(result.unicode_ranges@),
                    ranges_above_ascii(a) ==> ranges_above_ascii(result.unicode_ranges@),
                decreases b.len() - j,
            {
                let (s2, e2) = other.unicode_ranges[j];
                assert(b[j as int] == (s2, e2));
                let start = if (s1 as u32) < (s2 as u32) { s2 } else { s1 };
                let end = if (e1 as u32) < (e2 as u32) { e1 } else { e2 };
                let ghost before = result.unicode_ranges@;
                if (start as u32) <= (end as u32) {
                    result.unicode_ranges.push((start, end));
                }
                proof {
                    assert forall|d: char| #![trigger ranges_contain(result.unicode_ranges@, d)] ranges_contain(result.unicode_ranges@, d) == ((ranges_contain(a.subrange(0, i as int), d)
                        && ranges_contain(b, d)) || (in_range((s1, e1), d) && ranges_contain(b.subrange(0, j + 1), d))) by {
                        lemma_ranges_contain_push(before, (start, end), d);
                        assert((in_range((s1, e1), d) && in_range((s2, e2), d)) == ((start as u32) <= (end as u32) && in_range((start, end), d)));
                        lemma_ranges_contain_prefix(b, j as int, d);
                    }
                    if ranges_above_ascii(a) {
                        assert(a[i as int].0 as u32 >= 128);
                    }
                }
                j = j + 1;
            }
            proof {
                assert(b.subrange(0, j as int) =~= b);
                assert forall|d: char| ranges_contain(result.unicode_ranges@, d) == (ranges_contain(a.subrange(0, i + 1), d)
                    && ranges_contain(b, d)) by {
                    lemma_ranges_contain_prefix(a, i as int, d);
                }
            }
            i = i + 1;
        }
        proof {
            assert(a.subrange(0, i as int) =~= a);
        }
        result.normalize_unicode_ranges();
        proof {
            assert forall|d: char| result.contains(d) <==> (self.contains(d) && other.contains(d)) by {
                if (d as u32) < 128 {
                    lemma_bits(self.ascii, other.ascii, d as u32, 0);
                }
            }
        }
        result
    }

    /// Returns the complement of a character set: the bitmap negated, and the
    /// characters from U+0080 to U+10FFFF that no range holds, gap by gap.
    pub fn complement(&self) -> (r: CharSet)
        ensures
            r@.0 == !self@.0,
            forall|d: char| (d as u32) < 128 ==> (r.contains(d) <==> !self.contains(d)),
            self.is_normalized() ==> forall|d: char| r.contains(d) <==> !self.contains(d),
            self.is_normalized() ==> r.is_normalized(),
            r.ranges_valid(),
    {
        let mut result = CharSet::empty();
        result.ascii = !self.ascii;
        let mut prev: u32 = 0x80;
        let mut i: usize = 0;
        let ghost rs = self.unicode_ranges@;
        proof {
            assert(rs.subrange(0, 0) =~= Seq::<(char, char)>::empty());
        }
        while i < self.unicode_ranges.len()
            invariant
                i <= rs.len(),
                rs == self.unicode_ranges@,
                result.ascii == !self.ascii,
                0x80 <= prev <= 0x110000,
                i == 0 ==> prev == 0x80,
                ranges_proper(result.unicode_ranges@),
                ranges_above_ascii(result.unicode_ranges@),
                ranges_normalized(rs) ==> gaps_inv(rs, i as int, result.unicode_ranges@, prev),
            decreases rs.len() - i,
        {
            let (start, end) = self.unicode_ranges[i];
            let ghost out0 = result.unicode_ranges@;
            let ghost prev0 = prev;
            proof {
                assert(rs[i as int] == (start, end));
                vstd::utf8::char_is_scalar(start);
                vstd::utf8::char_is_scalar(end);
            }
            if prev < start as u32 {
                push_gap(&mut result.unicode_ranges, prev, start as u32 - 1);
            }
            let next = end as u32 + 1;
            prev = if next < 0x80 {
                0x80
            } else {
                next
            };
            proof {
                let out = result.unicode_ranges@;
                if ranges_normalized(rs) {
                    let n = i as int;
                    let pre = rs.subrange(0, n);
                    let now = rs.subrange(0, n + 1);
                    assert((start as u32) <= (end as u32));
                    assert(gaps_inv(rs, n, out0, prev0));
                    assert(prev0 <= start as u32) by {
                        if n > 0 {
                            assert(rs[n - 1].1 as u32 <= rs[n].0 as u32 - 1);
                        }
                    }
                    assert forall|d: char| #[trigger] ranges_contain(now, d) == (ranges_contain(pre, d) || in_range(
                        (start, end),
                        d,
                    )) by {
                        lemma_ranges_contain_prefix(rs, n, d);
                    }
                    assert forall|k: int| 0 <= k < out.len() implies ((#[trigger] out[k]).1 as u32) < prev by {
                        if k < out0.len() {
                            assert(out[k] == out0[k]);
                        }
                    }
                    assert forall|a: int, b: int| 0 <= a < b < out.len() implies (#[trigger] out[a]).1 as u32
                        <= (#[trigger] out[b]).0 as u32 - 1 by {
                        if b < out0.len() {
                            assert(out[a] == out0[a] && out[b] == out0[b]);
                        } else {
                            assert(out[a] == out0[a]);
                        }
                    }
                    assert(gaps_inv(rs, n + 1, out, prev));
                }
            }
            i = i + 1;
        }
        if prev <= 0x10FFFF {
            push_gap(&mut result.unicode_ranges, prev, 0x10FFFF);
        }
        proof {
            assert forall|d: char| (d as u32) < 128 implies (result.contains(d) <==> !self.contains(d)) by {
                lemma_bits(self.ascii, 0, d as u32, 0);
            }
            if ranges_normalized(rs) {
                assert(rs.subrange(0, rs.len() as int) =~= rs);
                assert forall|d: char| result.contains(d) <==> !self.contains(d) by {
                    vstd::utf8::char_is_scalar(d);
                    if (d as u32) < 128 {
                        lemma_bits(self.ascii, 0, d as u32, 0);
                    }
                }
                let out = result.unicode_ranges@;
                assert forall|a: int, b: int| 0 <= a < b < out.len() implies (#[trigger] out[a]).1 as u32
                    <= (#[trigger] out[b]).0 as u32 - 1 by {
                    assert(out[a].1 as u32 <= 0x10FFFF);
                }
            }
        }
        result
    }
}

/// Adds to `out` the range of the characters whose code points lie from
/// `lo` to `hi`, where there is one.
fn push_gap(out: &mut Vec<(char, char)>, lo: u32, hi: u32)
    requires
        0x80 <= lo <= hi <= 0x10FFFF,
    ensures
        forall|d: char| #[trigger]
            ranges_contain(final(out)@, d) == (ranges_contain(old(out)@, d) || (lo <= (d as u32) <= hi)),
        final(out)@ == old(out)@ || (final(out)@ == old(out)@.push(final(out)@.last()) && lo <= (final(out)@.last().0 as u32)
            <= (final(out)@.last().1 as u32) <= hi),
{
    let a: u32 = if 0xD800 <= lo && lo <= 0xDFFF {
        0xE000
    } else {
        lo
    };
    let b: u32 = if 0xD800 <= hi && hi <= 0xDFFF {
        0xD7FF
    } else {
        hi
    };
    if a <= b {
        match char_from_u32(a) {
            Some(x) => match char_from_u32(b) {
                Some(y) => {
                    let ghost before = out@;
                    out.push((x, y));
                    proof {
                        assert forall|d: char| #[trigger] ranges_contain(out@, d) == (ranges_contain(before, d) || (lo
                            <= (d as u32) <= hi)) by {
                            vstd::utf8::char_is_scalar(d);
                            lemma_ranges_contain_push(before, (x, y), d);
                        }
                    }
                },
                None => {},
            },
            None => {},
        }
    } else {
        proof {
            assert forall|d: char| #[trigger] ranges_contain(out@, d) == (ranges_contain(out@, d) || (lo <= (d as u32)
                <= hi)) by {
                vstd::utf8::char_is_scalar(d);
            }
        }
    }
}

} // verus!
