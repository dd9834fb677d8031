//! Core types of the regex engine.

pub mod node_id;

use vstd::prelude::*;
use crate::charset::CharSet;
use vstd::string::StringSliceAdditionalSpecFns;

verus! {

/// Number of ASCII characters (0-127).
pub const ASCII_RANGE: usize = 128;

/// Number of byte values (0-255).
pub const BYTE_RANGE: usize = 256;

/// Identifier of a node in the builder's table.
pub type RegexNodeId = u32;

/// Bit `i` of `x`.
pub open spec fn bit_of(x: u128, i: u32) -> bool {
    (x >> i) & 1u128 == 1u128
}

/// Where a derivative is taken or a node is tested for the empty word;
/// anchors are nullable only at the matching location.
#[derive(Debug, Clone, Copy, PartialEq, Eq, Structural, Hash)]
pub enum LocationKind {
    /// At the beginning of the string (before the first character).
    Begin,
    /// Neither at the beginning nor at the end.
    Center,
    /// At the end of the string (after the last character).
    End,
    /// Both at the beginning and at the end (the empty string).
    BeginEnd,
}

impl LocationKind {
    pub open spec fn spec_is_begin(self) -> bool {
        self is Begin || self is BeginEnd
    }

    pub open spec fn spec_is_end(self) -> bool {
        self is End || self is BeginEnd
    }

    /// Whether this location is at the beginning.
    #[verifier::when_used_as_spec(spec_is_begin)]
    pub fn is_begin(self) -> (r: bool)
        ensures
            r == self.spec_is_begin(),
    {
        matches!(self, LocationKind::Begin | LocationKind::BeginEnd)
    }

    /// Whether this location is at the end.
    #[verifier::when_used_as_spec(spec_is_end)]
    pub fn is_end(self) -> (r: bool)
        ensures
            r == self.spec_is_end(),
    {
        matches!(self, LocationKind::End | LocationKind::BeginEnd)
    }
}

/// Bit: the node may be nullable at some location.
pub const NODE_CAN_BE_NULLABLE: u8 = 0x01;
/// Bit: the node is nullable at every location.
pub const NODE_IS_ALWAYS_NULLABLE: u8 = 0x02;
/// Bit: the node is a lookaround.
pub const NODE_CONTAINS_LOOKAROUND: u8 = 0x04;
/// Bit: nullability of the node depends on an anchor.
pub const NODE_DEPENDS_ON_ANCHOR: u8 = 0x08;
/// Bit: the node ends with a lookahead.
pub const NODE_HAS_SUFFIX_LOOKAHEAD: u8 = 0x10;
/// Bit: the node starts with a lookbehind.
pub const NODE_HAS_PREFIX_LOOKBEHIND: u8 = 0x20;

/// Flags of a regex node, used to short-circuit nullability tests.
#[derive(Debug, Clone, Copy, PartialEq, Eq, Structural, Default)]
pub struct NodeFlags(u8);

impl View for NodeFlags {
    type V = u8;

    closed spec fn view(&self) -> u8 {
        self.0
    }
}

/// The flag byte has bit `mask` set.
pub open spec fn flag_set(bits: u8, mask: u8) -> bool {
    bits & mask != 0
}

impl NodeFlags {
    /// The flags with the given bits.
    pub fn from_bits(bits: u8) -> (r: Self)
        ensures
            r@ == bits,
    {
        NodeFlags(bits)
    }

    /// The flags made of the four facts a builder tracks.
    pub fn from_facts(always: bool, can: bool, lookaround: bool, anchor: bool) -> (r: Self)
        ensures
            flag_set(r@, NODE_IS_ALWAYS_NULLABLE) == always,
            flag_set(r@, NODE_CAN_BE_NULLABLE) == (can || always),
            flag_set(r@, NODE_CONTAINS_LOOKAROUND) == lookaround,
            flag_set(r@, NODE_DEPENDS_ON_ANCHOR) == anchor,
            r@ & 0xF0u8 == 0,
    {
        assert(NODE_IS_ALWAYS_NULLABLE | NODE_CAN_BE_NULLABLE == 3u8) by (bit_vector);
        let a: u8 = if always { NODE_IS_ALWAYS_NULLABLE | NODE_CAN_BE_NULLABLE } else { 0 };
        let c: u8 = if can { NODE_CAN_BE_NULLABLE } else { 0 };
        let l: u8 = if lookaround { NODE_CONTAINS_LOOKAROUND } else { 0 };
        let n: u8 = if anchor { NODE_DEPENDS_ON_ANCHOR } else { 0 };
        let bits = a | c | l | n;
        assert(flag_set(bits, 2) == always && flag_set(bits, 1) == (can || always) && flag_set(bits, 4)
            == lookaround && flag_set(bits, 8) == anchor) by (bit_vector)
            requires
                a == (if always { 3u8 } else { 0u8 }),
                c == (if can { 1u8 } else { 0u8 }),
                l == (if lookaround { 4u8 } else { 0u8 }),
                n == (if anchor { 8u8 } else { 0u8 }),
                bits == a | c | l | n,
        ;
        assert(bits & 0xF0u8 == 0) by (bit_vector)
            requires
                a == 3u8 || a == 0u8,
                c == 1u8 || c == 0u8,
                l == 4u8 || l == 0u8,
                n == 8u8 || n == 0u8,
                bits == a | c | l | n,
        ;
        NodeFlags(bits)
    }

    /// The bits of the flags.
    pub fn bits(self) -> (r: u8)
        ensures
            r == self@,
    {
        self.0
    }

    /// Whether any bit of `other` is set here.
    pub fn has(self, other: Self) -> (r: bool)
        ensures
            r == (self@ & other@ != 0),
    {
        (self.0 & other.0) != 0
    }

    /// Whether the node is nullable at every location.
    pub fn is_always_nullable(self) -> (r: bool)
        ensures
            r == flag_set(self@, NODE_IS_ALWAYS_NULLABLE),
    {
        self.has(NodeFlags(NODE_IS_ALWAYS_NULLABLE))
    }

    /// Whether the node may be nullable somewhere.
    pub fn can_be_nullable(self) -> (r: bool)
        ensures
            r == flag_set(self@, NODE_CAN_BE_NULLABLE),
    {
        self.has(NodeFlags(NODE_CAN_BE_NULLABLE))
    }

    /// Whether the node is a lookaround.
    pub fn contains_lookaround(self) -> (r: bool)
        ensures
            r == flag_set(self@, NODE_CONTAINS_LOOKAROUND),
    {
        self.has(NodeFlags(NODE_CONTAINS_LOOKAROUND))
    }

    /// Whether the node's nullability depends on an anchor.
    pub fn depends_on_anchor(self) -> (r: bool)
        ensures
            r == flag_set(self@, NODE_DEPENDS_ON_ANCHOR),
    {
        self.has(NodeFlags(NODE_DEPENDS_ON_ANCHOR))
    }

    /// The union of two sets of flags.
    pub fn bitor(self, rhs: Self) -> (r: Self)
        ensures
            r@ == self@ | rhs@,
    {
        NodeFlags(self.0 | rhs.0)
    }

    /// The intersection of two sets of flags.
    pub fn bitand(self, rhs: Self) -> (r: Self)
        ensures
            r@ == self@ & rhs@,
    {
        NodeFlags(self.0 & rhs.0)
    }
}

/// Bit: the state is initial.
pub const STATE_INITIAL: u8 = 0x01;
/// Bit: the state carries a tag.
pub const STATE_HAS_TAG: u8 = 0x02;
/// Bit: the state is nullable at an anchor.
pub const STATE_IS_ANCHOR_NULLABLE: u8 = 0x04;
/// Bit: the state may be skipped over.
pub const STATE_CAN_SKIP: u8 = 0x08;
/// Bit: the state is nullable at the beginning.
pub const STATE_IS_BEGIN_NULLABLE: u8 = 0x10;
/// Bit: the state is nullable at the end.
pub const STATE_IS_END_NULLABLE: u8 = 0x20;
/// Bit: the state is nullable everywhere.
pub const STATE_IS_ALWAYS_NULLABLE: u8 = 0x40;
/// Bit: the state has pending nullability.
pub const STATE_IS_PENDING_NULLABLE: u8 = 0x80;

/// Flags of a DFA state.
#[derive(Debug, Clone, Copy, PartialEq, Eq, Structural, Default)]
pub struct StateFlags(u8);

impl View for StateFlags {
    type V = u8;

    closed spec fn view(&self) -> u8 {
        self.0
    }
}

impl StateFlags {
    /// The flags with the given bits.
    pub fn from_bits(bits: u8) -> (r: Self)
        ensures
            r@ == bits,
    {
        StateFlags(bits)
    }

    /// Whether the always-nullable bit is set.
    pub fn is_always_nullable(self) -> (r: bool)
        ensures
            r == (self@ & STATE_IS_ALWAYS_NULLABLE == STATE_IS_ALWAYS_NULLABLE),
    {
        (self.0 & STATE_IS_ALWAYS_NULLABLE) == STATE_IS_ALWAYS_NULLABLE
    }

    /// Whether the always-nullable or the anchor-nullable bit is set.
    pub fn can_be_nullable(self) -> (r: bool)
        ensures
            r == (self@ & (STATE_IS_ALWAYS_NULLABLE | STATE_IS_ANCHOR_NULLABLE) != 0),
    {
        (self.0 & (STATE_IS_ALWAYS_NULLABLE | STATE_IS_ANCHOR_NULLABLE)) != 0
    }

    /// Whether the initial bit is set.
    pub fn is_initial(self) -> (r: bool)
        ensures
            r == (self@ & STATE_INITIAL == STATE_INITIAL),
    {
        (self.0 & STATE_INITIAL) == STATE_INITIAL
    }

    /// Whether the can-skip bit is set.
    pub fn can_skip(self) -> (r: bool)
        ensures
            r == (self@ & STATE_CAN_SKIP == STATE_CAN_SKIP),
    {
        (self.0 & STATE_CAN_SKIP) == STATE_CAN_SKIP
    }

    /// The union of two sets of flags.
    pub fn bitor(self, rhs: Self) -> (r: Self)
        ensures
            r@ == self@ | rhs@,
    {
        StateFlags(self.0 | rhs.0)
    }
}

/// A set of relative positions of pending lookaround nullability, stored as
/// (start, end) pairs.
#[derive(Debug, Clone, PartialEq, Eq, Default, Hash)]
pub struct RefSet {
    inner: Vec<(u16, u16)>,
}

impl View for RefSet {
    type V = Seq<(u16, u16)>;

    closed spec fn view(&self) -> Seq<(u16, u16)> {
        self.inner@
    }
}

impl RefSet {
    /// The empty set.
    pub fn empty() -> (r: Self)
        ensures
            r@ == Seq::<(u16, u16)>::empty(),
    {
        RefSet { inner: Vec::new() }
    }

    /// The set holding one position.
    pub fn singleton(pos: u16) -> (r: Self)
        ensures
            r@ == seq![(pos, pos)],
    {
        let mut v = Vec::new();
        v.push((pos, pos));
        RefSet { inner: v }
    }

    /// Whether the set is empty.
    pub fn is_empty(&self) -> (r: bool)
        ensures
            r == (self@.len() == 0),
    {
        self.inner.len() == 0
    }

    /// An exact copy.
    pub fn duplicate(&self) -> (r: Self)
        ensures
            r@ == self@,
    {
        let mut v: Vec<(u16, u16)> = Vec::new();
        let mut i: usize = 0;
        while i < self.inner.len()
            invariant
                i <= self.inner@.len(),
                v@ == self.inner@.subrange(0, i as int),
            decreases self.inner@.len() - i,
        {
            v.push(self.inner[i]);
            i = i + 1;
            assert(v@ =~= self.inner@.subrange(0, i as int));
        }
        assert(v@ =~= self.inner@);
        RefSet { inner: v }
    }
}

/// A regex node. Children are ids into the builder's table.
#[derive(Debug, Clone, PartialEq, Eq, Hash)]
pub enum RegexNode<S> {
    /// Matches a single character from the set.
    Singleton(S),
    /// Concatenation: head followed by tail.
    Concat { head: RegexNodeId, tail: RegexNodeId },
    /// Repetition: node{low, high}; `u32::MAX` as high means unbounded.
    Loop { node: RegexNodeId, low: u32, high: u32 },
    /// Alternation: any of the nodes.
    Or(Vec<RegexNodeId>),
    /// Intersection: all of the nodes.
    And(Vec<RegexNodeId>),
    /// Complement.
    Not(RegexNodeId),
    /// Lookaround assertion.
    LookAround {
        node: RegexNodeId,
        look_back: bool,
        relative_to: RegexNodeId,
        pending_nullables: RefSet,
    },
    /// Start of string anchor.
    Begin,
    /// End of string anchor.
    End,
}

/// The structure of a node with its collections as sequences; two nodes are
/// equal under `==` exactly when their views are equal.
pub enum NodeView<V> {
    Singleton(V),
    Concat { head: RegexNodeId, tail: RegexNodeId },
    Loop { node: RegexNodeId, low: u32, high: u32 },
    Or(Seq<RegexNodeId>),
    And(Seq<RegexNodeId>),
    Not(RegexNodeId),
    LookAround {
        node: RegexNodeId,
        look_back: bool,
        relative_to: RegexNodeId,
        pending_nullables: Seq<(u16, u16)>,
    },
    Begin,
    End,
}

impl<S: View> View for RegexNode<S> {
    type V = NodeView<S::V>;

    open spec fn view(&self) -> NodeView<S::V> {
        match self {
            RegexNode::Singleton(s) => NodeView::Singleton(s@),
            RegexNode::Concat { head, tail } => NodeView::Concat { head: *head, tail: *tail },
            RegexNode::Loop { node, low, high } => NodeView::Loop { node: *node, low: *low, high: *high },
            RegexNode::Or(v) => NodeView::Or(v@),
            RegexNode::And(v) => NodeView::And(v@),
            RegexNode::Not(n) => NodeView::Not(*n),
            RegexNode::LookAround { node, look_back, relative_to, pending_nullables } => NodeView::LookAround {
                node: *node,
                look_back: *look_back,
                relative_to: *relative_to,
                pending_nullables: pending_nullables@,
            },
            RegexNode::Begin => NodeView::Begin,
            RegexNode::End => NodeView::End,
        }
    }
}

/// A copy of a list of ids.
pub fn copy_ids(v: &Vec<RegexNodeId>) -> (r: Vec<RegexNodeId>)
    ensures
        r@ == v@,
{
    let mut out: Vec<RegexNodeId> = Vec::new();
    let mut i: usize = 0;
    while i < v.len()
        invariant
            i <= v@.len(),
            out@ == v@.subrange(0, i as int),
        decreases v@.len() - i,
    {
        out.push(v[i]);
        i = i + 1;
        assert(out@ =~= v@.subrange(0, i as int));
    }
    assert(out@ =~= v@);
    out
}

impl RegexNode<CharSet> {
    /// An exact copy of the node.
    pub fn duplicate(&self) -> (r: Self)
        ensures
            r@ == self@,
    {
        match self {
            RegexNode::Singleton(s) => RegexNode::Singleton(s.duplicate()),
            RegexNode::Concat { head, tail } => RegexNode::Concat { head: *head, tail: *tail },
            RegexNode::Loop { node, low, high } => RegexNode::Loop { node: *node, low: *low, high: *high },
            RegexNode::Or(v) => RegexNode::Or(copy_ids(v)),
            RegexNode::And(v) => RegexNode::And(copy_ids(v)),
            RegexNode::Not(n) => RegexNode::Not(*n),
            RegexNode::LookAround { node, look_back, relative_to, pending_nullables } => RegexNode::LookAround {
                node: *node,
                look_back: *look_back,
                relative_to: *relative_to,
                pending_nullables: pending_nullables.duplicate(),
            },
            RegexNode::Begin => RegexNode::Begin,
            RegexNode::End => RegexNode::End,
        }
    }
}

/// Information about a regex node.
#[derive(Debug, Clone, Copy, Default)]
pub struct RegexNodeInfo {
    pub flags: NodeFlags,
}

/// A match: byte offsets of its start (inclusive) and end (exclusive).
#[derive(Debug, Clone, Copy, PartialEq, Eq, Structural)]
pub struct Match {
    /// Start byte offset (inclusive).
    pub start: usize,
    /// End byte offset (exclusive).
    pub end: usize,
}

impl Match {
    /// A match with the given byte offsets.
    pub fn new(start: usize, end: usize) -> (r: Self)
        ensures
            r.start == start,
            r.end == end,
    {
        Match { start, end }
    }

    /// The length of the match in bytes.
    pub fn len(&self) -> (r: usize)
        requires
            self.start <= self.end,
        ensures
            r == self.end - self.start,
    {
        self.end - self.start
    }

    /// Whether the match is empty.
    pub fn is_empty(&self) -> (r: bool)
        ensures
            r == (self.start == self.end),
    {
        self.start == self.end
    }

    /// The matched text of `input`.
    pub fn as_str<'a>(&self, input: &'a str) -> (r: &'a str)
        requires
            self.start <= self.end <= input.spec_bytes().len(),
            vstd::utf8::is_char_boundary(input.spec_bytes(), self.start as int),
            vstd::utf8::is_char_boundary(input.spec_bytes(), self.end as int),
        ensures
            r.spec_bytes() == input.spec_bytes().subrange(self.start as int, self.end as int),
    {
        let (_, rest) = input.split_at(self.start);
        proof {
            let b = input.spec_bytes();
            vstd::utf8::encode_utf8_valid_utf8(input@);
            vstd::utf8::valid_utf8_split(b, self.start as int);
            let rb = b.subrange(self.start as int, b.len() as int);
            assert(rest.spec_bytes() == rb);
            let k = (self.end - self.start) as int;
            if k < rb.len() {
                vstd::utf8::is_char_boundary_iff_not_is_continuation_byte(rb, k);
                vstd::utf8::is_char_boundary_iff_not_is_continuation_byte(b, self.end as int);
                assert(rb[k] == b[self.end as int]);
            } else {
                vstd::utf8::is_char_boundary_start_end_of_seq(rb);
            }
        }
        let (mid, _) = rest.split_at(self.end - self.start);
        proof {
            assert(mid.spec_bytes() =~= input.spec_bytes().subrange(self.start as int, self.end as int));
        }
        mid
    }
}

} // verus!
