//! The meaning of a node table: which words each node accepts, which nodes
//! are nullable at which location, and which nodes are free of anchors and
//! lookarounds.

use vstd::prelude::*;
use crate::charset::{CharSetView, view_contains};
use crate::types::{
    flag_set, LocationKind, NodeView, RegexNodeId, NODE_CAN_BE_NULLABLE, NODE_DEPENDS_ON_ANCHOR,
    NODE_IS_ALWAYS_NULLABLE,
};

verus! {

/// The nodes of a builder, by id.
pub type NodeTable = Seq<NodeView<CharSetView>>;

/// The count of a loop after one more piece has been matched; `u32::MAX`
/// stands for no bound and 0 stays 0.
pub open spec fn decr(x: u32) -> u32 {
    if x == u32::MAX || x == 0 {
        x
    } else {
        (x - 1) as u32
    }
}

/// Every child of the node at `id` has a smaller id; a loop with both bounds
/// zero repeats only the bottom node.
pub open spec fn node_ok(n: NodeView<CharSetView>, id: int) -> bool {
    match n {
        NodeView::Singleton(_) => true,
        NodeView::Concat { head, tail } => head < id && tail < id,
        NodeView::Loop { node, low, high } => node < id && (low == 0 && high == 0 ==> node == 0),
        NodeView::Or(ns) => forall|k: int| 0 <= k < ns.len() ==> (#[trigger] ns[k]) < id,
        NodeView::And(ns) => forall|k: int| 0 <= k < ns.len() ==> (#[trigger] ns[k]) < id,
        NodeView::Not(i) => i < id,
        NodeView::LookAround { node, .. } => node < id,
        NodeView::Begin => true,
        NodeView::End => true,
    }
}

/// The table starts with the seven built-in nodes and every node refers
/// only to earlier ones.
pub open spec fn table_wf(t: NodeTable) -> bool {
    &&& t.len() >= 7
    &&& t[0] == NodeView::<CharSetView>::Or(Seq::empty())
    &&& t[1] == NodeView::<CharSetView>::Loop { node: 0, low: 0, high: 0 }
    &&& t[2] == NodeView::<CharSetView>::And(Seq::empty())
    &&& t[3] == NodeView::<CharSetView>::Loop { node: 2, low: 0, high: u32::MAX }
    &&& t[4] == NodeView::<CharSetView>::Loop { node: 2, low: 1, high: u32::MAX }
    &&& t[5] == NodeView::<CharSetView>::End
    &&& t[6] == NodeView::<CharSetView>::Begin
    &&& forall|id: int| 0 <= id < t.len() ==> node_ok(#[trigger] t[id], id)
}

/// `t2` holds `t1` as a prefix.
pub open spec fn table_extends(t1: NodeTable, t2: NodeTable) -> bool {
    t1.len() <= t2.len() && forall|i: int| 0 <= i < t1.len() ==> #[trigger] t2[i] == t1[i]
}

/// Nullability of a node at a location: the built-in nodes by their
/// meaning, every other node by its structure.
pub open spec fn nullable(t: NodeTable, loc: LocationKind, id: int) -> bool
    decreases id,
{
    if id < 0 || id >= t.len() {
        false
    } else if id == 0 {
        false
    } else if id == 1 {
        true
    } else if id == 2 {
        false
    } else if id == 3 {
        true
    } else if id == 4 {
        false
    } else if id == 5 {
        loc.spec_is_end()
    } else if id == 6 {
        loc.spec_is_begin()
    } else {
        match t[id] {
            NodeView::Singleton(_) => false,
            NodeView::Or(ns) => exists|k: int|
                0 <= k < ns.len() && 0 <= #[trigger] ns[k] < id && nullable(t, loc, ns[k] as int),
            NodeView::And(ns) => forall|k: int|
                0 <= k < ns.len() ==> (0 <= #[trigger] ns[k] < id && nullable(t, loc, ns[k] as int)),
            NodeView::Loop { node, low, .. } => low == 0 || (node < id && nullable(t, loc, node as int)),
            NodeView::Not(i) => i < id && !nullable(t, loc, i as int),
            NodeView::Concat { head, tail } => head < id && tail < id && nullable(t, loc, head as int)
                && nullable(t, loc, tail as int),
            NodeView::LookAround { node, .. } => node < id && nullable(t, loc, node as int),
            NodeView::End => loc.spec_is_end(),
            NodeView::Begin => loc.spec_is_begin(),
        }
    }
}

/// The node at `id` has no anchor, no lookaround and no bare `TOP` below it
/// (`TOP` itself is a placeholder that only the built-in `TOP_STAR` and
/// `TOP_PLUS` repeat).
pub open spec fn plain(t: NodeTable, id: int) -> bool
    decreases id,
{
    if id < 0 || id >= t.len() {
        false
    } else if id == 2 {
        false
    } else if id == 3 || id == 4 {
        true
    } else {
        match t[id] {
            NodeView::Singleton(_) => true,
            NodeView::Concat { head, tail } => head < id && tail < id && plain(t, head as int) && plain(
                t,
                tail as int,
            ),
            NodeView::Loop { node, .. } => node < id && plain(t, node as int),
            NodeView::Or(ns) => forall|k: int|
                0 <= k < ns.len() ==> (0 <= #[trigger] ns[k] < id && plain(t, ns[k] as int)),
            NodeView::And(ns) => forall|k: int|
                0 <= k < ns.len() ==> (0 <= #[trigger] ns[k] < id && plain(t, ns[k] as int)),
            NodeView::Not(i) => i < id && plain(t, i as int),
            NodeView::LookAround { .. } => false,
            NodeView::Begin => false,
            NodeView::End => false,
        }
    }
}

/// The words a node accepts. Node 2 (`TOP`) accepts every single character;
/// every other node is read by its structure. Anchors and lookarounds accept
/// nothing here: their meaning depends on the position in the input, and the
/// laws about words are stated for plain nodes only.
pub open spec fn accepts(t: NodeTable, id: int, w: Seq<char>) -> bool
    decreases id, w.len(), 1int,
{
    if id < 0 || id >= t.len() {
        false
    } else if id == 2 {
        w.len() == 1
    } else {
        match t[id] {
            NodeView::Singleton(cs) => w.len() == 1 && view_contains(cs, w[0]),
            NodeView::Concat { head, tail } => head < id && tail < id && exists|i: int|
                0 <= i <= w.len() && accepts(t, head as int, #[trigger] w.subrange(0, i)) && accepts(
                    t,
                    tail as int,
                    w.subrange(i, w.len() as int),
                ),
            NodeView::Loop { node, low, high } => node < id && loop_accepts(
                t,
                node as int,
                low,
                high,
                w,
            ),
            NodeView::Or(ns) => exists|k: int|
                0 <= k < ns.len() && 0 <= #[trigger] ns[k] < id && accepts(t, ns[k] as int, w),
            NodeView::And(ns) => forall|k: int|
                0 <= k < ns.len() ==> (0 <= #[trigger] ns[k] < id && accepts(t, ns[k] as int, w)),
            NodeView::Not(i) => i < id && !accepts(t, i as int, w),
            NodeView::LookAround { .. } => false,
            NodeView::Begin => false,
            NodeView::End => false,
        }
    }
}

/// The words that `low` to `high` pieces of node `r` make up: the empty word
/// when no piece is required or `r` accepts it, otherwise a non-empty first
/// piece followed by the rest of the repetition. `u32::MAX` as `high` is no
/// bound; a loop whose high count is used up keeps going while pieces are
/// still required.
pub open spec fn loop_accepts(t: NodeTable, r: int, low: u32, high: u32, w: Seq<char>) -> bool
    decreases r + 1, w.len(), 0int,
{
    if r < 0 {
        false
    } else if w.len() == 0 {
        low == 0 || accepts(t, r, w)
    } else {
        (low > 0 || high > 0) && exists|i: int|
            1 <= i <= w.len() && accepts(t, r, #[trigger] w.subrange(0, i)) && loop_accepts(
                t,
                r,
                decr(low),
                decr(high),
                w.subrange(i, w.len() as int),
            )
    }
}

/// `w` splits into a word of `head` followed by a word of `tail`.
pub open spec fn concat_accepts(t: NodeTable, head: int, tail: int, w: Seq<char>) -> bool {
    exists|i: int|
        0 <= i <= w.len() && accepts(t, head, #[trigger] w.subrange(0, i)) && accepts(
            t,
            tail,
            w.subrange(i, w.len() as int),
        )
}

/// Some node of `ids` accepts `w`.
pub open spec fn any_accepts(t: NodeTable, ids: Seq<RegexNodeId>, w: Seq<char>) -> bool {
    exists|k: int| 0 <= k < ids.len() && accepts(t, #[trigger] ids[k] as int, w)
}

/// Every node of `ids` accepts `w`.
pub open spec fn all_accept(t: NodeTable, ids: Seq<RegexNodeId>, w: Seq<char>) -> bool {
    forall|k: int| 0 <= k < ids.len() ==> accepts(t, #[trigger] ids[k] as int, w)
}

/// Every node of `ids` is plain.
pub open spec fn all_plain(t: NodeTable, ids: Seq<RegexNodeId>) -> bool {
    forall|k: int| 0 <= k < ids.len() ==> plain(t, #[trigger] ids[k] as int)
}

/// No node of `ids` has a complement below it.
pub open spec fn all_complement_free(t: NodeTable, ids: Seq<RegexNodeId>) -> bool {
    forall|k: int| 0 <= k < ids.len() ==> complement_free(t, #[trigger] ids[k] as int)
}

/// Every id of `ids` is in the table.
pub open spec fn all_below(ids: Seq<RegexNodeId>, n: int) -> bool {
    forall|k: int| 0 <= k < ids.len() ==> (#[trigger] ids[k]) < n
}

/// `w` is the concatenation of words of the nodes of `ids`, in order.
pub open spec fn concat_all_accepts(t: NodeTable, ids: Seq<RegexNodeId>, w: Seq<char>) -> bool
    decreases ids.len(),
{
    if ids.len() == 0 {
        w.len() == 0
    } else {
        exists|i: int|
            0 <= i <= w.len() && accepts(t, ids[0] as int, #[trigger] w.subrange(0, i))
                && concat_all_accepts(t, ids.subrange(1, ids.len() as int), w.subrange(i, w.len() as int))
    }
}

/// The word made of one character.
pub open spec fn single(c: char) -> Seq<char> {
    seq![c]
}

/// The word `c` followed by `v`.
pub open spec fn cons(c: char, v: Seq<char>) -> Seq<char> {
    seq![c] + v
}

/// Flag bits that agree with nullability: "always" means nullable at every
/// location, no "can be" means nullable at none.
pub open spec fn node_flags_sound(t: NodeTable, bits: u8, id: int) -> bool {
    &&& flag_set(bits, NODE_IS_ALWAYS_NULLABLE) ==> forall|loc: LocationKind| #[trigger] nullable(t, loc, id)
    &&& !flag_set(bits, NODE_CAN_BE_NULLABLE) ==> forall|loc: LocationKind| !#[trigger] nullable(t, loc, id)
    &&& !flag_set(bits, NODE_DEPENDS_ON_ANCHOR) ==> location_free(t, id)
}

/// Node `id` is nullable at every location or at none.
pub open spec fn location_free(t: NodeTable, id: int) -> bool {
    forall|loc: LocationKind| #[trigger] nullable(t, loc, id) == nullable(t, LocationKind::Center, id)
}

/// The flags of every node of the table agree with its nullability.
pub open spec fn flags_sound(t: NodeTable, f: Seq<u8>) -> bool {
    f.len() == t.len() && forall|id: int| 0 <= id < t.len() ==> node_flags_sound(t, #[trigger] f[id], id)
}

/// A map of interned nodes sends each node to an id that holds it.
pub open spec fn map_sound(m: Map<NodeView<CharSetView>, RegexNodeId>, t: NodeTable) -> bool {
    forall|key: NodeView<CharSetView>| #[trigger] m.contains_key(key) ==> m[key] < t.len() && t[m[key] as int] == key
}

// ---------------------------------------------------------------------------
// Extending a table keeps the meaning of its nodes.
pub proof fn lemma_extend_accepts(t1: NodeTable, t2: NodeTable, id: int, w: Seq<char>)
    requires
        table_extends(t1, t2),
        0 <= id < t1.len(),
    ensures
        accepts(t2, id, w) == accepts(t1, id, w),
    decreases id, w.len(), 1int,
{
    if id == 2 {
    } else {
        assert(t2[id] == t1[id]);
        match t1[id] {
            NodeView::Singleton(_) => {},
            NodeView::Concat { head, tail } => {
                if head < id && tail < id {
                    assert forall|i: int| 0 <= i <= w.len() implies (accepts(t2, head as int, #[trigger] w.subrange(0, i))
                        && accepts(t2, tail as int, w.subrange(i, w.len() as int))) == (accepts(t1, head as int, w.subrange(0, i))
                        && accepts(t1, tail as int, w.subrange(i, w.len() as int))) by {
                        lemma_extend_accepts(t1, t2, head as int, w.subrange(0, i));
                        lemma_extend_accepts(t1, t2, tail as int, w.subrange(i, w.len() as int));
                    }
                }
            },
            NodeView::Loop { node, low, high } => {
                if node < id {
                    lemma_extend_loop(t1, t2, node as int, low, high, w);
                }
            },
            NodeView::Or(ns) => {
                assert forall|k: int| 0 <= k < ns.len() && 0 <= #[trigger] ns[k] < id implies accepts(t2, ns[k] as int, w)
                    == accepts(t1, ns[k] as int, w) by {
                    lemma_extend_accepts(t1, t2, ns[k] as int, w);
                }
            },
            NodeView::And(ns) => {
                assert forall|k: int| 0 <= k < ns.len() && 0 <= #[trigger] ns[k] < id implies accepts(t2, ns[k] as int, w)
                    == accepts(t1, ns[k] as int, w) by {
                    lemma_extend_accepts(t1, t2, ns[k] as int, w);
                }
            },
            NodeView::Not(i) => {
                if i < id {
                    lemma_extend_accepts(t1, t2, i as int, w);
                }
            },
            _ => {},
        }
    }
}

pub proof fn lemma_extend_loop(
    t1: NodeTable,
    t2: NodeTable,
    r: int,
    low: u32,
    high: u32,
    w: Seq<char>,
)
    requires
        table_extends(t1, t2),
        0 <= r < t1.len(),
    ensures
        loop_accepts(t2, r, low, high, w) == loop_accepts(t1, r, low, high, w),
    decreases r + 1, w.len(), 0int,
{
    if w.len() == 0 {
        lemma_extend_accepts(t1, t2, r, w);
    } else {
        assert forall|i: int| 1 <= i <= w.len() implies (accepts(t2, r, #[trigger] w.subrange(0, i)) && loop_accepts(
            t2,
            r,
            decr(low),
            decr(high),
            w.subrange(i, w.len() as int),
        )) == (accepts(t1, r, w.subrange(0, i)) && loop_accepts(
            t1,
            r,
            decr(low),
            decr(high),
            w.subrange(i, w.len() as int),
        )) by {
            lemma_extend_accepts(t1, t2, r, w.subrange(0, i));
            lemma_extend_loop(t1, t2, r, decr(low), decr(high), w.subrange(i, w.len() as int));
        }
    }
}

pub proof fn lemma_extend_nullable(t1: NodeTable, t2: NodeTable, loc: LocationKind, id: int)
    requires
        table_extends(t1, t2),
        0 <= id < t1.len(),
    ensures
        nullable(t2, loc, id) == nullable(t1, loc, id),
    decreases id,
{
    if id >= 7 {
        assert(t2[id] == t1[id]);
        match t1[id] {
            NodeView::Concat { head, tail } => {
                if head < id && tail < id {
                    lemma_extend_nullable(t1, t2, loc, head as int);
                    lemma_extend_nullable(t1, t2, loc, tail as int);
                }
            },
            NodeView::Loop { node, .. } => {
                if node < id {
                    lemma_extend_nullable(t1, t2, loc, node as int);
                }
            },
            NodeView::Or(ns) => {
                assert forall|k: int| 0 <= k < ns.len() && 0 <= #[trigger] ns[k] < id implies nullable(t2, loc, ns[k] as int)
                    == nullable(t1, loc, ns[k] as int) by {
                    lemma_extend_nullable(t1, t2, loc, ns[k] as int);
                }
            },
            NodeView::And(ns) => {
                assert forall|k: int| 0 <= k < ns.len() && 0 <= #[trigger] ns[k] < id implies nullable(t2, loc, ns[k] as int)
                    == nullable(t1, loc, ns[k] as int) by {
                    lemma_extend_nullable(t1, t2, loc, ns[k] as int);
                }
            },
            NodeView::Not(i) => {
                if i < id {
                    lemma_extend_nullable(t1, t2, loc, i as int);
                }
            },
            NodeView::LookAround { node, .. } => {
                if node < id {
                    lemma_extend_nullable(t1, t2, loc, node as int);
                }
            },
            _ => {},
        }
    }
}

pub proof fn lemma_extend_plain(t1: NodeTable, t2: NodeTable, id: int)
    requires
        table_extends(t1, t2),
        0 <= id < t1.len(),
    ensures
        plain(t2, id) == plain(t1, id),
    decreases id,
{
    if id != 2 {
        assert(t2[id] == t1[id]);
        match t1[id] {
            NodeView::Concat { head, tail } => {
                if head < id && tail < id {
                    lemma_extend_plain(t1, t2, head as int);
                    lemma_extend_plain(t1, t2, tail as int);
                }
            },
            NodeView::Loop { node, .. } => {
                if node < id {
                    lemma_extend_plain(t1, t2, node as int);
                }
            },
            NodeView::Or(ns) => {
                assert forall|k: int| 0 <= k < ns.len() && 0 <= #[trigger] ns[k] < id implies plain(t2, ns[k] as int)
                    == plain(t1, ns[k] as int) by {
                    lemma_extend_plain(t1, t2, ns[k] as int);
                }
            },
            NodeView::And(ns) => {
                assert forall|k: int| 0 <= k < ns.len() && 0 <= #[trigger] ns[k] < id implies plain(t2, ns[k] as int)
                    == plain(t1, ns[k] as int) by {
                    lemma_extend_plain(t1, t2, ns[k] as int);
                }
            },
            NodeView::Not(i) => {
                if i < id {
                    lemma_extend_plain(t1, t2, i as int);
                }
            },
            _ => {},
        }
    }
}

/// All the facts about the nodes of `t1` carry over to `t2`.
pub proof fn lemma_extend_all(t1: NodeTable, t2: NodeTable, id: int)
    requires
        table_extends(t1, t2),
        0 <= id < t1.len(),
    ensures
        forall|w: Seq<char>| #[trigger] accepts(t2, id, w) == accepts(t1, id, w),
        forall|loc: LocationKind| #[trigger] nullable(t2, loc, id) == nullable(t1, loc, id),
        plain(t2, id) == plain(t1, id),
{
    assert forall|w: Seq<char>| #[trigger] accepts(t2, id, w) == accepts(t1, id, w) by {
        lemma_extend_accepts(t1, t2, id, w);
    }
    assert forall|loc: LocationKind| #[trigger] nullable(t2, loc, id) == nullable(t1, loc, id) by {
        lemma_extend_nullable(t1, t2, loc, id);
    }
    lemma_extend_plain(t1, t2, id);
}

pub proof fn lemma_flags_sound_extend(t1: NodeTable, t2: NodeTable, f1: Seq<u8>, f2: Seq<u8>)
    requires
        flags_sound(t1, f1),
        table_extends(t1, t2),
        f2.len() == t2.len(),
        forall|i: int| 0 <= i < t1.len() ==> #[trigger] f2[i] == f1[i],
        forall|i: int| t1.len() <= i < t2.len() ==> node_flags_sound(t2, #[trigger] f2[i], i),
    ensures
        flags_sound(t2, f2),
{
    assert forall|id: int| 0 <= id < t2.len() implies node_flags_sound(t2, #[trigger] f2[id], id) by {
        if id < t1.len() {
            assert(node_flags_sound(t1, f1[id], id));
            assert forall|loc: LocationKind| #[trigger] nullable(t2, loc, id) == nullable(t1, loc, id) by {
                lemma_extend_nullable(t1, t2, loc, id);
            }
            lemma_extend_nullable(t1, t2, LocationKind::Center, id);
        }
    }
}

pub proof fn lemma_map_sound_extend(m: Map<NodeView<CharSetView>, RegexNodeId>, t1: NodeTable, t2: NodeTable)
    requires
        map_sound(m, t1),
        table_extends(t1, t2),
    ensures
        map_sound(m, t2),
{
    assert forall|key: NodeView<CharSetView>| #[trigger] m.contains_key(key) implies m[key] < t2.len() && t2[m[key] as int] == key by {
        assert(t2[m[key] as int] == t1[m[key] as int]);
    }
}

// ---------------------------------------------------------------------------
// The built-in nodes.
/// `TOP_STAR` accepts every word.
pub proof fn lemma_top_star(t: NodeTable, w: Seq<char>)
    requires
        table_wf(t),
    ensures
        accepts(t, 3, w),
{
    lemma_top_loop(t, w);
}

/// Any number of single characters make up every word.
proof fn lemma_top_loop(t: NodeTable, w: Seq<char>)
    requires
        table_wf(t),
    ensures
        loop_accepts(t, 2, 0, u32::MAX, w),
    decreases w.len(),
{
    if w.len() > 0 {
        lemma_top_loop(t, w.subrange(1, w.len() as int));
        assert(accepts(t, 2, w.subrange(0, 1)));
        assert(loop_accepts(t, 2, 0, u32::MAX, w.subrange(1, w.len() as int)));
    }
}

/// `EPS` accepts the empty word only; `BOT` accepts nothing.
pub proof fn lemma_eps_bot(t: NodeTable, w: Seq<char>)
    requires
        table_wf(t),
    ensures
        accepts(t, 1, w) == (w.len() == 0),
        !accepts(t, 0, w),
{
    if w.len() == 0 {
        assert(loop_accepts(t, 0, 0, 0, w));
    } else {
        assert(!loop_accepts(t, 0, 0, 0, w));
    }
}

/// For a plain node, nullability at any location is acceptance of the empty
/// word.
pub proof fn lemma_plain_nullable(t: NodeTable, loc: LocationKind, id: int)
    requires
        table_wf(t),
        plain(t, id),
    ensures
        nullable(t, loc, id) == accepts(t, id, Seq::<char>::empty()),
    decreases id,
{
    let e = Seq::<char>::empty();
    if id == 0 || id == 1 || id == 2 || id == 3 || id == 4 {
        lemma_eps_bot(t, e);
        if id == 3 {
            lemma_top_star(t, e);
        }
        if id == 1 {
            assert(loop_accepts(t, 0, 0, 0, e));
        }
        if id == 4 {
            assert(t[4] == NodeView::<CharSetView>::Loop { node: 2, low: 1, high: u32::MAX });
            assert(!accepts(t, 2, e));
            assert(!loop_accepts(t, 2, 1, u32::MAX, e));
        }
    } else {
        assert(node_ok(t[id], id));
        match t[id] {
            NodeView::Concat { head, tail } => {
                lemma_plain_nullable(t, loc, head as int);
                lemma_plain_nullable(t, loc, tail as int);
                if accepts(t, id, e) {
                    let i = choose|i: int| 0 <= i <= e.len() && accepts(t, head as int, #[trigger] e.subrange(0, i))
                        && accepts(t, tail as int, e.subrange(i, e.len() as int));
                    assert(e.subrange(0, i) =~= e);
                    assert(e.subrange(i, e.len() as int) =~= e);
                }
                if nullable(t, loc, id) {
                    assert(e.subrange(0, 0) =~= e);
                    assert(e.subrange(0, e.len() as int) =~= e);
                }
            },
            NodeView::Loop { node, low, high } => {
                lemma_plain_nullable(t, loc, node as int);
                assert(loop_accepts(t, node as int, low, high, e) == (low == 0 || accepts(t, node as int, e)));
            },
            NodeView::Or(ns) => {
                assert forall|k: int| 0 <= k < ns.len() && 0 <= #[trigger] ns[k] < id implies nullable(t, loc, ns[k] as int)
                    == accepts(t, ns[k] as int, e) by {
                    lemma_plain_nullable(t, loc, ns[k] as int);
                }
                assert(nullable(t, loc, id) == accepts(t, id, e));
            },
            NodeView::And(ns) => {
                assert forall|k: int| 0 <= k < ns.len() && 0 <= #[trigger] ns[k] < id implies nullable(t, loc, ns[k] as int)
                    == accepts(t, ns[k] as int, e) by {
                    lemma_plain_nullable(t, loc, ns[k] as int);
                }
            },
            NodeView::Not(i) => {
                lemma_plain_nullable(t, loc, i as int);
            },
            NodeView::Singleton(_) => {},
            _ => {
                assert(false);
            },
        }
    }
}

// ---------------------------------------------------------------------------
// Concatenation, loops and lists of nodes.
/// `EPS` is a unit of concatenation and `BOT` absorbs it.
pub proof fn lemma_concat_units(t: NodeTable, x: int, w: Seq<char>)
    requires
        table_wf(t),
    ensures
        concat_accepts(t, 1, x, w) == accepts(t, x, w),
        concat_accepts(t, x, 1, w) == accepts(t, x, w),
        !concat_accepts(t, 0, x, w),
        !concat_accepts(t, x, 0, w),
{
    assert(w.subrange(0, 0).len() == 0);
    assert(w.subrange(0, w.len() as int) =~= w);
    assert(w.subrange(w.len() as int, w.len() as int).len() == 0);
    lemma_eps_bot(t, w.subrange(0, 0));
    lemma_eps_bot(t, w.subrange(w.len() as int, w.len() as int));
    if concat_accepts(t, 1, x, w) {
        let i = choose|i: int| 0 <= i <= w.len() && accepts(t, 1, #[trigger] w.subrange(0, i)) && accepts(
            t,
            x,
            w.subrange(i, w.len() as int),
        );
        lemma_eps_bot(t, w.subrange(0, i));
        assert(w.subrange(i, w.len() as int) =~= w);
    }
    if accepts(t, x, w) {
        assert(w.subrange(0, w.len() as int) =~= w);
        assert(w.subrange(0, 0) =~= Seq::<char>::empty());
        assert(accepts(t, 1, w.subrange(0, 0)));
        assert(w.subrange(0, w.len() as int) == w);
        assert(accepts(t, x, w.subrange(0, w.len() as int)));
    }
    if concat_accepts(t, x, 1, w) {
        let i = choose|i: int| 0 <= i <= w.len() && accepts(t, x, #[trigger] w.subrange(0, i)) && accepts(
            t,
            1,
            w.subrange(i, w.len() as int),
        );
        lemma_eps_bot(t, w.subrange(i, w.len() as int));
        assert(w.subrange(0, i) =~= w);
    }
    if concat_accepts(t, 0, x, w) {
        let i = choose|i: int| 0 <= i <= w.len() && accepts(t, 0, #[trigger] w.subrange(0, i)) && accepts(
            t,
            x,
            w.subrange(i, w.len() as int),
        );
        lemma_eps_bot(t, w.subrange(0, i));
    }
    if concat_accepts(t, x, 0, w) {
        let i = choose|i: int| 0 <= i <= w.len() && accepts(t, x, #[trigger] w.subrange(0, i)) && accepts(
            t,
            0,
            w.subrange(i, w.len() as int),
        );
        lemma_eps_bot(t, w.subrange(i, w.len() as int));
    }
}

/// The simplifications of a loop: `{0,0}` is the empty word, `{1,1}` the node
/// itself, a repetition of `EPS` the empty word, a required repetition of
/// `BOT` nothing.
pub proof fn lemma_loop_units(t: NodeTable, x: int, low: u32, high: u32, w: Seq<char>)
    requires
        table_wf(t),
        0 <= x < t.len(),
    ensures
        loop_accepts(t, x, 0, 0, w) == (w.len() == 0),
        loop_accepts(t, x, 1, 1, w) == accepts(t, x, w),
        loop_accepts(t, 1, low, high, w) == (w.len() == 0),
        low > 0 ==> !loop_accepts(t, 0, low, high, w),
{
    lemma_eps_bot(t, w);
    if w.len() > 0 {
        assert(w.subrange(0, w.len() as int) =~= w);
        let e = w.subrange(w.len() as int, w.len() as int);
        assert(e.len() == 0);
        assert(loop_accepts(t, x, 0, 0, e));
        if loop_accepts(t, x, 1, 1, w) {
            let i = choose|i: int| 1 <= i <= w.len() && accepts(t, x, #[trigger] w.subrange(0, i)) && loop_accepts(
                t,
                x,
                decr(1),
                decr(1),
                w.subrange(i, w.len() as int),
            );
            if i < w.len() {
                assert(!loop_accepts(t, x, 0, 0, w.subrange(i, w.len() as int)));
            }
            assert(w.subrange(0, i) =~= w);
        }
        if accepts(t, x, w) {
            assert(accepts(t, x, w.subrange(0, w.len() as int)));
        }
        if loop_accepts(t, 1, low, high, w) {
            let i = choose|i: int| 1 <= i <= w.len() && accepts(t, 1, #[trigger] w.subrange(0, i)) && loop_accepts(
                t,
                1,
                decr(low),
                decr(high),
                w.subrange(i, w.len() as int),
            );
            lemma_eps_bot(t, w.subrange(0, i));
        }
        if loop_accepts(t, 0, low, high, w) {
            let i = choose|i: int| 1 <= i <= w.len() && accepts(t, 0, #[trigger] w.subrange(0, i)) && loop_accepts(
                t,
                0,
                decr(low),
                decr(high),
                w.subrange(i, w.len() as int),
            );
            lemma_eps_bot(t, w.subrange(0, i));
        }
    } else {
        lemma_eps_bot(t, w);
    }
}

pub proof fn lemma_any_push(t: NodeTable, s: Seq<RegexNodeId>, x: RegexNodeId, w: Seq<char>)
    ensures
        any_accepts(t, s.push(x), w) == (any_accepts(t, s, w) || accepts(t, x as int, w)),
        all_accept(t, s.push(x), w) == (all_accept(t, s, w) && accepts(t, x as int, w)),
{
    let s2 = s.push(x);
    if any_accepts(t, s, w) {
        let k = choose|k: int| 0 <= k < s.len() && accepts(t, #[trigger] s[k] as int, w);
        assert(s2[k] == s[k]);
    }
    if accepts(t, x as int, w) {
        assert(s2[s.len() as int] == x);
    }
    if any_accepts(t, s2, w) {
        let k = choose|k: int| 0 <= k < s2.len() && accepts(t, #[trigger] s2[k] as int, w);
        if k < s.len() {
            assert(s2[k] == s[k]);
        }
    }
    if all_accept(t, s2, w) {
        assert forall|k: int| 0 <= k < s.len() implies accepts(t, #[trigger] s[k] as int, w) by {
            assert(s2[k] == s[k]);
        }
        assert(s2[s.len() as int] == x);
    }
    if all_accept(t, s, w) && accepts(t, x as int, w) {
        assert forall|k: int| 0 <= k < s2.len() implies accepts(t, #[trigger] s2[k] as int, w) by {
            if k < s.len() {
                assert(s2[k] == s[k]);
            }
        }
    }
}

pub proof fn lemma_lists_push(t: NodeTable, s: Seq<RegexNodeId>, x: RegexNodeId, n: int)
    ensures
        all_plain(t, s.push(x)) == (all_plain(t, s) && plain(t, x as int)),
        all_below(s.push(x), n) == (all_below(s, n) && x < n),
        all_complement_free(t, s.push(x)) == (all_complement_free(t, s) && complement_free(t, x as int)),
{
    let s2 = s.push(x);
    if all_complement_free(t, s) && complement_free(t, x as int) {
        assert forall|k: int| 0 <= k < s2.len() implies complement_free(t, #[trigger] s2[k] as int) by {
            if k < s.len() {
                assert(s2[k] == s[k]);
            }
        }
    }
    if all_complement_free(t, s2) {
        assert forall|k: int| 0 <= k < s.len() implies complement_free(t, #[trigger] s[k] as int) by {
            assert(s2[k] == s[k]);
        }
        assert(complement_free(t, s2[s.len() as int] as int));
    }
    assert(s2[s.len() as int] == x);
    assert(forall|k: int| 0 <= k < s.len() ==> #[trigger] s2[k] == s[k]);
    if all_plain(t, s) && plain(t, x as int) {
        assert forall|k: int| 0 <= k < s2.len() implies plain(t, #[trigger] s2[k] as int) by {
            if k < s.len() {
                assert(s2[k] == s[k]);
            }
        }
    }
    if all_below(s, n) && x < n {
        assert forall|k: int| 0 <= k < s2.len() implies (#[trigger] s2[k]) < n by {
            if k < s.len() {
                assert(s2[k] == s[k]);
            }
        }
    }
    if all_plain(t, s2) {
        assert forall|k: int| 0 <= k < s.len() implies plain(t, #[trigger] s[k] as int) by {
            assert(s2[k] == s[k]);
        }
        assert(plain(t, s2[s.len() as int] as int));
    }
    if all_below(s2, n) {
        assert forall|k: int| 0 <= k < s.len() implies (#[trigger] s[k]) < n by {
            assert(s2[k] == s[k]);
        }
        assert(s2[s.len() as int] < n);
    }
}

/// Lists with the same elements have the same meaning.
pub proof fn lemma_lists_same_elements(t: NodeTable, a: Seq<RegexNodeId>, b: Seq<RegexNodeId>, n: int)
    requires
        forall|x: RegexNodeId| a.contains(x) <==> b.contains(x),
    ensures
        forall|w: Seq<char>| #[trigger] any_accepts(t, a, w) == any_accepts(t, b, w),
        forall|w: Seq<char>| #[trigger] all_accept(t, a, w) == all_accept(t, b, w),
        all_plain(t, a) == all_plain(t, b),
        all_below(a, n) == all_below(b, n),
        all_complement_free(t, a) == all_complement_free(t, b),
{
    if all_complement_free(t, a) {
        assert forall|k: int| 0 <= k < b.len() implies complement_free(t, #[trigger] b[k] as int) by {
            assert(b.contains(b[k]));
            let j = choose|j: int| 0 <= j < a.len() && a[j] == b[k];
        }
    }
    if all_complement_free(t, b) {
        assert forall|k: int| 0 <= k < a.len() implies complement_free(t, #[trigger] a[k] as int) by {
            assert(a.contains(a[k]));
            let j = choose|j: int| 0 <= j < b.len() && b[j] == a[k];
        }
    }
    assert forall|w: Seq<char>| #[trigger] any_accepts(t, a, w) == any_accepts(t, b, w) by {
        if any_accepts(t, a, w) {
            let k = choose|k: int| 0 <= k < a.len() && accepts(t, #[trigger] a[k] as int, w);
            assert(a.contains(a[k]));
            let j = choose|j: int| 0 <= j < b.len() && b[j] == a[k];
            assert(accepts(t, b[j] as int, w));
        }
        if any_accepts(t, b, w) {
            let k = choose|k: int| 0 <= k < b.len() && accepts(t, #[trigger] b[k] as int, w);
            assert(b.contains(b[k]));
            let j = choose|j: int| 0 <= j < a.len() && a[j] == b[k];
            assert(accepts(t, a[j] as int, w));
        }
    }
    assert forall|w: Seq<char>| #[trigger] all_accept(t, a, w) == all_accept(t, b, w) by {
        if all_accept(t, a, w) {
            assert forall|k: int| 0 <= k < b.len() implies accepts(t, #[trigger] b[k] as int, w) by {
                assert(b.contains(b[k]));
                let j = choose|j: int| 0 <= j < a.len() && a[j] == b[k];
            }
        }
        if all_accept(t, b, w) {
            assert forall|k: int| 0 <= k < a.len() implies accepts(t, #[trigger] a[k] as int, w) by {
                assert(a.contains(a[k]));
                let j = choose|j: int| 0 <= j < b.len() && b[j] == a[k];
            }
        }
    }
    if all_plain(t, a) {
        assert forall|k: int| 0 <= k < b.len() implies plain(t, #[trigger] b[k] as int) by {
            assert(b.contains(b[k]));
            let j = choose|j: int| 0 <= j < a.len() && a[j] == b[k];
        }
    }
    if all_plain(t, b) {
        assert forall|k: int| 0 <= k < a.len() implies plain(t, #[trigger] a[k] as int) by {
            assert(a.contains(a[k]));
            let j = choose|j: int| 0 <= j < b.len() && b[j] == a[k];
        }
    }
    if all_below(a, n) {
        assert forall|k: int| 0 <= k < b.len() implies (#[trigger] b[k]) < n by {
            assert(b.contains(b[k]));
            let j = choose|j: int| 0 <= j < a.len() && a[j] == b[k];
        }
    }
    if all_below(b, n) {
        assert forall|k: int| 0 <= k < a.len() implies (#[trigger] a[k]) < n by {
            assert(a.contains(a[k]));
            let j = choose|j: int| 0 <= j < b.len() && b[j] == a[k];
        }
    }
}

/// An alternation node accepts what one of its children accepts, an
/// intersection node what all of them accept.
pub proof fn lemma_or_and_node(t: NodeTable, id: int, w: Seq<char>)
    requires
        table_wf(t),
        0 <= id < t.len(),
        id != 2,
    ensures
        t[id] matches NodeView::Or(ns) ==> accepts(t, id, w) == any_accepts(t, ns, w) && plain(t, id) == all_plain(t, ns)
            && complement_free(t, id) == all_complement_free(t, ns),
        t[id] matches NodeView::And(ns) ==> accepts(t, id, w) == all_accept(t, ns, w) && plain(t, id) == all_plain(t, ns)
            && complement_free(t, id) == all_complement_free(t, ns),
{
    assert(node_ok(t[id], id));
    match t[id] {
        NodeView::Or(ns) => {
            assert(forall|k: int| 0 <= k < ns.len() ==> 0 <= #[trigger] ns[k] < id);
        },
        NodeView::And(ns) => {
            assert(forall|k: int| 0 <= k < ns.len() ==> 0 <= #[trigger] ns[k] < id);
        },
        _ => {},
    }
}

/// The built-in nodes `BOT`, `EPS`, `TOP_STAR` and `TOP_PLUS` are plain;
/// the placeholder `TOP` is not.
pub proof fn lemma_builtins_plain(t: NodeTable)
    requires
        table_wf(t),
    ensures
        plain(t, 0),
        plain(t, 1),
        !plain(t, 2),
        plain(t, 3),
        plain(t, 4),
{
    assert(plain(t, 0));
    assert(plain(t, 1));
    assert(plain(t, 3));
    assert(plain(t, 4));
}

pub proof fn lemma_extend_concat_all(t1: NodeTable, t2: NodeTable, ids: Seq<RegexNodeId>, w: Seq<char>)
    requires
        table_extends(t1, t2),
        all_below(ids, t1.len() as int),
    ensures
        concat_all_accepts(t2, ids, w) == concat_all_accepts(t1, ids, w),
    decreases ids.len(),
{
    if ids.len() > 0 {
        let rest = ids.subrange(1, ids.len() as int);
        assert(all_below(rest, t1.len() as int)) by {
            assert forall|k: int| 0 <= k < rest.len() implies (#[trigger] rest[k]) < t1.len() by {
                assert(rest[k] == ids[k + 1]);
            }
        }
        assert forall|i: int| 0 <= i <= w.len() implies (accepts(t2, ids[0] as int, #[trigger] w.subrange(0, i))
            && concat_all_accepts(t2, rest, w.subrange(i, w.len() as int))) == (accepts(t1, ids[0] as int, w.subrange(0, i))
            && concat_all_accepts(t1, rest, w.subrange(i, w.len() as int))) by {
            assert(ids[0] < t1.len());
            lemma_extend_accepts(t1, t2, ids[0] as int, w.subrange(0, i));
            lemma_extend_concat_all(t1, t2, rest, w.subrange(i, w.len() as int));
        }
    }
}

pub proof fn lemma_extend_lists(t1: NodeTable, t2: NodeTable, ids: Seq<RegexNodeId>)
    requires
        table_extends(t1, t2),
        all_below(ids, t1.len() as int),
    ensures
        forall|w: Seq<char>| #[trigger] any_accepts(t2, ids, w) == any_accepts(t1, ids, w),
        forall|w: Seq<char>| #[trigger] all_accept(t2, ids, w) == all_accept(t1, ids, w),
        all_plain(t2, ids) == all_plain(t1, ids),
        all_complement_free(t2, ids) == all_complement_free(t1, ids),
{
    assert forall|k: int| 0 <= k < ids.len() implies (forall|w: Seq<char>| #[trigger] accepts(t2, ids[k] as int, w)
        == accepts(t1, ids[k] as int, w)) && plain(t2, #[trigger] ids[k] as int) == plain(t1, ids[k] as int)
        && complement_free(t2, ids[k] as int) == complement_free(t1, ids[k] as int) by {
        lemma_extend_all(t1, t2, ids[k] as int);
        lemma_complement_free_extend(t1, t2, ids[k] as int);
    }
}

/// A one-element list means its element.
pub proof fn lemma_any_single(t: NodeTable, ids: Seq<RegexNodeId>, w: Seq<char>)
    requires
        ids.len() == 1,
    ensures
        any_accepts(t, ids, w) == accepts(t, ids[0] as int, w),
        all_accept(t, ids, w) == accepts(t, ids[0] as int, w),
        all_plain(t, ids) == plain(t, ids[0] as int),
        all_complement_free(t, ids) == complement_free(t, ids[0] as int),
{
}

// ---------------------------------------------------------------------------
// Reading a first character.
/// A concatenation reads a first character either in its head, or, when the
/// head takes the empty word, in its tail.
pub proof fn lemma_concat_cons(t: NodeTable, head: int, tail: int, c: char, v: Seq<char>)
    ensures
        concat_accepts(t, head, tail, cons(c, v)) == ((accepts(t, head, Seq::empty()) && accepts(t, tail, cons(c, v)))
            || exists|i: int|
            0 <= i <= v.len() && accepts(t, head, #[trigger] cons(c, v.subrange(0, i))) && accepts(
                t,
                tail,
                v.subrange(i, v.len() as int),
            )),
{
    let w = cons(c, v);
    assert(w.subrange(0, 0) =~= Seq::<char>::empty());
    assert(w.subrange(0, w.len() as int) =~= w);
    if concat_accepts(t, head, tail, w) {
        let i = choose|i: int| 0 <= i <= w.len() && accepts(t, head, #[trigger] w.subrange(0, i)) && accepts(
            t,
            tail,
            w.subrange(i, w.len() as int),
        );
        if i > 0 {
            let j = i - 1;
            assert(w.subrange(0, i) =~= cons(c, v.subrange(0, j)));
            assert(w.subrange(i, w.len() as int) =~= v.subrange(j, v.len() as int));
        }
    }
    if exists|i: int|
        0 <= i <= v.len() && accepts(t, head, #[trigger] cons(c, v.subrange(0, i))) && accepts(
            t,
            tail,
            v.subrange(i, v.len() as int),
        ) {
        let i = choose|i: int|
            0 <= i <= v.len() && accepts(t, head, #[trigger] cons(c, v.subrange(0, i))) && accepts(
                t,
                tail,
                v.subrange(i, v.len() as int),
            );
        assert(w.subrange(0, i + 1) =~= cons(c, v.subrange(0, i)));
        assert(w.subrange(i + 1, w.len() as int) =~= v.subrange(i, v.len() as int));
        assert(accepts(t, head, w.subrange(0, i + 1)));
    }
}

/// A repetition reads a first character in its first piece.
pub proof fn lemma_loop_cons(t: NodeTable, r: int, low: u32, high: u32, c: char, v: Seq<char>)
    requires
        r >= 0,
    ensures
        loop_accepts(t, r, low, high, cons(c, v)) == ((low > 0 || high > 0) && exists|i: int|
            0 <= i <= v.len() && accepts(t, r, #[trigger] cons(c, v.subrange(0, i))) && loop_accepts(
                t,
                r,
                decr(low),
                decr(high),
                v.subrange(i, v.len() as int),
            )),
{
    let w = cons(c, v);
    assert(w.len() > 0);
    if loop_accepts(t, r, low, high, w) {
        let i = choose|i: int|
            1 <= i <= w.len() && accepts(t, r, #[trigger] w.subrange(0, i)) && loop_accepts(
                t,
                r,
                decr(low),
                decr(high),
                w.subrange(i, w.len() as int),
            );
        let j = i - 1;
        assert(w.subrange(0, i) =~= cons(c, v.subrange(0, j)));
        assert(w.subrange(i, w.len() as int) =~= v.subrange(j, v.len() as int));
    }
    if (low > 0 || high > 0) && exists|i: int|
        0 <= i <= v.len() && accepts(t, r, #[trigger] cons(c, v.subrange(0, i))) && loop_accepts(
            t,
            r,
            decr(low),
            decr(high),
            v.subrange(i, v.len() as int),
        ) {
        let i = choose|i: int|
            0 <= i <= v.len() && accepts(t, r, #[trigger] cons(c, v.subrange(0, i))) && loop_accepts(
                t,
                r,
                decr(low),
                decr(high),
                v.subrange(i, v.len() as int),
            );
        assert(w.subrange(0, i + 1) =~= cons(c, v.subrange(0, i)));
        assert(w.subrange(i + 1, w.len() as int) =~= v.subrange(i, v.len() as int));
        assert(accepts(t, r, w.subrange(0, i + 1)));
    }
}

/// Extending a table keeps the meaning of a concatenation of old nodes.
pub proof fn lemma_extend_concat(t1: NodeTable, t2: NodeTable, head: int, tail: int)
    requires
        table_extends(t1, t2),
        0 <= head < t1.len(),
        0 <= tail < t1.len(),
    ensures
        forall|w: Seq<char>| #[trigger] concat_accepts(t2, head, tail, w) == concat_accepts(t1, head, tail, w),
{
    lemma_extend_all(t1, t2, head);
    lemma_extend_all(t1, t2, tail);
}

/// An alternation is nullable when one of its children is, an intersection
/// when all of them are.
pub proof fn lemma_nullable_list(t: NodeTable, loc: LocationKind, id: int)
    requires
        table_wf(t),
        7 <= id < t.len(),
    ensures
        t[id] matches NodeView::Or(ns) ==> nullable(t, loc, id) == exists|k: int|
            0 <= k < ns.len() && nullable(t, loc, #[trigger] ns[k] as int),
        t[id] matches NodeView::And(ns) ==> nullable(t, loc, id) == forall|k: int|
            0 <= k < ns.len() ==> nullable(t, loc, #[trigger] ns[k] as int),
{
    assert(node_ok(t[id], id));
    match t[id] {
        NodeView::Or(ns) => {
            assert(forall|k: int| 0 <= k < ns.len() ==> 0 <= #[trigger] ns[k] < id);
        },
        NodeView::And(ns) => {
            assert(forall|k: int| 0 <= k < ns.len() ==> 0 <= #[trigger] ns[k] < id);
        },
        _ => {},
    }
}

/// Node `id` has no complement below it.
pub open spec fn complement_free(t: NodeTable, id: int) -> bool
    decreases id,
{
    if id < 0 || id >= t.len() {
        false
    } else if id <= 6 {
        true
    } else {
        match t[id] {
            NodeView::Singleton(_) => true,
            NodeView::Concat { head, tail } => head < id && tail < id && complement_free(t, head as int)
                && complement_free(t, tail as int),
            NodeView::Loop { node, .. } => node < id && complement_free(t, node as int),
            NodeView::Or(ns) => forall|k: int|
                0 <= k < ns.len() ==> (0 <= #[trigger] ns[k] < id && complement_free(t, ns[k] as int)),
            NodeView::And(ns) => forall|k: int|
                0 <= k < ns.len() ==> (0 <= #[trigger] ns[k] < id && complement_free(t, ns[k] as int)),
            NodeView::Not(_) => false,
            NodeView::LookAround { node, .. } => node < id && complement_free(t, node as int),
            NodeView::Begin => true,
            NodeView::End => true,
        }
    }
}

/// Being free of complements does not depend on later nodes.
pub proof fn lemma_complement_free_extend(t1: NodeTable, t2: NodeTable, id: int)
    requires
        table_extends(t1, t2),
        0 <= id < t1.len(),
    ensures
        complement_free(t2, id) == complement_free(t1, id),
    decreases id,
{
    if id > 6 {
        assert(t2[id] == t1[id]);
        match t1[id] {
            NodeView::Concat { head, tail } => {
                if head < id && tail < id {
                    lemma_complement_free_extend(t1, t2, head as int);
                    lemma_complement_free_extend(t1, t2, tail as int);
                }
            },
            NodeView::Loop { node, .. } => {
                if node < id {
                    lemma_complement_free_extend(t1, t2, node as int);
                }
            },
            NodeView::Or(ns) => {
                assert forall|k: int| 0 <= k < ns.len() && 0 <= #[trigger] ns[k] < id implies complement_free(
                    t2,
                    ns[k] as int,
                ) == complement_free(t1, ns[k] as int) by {
                    lemma_complement_free_extend(t1, t2, ns[k] as int);
                }
            },
            NodeView::And(ns) => {
                assert forall|k: int| 0 <= k < ns.len() && 0 <= #[trigger] ns[k] < id implies complement_free(
                    t2,
                    ns[k] as int,
                ) == complement_free(t1, ns[k] as int) by {
                    lemma_complement_free_extend(t1, t2, ns[k] as int);
                }
            },
            NodeView::LookAround { node, .. } => {
                if node < id {
                    lemma_complement_free_extend(t1, t2, node as int);
                }
            },
            _ => {},
        }
    }
}

/// What a node that takes no character asserts at position `p` of `s`: a
/// lookbehind, that its node accepts a stretch of `s` ending at `p`; a
/// lookahead, one starting at `p`; the anchors, that `p` is the start or the
/// end; and the alternations, concatenations and complements of such
/// assertions. Any other node asserts nothing that holds.
pub open spec fn holds_at(t: NodeTable, id: int, s: Seq<char>, p: int) -> bool
    decreases id, 1int, 0int,
{
    if id < 0 || id >= t.len() {
        false
    } else {
        match t[id] {
            NodeView::LookAround { node, look_back, .. } => if look_back {
                exists|i: int| 0 <= i <= p && #[trigger] accepts(t, node as int, s.subrange(i, p))
            } else {
                exists|e: int| p <= e <= s.len() && #[trigger] accepts(t, node as int, s.subrange(p, e))
            },
            NodeView::Begin => p == 0,
            NodeView::End => p == s.len(),
            NodeView::Not(inner) => inner < id && !holds_at(t, inner as int, s, p),
            NodeView::Concat { head, tail } => head < id && tail < id && holds_at(t, head as int, s, p) && holds_at(
                t,
                tail as int,
                s,
                p,
            ),
            NodeView::Or(ns) => holds_any(t, ns, id, s, p, ns.len() as int),
            _ => false,
        }
    }
}

/// One of the first `k` nodes of `ns`, each before `id`, holds at `p`.
pub open spec fn holds_any(t: NodeTable, ns: Seq<RegexNodeId>, id: int, s: Seq<char>, p: int, k: int) -> bool
    decreases id, 0int, k,
{
    if k <= 0 || k > ns.len() {
        false
    } else {
        holds_any(t, ns, id, s, p, k - 1) || (ns[k - 1] < id && holds_at(t, ns[k - 1] as int, s, p))
    }
}

/// The first `k` nodes of `ns` hold where one of them, each before `id`,
/// does.
proof fn lemma_holds_any(t: NodeTable, ns: Seq<RegexNodeId>, id: int, s: Seq<char>, p: int, k: int)
    requires
        0 <= k <= ns.len(),
        forall|j: int| 0 <= j < ns.len() ==> #[trigger] ns[j] < id,
    ensures
        holds_any(t, ns, id, s, p, k) == exists|j: int| 0 <= j < k && #[trigger] holds_at(t, ns[j] as int, s, p),
    decreases k,
{
    if k > 0 {
        lemma_holds_any(t, ns, id, s, p, k - 1);
        if holds_at(t, ns[k - 1] as int, s, p) {
            assert(exists|j: int| 0 <= j < k && #[trigger] holds_at(t, ns[j] as int, s, p));
        }
        if exists|j: int| 0 <= j < k && #[trigger] holds_at(t, ns[j] as int, s, p) {
            let j = choose|j: int| 0 <= j < k && #[trigger] holds_at(t, ns[j] as int, s, p);
            if j < k - 1 {
                assert(exists|i: int| 0 <= i < k - 1 && #[trigger] holds_at(t, ns[i] as int, s, p));
            }
        }
    }
}

/// A lookbehind of a node that takes one character of a set holds where
/// the character before is in the set.
pub proof fn lemma_lookbehind_char(t: NodeTable, id: int, cs: CharSetView, s: Seq<char>, p: int)
    requires
        0 <= id < t.len(),
        t[id] is LookAround && t[id]->LookAround_look_back,
        forall|w: Seq<char>| #[trigger] accepts(t, t[id]->LookAround_node as int, w) == (w.len() == 1 && view_contains(cs, w[0])),
        0 <= p <= s.len(),
    ensures
        holds_at(t, id, s, p) == (p > 0 && view_contains(cs, s[p - 1])),
{
    let node = t[id]->LookAround_node as int;
    if p > 0 && view_contains(cs, s[p - 1]) {
        assert(s.subrange(p - 1, p)[0] == s[p - 1]);
        assert(accepts(t, node, s.subrange(p - 1, p)));
    }
    if holds_at(t, id, s, p) {
        let i = choose|i: int| 0 <= i <= p && #[trigger] accepts(t, node, s.subrange(i, p));
        assert(s.subrange(i, p).len() == 1);
        assert(s.subrange(i, p)[0] == s[p - 1]);
    }
}

/// A lookahead of a node that takes one character of a set holds where
/// the character after is in the set.
pub proof fn lemma_lookahead_char(t: NodeTable, id: int, cs: CharSetView, s: Seq<char>, p: int)
    requires
        0 <= id < t.len(),
        t[id] is LookAround && !t[id]->LookAround_look_back,
        forall|w: Seq<char>| #[trigger] accepts(t, t[id]->LookAround_node as int, w) == (w.len() == 1 && view_contains(cs, w[0])),
        0 <= p <= s.len(),
    ensures
        holds_at(t, id, s, p) == (p < s.len() && view_contains(cs, s[p])),
{
    let node = t[id]->LookAround_node as int;
    if p < s.len() && view_contains(cs, s[p]) {
        assert(s.subrange(p, p + 1)[0] == s[p]);
        assert(accepts(t, node, s.subrange(p, p + 1)));
    }
    if holds_at(t, id, s, p) {
        let e = choose|e: int| p <= e <= s.len() && #[trigger] accepts(t, node, s.subrange(p, e));
        assert(s.subrange(p, e).len() == 1);
        assert(s.subrange(p, e)[0] == s[p]);
    }
}

/// An alternation of two nodes holds where one of them does.
pub proof fn lemma_holds_or_two(t: NodeTable, id: int, a: RegexNodeId, b: RegexNodeId, s: Seq<char>, p: int)
    requires
        0 <= id < t.len(),
        node_ok(t[id], id),
        t[id] matches NodeView::Or(ns) && (forall|x: RegexNodeId| ns.contains(x) <==> (x == a || x == b)),
    ensures
        holds_at(t, id, s, p) == (holds_at(t, a as int, s, p) || holds_at(t, b as int, s, p)),
{
    let ns = t[id]->Or_0;
    assert(ns.contains(a) && ns.contains(b));
    let ka = choose|k: int| 0 <= k < ns.len() && ns[k] == a;
    let kb = choose|k: int| 0 <= k < ns.len() && ns[k] == b;
    lemma_holds_any(t, ns, id, s, p, ns.len() as int);
    if holds_at(t, id, s, p) {
        let k = choose|k: int| 0 <= k < ns.len() && #[trigger] holds_at(t, ns[k] as int, s, p);
        assert(ns.contains(ns[k]));
    }
    if holds_at(t, a as int, s, p) {
        assert(holds_at(t, ns[ka] as int, s, p));
    }
    if holds_at(t, b as int, s, p) {
        assert(holds_at(t, ns[kb] as int, s, p));
    }
}

} // verus!
