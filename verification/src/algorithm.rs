//! Brzozowski derivatives: nullability of a node and the node that is left
//! after one character has been read.

use vstd::prelude::*;
use crate::builder::{RegexBuilder, NODE_LIMIT};
use crate::charset::{is_char_minterm, lemma_meets_minterm, lemma_minterm_unique, CharSet, CharSetView};
use crate::semantics::{
    accepts, all_accept, all_below, all_plain, any_accepts, concat_accepts, cons, decr, lemma_any_push,
    lemma_any_single, lemma_builtins_plain, lemma_concat_cons, lemma_eps_bot, lemma_extend_all,
    lemma_extend_lists, lemma_lists_push, lemma_loop_cons, lemma_or_and_node, lemma_plain_nullable,
    lemma_top_star, loop_accepts, node_ok, nullable, plain, table_extends, table_wf, NodeTable,
};
use crate::types::node_id;
use crate::types::{LocationKind, NodeView, RegexNode, RegexNodeId};

verus! {

/// Whether node `node_id` is nullable at `loc`, decided by the cached flags
/// when they can, and by the node's structure otherwise.
pub fn is_nullable(builder: &RegexBuilder<CharSet>, loc: LocationKind, node_id: RegexNodeId) -> (r: bool)
    requires
        builder.wf(),
        node_id < builder.spec_len(),
    ensures
        r == nullable(builder.table(), loc, node_id as int),
    decreases node_id, 1int,
{
    let flags = builder.flags(node_id);
    if flags.is_always_nullable() {
        return true;
    }
    if !flags.can_be_nullable() {
        return false;
    }
    is_nullable_slow(builder, loc, node_id)
}

/// Nullability from the node's structure.
fn is_nullable_slow(builder: &RegexBuilder<CharSet>, loc: LocationKind, node_id: RegexNodeId) -> (r: bool)
    requires
        builder.wf(),
        node_id < builder.spec_len(),
    ensures
        r == nullable(builder.table(), loc, node_id as int),
    decreases node_id, 0int,
{
    if node_id == node_id::BOT {
        return false;
    }
    if node_id == node_id::EPS {
        return true;
    }
    if node_id == node_id::TOP {
        return false;
    }
    if node_id == node_id::TOP_STAR {
        return true;
    }
    if node_id == node_id::TOP_PLUS {
        return false;
    }
    if node_id == node_id::END_ANCHOR {
        return loc.is_end();
    }
    if node_id == node_id::BEGIN_ANCHOR {
        return loc.is_begin();
    }
    let ghost t = builder.table();
    proof {
        assert(node_ok(t[node_id as int], node_id as int));
    }
    match builder.node(node_id) {
        RegexNode::Singleton(_) => false,
        RegexNode::Or(nodes) => {
            proof {
                if let NodeView::Or(ms) = t[node_id as int] {
                    assert(ms == nodes@);
                    assert(forall|j: int| 0 <= j < ms.len() ==> (#[trigger] ms[j]) < node_id);
                }
            }
            let mut k: usize = 0;
            while k < nodes.len()
                invariant
                    builder.wf(),
                    builder.table() == t,
                    7 <= node_id < t.len(),
                    t[node_id as int] == NodeView::<CharSetView>::Or(nodes@),
                    forall|j: int| 0 <= j < nodes@.len() ==> (#[trigger] nodes@[j]) < node_id,
                    k <= nodes@.len(),
                    forall|j: int| 0 <= j < k ==> !nullable(t, loc, #[trigger] nodes@[j] as int),
                decreases nodes@.len() - k,
            {
                if is_nullable(builder, loc, nodes[k]) {
                    proof {
                        crate::semantics::lemma_nullable_list(t, loc, node_id as int);
                        assert(nullable(t, loc, nodes@[k as int] as int));
                    }
                    return true;
                }
                k = k + 1;
            }
            false
        },
        RegexNode::And(nodes) => {
            proof {
                if let NodeView::And(ms) = t[node_id as int] {
                    assert(ms == nodes@);
                    assert(forall|j: int| 0 <= j < ms.len() ==> (#[trigger] ms[j]) < node_id);
                }
            }
            let mut k: usize = 0;
            while k < nodes.len()
                invariant
                    builder.wf(),
                    builder.table() == t,
                    7 <= node_id < t.len(),
                    t[node_id as int] == NodeView::<CharSetView>::And(nodes@),
                    forall|j: int| 0 <= j < nodes@.len() ==> (#[trigger] nodes@[j]) < node_id,
                    k <= nodes@.len(),
                    forall|j: int| 0 <= j < k ==> nullable(t, loc, #[trigger] nodes@[j] as int),
                decreases nodes@.len() - k,
            {
                if !is_nullable(builder, loc, nodes[k]) {
                    proof {
                        crate::semantics::lemma_nullable_list(t, loc, node_id as int);
                        assert(!nullable(t, loc, nodes@[k as int] as int));
                    }
                    return false;
                }
                k = k + 1;
            }
            proof {
                crate::semantics::lemma_nullable_list(t, loc, node_id as int);
            }
            true
        },
        RegexNode::Loop { node, low, .. } => *low == 0 || is_nullable(builder, loc, *node),
        RegexNode::Not(inner) => !is_nullable(builder, loc, *inner),
        RegexNode::Concat { head, tail } => is_nullable(builder, loc, *head) && is_nullable(builder, loc, *tail),
        RegexNode::LookAround { node, .. } => is_nullable(builder, loc, *node),
        RegexNode::End => loc.is_end(),
        RegexNode::Begin => loc.is_begin(),
    }
}

/// `r` is the derivative of node `id` by the character `c`: a plain node
/// that accepts `v` exactly when `id` accepts `c` followed by `v`.
pub open spec fn is_derivative(t: NodeTable, id: int, c: char, r: int) -> bool {
    &&& plain(t, r)
    &&& forall|v: Seq<char>| #[trigger] accepts(t, r, v) == accepts(t, id, cons(c, v))
}

/// A node met when matching a plain node followed by the `$` anchor: `BOT`,
/// the anchor alone, or a plain node followed by the anchor.
pub open spec fn end_form(t: NodeTable, s: int) -> bool {
    ||| s == node_id::BOT
    ||| s == node_id::END_ANCHOR
    ||| (0 <= s < t.len() && t[s] is Concat && t[s]->tail == node_id::END_ANCHOR && plain(t, t[s]->head as int))
}

/// What such a node accepts when the word runs up to the end of the input.
pub open spec fn end_accepts(t: NodeTable, s: int, v: Seq<char>) -> bool {
    if s == node_id::END_ANCHOR {
        v.len() == 0
    } else if 0 <= s < t.len() && t[s] is Concat && t[s]->tail == node_id::END_ANCHOR {
        accepts(t, t[s]->head as int, v)
    } else {
        false
    }
}

/// `r` is what node `s` becomes after the character `c`, when the end of
/// the input still lies ahead: such a node again, that accepts `v` up to the
/// end exactly when `s` accepts `c` followed by `v` up to the end.
pub open spec fn end_step(t: NodeTable, s: int, c: char, r: int) -> bool {
    &&& end_form(t, r)
    &&& forall|v: Seq<char>| #[trigger] end_accepts(t, r, v) == end_accepts(t, s, cons(c, v))
}

/// What a derivative step promises: the table only grew and holds the
/// result, and, when the minterm is the set of one character `c`, the node
/// has no anchor or lookaround (or is the placeholder `TOP`), and the table
/// had room for every node asked for, the result is the derivative by `c`.
pub open spec fn derivative_post(t0: NodeTable, t1: NodeTable, m: CharSetView, id: int, r: int) -> bool {
    &&& table_extends(t0, t1)
    &&& 0 <= r < t1.len()
    &&& forall|c: char| #[trigger] is_char_minterm(m, c) && t1.len() < NODE_LIMIT && (plain(t0, id) || id == 2)
        ==> is_derivative(t1, id, c, r)
}

/// The derivative of a concatenation whose head is an anchor: where the
/// anchor holds at `loc`, the derivative of the tail; elsewhere `BOT`.
pub open spec fn anchored_step(
    t0: NodeTable,
    t1: NodeTable,
    loc: LocationKind,
    m: CharSetView,
    head: int,
    tail: int,
    r: int,
) -> bool {
    (t0[head] is Begin || t0[head] is End) ==> if nullable(t0, loc, head) {
        derivative_post(t0, t1, m, tail, r)
    } else {
        r == node_id::BOT
    }
}

/// The count of a loop after one more piece.
fn decr_count(x: u32) -> (r: u32)
    ensures
        r == decr(x),
{
    if x == u32::MAX || x == 0 {
        x
    } else {
        x - 1
    }
}

/// The derivative of node `node_id` with respect to `minterm`, taken at
/// location `loc`.
pub fn derivative(
    builder: &mut RegexBuilder<CharSet>,
    loc: LocationKind,
    minterm: &CharSet,
    node_id: RegexNodeId,
) -> (r: RegexNodeId)
    requires
        old(builder).wf(),
        node_id < old(builder).spec_len(),
    ensures
        final(builder).wf(),
        derivative_post(old(builder).table(), final(builder).table(), minterm@, node_id as int, r as int),
        node_id == node_id::TOP ==> r == node_id::EPS,
        old(builder).table()[node_id as int] is Begin || old(builder).table()[node_id as int] is End ==> r
            == node_id::BOT,
        node_id == node_id::BOT ==> r == node_id::BOT,
        end_form(old(builder).table(), node_id as int) && final(builder).table().len() < NODE_LIMIT ==> forall|c: char|
            #[trigger] is_char_minterm(minterm@, c) ==> end_step(final(builder).table(), node_id as int, c, r as int),
        old(builder).table()[node_id as int] is Concat ==> anchored_step(
            old(builder).table(),
            final(builder).table(),
            loc,
            minterm@,
            old(builder).table()[node_id as int]->head as int,
            old(builder).table()[node_id as int]->tail as int,
            r as int,
        ),
        old(builder).table()[node_id as int] is LookAround ==> exists|d: int|
            derivative_post(
                old(builder).table(),
                final(builder).table(),
                minterm@,
                if old(builder).table()[node_id as int]->LookAround_look_back {
                    lookbehind_body(old(builder).table(), old(builder).table()[node_id as int]->LookAround_node as int)
                } else {
                    old(builder).table()[node_id as int]->LookAround_node as int
                },
                d,
            ) && #[trigger] lookaround_step(
                final(builder).table(),
                loc,
                old(builder).table()[node_id as int]->LookAround_look_back,
                old(builder).table()[node_id as int]->LookAround_relative_to,
                old(builder).table()[node_id as int]->LookAround_pending_nullables,
                d,
                r as int,
            ),
    decreases node_id, 1int,
{
    let ghost t0 = builder.table();
    let ghost id = node_id as int;
    proof {
        lemma_builtins_plain(t0);
        assert(node_ok(t0[id], id));
    }
    if node_id == node_id::TOP {
        proof {
            assert forall|c: char| #[trigger] is_char_minterm(minterm@, c) && t0.len() < NODE_LIMIT && (plain(
                t0,
                id,
            ) || id == 2) implies is_derivative(t0, id, c, node_id::EPS as int) by {
                assert forall|v: Seq<char>| #[trigger] accepts(t0, node_id::EPS as int, v) == accepts(t0, id, cons(c, v)) by {
                    lemma_eps_bot(t0, v);
                }
            }
        }
        return node_id::EPS;
    }
    let node = builder.node(node_id).duplicate();
    proof {
        assert(t0[id] == node@);
    }
    match node {
        RegexNode::Singleton(set) => {
            let meet = set.intersection(minterm);
            let r = if !meet.is_empty() {
                node_id::EPS
            } else {
                node_id::BOT
            };
            proof {
                assert forall|c: char| #[trigger] is_char_minterm(minterm@, c) && t0.len() < NODE_LIMIT && (plain(
                    t0,
                    id,
                ) || id == 2) implies is_derivative(t0, id, c, r as int) by {
                    lemma_meets_minterm(set@, minterm@, meet@, c);
                    assert forall|v: Seq<char>| #[trigger] accepts(t0, r as int, v) == accepts(t0, id, cons(c, v)) by {
                        lemma_eps_bot(t0, v);
                        assert(cons(c, v)[0] == c);
                    }
                }
            }
            r
        },
        RegexNode::Loop { node: inner, low, high } => deriv_loop(builder, loc, minterm, node_id, inner, low, high),
        RegexNode::Or(nodes) => deriv_or(builder, loc, minterm, node_id, &nodes),
        RegexNode::And(nodes) => deriv_and(builder, loc, minterm, node_id, &nodes),
        RegexNode::Not(inner) => {
            let d = derivative(builder, loc, minterm, inner);
            let ghost t1 = builder.table();
            let r = builder.mk_not(d);
            proof {
                let t2 = builder.table();
                lemma_extend_all(t0, t2, inner as int);
                lemma_extend_all(t0, t1, inner as int);
                lemma_extend_all(t0, t2, id);
                lemma_extend_all(t1, t2, d as int);
                assert forall|c: char| #[trigger] is_char_minterm(minterm@, c) && t2.len() < NODE_LIMIT && (plain(
                    t0,
                    id,
                ) || id == 2) implies is_derivative(t2, id, c, r as int) by {
                    crate::semantics::lemma_extend_plain(t0, t1, inner as int);
                    assert(is_derivative(t1, inner as int, c, d as int));
                    assert forall|v: Seq<char>| #[trigger] accepts(t2, r as int, v) == accepts(t2, id, cons(c, v)) by {
                        assert(accepts(t2, d as int, v) == accepts(t1, d as int, v));
                    }
                }
            }
            r
        },
        RegexNode::Concat { head, tail } => deriv_concat(builder, loc, minterm, node_id, head, tail),
        RegexNode::LookAround { node: inner, look_back, relative_to, pending_nullables } => {
            let ghost pv = pending_nullables@;
            proof {
                assert(t0[id] == node@);
            }
            let r = deriv_lookaround(
                builder,
                loc,
                minterm,
                node_id,
                inner,
                look_back,
                relative_to,
                pending_nullables,
            );
            proof {
                let d = choose|d: int|
                    derivative_post(
                        t0,
                        builder.table(),
                        minterm@,
                        if look_back {
                            lookbehind_body(t0, inner as int)
                        } else {
                            inner as int
                        },
                        d,
                    ) && #[trigger] lookaround_step(builder.table(), loc, look_back, relative_to, pv, d, r as int);
                assert(lookaround_step(builder.table(), loc, look_back, relative_to, pv, d, r as int));
                assert(t0[id]->LookAround_look_back == look_back);
                assert(t0[id]->LookAround_node == inner);
                assert(t0[id]->LookAround_relative_to == relative_to);
                assert(t0[id]->LookAround_pending_nullables == pv);
                assert(t0[id] is LookAround ==> exists|d3: int|
                    derivative_post(
                        t0,
                        builder.table(),
                        minterm@,
                        if t0[id]->LookAround_look_back {
                            lookbehind_body(t0, t0[id]->LookAround_node as int)
                        } else {
                            t0[id]->LookAround_node as int
                        },
                        d3,
                    ) && #[trigger] lookaround_step(
                        builder.table(),
                        loc,
                        t0[id]->LookAround_look_back,
                        t0[id]->LookAround_relative_to,
                        t0[id]->LookAround_pending_nullables,
                        d3,
                        r as int,
                    ));
            }
            r
        },
        RegexNode::Begin => node_id::BOT,
        RegexNode::End => node_id::BOT,
    }
}

/// The derivative of a loop by `c`: the derivative `dr` of one piece
/// followed by the rest `r_decr` of the repetition.
proof fn lemma_loop_derivative(
    t: NodeTable,
    id: int,
    inner: RegexNodeId,
    low: u32,
    high: u32,
    dr: int,
    r_decr: int,
    r: int,
    c: char,
)
    requires
        table_wf(t),
        inner < id < t.len(),
        id != 2,
        t[id] == (NodeView::<CharSetView>::Loop { node: inner, low, high }),
        low == 0 && high == 0 ==> inner == 0,
        forall|u: Seq<char>| #[trigger] accepts(t, dr, u) == accepts(t, inner as int, cons(c, u)),
        forall|u: Seq<char>| #[trigger] accepts(t, r_decr, u) == loop_accepts(t, inner as int, decr(low), decr(high), u),
        forall|w: Seq<char>| #[trigger] accepts(t, r, w) == concat_accepts(t, dr, r_decr, w),
    ensures
        forall|v: Seq<char>| #[trigger] accepts(t, r, v) == accepts(t, id, cons(c, v)),
{
    assert forall|v: Seq<char>| #[trigger] accepts(t, r, v) == accepts(t, id, cons(c, v)) by {
        lemma_loop_cons(t, inner as int, low, high, c, v);
        assert(accepts(t, id, cons(c, v)) == loop_accepts(t, inner as int, low, high, cons(c, v)));
        if low == 0 && high == 0 {
            assert forall|i: int| 0 <= i <= v.len() implies !accepts(t, dr, #[trigger] v.subrange(0, i)) by {
                lemma_eps_bot(t, cons(c, v.subrange(0, i)));
            }
        } else {
            if accepts(t, r, v) {
                let i = choose|i: int| 0 <= i <= v.len() && accepts(t, dr, #[trigger] v.subrange(0, i)) && accepts(
                    t,
                    r_decr,
                    v.subrange(i, v.len() as int),
                );
                assert(accepts(t, inner as int, cons(c, v.subrange(0, i))));
            }
            if accepts(t, id, cons(c, v)) {
                let i = choose|i: int|
                    0 <= i <= v.len() && accepts(t, inner as int, #[trigger] cons(c, v.subrange(0, i))) && loop_accepts(
                        t,
                        inner as int,
                        decr(low),
                        decr(high),
                        v.subrange(i, v.len() as int),
                    );
                assert(accepts(t, dr, v.subrange(0, i)));
            }
        }
    }
}

/// The derivative of a loop: the derivative of one piece followed by the
/// rest of the repetition.
fn deriv_loop(
    builder: &mut RegexBuilder<CharSet>,
    loc: LocationKind,
    minterm: &CharSet,
    node_id: RegexNodeId,
    inner: RegexNodeId,
    low: u32,
    high: u32,
) -> (r: RegexNodeId)
    requires
        old(builder).wf(),
        node_id < old(builder).spec_len(),
        old(builder).table()[node_id as int] == (NodeView::<CharSetView>::Loop { node: inner, low, high }),
    ensures
        final(builder).wf(),
        derivative_post(old(builder).table(), final(builder).table(), minterm@, node_id as int, r as int),
    decreases node_id, 0int,
{
    let ghost t0 = builder.table();
    let ghost id = node_id as int;
    proof {
        lemma_builtins_plain(t0);
        assert(node_ok(t0[id], id));
    }
    let dl = decr_count(low);
    let dh = decr_count(high);
    let r_decr = builder.mk_loop(inner, dl, dh);
    let ghost t1 = builder.table();
    let dr = derivative(builder, loc, minterm, inner);
    let ghost t2 = builder.table();
    let r = builder.mk_concat(dr, r_decr);
    proof {
        let t3 = builder.table();
        assert forall|c: char| #[trigger] is_char_minterm(minterm@, c) && t3.len() < NODE_LIMIT && (plain(t0, id)
            || id == 2) implies is_derivative(t3, id, c, r as int) by {
            assert(id != 2);
            crate::semantics::lemma_extend_plain(t0, t1, inner as int);
            assert(is_derivative(t2, inner as int, c, dr as int));
            if inner == 2 {
                assert(id == 3 || id == 4);
                assert(r_decr == node_id::TOP_STAR);
            }
            assert(plain(t1, r_decr as int));
            crate::semantics::lemma_extend_plain(t1, t2, r_decr as int);
            lemma_extend_all(t1, t3, r_decr as int);
            lemma_extend_all(t2, t3, dr as int);
            lemma_extend_all(t0, t3, inner as int);
            lemma_extend_all(t0, t2, inner as int);
            lemma_extend_all(t0, t3, id);
            assert forall|u: Seq<char>| #[trigger] accepts(t3, dr as int, u) == accepts(t3, inner as int, cons(c, u)) by {
                assert(accepts(t2, dr as int, u) == accepts(t2, inner as int, cons(c, u)));
            }
            assert forall|u: Seq<char>| #[trigger] accepts(t3, r_decr as int, u) == loop_accepts(
                t3,
                inner as int,
                decr(low),
                decr(high),
                u,
            ) by {
                crate::semantics::lemma_extend_loop(t1, t3, inner as int, dl, dh, u);
            }
            lemma_loop_derivative(t3, id, inner, low, high, dr as int, r_decr as int, r as int, c);
        }
    }
    r
}

/// The derivative of an alternation: the alternation of the derivatives
/// that are not `BOT`.
fn deriv_or(
    builder: &mut RegexBuilder<CharSet>,
    loc: LocationKind,
    minterm: &CharSet,
    node_id: RegexNodeId,
    nodes: &Vec<RegexNodeId>,
) -> (r: RegexNodeId)
    requires
        old(builder).wf(),
        node_id < old(builder).spec_len(),
        old(builder).table()[node_id as int] == NodeView::<CharSetView>::Or(nodes@),
    ensures
        final(builder).wf(),
        derivative_post(old(builder).table(), final(builder).table(), minterm@, node_id as int, r as int),
        nodes@.len() == 0 ==> r == node_id::BOT,
    decreases node_id, 0int,
{
    let ghost t0 = builder.table();
    let ghost id = node_id as int;
    proof {
        lemma_builtins_plain(t0);
        assert(node_ok(t0[id], id));
        if let NodeView::Or(ms) = t0[id] {
            assert(ms == nodes@);
            assert(forall|j: int| 0 <= j < ms.len() ==> (#[trigger] ms[j]) < node_id);
        }
        assert(forall|j: int| 0 <= j < nodes@.len() ==> (#[trigger] nodes@[j]) < node_id);
        assert(id != 2);
        lemma_or_and_node(t0, id, Seq::empty());
        assert(nodes@.subrange(0, 0) =~= Seq::<RegexNodeId>::empty());
    }
    let mut derivs: Vec<RegexNodeId> = Vec::new();
    let mut k: usize = 0;
    while k < nodes.len()
        invariant
            builder.wf(),
            table_extends(t0, builder.table()),
            id == node_id as int,
            t0 == old(builder).table(),
            0 <= id < t0.len(),
            id != 2,
            t0[id] == NodeView::<CharSetView>::Or(nodes@),
            plain(t0, id) == all_plain(t0, nodes@),
            forall|j: int| 0 <= j < nodes@.len() ==> (#[trigger] nodes@[j]) < node_id,
            k <= nodes@.len(),
            derivs@.len() <= k,
            all_below(derivs@, builder.spec_len()),
            forall|c: char| #[trigger] is_char_minterm(minterm@, c) && builder.spec_len() < NODE_LIMIT && plain(t0, id)
                ==> all_plain(builder.table(), derivs@) && forall|v: Seq<char>| #[trigger] any_accepts(
                builder.table(),
                derivs@,
                v,
            ) == any_accepts(builder.table(), nodes@.subrange(0, k as int), cons(c, v)),
        decreases nodes@.len() - k,
    {
        let ghost t1 = builder.table();
        let ghost d0 = derivs@;
        let ghost x = nodes@[k as int];
        let ghost pre = nodes@.subrange(0, k as int);
        let d = derivative(builder, loc, minterm, nodes[k]);
        if d != node_id::BOT {
            derivs.push(d);
        }
        proof {
            let t2 = builder.table();
            assert(nodes@.subrange(0, k + 1) =~= pre.push(x));
            assert forall|j: int| 0 <= j < pre.len() implies (#[trigger] pre[j]) < t1.len() by {
                assert(pre[j] == nodes@[j]);
            }
            lemma_extend_lists(t1, t2, d0);
            lemma_extend_lists(t1, t2, pre);
            lemma_lists_push(t2, d0, d, t2.len() as int);
            assert forall|c: char| #[trigger] is_char_minterm(minterm@, c) && t2.len() < NODE_LIMIT && plain(t0, id)
                implies all_plain(t2, derivs@) && forall|v: Seq<char>| #[trigger] any_accepts(t2, derivs@, v)
                == any_accepts(t2, nodes@.subrange(0, k + 1), cons(c, v)) by {
                assert(plain(t0, x as int));
                crate::semantics::lemma_extend_plain(t0, t1, x as int);
                assert(is_derivative(t2, x as int, c, d as int));
                assert forall|v: Seq<char>| #[trigger] any_accepts(t2, derivs@, v) == any_accepts(
                    t2,
                    nodes@.subrange(0, k + 1),
                    cons(c, v),
                ) by {
                    lemma_any_push(t2, pre, x, cons(c, v));
                    lemma_any_push(t2, d0, d, v);
                    lemma_eps_bot(t2, v);
                    assert(any_accepts(t1, d0, v) == any_accepts(t1, pre, cons(c, v)));
                }
            }
        }
        k = k + 1;
    }
    proof {
        assert(nodes@.subrange(0, nodes@.len() as int) =~= nodes@);
    }
    let ghost tn = builder.table();
    let ghost dv = derivs@;
    proof {
        lemma_extend_all(t0, tn, id);
        lemma_or_and_node(tn, id, Seq::empty());
    }
    if derivs.len() == 0 {
        proof {
            assert forall|c: char| #[trigger] is_char_minterm(minterm@, c) && tn.len() < NODE_LIMIT && (plain(t0, id)
                || id == 2) implies is_derivative(tn, id, c, 0) by {
                assert forall|v: Seq<char>| #[trigger] accepts(tn, 0, v) == accepts(tn, id, cons(c, v)) by {
                    lemma_eps_bot(tn, v);
                    lemma_or_and_node(tn, id, cons(c, v));
                    assert(any_accepts(tn, derivs@, v) == any_accepts(tn, nodes@, cons(c, v)));
                }
            }
        }
        return node_id::BOT;
    }
    if derivs.len() == 1 {
        let r = derivs[0];
        proof {
            assert forall|c: char| #[trigger] is_char_minterm(minterm@, c) && tn.len() < NODE_LIMIT && (plain(t0, id)
                || id == 2) implies is_derivative(tn, id, c, r as int) by {
                lemma_any_single(tn, dv, Seq::empty());
                assert forall|v: Seq<char>| #[trigger] accepts(tn, r as int, v) == accepts(tn, id, cons(c, v)) by {
                    lemma_any_single(tn, dv, v);
                    lemma_or_and_node(tn, id, cons(c, v));
                    assert(any_accepts(tn, derivs@, v) == any_accepts(tn, nodes@, cons(c, v)));
                }
            }
        }
        return r;
    }
    let r = builder.mk_or(derivs);
    proof {
        let t3 = builder.table();
        lemma_extend_lists(tn, t3, dv);
        lemma_extend_all(tn, t3, id);
        assert forall|c: char| #[trigger] is_char_minterm(minterm@, c) && t3.len() < NODE_LIMIT && (plain(t0, id)
            || id == 2) implies is_derivative(t3, id, c, r as int) by {
            assert forall|v: Seq<char>| #[trigger] accepts(t3, r as int, v) == accepts(t3, id, cons(c, v)) by {
                lemma_or_and_node(tn, id, cons(c, v));
                assert(any_accepts(tn, dv, v) == any_accepts(tn, nodes@, cons(c, v)));
            }
        }
    }
    r
}

/// The derivative of an intersection: `BOT` as soon as one derivative is
/// `BOT`, else the intersection of the derivatives that are not `TOP_STAR`.
fn deriv_and(
    builder: &mut RegexBuilder<CharSet>,
    loc: LocationKind,
    minterm: &CharSet,
    node_id: RegexNodeId,
    nodes: &Vec<RegexNodeId>,
) -> (r: RegexNodeId)
    requires
        old(builder).wf(),
        node_id < old(builder).spec_len(),
        old(builder).table()[node_id as int] == NodeView::<CharSetView>::And(nodes@),
        node_id != node_id::TOP,
    ensures
        final(builder).wf(),
        derivative_post(old(builder).table(), final(builder).table(), minterm@, node_id as int, r as int),
    decreases node_id, 0int,
{
    let ghost t0 = builder.table();
    let ghost id = node_id as int;
    proof {
        lemma_builtins_plain(t0);
        assert(node_ok(t0[id], id));
        if let NodeView::And(ms) = t0[id] {
            assert(ms == nodes@);
            assert(forall|j: int| 0 <= j < ms.len() ==> (#[trigger] ms[j]) < node_id);
        }
        assert(forall|j: int| 0 <= j < nodes@.len() ==> (#[trigger] nodes@[j]) < node_id);
        if id == 2 {
            assert(nodes@ =~= Seq::<RegexNodeId>::empty());
        }
        if id != 2 {
            lemma_or_and_node(t0, id, Seq::empty());
        }
        assert(nodes@.subrange(0, 0) =~= Seq::<RegexNodeId>::empty());
    }
    let mut derivs: Vec<RegexNodeId> = Vec::new();
    let mut k: usize = 0;
    while k < nodes.len()
        invariant
            builder.wf(),
            table_extends(t0, builder.table()),
            id == node_id as int,
            t0 == old(builder).table(),
            0 <= id < t0.len(),
            t0[id] == NodeView::<CharSetView>::And(nodes@),
            plain(t0, id) ==> id != 2 && all_plain(t0, nodes@),
            id == 2 ==> nodes@.len() == 0,
            derivs@.len() <= k,
            forall|j: int| 0 <= j < nodes@.len() ==> (#[trigger] nodes@[j]) < node_id,
            k <= nodes@.len(),
            all_below(derivs@, builder.spec_len()),
            forall|c: char| #[trigger] is_char_minterm(minterm@, c) && builder.spec_len() < NODE_LIMIT && plain(t0, id)
                ==> all_plain(builder.table(), derivs@) && forall|v: Seq<char>| #[trigger] all_accept(
                builder.table(),
                derivs@,
                v,
            ) == all_accept(builder.table(), nodes@.subrange(0, k as int), cons(c, v)),
        decreases nodes@.len() - k,
    {
        let ghost t1 = builder.table();
        let ghost d0 = derivs@;
        let ghost x = nodes@[k as int];
        let ghost pre = nodes@.subrange(0, k as int);
        let d = derivative(builder, loc, minterm, nodes[k]);
        if d == node_id::BOT {
            proof {
                let t2 = builder.table();
                lemma_builtins_plain(t2);
                lemma_extend_all(t0, t2, id);
                assert forall|c: char| #[trigger] is_char_minterm(minterm@, c) && t2.len() < NODE_LIMIT && (plain(t0, id)
                    || id == 2) implies is_derivative(t2, id, c, 0) by {
                    assert(id != 2);
                    assert(plain(t0, x as int));
                    crate::semantics::lemma_extend_plain(t0, t1, x as int);
                    assert(is_derivative(t2, x as int, c, d as int));
                    assert forall|v: Seq<char>| #[trigger] accepts(t2, 0, v) == accepts(t2, id, cons(c, v)) by {
                        lemma_eps_bot(t2, v);
                        lemma_or_and_node(t2, id, cons(c, v));
                        assert(!accepts(t2, nodes@[k as int] as int, cons(c, v)));
                    }
                }
                assert(table_extends(t0, t2));
                assert(derivative_post(t0, t2, minterm@, id, 0));
            }
            return node_id::BOT;
        }
        if d != node_id::TOP_STAR {
            derivs.push(d);
        }
        proof {
            let t2 = builder.table();
            assert(nodes@.subrange(0, k + 1) =~= pre.push(x));
            assert forall|j: int| 0 <= j < pre.len() implies (#[trigger] pre[j]) < t1.len() by {
                assert(pre[j] == nodes@[j]);
            }
            lemma_extend_lists(t1, t2, d0);
            lemma_extend_lists(t1, t2, pre);
            lemma_lists_push(t2, d0, d, t2.len() as int);
            assert forall|c: char| #[trigger] is_char_minterm(minterm@, c) && t2.len() < NODE_LIMIT && plain(t0, id)
                implies all_plain(t2, derivs@) && forall|v: Seq<char>| #[trigger] all_accept(t2, derivs@, v)
                == all_accept(t2, nodes@.subrange(0, k + 1), cons(c, v)) by {
                assert(plain(t0, x as int));
                crate::semantics::lemma_extend_plain(t0, t1, x as int);
                assert(is_derivative(t2, x as int, c, d as int));
                assert forall|v: Seq<char>| #[trigger] all_accept(t2, derivs@, v) == all_accept(
                    t2,
                    nodes@.subrange(0, k + 1),
                    cons(c, v),
                ) by {
                    lemma_any_push(t2, pre, x, cons(c, v));
                    lemma_any_push(t2, d0, d, v);
                    lemma_top_star(t2, v);
                    assert(all_accept(t1, d0, v) == all_accept(t1, pre, cons(c, v)));
                }
            }
        }
        k = k + 1;
    }
    proof {
        assert(nodes@.subrange(0, nodes@.len() as int) =~= nodes@);
    }
    let ghost tn = builder.table();
    let ghost dv = derivs@;
    proof {
        lemma_extend_all(t0, tn, id);
        lemma_builtins_plain(tn);
    }
    if derivs.len() == 0 {
        proof {
            assert forall|c: char| #[trigger] is_char_minterm(minterm@, c) && tn.len() < NODE_LIMIT && (plain(t0, id)
                || id == 2) implies is_derivative(tn, id, c, 3) by {
                assert forall|v: Seq<char>| #[trigger] accepts(tn, 3, v) == accepts(tn, id, cons(c, v)) by {
                    lemma_top_star(tn, v);
                    lemma_or_and_node(tn, id, cons(c, v));
                    assert(all_accept(tn, derivs@, v) == all_accept(tn, nodes@, cons(c, v)));
                }
            }
        }
        return node_id::TOP_STAR;
    }
    if derivs.len() == 1 {
        let r = derivs[0];
        proof {
            assert forall|c: char| #[trigger] is_char_minterm(minterm@, c) && tn.len() < NODE_LIMIT && (plain(t0, id)
                || id == 2) implies is_derivative(tn, id, c, r as int) by {
                lemma_any_single(tn, dv, Seq::empty());
                assert forall|v: Seq<char>| #[trigger] accepts(tn, r as int, v) == accepts(tn, id, cons(c, v)) by {
                    lemma_any_single(tn, dv, v);
                    assert(id != 2);
                    lemma_or_and_node(tn, id, cons(c, v));
                    assert(all_accept(tn, derivs@, v) == all_accept(tn, nodes@, cons(c, v)));
                }
            }
        }
        return r;
    }
    let r = builder.mk_and(derivs);
    proof {
        let t3 = builder.table();
        lemma_extend_lists(tn, t3, dv);
        lemma_extend_all(tn, t3, id);
        assert forall|c: char| #[trigger] is_char_minterm(minterm@, c) && t3.len() < NODE_LIMIT && (plain(t0, id)
            || id == 2) implies is_derivative(t3, id, c, r as int) by {
            assert(!dv.contains(node_id::TOP)) by {
                if dv.contains(node_id::TOP) {
                    let k = choose|k: int| 0 <= k < dv.len() && dv[k] == node_id::TOP;
                    assert(plain(tn, dv[k] as int));
                }
            }
            assert forall|v: Seq<char>| #[trigger] accepts(t3, r as int, v) == accepts(t3, id, cons(c, v)) by {
                lemma_or_and_node(tn, id, cons(c, v));
                assert(all_accept(tn, dv, v) == all_accept(tn, nodes@, cons(c, v)));
            }
        }
    }
    r
}

/// The words of `dhead` followed by `tail`, when `dhead` is the derivative of
/// `head` by `c`.
proof fn lemma_head_derivative(t: NodeTable, head: int, tail: int, dhead: int, rs: int, c: char)
    requires
        forall|u: Seq<char>| #[trigger] accepts(t, dhead, u) == accepts(t, head, cons(c, u)),
        forall|w: Seq<char>| #[trigger] accepts(t, rs, w) == concat_accepts(t, dhead, tail, w),
    ensures
        forall|v: Seq<char>| #[trigger] accepts(t, rs, v) == exists|i: int|
            0 <= i <= v.len() && accepts(t, head, #[trigger] cons(c, v.subrange(0, i))) && accepts(
                t,
                tail,
                v.subrange(i, v.len() as int),
            ),
{
    assert forall|v: Seq<char>| #[trigger] accepts(t, rs, v) == exists|i: int|
        0 <= i <= v.len() && accepts(t, head, #[trigger] cons(c, v.subrange(0, i))) && accepts(
            t,
            tail,
            v.subrange(i, v.len() as int),
        ) by {
        if accepts(t, rs, v) {
            let i = choose|i: int| 0 <= i <= v.len() && accepts(t, dhead, #[trigger] v.subrange(0, i)) && accepts(
                t,
                tail,
                v.subrange(i, v.len() as int),
            );
            assert(accepts(t, head, cons(c, v.subrange(0, i))));
        }
        if exists|i: int|
            0 <= i <= v.len() && accepts(t, head, #[trigger] cons(c, v.subrange(0, i))) && accepts(
                t,
                tail,
                v.subrange(i, v.len() as int),
            ) {
            let i = choose|i: int|
                0 <= i <= v.len() && accepts(t, head, #[trigger] cons(c, v.subrange(0, i))) && accepts(
                    t,
                    tail,
                    v.subrange(i, v.len() as int),
                );
            assert(accepts(t, dhead, v.subrange(0, i)));
        }
    }
}

/// The derivative of a concatenation by `c`, put together from the
/// derivative `rs` of its head part and, when the head takes the empty word,
/// the derivative `dtail` of its tail.
proof fn lemma_concat_derivative(
    t: NodeTable,
    id: int,
    head: RegexNodeId,
    tail: RegexNodeId,
    dhead: int,
    rs: int,
    dtail: int,
    r: int,
    c: char,
    head_nullable: bool,
)
    requires
        head < id,
        tail < id,
        7 <= id < t.len(),
        t[id] == (NodeView::<CharSetView>::Concat { head, tail }),
        head_nullable == accepts(t, head as int, Seq::empty()),
        forall|u: Seq<char>| #[trigger] accepts(t, dhead, u) == accepts(t, head as int, cons(c, u)),
        forall|w: Seq<char>| #[trigger] accepts(t, rs, w) == concat_accepts(t, dhead, tail as int, w),
        head_nullable ==> forall|v: Seq<char>| #[trigger] accepts(t, dtail, v) == accepts(t, tail as int, cons(c, v)),
        head_nullable ==> forall|v: Seq<char>| #[trigger] accepts(t, r, v) == (accepts(t, rs, v) || accepts(t, dtail, v)),
        !head_nullable ==> r == rs,
    ensures
        forall|v: Seq<char>| #[trigger] accepts(t, r, v) == accepts(t, id, cons(c, v)),
{
    lemma_head_derivative(t, head as int, tail as int, dhead, rs, c);
    assert forall|v: Seq<char>| #[trigger] accepts(t, r, v) == accepts(t, id, cons(c, v)) by {
        lemma_concat_cons(t, head as int, tail as int, c, v);
        assert(accepts(t, id, cons(c, v)) == concat_accepts(t, head as int, tail as int, cons(c, v)));
    }
}

/// The derivative of a concatenation: the derivative of the head followed
/// by the tail, together with the derivative of the tail when the head is
/// nullable here.
#[verifier::rlimit(40)]
fn deriv_concat(
    builder: &mut RegexBuilder<CharSet>,
    loc: LocationKind,
    minterm: &CharSet,
    node_id: RegexNodeId,
    head: RegexNodeId,
    tail: RegexNodeId,
) -> (r: RegexNodeId)
    requires
        old(builder).wf(),
        node_id < old(builder).spec_len(),
        old(builder).table()[node_id as int] == (NodeView::<CharSetView>::Concat { head, tail }),
    ensures
        final(builder).wf(),
        derivative_post(old(builder).table(), final(builder).table(), minterm@, node_id as int, r as int),
        anchored_step(old(builder).table(), final(builder).table(), loc, minterm@, head as int, tail as int, r as int),
        tail == node_id::END_ANCHOR && plain(old(builder).table(), head as int) && final(builder).table().len()
            < NODE_LIMIT ==> forall|c: char| #[trigger] is_char_minterm(minterm@, c) ==> end_step(
            final(builder).table(),
            node_id as int,
            c,
            r as int,
        ),
    decreases node_id, 0int,
{
    let ghost t0 = builder.table();
    let ghost id = node_id as int;
    proof {
        lemma_builtins_plain(t0);
        assert(node_ok(t0[id], id));
    }
    let dhead = derivative(builder, loc, minterm, head);
    let ghost t1 = builder.table();
    let rs = builder.mk_concat(dhead, tail);
    let ghost t2 = builder.table();
    let head_nullable = is_nullable(builder, loc, head);
    let ghost mut t3 = builder.table();
    let mut dtail: RegexNodeId = node_id::BOT;
    let r = if head_nullable {
        dtail = derivative(builder, loc, minterm, tail);
        proof {
            t3 = builder.table();
        }
        if dtail == node_id::BOT {
            rs
        } else if rs == node_id::BOT {
            dtail
        } else {
            builder.mk_or2(rs, dtail)
        }
    } else {
        rs
    };
    proof {
        let t4 = builder.table();
        if tail == node_id::END_ANCHOR && plain(t0, head as int) && t4.len() < NODE_LIMIT {
            assert(t2[5] is End);
            if head_nullable {
                assert(dtail == node_id::BOT);
            }
            assert(r == rs);
            crate::semantics::lemma_extend_all(t0, t4, head as int);
            crate::semantics::lemma_extend_all(t1, t4, dhead as int);
            crate::semantics::lemma_extend_all(t0, t1, head as int);
            assert(t4[id] == t0[id]);
            assert forall|c: char| #[trigger] is_char_minterm(minterm@, c) implies end_step(t4, id, c, r as int) by {
                assert(is_derivative(t1, head as int, c, dhead as int));
                assert forall|v: Seq<char>| #[trigger] end_accepts(t4, r as int, v) == end_accepts(t4, id, cons(c, v)) by {
                    assert(end_accepts(t4, id, cons(c, v)) == accepts(t4, head as int, cons(c, v)));
                    assert(accepts(t4, head as int, cons(c, v)) == accepts(t1, head as int, cons(c, v)));
                    assert(accepts(t1, dhead as int, v) == accepts(t1, head as int, cons(c, v)));
                    assert(accepts(t4, dhead as int, v) == accepts(t1, dhead as int, v));
                    lemma_eps_bot(t4, v);
                    if dhead != node_id::BOT && dhead != node_id::EPS {
                        assert(t4[rs as int] == t2[rs as int]);
                    }
                }
                if dhead != node_id::BOT && dhead != node_id::EPS {
                    assert(t4[rs as int] == t2[rs as int]);
                    crate::semantics::lemma_extend_plain(t1, t4, dhead as int);
                }
            }
        }
    }
    proof {
        let t4 = builder.table();
        if t0[head as int] is Begin || t0[head as int] is End {
            assert(dhead == node_id::BOT);
            assert(rs == node_id::BOT);
            if head_nullable {
                assert(r == dtail);
                assert forall|c: char| #[trigger] is_char_minterm(minterm@, c) && t4.len() < NODE_LIMIT && (plain(
                    t0,
                    tail as int,
                ) || tail == 2) implies is_derivative(t4, tail as int, c, r as int) by {
                    if tail != 2 {
                        crate::semantics::lemma_extend_plain(t0, t2, tail as int);
                    }
                }
            }
        }
    }
    proof {
        let t4 = builder.table();
        assert forall|c: char| #[trigger] is_char_minterm(minterm@, c) && t4.len() < NODE_LIMIT && (plain(t0, id)
            || id == 2) implies is_derivative(t4, id, c, r as int) by {
            assert(id != 2 && plain(t0, head as int) && plain(t0, tail as int));
            crate::semantics::lemma_extend_plain(t0, t1, head as int);
            assert(is_derivative(t1, head as int, c, dhead as int));
            crate::semantics::lemma_extend_plain(t0, t2, head as int);
            crate::semantics::lemma_extend_plain(t0, t2, tail as int);
            crate::semantics::lemma_extend_plain(t1, t2, dhead as int);
            assert(plain(t2, rs as int));
            lemma_plain_nullable(t2, loc, head as int);
            lemma_builtins_plain(t4);
            lemma_extend_all(t0, t4, id);
            lemma_extend_all(t0, t2, head as int);
            lemma_extend_all(t0, t4, head as int);
            lemma_extend_all(t0, t1, head as int);
            lemma_extend_all(t1, t4, dhead as int);
            lemma_extend_all(t2, t4, rs as int);
            assert forall|u: Seq<char>| #[trigger] accepts(t4, dhead as int, u) == accepts(t4, head as int, cons(c, u)) by {
                assert(accepts(t1, dhead as int, u) == accepts(t1, head as int, cons(c, u)));
            }
            crate::semantics::lemma_extend_concat(t2, t4, dhead as int, tail as int);
            assert forall|w: Seq<char>| #[trigger] accepts(t4, rs as int, w) == concat_accepts(
                t4,
                dhead as int,
                tail as int,
                w,
            ) by {
                assert(accepts(t2, rs as int, w) == concat_accepts(t2, dhead as int, tail as int, w));
            }
            if head_nullable {
                crate::semantics::lemma_extend_plain(t0, t2, tail as int);
                assert(is_derivative(t3, tail as int, c, dtail as int));
                crate::semantics::lemma_extend_plain(t2, t3, rs as int);
                lemma_extend_all(t3, t4, dtail as int);
                lemma_extend_all(t0, t3, tail as int);
                lemma_extend_all(t0, t4, tail as int);
                assert forall|v: Seq<char>| #[trigger] accepts(t4, dtail as int, v) == accepts(t4, tail as int, cons(c, v)) by {
                    assert(accepts(t3, dtail as int, v) == accepts(t3, tail as int, cons(c, v)));
                }
                assert forall|v: Seq<char>| #[trigger] accepts(t4, r as int, v) == (accepts(t4, rs as int, v) || accepts(
                    t4,
                    dtail as int,
                    v,
                )) by {
                    lemma_eps_bot(t4, v);
                }
            }
            lemma_concat_derivative(
                t4,
                id,
                head,
                tail,
                dhead as int,
                rs as int,
                dtail as int,
                r as int,
                c,
                head_nullable,
            );
        }
    }
    r
}

/// The body whose derivative a lookbehind takes: its inner node without a
/// leading `_*`.
pub open spec fn lookbehind_body(t: NodeTable, inner: int) -> int {
    match t[inner] {
        NodeView::Concat { head, tail } => if head == node_id::TOP_STAR {
            tail as int
        } else {
            inner
        },
        _ => inner,
    }
}

/// The offset of a lookahead one position further on (wrapping at the top).
pub open spec fn next_offset(x: RegexNodeId) -> RegexNodeId {
    if x == u32::MAX {
        0
    } else {
        (x + 1) as RegexNodeId
    }
}

/// Node `r` is what the derivative of a lookaround makes of `d`, the
/// derivative of its body, in table `t`: a lookbehind of `d` (with `_*`
/// giving `EPS` and `BOT` giving `BOT`), or a lookahead of `d` one position
/// further on, whose pending positions become `{0}` where there were none
/// and `d` is nullable at `loc`. Nodes are compared while the table has room.
pub open spec fn lookaround_step(
    t: NodeTable,
    loc: LocationKind,
    look_back: bool,
    relative_to: RegexNodeId,
    pending: Seq<(u16, u16)>,
    d: int,
    r: int,
) -> bool {
    if look_back {
        &&& d == node_id::TOP_STAR ==> r == node_id::EPS
        &&& d == node_id::BOT ==> r == node_id::BOT
        &&& t.len() < NODE_LIMIT && d != node_id::TOP_STAR && d != node_id::BOT ==> t[r] == (NodeView::<
            CharSetView,
        >::LookAround { node: d as RegexNodeId, look_back: true, relative_to: 0, pending_nullables: Seq::empty() })
    } else {
        t.len() < NODE_LIMIT ==> t[r] == (NodeView::<CharSetView>::LookAround {
            node: d as RegexNodeId,
            look_back: false,
            relative_to: next_offset(relative_to),
            pending_nullables: if pending.len() == 0 && nullable(t, loc, d) {
                seq![(0u16, 0u16)]
            } else {
                pending
            },
        })
    }
}

/// A derivative step of node `id` from `t1` to `t2` is one from any earlier
/// table `t0` to any later table `t3`.
proof fn lemma_derivative_post_widen(
    t0: NodeTable,
    t1: NodeTable,
    t2: NodeTable,
    t3: NodeTable,
    m: CharSetView,
    id: int,
    d: int,
)
    requires
        table_extends(t0, t1),
        table_extends(t2, t3),
        0 <= id < t0.len(),
        derivative_post(t1, t2, m, id, d),
    ensures
        derivative_post(t0, t3, m, id, d),
{
    lemma_extend_all(t0, t1, id);
    assert forall|c: char| #[trigger] is_char_minterm(m, c) && t3.len() < NODE_LIMIT && (plain(t0, id) || id == 2)
        implies is_derivative(t3, id, c, d) by {
        assert(is_derivative(t2, id, c, d));
        lemma_extend_all(t2, t3, d);
        lemma_extend_all(t2, t3, id);
    }
}

/// The derivative of a lookaround: a lookbehind takes the derivative of its
/// body (without a leading `_*`); a lookahead keeps the derivative of its
/// body, one position further on, and records that the body was matched.
fn deriv_lookaround(
    builder: &mut RegexBuilder<CharSet>,
    loc: LocationKind,
    minterm: &CharSet,
    node_id: RegexNodeId,
    inner: RegexNodeId,
    look_back: bool,
    relative_to: RegexNodeId,
    pending_nullables: crate::types::RefSet,
) -> (r: RegexNodeId)
    requires
        old(builder).wf(),
        node_id < old(builder).spec_len(),
        old(builder).table()[node_id as int] == (NodeView::<CharSetView>::LookAround {
            node: inner,
            look_back,
            relative_to,
            pending_nullables: pending_nullables@,
        }),
    ensures
        final(builder).wf(),
        derivative_post(old(builder).table(), final(builder).table(), minterm@, node_id as int, r as int),
        exists|d: int|
            derivative_post(
                old(builder).table(),
                final(builder).table(),
                minterm@,
                if look_back {
                    lookbehind_body(old(builder).table(), inner as int)
                } else {
                    inner as int
                },
                d,
            ) && #[trigger] lookaround_step(
                final(builder).table(),
                loc,
                look_back,
                relative_to,
                pending_nullables@,
                d,
                r as int,
            ),
    decreases node_id, 0int,
{
    let ghost t0 = builder.table();
    let ghost id = node_id as int;
    proof {
        assert(node_ok(t0[id], id));
        assert(!plain(t0, id));
    }
    let dr = derivative(builder, loc, minterm, inner);
    if look_back {
        proof {
            assert(node_ok(builder.table()[inner as int], inner as int));
        }
        let body = match builder.node(inner) {
            RegexNode::Concat { head, tail } => if *head == node_id::TOP_STAR {
                *tail
            } else {
                inner
            },
            _ => inner,
        };
        let ghost t1 = builder.table();
        let d = derivative(builder, loc, minterm, body);
        let ghost t2 = builder.table();
        let r = builder.mk_lookbehind(d);
        proof {
            assert(body as int == lookbehind_body(t0, inner as int));
            lemma_derivative_post_widen(t0, t1, t2, builder.table(), minterm@, body as int, d as int);
            assert(lookaround_step(builder.table(), loc, look_back, relative_to, pending_nullables@, d as int, r as int));
        }
        r
    } else {
        let ghost t1 = builder.table();
        let next = relative_to.wrapping_add(1);
        assert(next == next_offset(relative_to));
        let r = if pending_nullables.is_empty() && is_nullable(builder, loc, dr) {
            let new_pending = builder.zero_refset().duplicate();
            builder.intern_lookahead_with_pending(dr, next, new_pending)
        } else {
            builder.intern_lookahead_with_pending(dr, next, pending_nullables)
        };
        proof {
            let t3 = builder.table();
            lemma_derivative_post_widen(t0, t0, t1, t3, minterm@, inner as int, dr as int);
            lemma_extend_all(t1, t3, dr as int);
            assert(lookaround_step(t3, loc, look_back, relative_to, pending_nullables@, dr as int, r as int));
        }
        r
    }
}

} // verus!
