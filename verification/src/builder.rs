//! Regex node builder with structural sharing: structurally equal nodes get
//! the same id (hash-consing), and the smart constructors simplify.

use vstd::prelude::*;
use rustc_hash::FxHashMap;
use crate::charset::{CharSet, CharSetView, view_contains};
use crate::fxmap::{interned_nodes, node_map_get, node_map_insert, node_map_new};
use crate::semantics::{
    lemma_any_push, lemma_lists_push, lemma_lists_same_elements, lemma_or_and_node, lemma_extend_lists,
    lemma_any_single,
    accepts, all_accept, all_below, all_plain, any_accepts, concat_accepts, concat_all_accepts,
    flags_sound, lemma_eps_bot, lemma_extend_accepts, lemma_extend_all, lemma_extend_concat_all,
    lemma_extend_nullable,
    lemma_extend_plain, lemma_flags_sound_extend, lemma_map_sound_extend, lemma_top_star,
    loop_accepts, map_sound, node_flags_sound, node_ok, nullable, plain, table_extends, table_wf, all_complement_free,
    location_free,
    complement_free, lemma_complement_free_extend,
    NodeTable,
};
use crate::types::node_id;
use crate::types::{
    flag_set, LocationKind, NodeFlags, NodeView, RefSet, RegexNode, RegexNodeId, RegexNodeInfo,
    NODE_CAN_BE_NULLABLE, NODE_CONTAINS_LOOKAROUND, NODE_DEPENDS_ON_ANCHOR, NODE_IS_ALWAYS_NULLABLE,
};

verus! {

/// Flag `mask` is set for node `id` in the flag list `f`.
pub open spec fn has_flag(f: Seq<u8>, id: RegexNodeId, mask: u8) -> bool {
    flag_set(f[id as int], mask)
}

/// Flag `mask` is set for some node of `ns`.
pub open spec fn any_flag(f: Seq<u8>, ns: Seq<RegexNodeId>, mask: u8) -> bool {
    exists|j: int| 0 <= j < ns.len() && #[trigger] has_flag(f, ns[j], mask)
}

/// Flag `mask` is set for every node of `ns`.
pub open spec fn every_flag(f: Seq<u8>, ns: Seq<RegexNodeId>, mask: u8) -> bool {
    forall|j: int| 0 <= j < ns.len() ==> #[trigger] has_flag(f, ns[j], mask)
}

/// The flags of a node from the flags `f` of the nodes below it, as
/// (always nullable, can be nullable, contains a lookaround, depends on an
/// anchor): a concatenation, an intersection or a loop with a lower count
/// needs all parts nullable; a union one part; a loop from zero is always
/// nullable; a complement turns "never" into "always" and "always" into
/// "never"; a lookaround marks itself; anchors may be nullable and depend
/// on where they stand; the anchor dependency spreads upward.
pub open spec fn node_flag_facts(node: NodeView<CharSetView>, f: Seq<u8>) -> (bool, bool, bool, bool) {
    let a = NODE_IS_ALWAYS_NULLABLE;
    let c = NODE_CAN_BE_NULLABLE;
    let n = NODE_DEPENDS_ON_ANCHOR;
    match node {
        NodeView::Singleton(_) => (false, false, false, false),
        NodeView::Concat { head, tail } => (
            has_flag(f, head, a) && has_flag(f, tail, a),
            has_flag(f, head, c) && has_flag(f, tail, c),
            false,
            has_flag(f, head, n) || has_flag(f, tail, n),
        ),
        NodeView::Loop { node: inner, low, .. } => if low == 0 {
            (true, true, false, false)
        } else {
            (has_flag(f, inner, a), has_flag(f, inner, c), false, has_flag(f, inner, n))
        },
        NodeView::Or(ns) => (any_flag(f, ns, a), any_flag(f, ns, c), false, any_flag(f, ns, n)),
        NodeView::And(ns) => (every_flag(f, ns, a), every_flag(f, ns, c), false, any_flag(f, ns, n)),
        NodeView::Not(inner) => (!has_flag(f, inner, c), !has_flag(f, inner, a), false, has_flag(f, inner, n)),
        NodeView::LookAround { node: inner, .. } => (
            has_flag(f, inner, a),
            has_flag(f, inner, c),
            true,
            has_flag(f, inner, n),
        ),
        NodeView::Begin => (false, true, false, true),
        NodeView::End => (false, true, false, true),
    }
}

/// One more node of a list adds its flag to "some" and to "every".
proof fn lemma_flags_step(f: Seq<u8>, ns: Seq<RegexNodeId>, k: int, mask: u8)
    requires
        0 <= k < ns.len(),
    ensures
        any_flag(f, ns.subrange(0, k + 1), mask) == (any_flag(f, ns.subrange(0, k), mask) || has_flag(f, ns[k], mask)),
        every_flag(f, ns.subrange(0, k + 1), mask) == (every_flag(f, ns.subrange(0, k), mask) && has_flag(f, ns[k], mask)),
        any_flag(f, ns.subrange(0, 0), mask) == false,
        every_flag(f, ns.subrange(0, 0), mask),
{
    let a = ns.subrange(0, k);
    let b = ns.subrange(0, k + 1);
    assert(b[k] == ns[k]);
    assert forall|j: int| 0 <= j < k implies #[trigger] b[j] == a[j] by {}
    if any_flag(f, b, mask) {
        let j = choose|j: int| 0 <= j < b.len() && #[trigger] has_flag(f, b[j], mask);
        if j < k {
            assert(a[j] == b[j]);
        }
    }
    if any_flag(f, a, mask) {
        let j = choose|j: int| 0 <= j < a.len() && #[trigger] has_flag(f, a[j], mask);
        assert(b[j] == a[j]);
    }
    if every_flag(f, a, mask) && has_flag(f, ns[k], mask) {
        assert forall|j: int| 0 <= j < b.len() implies #[trigger] has_flag(f, b[j], mask) by {
            if j < k {
                assert(b[j] == a[j]);
            }
        }
    }
    if every_flag(f, b, mask) {
        assert(has_flag(f, b[k], mask));
        assert forall|j: int| 0 <= j < a.len() implies #[trigger] has_flag(f, a[j], mask) by {
            assert(has_flag(f, b[j], mask));
        }
    }
}

/// The most nodes a builder holds: every id stays below `u32::MAX`.
pub const NODE_LIMIT: usize = 4294967295;

/// Builder for regex nodes with structural sharing.
pub struct RegexBuilder<S> {
    /// All nodes, by id.
    nodes: Vec<RegexNode<S>>,
    /// Flags of each node.
    infos: Vec<RegexNodeInfo>,
    /// From each interned node to its id.
    node_map: FxHashMap<RegexNode<S>, RegexNodeId>,
    /// The empty position set.
    empty_refset: RefSet,
    /// The position set holding position 0.
    zero_refset: RefSet,
}

impl RegexBuilder<CharSet> {
    /// The nodes of the builder, by id.
    pub closed spec fn table(&self) -> NodeTable {
        self.nodes@.map_values(|n: RegexNode<CharSet>| n@)
    }

    /// The flag bits of the nodes, by id.
    pub closed spec fn flag_bits(&self) -> Seq<u8> {
        self.infos@.map_values(|i: RegexNodeInfo| i.flags@)
    }

    /// The number of nodes.
    pub open spec fn spec_len(&self) -> int {
        self.table().len() as int
    }

    /// The table has not reached the node limit: every node asked for so far
    /// was created as asked.
    pub open spec fn room(&self) -> bool {
        self.table().len() < NODE_LIMIT
    }

    pub closed spec fn private_wf(&self) -> bool {
        &&& self.nodes@.len() == self.infos@.len()
        &&& map_sound(interned_nodes(self.node_map), self.table())
        &&& self.empty_refset@ == Seq::<(u16, u16)>::empty()
        &&& self.zero_refset@ == seq![(0u16, 0u16)]
        &&& forall|i: int|
            7 <= i < self.table().len() ==> interned_nodes(self.node_map).contains_key(#[trigger] self.table()[i])
                && interned_nodes(self.node_map)[self.table()[i]] == i
    }

    /// The builder's invariant: the table is well formed, its flags agree
    /// with nullability, and the interned map points at equal nodes.
    pub open spec fn wf(&self) -> bool {
        &&& self.private_wf()
        &&& table_wf(self.table())
        &&& flags_sound(self.table(), self.flag_bits())
        &&& self.table().len() <= NODE_LIMIT
    }

    /// Creates a builder holding the seven built-in nodes.
    pub fn new() -> (r: Self)
        ensures
            r.wf(),
            r.table().len() == 7,
    {
        let mut builder = RegexBuilder {
            nodes: Vec::new(),
            infos: Vec::new(),
            node_map: node_map_new(),
            empty_refset: RefSet::empty(),
            zero_refset: RefSet::singleton(0),
        };
        builder.init_builtin_nodes();
        builder
    }

    fn init_builtin_nodes(&mut self)
        requires
            old(self).nodes@.len() == 0,
            old(self).infos@.len() == 0,
            forall|k: NodeView<CharSetView>| !(#[trigger] interned_nodes(old(self).node_map).contains_key(k)),
            old(self).empty_refset@ == Seq::<(u16, u16)>::empty(),
            old(self).zero_refset@ == seq![(0u16, 0u16)],
        ensures
            final(self).wf(),
            final(self).table().len() == 7,
    {
        let bot = RegexNode::Or(Vec::new());
        self.add_node_with_flags(bot, NodeFlags::from_facts(false, false, false, false));
        let eps = RegexNode::Loop { node: node_id::BOT, low: 0, high: 0 };
        self.add_node_with_flags(eps, NodeFlags::from_facts(true, true, false, false));
        let top = RegexNode::And(Vec::new());
        self.add_node_with_flags(top, NodeFlags::from_facts(false, false, false, false));
        let top_star = RegexNode::Loop { node: node_id::TOP, low: 0, high: u32::MAX };
        self.add_node_with_flags(top_star, NodeFlags::from_facts(true, true, false, false));
        let top_plus = RegexNode::Loop { node: node_id::TOP, low: 1, high: u32::MAX };
        self.add_node_with_flags(top_plus, NodeFlags::from_facts(false, false, false, false));
        let end = RegexNode::End;
        self.add_node_with_flags(end, NodeFlags::from_facts(false, true, false, true));
        let begin = RegexNode::Begin;
        self.add_node_with_flags(begin, NodeFlags::from_facts(false, true, false, true));
        proof {
            let t = self.table();
            assert(t[0] == NodeView::<CharSetView>::Or(Seq::empty()));
            assert(t[2] == NodeView::<CharSetView>::And(Seq::empty()));
            assert forall|id: int| 0 <= id < t.len() implies node_ok(#[trigger] t[id], id) by {}
            assert(table_wf(t));
            assert forall|id: int| 0 <= id < t.len() implies node_flags_sound(t, #[trigger] self.flag_bits()[id], id) by {}
            assert(map_sound(interned_nodes(self.node_map), t));
        }
    }

    fn add_node_with_flags(&mut self, node: RegexNode<CharSet>, flags: NodeFlags) -> (r: RegexNodeId)
        requires
            old(self).nodes@.len() == old(self).infos@.len(),
            old(self).nodes@.len() < 7,
        ensures
            r == old(self).nodes@.len(),
            final(self).nodes@.len() == old(self).nodes@.len() + 1,
            final(self).table() == old(self).table().push(node@),
            final(self).flag_bits() == old(self).flag_bits().push(flags@),
            final(self).nodes@.len() == final(self).infos@.len(),
            final(self).node_map == old(self).node_map,
            final(self).empty_refset == old(self).empty_refset,
            final(self).zero_refset == old(self).zero_refset,
    {
        let id = self.nodes.len() as RegexNodeId;
        self.nodes.push(node);
        self.infos.push(RegexNodeInfo { flags });
        proof {
            assert(self.table() =~= old(self).table().push(node@));
            assert(self.flag_bits() =~= old(self).flag_bits().push(flags@));
        }
        id
    }

    /// The node with the given id.
    pub fn node(&self, id: RegexNodeId) -> (r: &RegexNode<CharSet>)
        requires
            self.wf(),
            id < self.spec_len(),
        ensures
            r@ == self.table()[id as int],
    {
        &self.nodes[id as usize]
    }

    /// The flags of the node with the given id.
    pub fn flags(&self, id: RegexNodeId) -> (r: NodeFlags)
        requires
            self.wf(),
            id < self.spec_len(),
        ensures
            r@ == self.flag_bits()[id as int],
            node_flags_sound(self.table(), r@, id as int),
    {
        proof {
            assert(self.flag_bits()[id as int] == self.infos@[id as int].flags@);
            assert(node_flags_sound(self.table(), self.flag_bits()[id as int], id as int));
        }
        self.infos[id as usize].flags
    }

    /// The number of nodes.
    pub fn len(&self) -> (r: usize)
        requires
            self.wf(),
        ensures
            r == self.spec_len(),
    {
        self.nodes.len()
    }

    /// Interns a node: the id of an equal node if there is one, else a new id.
    /// Once the table is full it takes no more nodes and yields `BOT`.
    fn intern(&mut self, node: RegexNode<CharSet>) -> (r: RegexNodeId)
        requires
            old(self).wf(),
            node_ok(node@, old(self).spec_len()),
        ensures
            final(self).wf(),
            table_extends(old(self).table(), final(self).table()),
            final(self).spec_len() <= old(self).spec_len() + 1,
            r < final(self).spec_len(),
            final(self).table()[r as int] == node@ || (r == node_id::BOT && !old(self).room()),
            !old(self).room() ==> final(self).table() == old(self).table(),
            forall|j: int| 7 <= j < old(self).spec_len() && #[trigger] old(self).table()[j] == node@ ==> r == j,
    {
        if let Some(id) = node_map_get(&self.node_map, &node) {
            return id;
        }
        if self.nodes.len() >= NODE_LIMIT {
            return node_id::BOT;
        }
        let flags = self.compute_flags(&node);
        let id = self.nodes.len() as RegexNodeId;
        let ghost t1 = self.table();
        let ghost f1 = self.flag_bits();
        let ghost m1 = interned_nodes(self.node_map);
        self.nodes.push(node.duplicate());
        self.infos.push(RegexNodeInfo { flags });
        node_map_insert(&mut self.node_map, node, id);
        proof {
            let t2 = self.table();
            assert(t2 =~= t1.push(node@));
            assert(self.flag_bits() =~= f1.push(flags@));
            assert(table_extends(t1, t2));
            assert forall|i: int| 0 <= i < t2.len() implies node_ok(#[trigger] t2[i], i) by {
                if i < t1.len() {
                    assert(t2[i] == t1[i]);
                }
            }
            lemma_flags_sound_extend(t1, t2, f1, self.flag_bits());
            lemma_map_sound_extend(m1, t1, t2);
            assert forall|key: NodeView<CharSetView>| #[trigger] interned_nodes(self.node_map).contains_key(key)
                implies interned_nodes(self.node_map)[key] < t2.len() && t2[interned_nodes(self.node_map)[key] as int]
                == key by {
                if key != node@ {
                    assert(m1.contains_key(key));
                }
            }
        }
        proof {
            let t2 = self.table();
            let m2 = interned_nodes(self.node_map);
            assert forall|i: int| 7 <= i < t2.len() implies m2.contains_key(#[trigger] t2[i]) && m2[t2[i]] == i by {
                if i < t1.len() {
                    assert(t2[i] == t1[i]);
                    assert(m1.contains_key(t1[i]) && m1[t1[i]] == i);
                    assert(t1[i] != node@);
                } else {
                    assert(t2[i] == node@);
                }
            }
        }
        id
    }

    /// Two nodes created through interning (every node past the seven
    /// built-in ones) are different: equal nodes share one id.
    pub proof fn lemma_interned_unique(&self, i: int, j: int)
        requires
            self.wf(),
            7 <= i < self.spec_len(),
            7 <= j < self.spec_len(),
            self.table()[i] == self.table()[j],
        ensures
            i == j,
    {
    }

    /// The flags of a node about to be added, from the flags of its children.
    fn compute_flags(&self, node: &RegexNode<CharSet>) -> (r: NodeFlags)
        requires
            self.wf(),
            node_ok(node@, self.spec_len()),
        ensures
            node_flags_sound(self.table().push(node@), r@, self.spec_len()),
            flag_set(r@, NODE_IS_ALWAYS_NULLABLE) == node_flag_facts(node@, self.flag_bits()).0,
            flag_set(r@, NODE_CAN_BE_NULLABLE) == (node_flag_facts(node@, self.flag_bits()).1 || node_flag_facts(
                node@,
                self.flag_bits(),
            ).0),
            flag_set(r@, NODE_CONTAINS_LOOKAROUND) == node_flag_facts(node@, self.flag_bits()).2,
            flag_set(r@, NODE_DEPENDS_ON_ANCHOR) == node_flag_facts(node@, self.flag_bits()).3,
            r@ & 0xF0u8 == 0,
    {
        let ghost t = self.table();
        let ghost id = t.len() as int;
        let ghost t2 = t.push(node@);
        proof {
            assert(table_extends(t, t2));
            assert(t2[id] == node@);
        }
        match node {
            RegexNode::Singleton(_) => {
                proof {
                    assert(node@ is Singleton);
                }
                NodeFlags::from_facts(false, false, false, false)
            },
            RegexNode::Concat { head, tail } => {
                let hf = self.flags(*head);
                let tf = self.flags(*tail);
                let always = hf.is_always_nullable() && tf.is_always_nullable();
                let can = hf.can_be_nullable() && tf.can_be_nullable();
                let anchor = hf.depends_on_anchor() || tf.depends_on_anchor();
                proof {
                    assert forall|loc: LocationKind| #[trigger] nullable(t2, loc, id) == (nullable(t, loc, *head as int)
                        && nullable(t, loc, *tail as int)) by {
                        lemma_extend_nullable(t, t2, loc, *head as int);
                        lemma_extend_nullable(t, t2, loc, *tail as int);
                    }
                }
                NodeFlags::from_facts(always, can, false, anchor)
            },
            RegexNode::Loop { node: inner, low, .. } => {
                if *low == 0 {
                    proof {
                        assert forall|loc: LocationKind| #[trigger] nullable(t2, loc, id) by {}
                    }
                    NodeFlags::from_facts(true, true, false, false)
                } else {
                    let inner_flags = self.flags(*inner);
                    let always = inner_flags.is_always_nullable();
                    let can = inner_flags.can_be_nullable();
                    let anchor = inner_flags.depends_on_anchor();
                    proof {
                        assert forall|loc: LocationKind| #[trigger] nullable(t2, loc, id) == nullable(t, loc, *inner as int) by {
                            lemma_extend_nullable(t, t2, loc, *inner as int);
                        }
                    }
                    NodeFlags::from_facts(always, can, false, anchor)
                }
            },
            RegexNode::Or(nodes) => {
                let mut any_always = false;
                let mut any_can = false;
                let mut any_anchor = false;
                let mut k: usize = 0;
                proof {
                    assert(nodes@.subrange(0, 0) =~= Seq::<RegexNodeId>::empty());
                }
                while k < nodes.len()
                    invariant
                        self.wf(),
                        k <= nodes@.len(),
                        node@ == NodeView::<CharSetView>::Or(nodes@),
                        node_ok(node@, self.spec_len()),
                        any_always ==> exists|j: int| 0 <= j < k && flag_set(
                            self.flag_bits()[#[trigger] nodes@[j] as int],
                            NODE_IS_ALWAYS_NULLABLE,
                        ),
                        !any_can ==> forall|j: int| 0 <= j < k ==> !flag_set(
                            self.flag_bits()[#[trigger] nodes@[j] as int],
                            NODE_CAN_BE_NULLABLE,
                        ),
                        any_always == any_flag(self.flag_bits(), nodes@.subrange(0, k as int), NODE_IS_ALWAYS_NULLABLE),
                        any_can == any_flag(self.flag_bits(), nodes@.subrange(0, k as int), NODE_CAN_BE_NULLABLE),
                        any_anchor == any_flag(self.flag_bits(), nodes@.subrange(0, k as int), NODE_DEPENDS_ON_ANCHOR),
                    decreases nodes@.len() - k,
                {
                    assert(nodes@[k as int] < self.spec_len()) by {
                        if let NodeView::Or(ms) = node@ {
                            assert(ms[k as int] < self.spec_len());
                        }
                    }
                    let f = self.flags(nodes[k]);
                    if f.is_always_nullable() {
                        any_always = true;
                    }
                    if f.can_be_nullable() {
                        any_can = true;
                    }
                    if f.depends_on_anchor() {
                        any_anchor = true;
                    }
                    proof {
                        lemma_flags_step(self.flag_bits(), nodes@, k as int, NODE_IS_ALWAYS_NULLABLE);
                        lemma_flags_step(self.flag_bits(), nodes@, k as int, NODE_CAN_BE_NULLABLE);
                        lemma_flags_step(self.flag_bits(), nodes@, k as int, NODE_DEPENDS_ON_ANCHOR);
                    }
                    k = k + 1;
                }
                proof {
                    assert(nodes@.subrange(0, nodes@.len() as int) =~= nodes@);
                    assert forall|loc: LocationKind| #[trigger] nullable(t2, loc, id) == (exists|j: int|
                        0 <= j < nodes@.len() && nullable(t, loc, #[trigger] nodes@[j] as int)) by {
                        assert forall|j: int| 0 <= j < nodes@.len() implies nullable(t2, loc, #[trigger] nodes@[j] as int)
                            == nullable(t, loc, nodes@[j] as int) by {
                            lemma_extend_nullable(t, t2, loc, nodes@[j] as int);
                        }
                    }
                    if any_always {
                        let j = choose|j: int| 0 <= j < nodes@.len() && flag_set(
                            self.flag_bits()[#[trigger] nodes@[j] as int],
                            NODE_IS_ALWAYS_NULLABLE,
                        );
                        assert(node_flags_sound(t, self.flag_bits()[nodes@[j] as int], nodes@[j] as int));
                    }
                    if !any_can {
                        assert forall|loc: LocationKind| !#[trigger] nullable(t2, loc, id) by {
                            assert forall|j: int| 0 <= j < nodes@.len() implies !nullable(t, loc, #[trigger] nodes@[j] as int) by {
                                assert(node_flags_sound(t, self.flag_bits()[nodes@[j] as int], nodes@[j] as int));
                            }
                        }
                    }
                    if !any_anchor {
                        assert forall|j: int| 0 <= j < nodes@.len() implies location_free(t, #[trigger] nodes@[j] as int) by {
                            assert(!has_flag(self.flag_bits(), nodes@[j], NODE_DEPENDS_ON_ANCHOR));
                            assert(node_flags_sound(t, self.flag_bits()[nodes@[j] as int], nodes@[j] as int));
                        }
                        assert forall|loc: LocationKind| #[trigger] nullable(t2, loc, id) == nullable(
                            t2,
                            LocationKind::Center,
                            id,
                        ) by {
                            assert forall|j: int| 0 <= j < nodes@.len() implies nullable(t, loc, #[trigger] nodes@[j] as int)
                                == nullable(t, LocationKind::Center, nodes@[j] as int) by {
                                assert(location_free(t, nodes@[j] as int));
                            }
                        }
                    }
                }
                NodeFlags::from_facts(any_always, any_can, false, any_anchor)
            },
            RegexNode::And(nodes) => {
                let mut all_always = true;
                let mut all_can = true;
                let mut any_anchor = false;
                let mut k: usize = 0;
                proof {
                    assert(nodes@.subrange(0, 0) =~= Seq::<RegexNodeId>::empty());
                }
                while k < nodes.len()
                    invariant
                        self.wf(),
                        k <= nodes@.len(),
                        node@ == NodeView::<CharSetView>::And(nodes@),
                        node_ok(node@, self.spec_len()),
                        all_always == every_flag(self.flag_bits(), nodes@.subrange(0, k as int), NODE_IS_ALWAYS_NULLABLE),
                        all_can == every_flag(self.flag_bits(), nodes@.subrange(0, k as int), NODE_CAN_BE_NULLABLE),
                        any_anchor == any_flag(self.flag_bits(), nodes@.subrange(0, k as int), NODE_DEPENDS_ON_ANCHOR),
                        all_always ==> forall|j: int| 0 <= j < k ==> flag_set(
                            self.flag_bits()[#[trigger] nodes@[j] as int],
                            NODE_IS_ALWAYS_NULLABLE,
                        ),
                        !all_can ==> exists|j: int| 0 <= j < k && !flag_set(
                            self.flag_bits()[#[trigger] nodes@[j] as int],
                            NODE_CAN_BE_NULLABLE,
                        ),
                    decreases nodes@.len() - k,
                {
                    assert(nodes@[k as int] < self.spec_len()) by {
                        if let NodeView::And(ms) = node@ {
                            assert(ms[k as int] < self.spec_len());
                        }
                    }
                    let f = self.flags(nodes[k]);
                    if !f.is_always_nullable() {
                        all_always = false;
                    }
                    if !f.can_be_nullable() {
                        all_can = false;
                    }
                    if f.depends_on_anchor() {
                        any_anchor = true;
                    }
                    proof {
                        lemma_flags_step(self.flag_bits(), nodes@, k as int, NODE_IS_ALWAYS_NULLABLE);
                        lemma_flags_step(self.flag_bits(), nodes@, k as int, NODE_CAN_BE_NULLABLE);
                        lemma_flags_step(self.flag_bits(), nodes@, k as int, NODE_DEPENDS_ON_ANCHOR);
                    }
                    k = k + 1;
                }
                proof {
                    assert(nodes@.subrange(0, nodes@.len() as int) =~= nodes@);
                    assert forall|loc: LocationKind| #[trigger] nullable(t2, loc, id) == (forall|j: int|
                        0 <= j < nodes@.len() ==> nullable(t, loc, #[trigger] nodes@[j] as int)) by {
                        assert forall|j: int| 0 <= j < nodes@.len() implies nullable(t2, loc, #[trigger] nodes@[j] as int)
                            == nullable(t, loc, nodes@[j] as int) by {
                            lemma_extend_nullable(t, t2, loc, nodes@[j] as int);
                        }
                    }
                    if all_always {
                        assert forall|loc: LocationKind| #[trigger] nullable(t2, loc, id) by {
                            assert forall|j: int| 0 <= j < nodes@.len() implies nullable(t, loc, #[trigger] nodes@[j] as int) by {
                                assert(node_flags_sound(t, self.flag_bits()[nodes@[j] as int], nodes@[j] as int));
                            }
                        }
                    }
                    if !all_can {
                        let j = choose|j: int| 0 <= j < nodes@.len() && !flag_set(
                            self.flag_bits()[#[trigger] nodes@[j] as int],
                            NODE_CAN_BE_NULLABLE,
                        );
                        assert(node_flags_sound(t, self.flag_bits()[nodes@[j] as int], nodes@[j] as int));
                    }
                    if !any_anchor {
                        assert forall|j: int| 0 <= j < nodes@.len() implies location_free(t, #[trigger] nodes@[j] as int) by {
                            assert(!has_flag(self.flag_bits(), nodes@[j], NODE_DEPENDS_ON_ANCHOR));
                            assert(node_flags_sound(t, self.flag_bits()[nodes@[j] as int], nodes@[j] as int));
                        }
                        assert forall|loc: LocationKind| #[trigger] nullable(t2, loc, id) == nullable(
                            t2,
                            LocationKind::Center,
                            id,
                        ) by {
                            assert forall|j: int| 0 <= j < nodes@.len() implies nullable(t, loc, #[trigger] nodes@[j] as int)
                                == nullable(t, LocationKind::Center, nodes@[j] as int) by {
                                assert(location_free(t, nodes@[j] as int));
                            }
                        }
                    }
                }
                NodeFlags::from_facts(all_always, all_can, false, any_anchor)
            },
            RegexNode::Not(inner) => {
                let inner_flags = self.flags(*inner);
                let always = !inner_flags.can_be_nullable();
                let can = !inner_flags.is_always_nullable();
                let anchor = inner_flags.depends_on_anchor();
                proof {
                    assert forall|loc: LocationKind| #[trigger] nullable(t2, loc, id) == !nullable(t, loc, *inner as int) by {
                        lemma_extend_nullable(t, t2, loc, *inner as int);
                    }
                }
                NodeFlags::from_facts(always, can, false, anchor)
            },
            RegexNode::LookAround { node: inner, .. } => {
                let inner_flags = self.flags(*inner);
                let always = inner_flags.is_always_nullable();
                let can = inner_flags.can_be_nullable();
                let anchor = inner_flags.depends_on_anchor();
                proof {
                    assert forall|loc: LocationKind| #[trigger] nullable(t2, loc, id) == nullable(t, loc, *inner as int) by {
                        lemma_extend_nullable(t, t2, loc, *inner as int);
                    }
                }
                NodeFlags::from_facts(always, can, true, anchor)
            },
            RegexNode::Begin => NodeFlags::from_facts(false, true, false, true),
            RegexNode::End => NodeFlags::from_facts(false, true, false, true),
        }
    }

    /// Creates a singleton (character set) node.
    pub fn mk_singleton(&mut self, set: CharSet) -> (r: RegexNodeId)
        requires
            old(self).wf(),
        ensures
            final(self).wf(),
            table_extends(old(self).table(), final(self).table()),
            r < final(self).spec_len(),
            final(self).room() ==> final(self).table()[r as int] == NodeView::<CharSetView>::Singleton(set@),
            final(self).room() ==> plain(final(self).table(), r as int),
            final(self).room() ==> complement_free(final(self).table(), r as int),
            final(self).room() ==> forall|w: Seq<char>| #[trigger] accepts(final(self).table(), r as int, w) == (w.len() == 1
                && view_contains(set@, w[0])),
    {
        let ghost sv = set@;
        let r = self.intern(RegexNode::Singleton(set));
        r
    }

    /// The epsilon node.
    pub fn mk_eps(&self) -> (r: RegexNodeId)
        ensures
            r == node_id::EPS,
    {
        node_id::EPS
    }

    /// The begin anchor.
    pub fn mk_begin(&self) -> (r: RegexNodeId)
        ensures
            r == node_id::BEGIN_ANCHOR,
    {
        node_id::BEGIN_ANCHOR
    }

    /// The end anchor.
    pub fn mk_end(&self) -> (r: RegexNodeId)
        ensures
            r == node_id::END_ANCHOR,
    {
        node_id::END_ANCHOR
    }

    /// The concatenation of two nodes, with `BOT` absorbing and `EPS` as unit.
    pub fn mk_concat(&mut self, head: RegexNodeId, tail: RegexNodeId) -> (r: RegexNodeId)
        requires
            old(self).wf(),
            head < old(self).spec_len(),
            tail < old(self).spec_len(),
        ensures
            final(self).wf(),
            table_extends(old(self).table(), final(self).table()),
            r < final(self).spec_len(),
            head == node_id::BOT || tail == node_id::BOT ==> r == node_id::BOT,
            head != node_id::BOT && tail != node_id::BOT && head == node_id::EPS ==> r == tail,
            head != node_id::BOT && tail != node_id::BOT && head != node_id::EPS && tail == node_id::EPS ==> r == head,
            final(self).room() && head != node_id::BOT && tail != node_id::BOT && head != node_id::EPS && tail
                != node_id::EPS ==> final(self).table()[r as int] == (NodeView::<CharSetView>::Concat { head, tail }),
            final(self).room() ==> forall|w: Seq<char>| #[trigger] accepts(final(self).table(), r as int, w)
                == concat_accepts(final(self).table(), head as int, tail as int, w),
            final(self).room() && plain(old(self).table(), head as int) && plain(old(self).table(), tail as int)
                ==> plain(final(self).table(), r as int),
            final(self).room() && complement_free(old(self).table(), head as int) && complement_free(
                old(self).table(),
                tail as int,
            ) ==> complement_free(final(self).table(), r as int),
    {
        let ghost t1 = self.table();
        if head == node_id::BOT || tail == node_id::BOT {
            proof {
                assert forall|w: Seq<char>| #[trigger] accepts(t1, 0, w) == concat_accepts(t1, head as int, tail as int, w) by {
                    crate::semantics::lemma_concat_units(t1, head as int, w);
                    crate::semantics::lemma_concat_units(t1, tail as int, w);
                    lemma_eps_bot(t1, w);
                }
            }
            return node_id::BOT;
        }
        if head == node_id::EPS {
            proof {
                assert forall|w: Seq<char>| #[trigger] accepts(t1, tail as int, w) == concat_accepts(t1, head as int, tail as int, w) by {
                    crate::semantics::lemma_concat_units(t1, tail as int, w);
                }
            }
            return tail;
        }
        if tail == node_id::EPS {
            proof {
                assert forall|w: Seq<char>| #[trigger] accepts(t1, head as int, w) == concat_accepts(t1, head as int, tail as int, w) by {
                    crate::semantics::lemma_concat_units(t1, head as int, w);
                }
            }
            return head;
        }
        let r = self.intern(RegexNode::Concat { head, tail });
        proof {
            let t2 = self.table();
            if self.room() {
                assert(node_ok(t2[r as int], r as int));
                assert(r != 2);
                lemma_extend_plain(t1, t2, head as int);
                lemma_extend_plain(t1, t2, tail as int);
                lemma_complement_free_extend(t1, t2, head as int);
                lemma_complement_free_extend(t1, t2, tail as int);
            }
        }
        r
    }

    /// The right-nested concatenation of a list of nodes (`EPS` for none).
    pub fn mk_concat_many(&mut self, nodes: Vec<RegexNodeId>) -> (r: RegexNodeId)
        requires
            old(self).wf(),
            all_below(nodes@, old(self).spec_len()),
        ensures
            final(self).wf(),
            table_extends(old(self).table(), final(self).table()),
            r < final(self).spec_len(),
            final(self).room() ==> forall|w: Seq<char>| #[trigger] accepts(final(self).table(), r as int, w)
                == concat_all_accepts(final(self).table(), nodes@, w),
            final(self).room() && all_plain(old(self).table(), nodes@) ==> plain(final(self).table(), r as int),
            final(self).room() && all_complement_free(old(self).table(), nodes@) ==> complement_free(
                final(self).table(),
                r as int,
            ),
    {
        let ghost t0 = self.table();
        let mut acc = node_id::EPS;
        let mut i = nodes.len();
        proof {
            assert forall|w: Seq<char>| #[trigger] accepts(t0, 1, w) == concat_all_accepts(t0, nodes@.subrange(i as int, nodes@.len() as int), w) by {
                lemma_eps_bot(t0, w);
            }
            crate::semantics::lemma_builtins_plain(t0);
        }
        while i > 0
            invariant
                self.wf(),
                i <= nodes@.len(),
                table_extends(t0, self.table()),
                acc < self.spec_len(),
                all_below(nodes@, t0.len() as int),
                self.room() ==> forall|w: Seq<char>| #[trigger] accepts(self.table(), acc as int, w)
                    == concat_all_accepts(self.table(), nodes@.subrange(i as int, nodes@.len() as int), w),
                self.room() && all_plain(t0, nodes@) ==> plain(self.table(), acc as int),
                self.room() && all_complement_free(t0, nodes@) ==> complement_free(self.table(), acc as int),
            decreases i,
        {
            i = i - 1;
            let ghost t1 = self.table();
            let ghost acc1 = acc;
            proof {
                assert(nodes@[i as int] < t0.len());
                lemma_extend_all(t0, t1, nodes@[i as int] as int);
            }
            acc = self.mk_concat(nodes[i], acc);
            proof {
                let t2 = self.table();
                if self.room() {
                    let rest = nodes@.subrange(i + 1, nodes@.len() as int);
                    let here = nodes@.subrange(i as int, nodes@.len() as int);
                    assert(here.subrange(1, here.len() as int) =~= rest);
                    assert(here[0] == nodes@[i as int]);
                    assert(all_below(rest, t0.len() as int)) by {
                        assert forall|k: int| 0 <= k < rest.len() implies (#[trigger] rest[k]) < t0.len() by {
                            assert(rest[k] == nodes@[i + 1 + k]);
                        }
                    }
                    assert(all_below(here, t0.len() as int)) by {
                        assert forall|k: int| 0 <= k < here.len() implies (#[trigger] here[k]) < t0.len() by {
                            assert(here[k] == nodes@[i + k]);
                        }
                    }
                    assert forall|w: Seq<char>| #[trigger] accepts(t2, acc as int, w) == concat_all_accepts(t2, here, w) by {
                        lemma_extend_concat_all(t1, t2, rest, w);
                        lemma_extend_concat_all(t0, t1, rest, w);
                        lemma_extend_concat_all(t0, t2, here, w);
                        lemma_extend_concat_all(t0, t2, rest, w);
                        assert forall|j: int| 0 <= j <= w.len() implies #[trigger] accepts(t2, acc1 as int, w.subrange(j, w.len() as int))
                            == concat_all_accepts(t2, rest, w.subrange(j, w.len() as int)) by {
                            lemma_extend_accepts(t1, t2, acc1 as int, w.subrange(j, w.len() as int));
                            lemma_extend_concat_all(t1, t2, rest, w.subrange(j, w.len() as int));
                        }
                        assert(concat_all_accepts(t2, here, w) == (exists|j: int| 0 <= j <= w.len() && accepts(t2, here[0] as int, #[trigger] w.subrange(0, j))
                            && concat_all_accepts(t2, rest, w.subrange(j, w.len() as int))));
                    }
                    if all_plain(t0, nodes@) {
                        assert(plain(t0, nodes@[i as int] as int));
                        lemma_extend_plain(t0, t1, nodes@[i as int] as int);
                        lemma_extend_plain(t1, t2, acc1 as int);
                    }
                    if all_complement_free(t0, nodes@) {
                        assert(complement_free(t0, nodes@[i as int] as int));
                        lemma_complement_free_extend(t0, t1, nodes@[i as int] as int);
                        lemma_complement_free_extend(t1, t2, acc1 as int);
                    }
                }
            }
        }
        proof {
            assert(nodes@.subrange(0, nodes@.len() as int) =~= nodes@);
        }
        acc
    }

    /// A loop node, simplified: `{0,0}` is `EPS`, `{1,1}` the node itself, a
    /// required repetition of `BOT` is `BOT`, any repetition of `EPS` is
    /// `EPS`, and `TOP*` is `TOP_STAR`.
    pub fn mk_loop(&mut self, node: RegexNodeId, low: u32, high: u32) -> (r: RegexNodeId)
        requires
            old(self).wf(),
            node < old(self).spec_len(),
        ensures
            final(self).wf(),
            table_extends(old(self).table(), final(self).table()),
            r < final(self).spec_len(),
            low == 0 && high == 0 ==> r == node_id::EPS,
            !(low == 0 && high == 0) && low == 1 && high == 1 ==> r == node,
            node == node_id::TOP && low == 0 && high == u32::MAX ==> r == node_id::TOP_STAR,
            final(self).room() ==> forall|w: Seq<char>| #[trigger] accepts(final(self).table(), r as int, w)
                == loop_accepts(final(self).table(), node as int, low, high, w),
            final(self).room() && plain(old(self).table(), node as int) ==> plain(final(self).table(), r as int),
            final(self).room() && complement_free(old(self).table(), node as int) ==> complement_free(
                final(self).table(),
                r as int,
            ),
    {
        let ghost t1 = self.table();
        proof {
            crate::semantics::lemma_builtins_plain(t1);
        }
        if low == 0 && high == 0 {
            proof {
                assert forall|w: Seq<char>| #[trigger] accepts(t1, 1, w) == loop_accepts(t1, node as int, low, high, w) by {
                    crate::semantics::lemma_loop_units(t1, node as int, low, high, w);
                    lemma_eps_bot(t1, w);
                }
            }
            return node_id::EPS;
        }
        if low == 1 && high == 1 {
            proof {
                assert forall|w: Seq<char>| #[trigger] accepts(t1, node as int, w) == loop_accepts(t1, node as int, low, high, w) by {
                    crate::semantics::lemma_loop_units(t1, node as int, low, high, w);
                }
            }
            return node;
        }
        if node == node_id::BOT && low > 0 {
            proof {
                assert forall|w: Seq<char>| #[trigger] accepts(t1, 0, w) == loop_accepts(t1, node as int, low, high, w) by {
                    crate::semantics::lemma_loop_units(t1, node as int, low, high, w);
                    lemma_eps_bot(t1, w);
                }
            }
            return node_id::BOT;
        }
        if node == node_id::EPS {
            proof {
                assert forall|w: Seq<char>| #[trigger] accepts(t1, 1, w) == loop_accepts(t1, node as int, low, high, w) by {
                    crate::semantics::lemma_loop_units(t1, node as int, low, high, w);
                    lemma_eps_bot(t1, w);
                }
            }
            return node_id::EPS;
        }
        if node == node_id::TOP && low == 0 && high == u32::MAX {
            return node_id::TOP_STAR;
        }
        let r = self.intern(RegexNode::Loop { node, low, high });
        proof {
            let t2 = self.table();
            if self.room() {
                assert(node_ok(t2[r as int], r as int));
                assert(r != 2);
                lemma_extend_plain(t1, t2, node as int);
                lemma_complement_free_extend(t1, t2, node as int);
            }
        }
        r
    }

}

/// The members of the alternation of `nodes`, in order: the members of a
/// nested alternation in its place, and `BOT` left out.
pub open spec fn or_members(t: NodeTable, nodes: Seq<RegexNodeId>) -> Seq<RegexNodeId>
    decreases nodes.len(),
{
    if nodes.len() == 0 {
        Seq::empty()
    } else {
        or_members(t, nodes.drop_last()) + or_piece(t, nodes.last())
    }
}

/// What node `id` adds to the members of an alternation.
pub open spec fn or_piece(t: NodeTable, id: RegexNodeId) -> Seq<RegexNodeId> {
    if id == node_id::BOT {
        Seq::empty()
    } else {
        match t[id as int] {
            NodeView::Or(inner) => inner,
            _ => seq![id],
        }
    }
}

/// The node that the alternation of members `ms` gives, in a table that grew
/// from `t_old` to `t_new`: `BOT` without members, the member itself when
/// there is one, and otherwise the one alternation of the members in
/// increasing order, the node already in `t_old` where there was one.
pub open spec fn or_result(t_old: NodeTable, t_new: NodeTable, ms: Seq<RegexNodeId>, r: RegexNodeId) -> bool {
    if ms.len() == 0 {
        r == node_id::BOT
    } else if forall|k: int| 0 <= k < ms.len() ==> #[trigger] ms[k] == ms[0] {
        r == ms[0]
    } else {
        match t_new[r as int] {
            NodeView::Or(s) => ids_increasing(s) && (forall|x: RegexNodeId| s.contains(x) <==> ms.contains(x))
                && forall|j: int| 7 <= j < t_old.len() && t_old[j] == t_new[r as int] ==> r == j,
            _ => false,
        }
    }
}

/// The members of the alternation hold what each node adds.
proof fn lemma_or_members_piece(t: NodeTable, nodes: Seq<RegexNodeId>, i: int, x: RegexNodeId)
    requires
        0 <= i < nodes.len(),
        or_piece(t, nodes[i]).contains(x),
    ensures
        or_members(t, nodes).contains(x),
    decreases nodes.len(),
{
    let pre = or_members(t, nodes.drop_last());
    let piece = or_piece(t, nodes.last());
    if i == nodes.len() - 1 {
        let k = choose|k: int| 0 <= k < piece.len() && piece[k] == x;
        assert((pre + piece)[pre.len() + k] == x);
    } else {
        assert(nodes.drop_last()[i] == nodes[i]);
        lemma_or_members_piece(t, nodes.drop_last(), i, x);
        let k = choose|k: int| 0 <= k < pre.len() && pre[k] == x;
        assert((pre + piece)[k] == x);
    }
}

/// Two increasing lists of ids with the same members are the same list.
proof fn lemma_increasing_unique(a: Seq<RegexNodeId>, b: Seq<RegexNodeId>)
    requires
        ids_increasing(a),
        ids_increasing(b),
        forall|x: RegexNodeId| a.contains(x) <==> b.contains(x),
    ensures
        a == b,
    decreases a.len(),
{
    if a.len() == 0 {
        if b.len() > 0 {
            assert(b.contains(b[0]));
        }
        assert(a =~= b);
    } else {
        assert(a.contains(a.last()));
        assert(b.contains(a.last()));
        assert(b.len() > 0);
        assert(b.contains(b.last()));
        assert(a.contains(b.last()));
        let i = choose|i: int| 0 <= i < b.len() && b[i] == a.last();
        let j = choose|j: int| 0 <= j < a.len() && a[j] == b.last();
        if i < b.len() - 1 {
            assert(b[i] < b[b.len() - 1]);
        }
        if j < a.len() - 1 {
            assert(a[j] < a[a.len() - 1]);
        }
        assert(a.last() == b.last());
        let a2 = a.drop_last();
        let b2 = b.drop_last();
        assert forall|x: RegexNodeId| a2.contains(x) <==> b2.contains(x) by {
            if a2.contains(x) {
                let k = choose|k: int| 0 <= k < a2.len() && a2[k] == x;
                assert(a[k] == x && a[k] < a[a.len() - 1]);
                assert(a.contains(x));
                let m = choose|m: int| 0 <= m < b.len() && b[m] == x;
                assert(m != b.len() - 1);
                assert(b2[m] == x);
            }
            if b2.contains(x) {
                let k = choose|k: int| 0 <= k < b2.len() && b2[k] == x;
                assert(b[k] == x && b[k] < b[b.len() - 1]);
                assert(b.contains(x));
                let m = choose|m: int| 0 <= m < a.len() && a[m] == x;
                assert(m != a.len() - 1);
                assert(a2[m] == x);
            }
        }
        assert(ids_increasing(a2)) by {
            assert forall|p: int, q: int| 0 <= p < q < a2.len() implies a2[p] < a2[q] by {
                assert(a2[p] == a[p] && a2[q] == a[q]);
            }
        }
        assert(ids_increasing(b2)) by {
            assert forall|p: int, q: int| 0 <= p < q < b2.len() implies b2[p] < b2[q] by {
                assert(b2[p] == b[p] && b2[q] == b[q]);
            }
        }
        lemma_increasing_unique(a2, b2);
        assert(a =~= a2.push(a.last()));
        assert(b =~= b2.push(b.last()));
    }
}

/// The alternation is hash-consed: two lists of nodes with the same members,
/// whatever their order, their repetitions and the `BOT` among them, give
/// the same node, the second call finding the node that the first built.
pub proof fn lemma_mk_or_same_members(
    t0: NodeTable,
    t1: NodeTable,
    t2: NodeTable,
    xs: Seq<RegexNodeId>,
    ys: Seq<RegexNodeId>,
    r1: RegexNodeId,
    r2: RegexNodeId,
)
    requires
        table_wf(t1),
        r1 < t1.len(),
        or_result(t0, t1, or_members(t0, xs), r1),
        or_result(t1, t2, or_members(t1, ys), r2),
        forall|x: RegexNodeId| or_members(t0, xs).contains(x) <==> or_members(t1, ys).contains(x),
    ensures
        r1 == r2,
{
    let m1 = or_members(t0, xs);
    let m2 = or_members(t1, ys);
    if m1.len() == 0 {
        if m2.len() > 0 {
            assert(m2.contains(m2[0]));
        }
    } else if forall|k: int| 0 <= k < m1.len() ==> #[trigger] m1[k] == m1[0] {
        assert(m1.contains(m1[0]));
        assert(m2.contains(m1[0]));
        assert forall|k: int| 0 <= k < m2.len() implies #[trigger] m2[k] == m2[0] by {
            assert(m2.contains(m2[k]));
            assert(m2.contains(m2[0]));
            let a = choose|a: int| 0 <= a < m1.len() && m1[a] == m2[k];
            let b = choose|b: int| 0 <= b < m1.len() && m1[b] == m2[0];
        }
        let c = choose|c: int| 0 <= c < m1.len() && m1[c] == m2[0];
    } else {
        let k = choose|k: int| 0 <= k < m1.len() && #[trigger] m1[k] != m1[0];
        assert(m1.contains(m1[k]) && m1.contains(m1[0]));
        assert(m2.len() > 0) by {
            assert(m2.contains(m1[0]));
        }
        assert(!forall|q: int| 0 <= q < m2.len() ==> #[trigger] m2[q] == m2[0]) by {
            assert(m2.contains(m1[k]) && m2.contains(m1[0]));
            let a = choose|a: int| 0 <= a < m2.len() && m2[a] == m1[k];
            let b = choose|b: int| 0 <= b < m2.len() && m2[b] == m1[0];
            assert(m2[a] != m2[b]);
        }
        if let NodeView::Or(s1) = t1[r1 as int] {
            if let NodeView::Or(s2) = t2[r2 as int] {
                lemma_increasing_unique(s1, s2);
                assert(s1.contains(m1[0]));
                assert(r1 != 0) by {
                    assert(t1[0] == NodeView::<CharSetView>::Or(Seq::empty()));
                }
                assert(r1 >= 7);
            }
        }
    }
}

impl RegexBuilder<CharSet> {
    /// The alternation of a list of nodes: nested alternations are flattened,
    /// `BOT` dropped, duplicates removed, and `TOP_STAR` absorbs the rest.
    pub fn mk_or(&mut self, nodes: Vec<RegexNodeId>) -> (r: RegexNodeId)
        requires
            old(self).wf(),
            all_below(nodes@, old(self).spec_len()),
        ensures
            final(self).wf(),
            table_extends(old(self).table(), final(self).table()),
            r < final(self).spec_len(),
            nodes@.contains(node_id::TOP_STAR) ==> r == node_id::TOP_STAR,
            (forall|k: int| 0 <= k < nodes@.len() ==> #[trigger] nodes@[k] == node_id::BOT) ==> r == node_id::BOT,
            nodes@.len() == 1 && old(self).table()[nodes@[0] as int] !is Or ==> r == nodes@[0],
            final(self).room() ==> forall|w: Seq<char>| #[trigger] accepts(final(self).table(), r as int, w)
                == any_accepts(final(self).table(), nodes@, w),
            final(self).room() && all_plain(old(self).table(), nodes@) ==> plain(final(self).table(), r as int),
            final(self).room() && all_complement_free(old(self).table(), nodes@) ==> complement_free(
                final(self).table(),
                r as int,
            ),
            final(self).room() && !or_members(old(self).table(), nodes@).contains(node_id::TOP_STAR) ==> or_result(
                old(self).table(),
                final(self).table(),
                or_members(old(self).table(), nodes@),
                r,
            ),
    {
        let ghost t1 = self.table();
        let mut flat: Vec<RegexNodeId> = Vec::new();
        let mut i: usize = 0;
        proof {
            assert(nodes@.subrange(0, 0) =~= Seq::<RegexNodeId>::empty());
            crate::semantics::lemma_builtins_plain(t1);
        }
        while i < nodes.len()
            invariant
                self.wf(),
                self.table() == t1,
                i <= nodes@.len(),
                all_below(nodes@, t1.len() as int),
                all_below(flat@, t1.len() as int),
                forall|w: Seq<char>| #[trigger] any_accepts(t1, flat@, w) == any_accepts(t1, nodes@.subrange(0, i as int), w),
                all_plain(t1, nodes@.subrange(0, i as int)) ==> all_plain(t1, flat@),
                all_complement_free(t1, nodes@.subrange(0, i as int)) ==> all_complement_free(t1, flat@),
                !nodes@.subrange(0, i as int).contains(node_id::TOP_STAR),
                (forall|k: int| 0 <= k < i ==> #[trigger] nodes@[k] == node_id::BOT) ==> flat@.len() == 0,
                nodes@.len() == 1 && i == 1 && nodes@[0] != node_id::BOT && !(t1[nodes@[0] as int] is Or) ==> flat@
                    == seq![nodes@[0]],
                i == 0 ==> flat@.len() == 0,
                flat@ == or_members(t1, nodes@.subrange(0, i as int)),
            decreases nodes@.len() - i,
        {
            let id = nodes[i];
            let ghost pre = nodes@.subrange(0, i as int);
            let ghost flat0 = flat@;
            proof {
                assert(nodes@.subrange(0, i + 1) =~= pre.push(id));
                assert(id < t1.len());
                assert forall|w: Seq<char>| #[trigger] any_accepts(t1, pre.push(id), w) == (any_accepts(t1, pre, w) || accepts(t1, id as int, w)) by {
                    lemma_any_push(t1, pre, id, w);
                }
                lemma_lists_push(t1, pre, id, t1.len() as int);
                assert(pre.push(id).drop_last() =~= pre);
                assert(or_members(t1, pre.push(id)) == or_members(t1, pre) + or_piece(t1, id));
            }
            if id == node_id::BOT {
                proof {
                    assert(flat@ =~= or_members(t1, nodes@.subrange(0, i + 1)));
                }
                proof {
                    assert forall|w: Seq<char>| #[trigger] any_accepts(t1, flat@, w) == any_accepts(t1, nodes@.subrange(0, i + 1), w) by {
                        lemma_eps_bot(t1, w);
                    }
                }
            } else if id == node_id::TOP_STAR {
                proof {
                    assert(nodes@[i as int] == node_id::TOP_STAR);
                    assert(or_piece(t1, id) == seq![id]);
                    assert(or_piece(t1, id)[0] == id);
                    lemma_or_members_piece(t1, nodes@, i as int, id);
                    assert forall|w: Seq<char>| #[trigger] accepts(t1, 3, w) == any_accepts(t1, nodes@, w) by {
                        lemma_top_star(t1, w);
                    }
                }
                return node_id::TOP_STAR;
            } else {
                match self.node(id) {
                    RegexNode::Or(inner) => {
                        proof {
                            assert(id != 2);
                            assert forall|w: Seq<char>| #[trigger] accepts(t1, id as int, w) == any_accepts(t1, inner@, w) by {
                                lemma_or_and_node(t1, id as int, w);
                            }
                            lemma_or_and_node(t1, id as int, Seq::empty());
                            assert(node_ok(t1[id as int], id as int));
                            assert(all_below(inner@, t1.len() as int));
                            assert(inner@.subrange(0, 0) =~= Seq::<RegexNodeId>::empty());
                        }
                        let mut j: usize = 0;
                        while j < inner.len()
                            invariant
                                self.wf(),
                                self.table() == t1,
                                j <= inner@.len(),
                                all_below(inner@, t1.len() as int),
                                all_below(flat@, t1.len() as int),
                                forall|w: Seq<char>| #[trigger] any_accepts(t1, flat@, w) == (any_accepts(t1, flat0, w)
                                    || any_accepts(t1, inner@.subrange(0, j as int), w)),
                                all_plain(t1, flat0) && all_plain(t1, inner@) ==> all_plain(t1, flat@),
                                all_complement_free(t1, flat0) && all_complement_free(t1, inner@) ==> all_complement_free(
                                    t1,
                                    flat@,
                                ),
                                flat@ == flat0 + inner@.subrange(0, j as int),
                            decreases inner@.len() - j,
                        {
                            let x = inner[j];
                            let ghost f1 = flat@;
                            flat.push(x);
                            proof {
                                assert(inner@.subrange(0, j + 1) =~= inner@.subrange(0, j as int).push(x));
                                assert(flat@ =~= flat0 + inner@.subrange(0, j + 1));
                                assert forall|w: Seq<char>| #[trigger] any_accepts(t1, flat@, w) == (any_accepts(t1, flat0, w)
                                    || any_accepts(t1, inner@.subrange(0, j + 1), w)) by {
                                    lemma_any_push(t1, f1, x, w);
                                    lemma_any_push(t1, inner@.subrange(0, j as int), x, w);
                                }
                                lemma_lists_push(t1, f1, x, t1.len() as int);
                            }
                            j = j + 1;
                        }
                        proof {
                            assert(inner@.subrange(0, j as int) =~= inner@);
                            assert(or_piece(t1, id) == inner@);
                            assert(flat@ =~= or_members(t1, nodes@.subrange(0, i + 1)));
                        }
                    },
                    _ => {
                        let ghost f1 = flat@;
                        flat.push(id);
                        proof {
                            assert forall|w: Seq<char>| #[trigger] any_accepts(t1, flat@, w) == (any_accepts(t1, f1, w) || accepts(t1, id as int, w)) by {
                                lemma_any_push(t1, f1, id, w);
                            }
                            lemma_lists_push(t1, f1, id, t1.len() as int);
                            assert(or_piece(t1, id) == seq![id]);
                            assert(flat@ =~= or_members(t1, nodes@.subrange(0, i + 1)));
                        }
                    },
                }
            }
            i = i + 1;
        }
        proof {
            assert(nodes@.subrange(0, nodes@.len() as int) =~= nodes@);
        }
        let ghost before_sort = flat@;
        sort_ids(&mut flat);
        proof {
            broadcast use vstd::seq_lib::group_to_multiset_ensures;
            assert forall|x: RegexNodeId| flat@.contains(x) <==> before_sort.contains(x) by {
                assert(flat@.to_multiset().count(x) == before_sort.to_multiset().count(x));
            }
            lemma_lists_same_elements(t1, before_sort, flat@, t1.len() as int);
            vstd::seq_lib::to_multiset_len(flat@);
            vstd::seq_lib::to_multiset_len(before_sort);
        }
        let ghost sorted = flat@;
        let flat = dedup_ids(&flat);
        proof {
            assert(ids_sorted(sorted));
            assert(ids_increasing(flat@));
            assert(before_sort == or_members(t1, nodes@));
            assert forall|x: RegexNodeId| flat@.contains(x) <==> or_members(t1, nodes@).contains(x) by {}
            lemma_lists_same_elements(t1, before_sort, flat@, t1.len() as int);
            if forall|k: int| 0 <= k < nodes@.len() ==> #[trigger] nodes@[k] == node_id::BOT {
                assert(before_sort.len() == 0);
                assert(flat@.len() == 0);
            }
            if nodes@.len() == 1 && !(t1[nodes@[0] as int] is Or) && nodes@[0] != node_id::BOT {
                assert(before_sort == seq![nodes@[0]]);
                assert(before_sort[0] == nodes@[0]);
                assert(before_sort.contains(nodes@[0]));
                assert(sorted.contains(nodes@[0]));
                assert(flat@.contains(nodes@[0]));
                assert(flat@.len() == 1);
                assert(flat@[0] == nodes@[0]);
            }
        }
        if flat.len() == 0 {
            proof {
                let ms = or_members(t1, nodes@);
                if ms.len() > 0 {
                    assert(ms.contains(ms[0]));
                }
                assert forall|w: Seq<char>| #[trigger] accepts(t1, 0, w) == any_accepts(t1, nodes@, w) by {
                    lemma_eps_bot(t1, w);
                    assert(any_accepts(t1, before_sort, w) == any_accepts(t1, nodes@.subrange(0, nodes@.len() as int), w));
                    assert(any_accepts(t1, flat@, w) == any_accepts(t1, before_sort, w));
                }
            }
            return node_id::BOT;
        }
        if flat.len() == 1 {
            proof {
                let ms = or_members(t1, nodes@);
                assert(flat@.contains(flat@[0]));
                assert forall|k: int| 0 <= k < ms.len() implies #[trigger] ms[k] == ms[0] by {
                    assert(ms.contains(ms[k]));
                    assert(ms.contains(ms[0]));
                    let a = choose|a: int| 0 <= a < flat@.len() && flat@[a] == ms[k];
                    let b = choose|b: int| 0 <= b < flat@.len() && flat@[b] == ms[0];
                }
                let c = choose|c: int| 0 <= c < ms.len() && ms[c] == flat@[0];
                assert forall|w: Seq<char>| #[trigger] accepts(t1, flat@[0] as int, w) == any_accepts(t1, nodes@, w) by {
                    lemma_any_single(t1, flat@, w);
                    assert(any_accepts(t1, before_sort, w) == any_accepts(t1, nodes@.subrange(0, nodes@.len() as int), w));
                    assert(any_accepts(t1, flat@, w) == any_accepts(t1, before_sort, w));
                }
                lemma_any_single(t1, flat@, Seq::empty());
            }
            return flat[0];
        }
        let ghost fv = flat@;
        let r = self.intern(RegexNode::Or(flat));
        proof {
            let t2 = self.table();
            let ms = or_members(t1, nodes@);
            assert(fv[0] < fv[1]);
            assert(fv.contains(fv[0]) && fv.contains(fv[1]));
            assert(ms.contains(fv[0]) && ms.contains(fv[1]));
            if forall|k: int| 0 <= k < ms.len() ==> #[trigger] ms[k] == ms[0] {
                let a = choose|a: int| 0 <= a < ms.len() && ms[a] == fv[0];
                let b = choose|b: int| 0 <= b < ms.len() && ms[b] == fv[1];
                assert(false);
            }
            lemma_extend_lists(t1, t2, nodes@);
            if self.room() {
                assert(r != 2);
                lemma_extend_lists(t1, t2, fv);
                assert forall|w: Seq<char>| #[trigger] accepts(t2, r as int, w) == any_accepts(t2, nodes@, w) by {
                    lemma_or_and_node(t2, r as int, w);
                    assert(any_accepts(t1, before_sort, w) == any_accepts(t1, nodes@.subrange(0, nodes@.len() as int), w));
                    assert(any_accepts(t1, fv, w) == any_accepts(t1, before_sort, w));
                    assert(any_accepts(t2, fv, w) == any_accepts(t1, fv, w));
                    assert(any_accepts(t2, nodes@, w) == any_accepts(t1, nodes@, w));
                }
                lemma_or_and_node(t2, r as int, Seq::empty());
            }
        }
        r
    }

    /// The intersection of a list of nodes: nested intersections are
    /// flattened, `TOP_STAR` dropped, duplicates removed, and `BOT` absorbs the
    /// rest.
    pub fn mk_and(&mut self, nodes: Vec<RegexNodeId>) -> (r: RegexNodeId)
        requires
            old(self).wf(),
            all_below(nodes@, old(self).spec_len()),
        ensures
            final(self).wf(),
            table_extends(old(self).table(), final(self).table()),
            r < final(self).spec_len(),
            nodes@.contains(node_id::BOT) ==> r == node_id::BOT,
            final(self).room() && !nodes@.contains(node_id::TOP) ==> forall|w: Seq<char>| #[trigger] accepts(
                final(self).table(),
                r as int,
                w,
            ) == all_accept(final(self).table(), nodes@, w),
            final(self).room() && all_plain(old(self).table(), nodes@) ==> plain(final(self).table(), r as int),
            final(self).room() && all_complement_free(old(self).table(), nodes@) ==> complement_free(
                final(self).table(),
                r as int,
            ),
    {
        let ghost t1 = self.table();
        let mut flat: Vec<RegexNodeId> = Vec::new();
        let mut i: usize = 0;
        proof {
            assert(nodes@.subrange(0, 0) =~= Seq::<RegexNodeId>::empty());
            crate::semantics::lemma_builtins_plain(t1);
        }
        while i < nodes.len()
            invariant
                self.wf(),
                self.table() == t1,
                i <= nodes@.len(),
                all_below(nodes@, t1.len() as int),
                all_below(flat@, t1.len() as int),
                !nodes@.subrange(0, i as int).contains(node_id::TOP) ==> forall|w: Seq<char>| #[trigger] all_accept(
                    t1,
                    flat@,
                    w,
                ) == all_accept(t1, nodes@.subrange(0, i as int), w),
                all_plain(t1, nodes@.subrange(0, i as int)) ==> all_plain(t1, flat@),
                all_complement_free(t1, nodes@.subrange(0, i as int)) ==> all_complement_free(t1, flat@),
                !nodes@.subrange(0, i as int).contains(node_id::BOT),
            decreases nodes@.len() - i,
        {
            let id = nodes[i];
            let ghost pre = nodes@.subrange(0, i as int);
            let ghost flat0 = flat@;
            proof {
                assert(nodes@.subrange(0, i + 1) =~= pre.push(id));
                assert(id < t1.len());
                assert forall|w: Seq<char>| #[trigger] all_accept(t1, pre.push(id), w) == (all_accept(t1, pre, w) && accepts(t1, id as int, w)) by {
                    lemma_any_push(t1, pre, id, w);
                }
                lemma_lists_push(t1, pre, id, t1.len() as int);
            }
            if id == node_id::TOP_STAR {
                proof {
                    if !nodes@.subrange(0, i + 1).contains(node_id::TOP) {
                        assert(!pre.contains(node_id::TOP)) by {
                            if pre.contains(node_id::TOP) {
                                let k = choose|k: int| 0 <= k < pre.len() && pre[k] == node_id::TOP;
                                assert(nodes@.subrange(0, i + 1)[k] == node_id::TOP);
                            }
                        }
                        assert forall|w: Seq<char>| #[trigger] all_accept(t1, flat@, w) == all_accept(t1, nodes@.subrange(0, i + 1), w) by {
                            lemma_top_star(t1, w);
                        }
                    }
                }
            } else if id == node_id::BOT {
                proof {
                    assert(nodes@[i as int] == node_id::BOT);
                    assert forall|w: Seq<char>| #[trigger] accepts(t1, 0, w) == all_accept(t1, nodes@, w) by {
                        lemma_eps_bot(t1, w);
                    }
                }
                return node_id::BOT;
            } else {
                match self.node(id) {
                    RegexNode::And(inner) => {
                        proof {
                            if id != 2 {
                                assert forall|w: Seq<char>| #[trigger] accepts(t1, id as int, w) == all_accept(t1, inner@, w) by {
                                    lemma_or_and_node(t1, id as int, w);
                                }
                                lemma_or_and_node(t1, id as int, Seq::empty());
                            } else {
                                assert(nodes@.subrange(0, i + 1)[i as int] == node_id::TOP);
                            }
                            assert(node_ok(t1[id as int], id as int));
                            assert(all_below(inner@, t1.len() as int));
                            assert(inner@.subrange(0, 0) =~= Seq::<RegexNodeId>::empty());
                        }
                        let mut j: usize = 0;
                        while j < inner.len()
                            invariant
                                self.wf(),
                                self.table() == t1,
                                j <= inner@.len(),
                                all_below(inner@, t1.len() as int),
                                all_below(flat@, t1.len() as int),
                                forall|w: Seq<char>| #[trigger] all_accept(t1, flat@, w) == (all_accept(t1, flat0, w)
                                    && all_accept(t1, inner@.subrange(0, j as int), w)),
                                all_plain(t1, flat0) && all_plain(t1, inner@) ==> all_plain(t1, flat@),
                                all_complement_free(t1, flat0) && all_complement_free(t1, inner@) ==> all_complement_free(
                                    t1,
                                    flat@,
                                ),
                            decreases inner@.len() - j,
                        {
                            let x = inner[j];
                            let ghost f1 = flat@;
                            flat.push(x);
                            proof {
                                assert(inner@.subrange(0, j + 1) =~= inner@.subrange(0, j as int).push(x));
                                assert forall|w: Seq<char>| #[trigger] all_accept(t1, flat@, w) == (all_accept(t1, flat0, w)
                                    && all_accept(t1, inner@.subrange(0, j + 1), w)) by {
                                    lemma_any_push(t1, f1, x, w);
                                    lemma_any_push(t1, inner@.subrange(0, j as int), x, w);
                                }
                                lemma_lists_push(t1, f1, x, t1.len() as int);
                            }
                            j = j + 1;
                        }
                        proof {
                            assert(inner@.subrange(0, j as int) =~= inner@);
                        }
                    },
                    _ => {
                        let ghost f1 = flat@;
                        flat.push(id);
                        proof {
                            assert forall|w: Seq<char>| #[trigger] all_accept(t1, flat@, w) == (all_accept(t1, f1, w) && accepts(t1, id as int, w)) by {
                                lemma_any_push(t1, f1, id, w);
                            }
                            lemma_lists_push(t1, f1, id, t1.len() as int);
                        }
                    },
                }
            }
            i = i + 1;
        }
        proof {
            assert(nodes@.subrange(0, nodes@.len() as int) =~= nodes@);
        }
        let ghost before_sort = flat@;
        sort_ids(&mut flat);
        proof {
            broadcast use vstd::seq_lib::group_to_multiset_ensures;
            assert forall|x: RegexNodeId| flat@.contains(x) <==> before_sort.contains(x) by {
                assert(flat@.to_multiset().count(x) == before_sort.to_multiset().count(x));
            }
            lemma_lists_same_elements(t1, before_sort, flat@, t1.len() as int);
        }
        let flat = dedup_ids(&flat);
        proof {
            lemma_lists_same_elements(t1, before_sort, flat@, t1.len() as int);
        }
        if flat.len() == 0 {
            proof {
                if !nodes@.contains(node_id::TOP) {
                assert forall|w: Seq<char>| #[trigger] accepts(t1, 3, w) == all_accept(t1, nodes@, w) by {
                    lemma_top_star(t1, w);
                    assert(all_accept(t1, before_sort, w) == all_accept(t1, nodes@.subrange(0, nodes@.len() as int), w));
                    assert(all_accept(t1, flat@, w) == all_accept(t1, before_sort, w));
                }
                }
            }
            return node_id::TOP_STAR;
        }
        if flat.len() == 1 {
            proof {
                if !nodes@.contains(node_id::TOP) {
                assert forall|w: Seq<char>| #[trigger] accepts(t1, flat@[0] as int, w) == all_accept(t1, nodes@, w) by {
                    lemma_any_single(t1, flat@, w);
                    assert(all_accept(t1, before_sort, w) == all_accept(t1, nodes@.subrange(0, nodes@.len() as int), w));
                    assert(all_accept(t1, flat@, w) == all_accept(t1, before_sort, w));
                }
                }
                lemma_any_single(t1, flat@, Seq::empty());
            }
            return flat[0];
        }
        let ghost fv = flat@;
        let r = self.intern(RegexNode::And(flat));
        proof {
            let t2 = self.table();
            lemma_extend_lists(t1, t2, nodes@);
            if self.room() {
                assert(r != 2);
                lemma_extend_lists(t1, t2, fv);
                if !nodes@.contains(node_id::TOP) {
                assert forall|w: Seq<char>| #[trigger] accepts(t2, r as int, w) == all_accept(t2, nodes@, w) by {
                    lemma_or_and_node(t2, r as int, w);
                    assert(all_accept(t1, before_sort, w) == all_accept(t1, nodes@.subrange(0, nodes@.len() as int), w));
                    assert(all_accept(t1, fv, w) == all_accept(t1, before_sort, w));
                    assert(all_accept(t2, fv, w) == all_accept(t1, fv, w));
                    assert(all_accept(t2, nodes@, w) == all_accept(t1, nodes@, w));
                }
                }
                lemma_or_and_node(t2, r as int, Seq::empty());
            }
        }
        r
    }

    /// The alternation of two nodes.
    pub fn mk_or2(&mut self, a: RegexNodeId, b: RegexNodeId) -> (r: RegexNodeId)
        requires
            old(self).wf(),
            a < old(self).spec_len(),
            b < old(self).spec_len(),
        ensures
            final(self).wf(),
            table_extends(old(self).table(), final(self).table()),
            r < final(self).spec_len(),
            final(self).room() ==> forall|w: Seq<char>| #[trigger] accepts(final(self).table(), r as int, w)
                == (accepts(final(self).table(), a as int, w) || accepts(final(self).table(), b as int, w)),
            final(self).room() && plain(old(self).table(), a as int) && plain(old(self).table(), b as int)
                ==> plain(final(self).table(), r as int),
            final(self).room() && complement_free(old(self).table(), a as int) && complement_free(
                old(self).table(),
                b as int,
            ) ==> complement_free(final(self).table(), r as int),
    {
        let mut v: Vec<RegexNodeId> = Vec::new();
        v.push(a);
        v.push(b);
        let ghost vv = v@;
        proof {
            let t = self.table();
            assert(vv =~= seq![a].push(b));
            assert(seq![a] =~= Seq::<RegexNodeId>::empty().push(a));
            assert forall|w: Seq<char>| #[trigger] any_accepts(t, vv, w) == (accepts(t, a as int, w) || accepts(t, b as int, w)) by {
                lemma_any_push(t, seq![a], b, w);
                lemma_any_single(t, seq![a], w);
            }
            lemma_lists_push(t, seq![a], b, t.len() as int);
            lemma_any_single(t, seq![a], Seq::empty());
            lemma_lists_push(t, Seq::empty(), a, t.len() as int);
        }
        let r = self.mk_or(v);
        proof {
            let t = old(self).table();
            let t2 = self.table();
            lemma_extend_lists(t, t2, vv);
            lemma_extend_all(t, t2, a as int);
            lemma_extend_all(t, t2, b as int);
        }
        r
    }

    /// The complement of a node: a complement is undone, `BOT` and
    /// `TOP_STAR` swap, and any other node gets a `Not` node.
    pub fn mk_not(&mut self, node: RegexNodeId) -> (r: RegexNodeId)
        requires
            old(self).wf(),
            node < old(self).spec_len(),
        ensures
            final(self).wf(),
            table_extends(old(self).table(), final(self).table()),
            r < final(self).spec_len(),
            old(self).table()[node as int] matches NodeView::Not(i) ==> r == i,
            old(self).table()[node as int] !is Not && node == node_id::BOT ==> r == node_id::TOP_STAR,
            old(self).table()[node as int] !is Not && node == node_id::TOP_STAR ==> r == node_id::BOT,
            final(self).room() && old(self).table()[node as int] !is Not && node != node_id::BOT && node
                != node_id::TOP_STAR ==> final(self).table()[r as int] == NodeView::<CharSetView>::Not(node),
            old(self).table()[node as int] !is Not && node != node_id::BOT && node != node_id::TOP_STAR ==> forall|j: int|
                7 <= j < old(self).spec_len() && #[trigger] old(self).table()[j] == NodeView::<CharSetView>::Not(node)
                    ==> r == j,
            final(self).room() ==> forall|w: Seq<char>| #[trigger] accepts(final(self).table(), r as int, w)
                == !accepts(final(self).table(), node as int, w),
            final(self).room() && plain(old(self).table(), node as int) ==> plain(final(self).table(), r as int),
    {
        let ghost t1 = self.table();
        proof {
            crate::semantics::lemma_builtins_plain(t1);
            assert(node_ok(t1[node as int], node as int));
        }
        if let RegexNode::Not(inner) = self.node(node) {
            let i = *inner;
            proof {
                assert(node != 2);
                assert forall|w: Seq<char>| #[trigger] accepts(t1, i as int, w) == !accepts(t1, node as int, w) by {}
            }
            return i;
        }
        if node == node_id::BOT {
            proof {
                assert forall|w: Seq<char>| #[trigger] accepts(t1, 3, w) == !accepts(t1, 0, w) by {
                    lemma_top_star(t1, w);
                    lemma_eps_bot(t1, w);
                }
            }
            return node_id::TOP_STAR;
        }
        if node == node_id::TOP_STAR {
            proof {
                assert forall|w: Seq<char>| #[trigger] accepts(t1, 0, w) == !accepts(t1, 3, w) by {
                    lemma_top_star(t1, w);
                    lemma_eps_bot(t1, w);
                }
            }
            return node_id::BOT;
        }
        let r = self.intern(RegexNode::Not(node));
        proof {
            let t2 = self.table();
            lemma_extend_all(t1, t2, node as int);
            if self.room() {
                assert(r != 2);
            }
        }
        r
    }

    /// A lookahead assertion: `(?=_*)` is `EPS` and `(?=BOT)` is `BOT`.
    pub fn mk_lookahead(&mut self, node: RegexNodeId) -> (r: RegexNodeId)
        requires
            old(self).wf(),
            node < old(self).spec_len(),
        ensures
            final(self).wf(),
            table_extends(old(self).table(), final(self).table()),
            r < final(self).spec_len(),
            node == node_id::TOP_STAR ==> r == node_id::EPS,
            node == node_id::BOT ==> r == node_id::BOT,
            final(self).room() && node != node_id::TOP_STAR && node != node_id::BOT ==> final(self).table()[r as int]
                == (NodeView::<CharSetView>::LookAround {
                node,
                look_back: false,
                relative_to: 0,
                pending_nullables: Seq::empty(),
            }),
    {
        if node == node_id::TOP_STAR {
            return node_id::EPS;
        }
        if node == node_id::BOT {
            return node_id::BOT;
        }
        let pending = self.empty_refset.duplicate();
        self.intern(RegexNode::LookAround { node, look_back: false, relative_to: 0, pending_nullables: pending })
    }

    /// A lookbehind assertion: `(?<=_*)` is `EPS` and `(?<=BOT)` is `BOT`.
    pub fn mk_lookbehind(&mut self, node: RegexNodeId) -> (r: RegexNodeId)
        requires
            old(self).wf(),
            node < old(self).spec_len(),
        ensures
            final(self).wf(),
            table_extends(old(self).table(), final(self).table()),
            r < final(self).spec_len(),
            node == node_id::TOP_STAR ==> r == node_id::EPS,
            node == node_id::BOT ==> r == node_id::BOT,
            final(self).room() && node != node_id::TOP_STAR && node != node_id::BOT ==> final(self).table()[r as int]
                == (NodeView::<CharSetView>::LookAround {
                node,
                look_back: true,
                relative_to: 0,
                pending_nullables: Seq::empty(),
            }),
    {
        if node == node_id::TOP_STAR {
            return node_id::EPS;
        }
        if node == node_id::BOT {
            return node_id::BOT;
        }
        let pending = self.empty_refset.duplicate();
        self.intern(RegexNode::LookAround { node, look_back: true, relative_to: 0, pending_nullables: pending })
    }

    /// The position set holding only position 0.
    pub fn zero_refset(&self) -> (r: &RefSet)
        requires
            self.wf(),
        ensures
            r@ == seq![(0u16, 0u16)],
    {
        &self.zero_refset
    }

    /// A lookahead node with the given offset and pending positions.
    pub fn intern_lookahead_with_pending(
        &mut self,
        node: RegexNodeId,
        relative_to: RegexNodeId,
        pending: RefSet,
    ) -> (r: RegexNodeId)
        requires
            old(self).wf(),
            node < old(self).spec_len(),
        ensures
            final(self).wf(),
            table_extends(old(self).table(), final(self).table()),
            r < final(self).spec_len(),
            final(self).room() ==> final(self).table()[r as int] == (NodeView::<CharSetView>::LookAround {
                node,
                look_back: false,
                relative_to,
                pending_nullables: pending@,
            }),
    {
        self.intern(RegexNode::LookAround { node, look_back: false, relative_to, pending_nullables: pending })
    }
}

impl Default for RegexBuilder<CharSet> {
    fn default() -> (r: Self)
        ensures
            r.wf(),
            r.table().len() == 7,
    {
        Self::new()
    }
}

/// Node ids in order, repetitions allowed.
pub open spec fn ids_sorted(s: Seq<RegexNodeId>) -> bool {
    forall|i: int, j: int| 0 <= i < j < s.len() ==> s[i] <= s[j]
}

/// Node ids in strictly increasing order.
pub open spec fn ids_increasing(s: Seq<RegexNodeId>) -> bool {
    forall|i: int, j: int| 0 <= i < j < s.len() ==> s[i] < s[j]
}

/// Sorts ids in increasing order (the standard library's sort).
#[verifier::external_body]
fn sort_ids(v: &mut Vec<RegexNodeId>)
    ensures
        final(v)@.to_multiset() == old(v)@.to_multiset(),
        forall|i: int, j: int| 0 <= i < j < final(v)@.len() ==> final(v)@[i] <= final(v)@[j],
{
    v.sort()
}

proof fn lemma_contains_push(s: Seq<RegexNodeId>, x: RegexNodeId, y: RegexNodeId)
    ensures
        s.push(x).contains(y) <==> (s.contains(y) || y == x),
{
    if s.contains(y) {
        let k = choose|k: int| 0 <= k < s.len() && s[k] == y;
        assert(s.push(x)[k] == y);
    }
    if y == x {
        assert(s.push(x)[s.len() as int] == y);
    }
    if s.push(x).contains(y) {
        let k = choose|k: int| 0 <= k < s.push(x).len() && s.push(x)[k] == y;
        if k < s.len() {
            assert(s[k] == y);
        }
    }
}

/// Drops each id that equals the one before it.
fn dedup_ids(v: &Vec<RegexNodeId>) -> (r: Vec<RegexNodeId>)
    ensures
        forall|x: RegexNodeId| r@.contains(x) <==> v@.contains(x),
        r@.len() <= v@.len(),
        ids_sorted(v@) ==> ids_increasing(r@),
{
    let mut out: Vec<RegexNodeId> = Vec::new();
    let mut i: usize = 0;
    while i < v.len()
        invariant
            i <= v@.len(),
            out@.len() <= i,
            i > 0 ==> out@.len() > 0 && out@[out@.len() - 1] == v@[i - 1],
            forall|x: RegexNodeId| #[trigger] out@.contains(x) <==> v@.subrange(0, i as int).contains(x),
            ids_sorted(v@) ==> ids_increasing(out@),
        decreases v@.len() - i,
    {
        let x = v[i];
        let ghost o1 = out@;
        if out.len() == 0 || out[out.len() - 1] != x {
            out.push(x);
        }
        proof {
            let pre = v@.subrange(0, i as int);
            let post = v@.subrange(0, i + 1);
            assert(post =~= pre.push(x));
            if out@.len() == o1.len() {
                assert(o1[o1.len() - 1] == x);
                assert(o1.contains(x));
            } else if ids_sorted(v@) && o1.len() > 0 {
                assert(v@[i - 1] <= v@[i as int]);
                assert(out@ == o1.push(x));
                assert forall|a: int, b: int| 0 <= a < b < out@.len() implies out@[a] < out@[b] by {
                    if b == out@.len() - 1 {
                        assert(o1[a] <= o1[o1.len() - 1]);
                    } else {
                        assert(out@[a] == o1[a] && out@[b] == o1[b]);
                    }
                }
            }
            assert forall|y: RegexNodeId| #[trigger] out@.contains(y) <==> post.contains(y) by {
                lemma_contains_push(pre, x, y);
                if out@.len() != o1.len() {
                    assert(out@ == o1.push(x));
                    lemma_contains_push(o1, x, y);
                }
                assert(o1.contains(y) <==> pre.contains(y));
            }
        }
        i = i + 1;
    }
    proof {
        assert(v@.subrange(0, i as int) =~= v@);
    }
    out
}

} // verus!
