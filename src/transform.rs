use vstd::prelude::*;
use crate::links::{
    attach_links, detach_children, detach_links, first_of, last_of, lemma_attach_links, lemma_detach_links, lemma_links_push,
    links_ok, tid, Links,
};

verus! {

/// Arena index of a transform node.
#[derive(Hash, Copy, Clone, PartialEq, Eq, Structural, Debug)]
pub struct TransformId {
    pub index: usize,
}

/// A node of the scene tree: a local translation, rotation and scale, a cached
/// local-to-world matrix and the links that place it among its relatives.
pub struct Transform<V, M> {
    translation: V,
    rotation: V,
    scale: V,
    dirty: bool,
    dead: bool,
    matrix: Option<M>,
    pub parent: Option<TransformId>,
    pub first_child: Option<TransformId>,
    pub last_child: Option<TransformId>,
    pub next_sibling: Option<TransformId>,
    pub previous_sibling: Option<TransformId>,
}

impl<V, M> Transform<V, M> {
    pub closed spec fn spec_translation(&self) -> V {
        self.translation
    }

    pub closed spec fn spec_rotation(&self) -> V {
        self.rotation
    }

    pub closed spec fn spec_scale(&self) -> V {
        self.scale
    }

    pub closed spec fn spec_dirty(&self) -> bool {
        self.dirty
    }

    pub closed spec fn spec_dead(&self) -> bool {
        self.dead
    }

    pub closed spec fn spec_matrix(&self) -> Option<M> {
        self.matrix
    }

    pub closed spec fn spec_parent(&self) -> Option<TransformId> {
        self.parent
    }

    pub closed spec fn spec_first_child(&self) -> Option<TransformId> {
        self.first_child
    }

    pub closed spec fn spec_last_child(&self) -> Option<TransformId> {
        self.last_child
    }

    pub closed spec fn spec_next_sibling(&self) -> Option<TransformId> {
        self.next_sibling
    }

    pub closed spec fn spec_previous_sibling(&self) -> Option<TransformId> {
        self.previous_sibling
    }

    pub closed spec fn with_translation(self, v: V) -> Self {
        Transform { translation: v, ..self }
    }

    pub closed spec fn with_rotation(self, v: V) -> Self {
        Transform { rotation: v, ..self }
    }

    pub closed spec fn with_scale(self, v: V) -> Self {
        Transform { scale: v, ..self }
    }

    /// A detached node with the given local values; its matrix is not computed yet.
    pub fn new(t: V, r: V, s: V) -> (res: Transform<V, M>)
        ensures
            res.spec_translation() == t,
            res.spec_rotation() == r,
            res.spec_scale() == s,
            res.spec_dirty(),
            !res.spec_dead(),
            res.spec_matrix() is None,
            res.spec_parent() is None,
            res.spec_first_child() is None,
            res.spec_last_child() is None,
            res.spec_next_sibling() is None,
            res.spec_previous_sibling() is None,
    {
        Transform {
            translation: t,
            rotation: r,
            scale: s,
            dirty: true,
            dead: false,
            matrix: None,
            parent: None,
            first_child: None,
            last_child: None,
            next_sibling: None,
            previous_sibling: None,
        }
    }

    pub fn get_position(&self) -> (r: &V)
        ensures
            *r == self.spec_translation(),
    {
        &self.translation
    }

    pub fn get_rotation(&self) -> (r: &V)
        ensures
            *r == self.spec_rotation(),
    {
        &self.rotation
    }

    pub fn get_scale(&self) -> (r: &V)
        ensures
            *r == self.spec_scale(),
    {
        &self.scale
    }

    /// Whether the cached matrix is stale.
    pub fn is_dirty(&self) -> (r: bool)
        ensures
            r == self.spec_dirty(),
    {
        self.dirty
    }

    /// Whether the node has been detached and not reattached.
    pub fn is_dead(&self) -> (r: bool)
        ensures
            r == self.spec_dead(),
    {
        self.dead
    }

    /// Mutable access to the local position; the node is marked dirty.
    pub fn get_position_mut(&mut self) -> (r: &mut V)
        ensures
            *r == old(self).spec_translation(),
            final(self).spec_translation() == *final(r),
            final(self).spec_rotation() == old(self).spec_rotation(),
            final(self).spec_scale() == old(self).spec_scale(),
            final(self).spec_dirty(),
            final(self).same_frame(&*old(self)),
    {
        self.dirty = true;
        &mut self.translation
    }

    /// Mutable access to the local rotation; the node is marked dirty.
    pub fn get_rotation_mut(&mut self) -> (r: &mut V)
        ensures
            *r == old(self).spec_rotation(),
            final(self).spec_rotation() == *final(r),
            final(self).spec_translation() == old(self).spec_translation(),
            final(self).spec_scale() == old(self).spec_scale(),
            final(self).spec_dirty(),
            final(self).same_frame(&*old(self)),
    {
        self.dirty = true;
        &mut self.rotation
    }

    /// Mutable access to the local scale; the node is marked dirty.
    pub fn get_scale_mut(&mut self) -> (r: &mut V)
        ensures
            *r == old(self).spec_scale(),
            final(self).spec_scale() == *final(r),
            final(self).spec_translation() == old(self).spec_translation(),
            final(self).spec_rotation() == old(self).spec_rotation(),
            final(self).spec_dirty(),
            final(self).same_frame(&*old(self)),
    {
        self.dirty = true;
        &mut self.scale
    }
}


/// Whether the parent links starting at `x` reach a root within `fuel` steps.
pub open spec fn reaches_root(ps: Seq<Option<TransformId>>, x: int, fuel: nat) -> bool
    decreases fuel,
{
    0 <= x < ps.len() && match ps[x] {
        None => true,
        Some(p) => fuel > 0 && reaches_root(ps, p.index as int, (fuel - 1) as nat),
    }
}

/// Whether `a` is `x` or one of its ancestors no more than `fuel` steps up.
pub open spec fn above(ps: Seq<Option<TransformId>>, x: int, a: int, fuel: nat) -> bool
    decreases fuel,
{
    x == a || (0 <= x < ps.len() && match ps[x] {
        None => false,
        Some(p) => fuel > 0 && above(ps, p.index as int, a, (fuel - 1) as nat),
    })
}

/// Whether the parent links starting at `x` reach a root.
pub open spec fn rooted(ps: Seq<Option<TransformId>>, x: int) -> bool {
    exists|f: nat| reaches_root(ps, x, f)
}

/// Whether `a` is `x` or one of its ancestors.
pub open spec fn descends_from(ps: Seq<Option<TransformId>>, x: int, a: int) -> bool {
    exists|f: nat| above(ps, x, a, f)
}

proof fn lemma_reaches_mono(ps: Seq<Option<TransformId>>, x: int, f: nat, g: nat)
    requires
        reaches_root(ps, x, f),
        f <= g,
    ensures
        reaches_root(ps, x, g),
    decreases f,
{
    if let Some(p) = ps[x] {
        lemma_reaches_mono(ps, p.index as int, (f - 1) as nat, (g - 1) as nat);
    }
}

proof fn lemma_above_stable(ps: Seq<Option<TransformId>>, x: int, a: int, f: nat, g: nat)
    requires
        reaches_root(ps, x, f),
        f <= g,
    ensures
        above(ps, x, a, g) == above(ps, x, a, f),
    decreases f,
{
    if x != a {
        if let Some(p) = ps[x] {
            lemma_above_stable(ps, p.index as int, a, (f - 1) as nat, (g - 1) as nat);
        }
    }
}

proof fn lemma_descends_exact(ps: Seq<Option<TransformId>>, x: int, a: int, f: nat)
    requires
        reaches_root(ps, x, f),
    ensures
        descends_from(ps, x, a) == above(ps, x, a, f),
{
    if descends_from(ps, x, a) {
        let g = choose|g: nat| above(ps, x, a, g);
        if g <= f {
            lemma_above_mono(ps, x, a, g, f);
        } else {
            lemma_above_stable(ps, x, a, f, g);
        }
    }
}

proof fn lemma_above_mono(ps: Seq<Option<TransformId>>, x: int, a: int, f: nat, g: nat)
    requires
        above(ps, x, a, f),
        f <= g,
    ensures
        above(ps, x, a, g),
    decreases f,
{
    if x != a {
        if let Some(p) = ps[x] {
            lemma_above_mono(ps, p.index as int, a, (f - 1) as nat, (g - 1) as nat);
        }
    }
}

proof fn lemma_reaches_push(ps: Seq<Option<TransformId>>, x: int, f: nat)
    requires
        reaches_root(ps, x, f),
    ensures
        reaches_root(ps.push(None), x, f),
        forall|a: int| #![auto] above(ps.push(None), x, a, f) == above(ps, x, a, f),
    decreases f,
{
    assert(ps.push(None)[x] == ps[x]);
    if let Some(p) = ps[x] {
        lemma_reaches_push(ps, p.index as int, (f - 1) as nat);
    }
    assert forall|a: int| #![auto] above(ps.push(None), x, a, f) == above(ps, x, a, f) by {
        if let Some(p) = ps[x] {
            assert(above(ps.push(None), p.index as int, a, (f - 1) as nat) == above(ps, p.index as int, a, (f - 1) as nat));
        }
    }
}

proof fn lemma_rooted_push(ps: Seq<Option<TransformId>>)
    requires
        forall|i: int| 0 <= i < ps.len() ==> #[trigger] rooted(ps, i),
    ensures
        forall|i: int| 0 <= i < ps.len() + 1 ==> #[trigger] rooted(ps.push(None), i),
{
    assert forall|i: int| 0 <= i < ps.len() + 1 implies #[trigger] rooted(ps.push(None), i) by {
        if i < ps.len() {
            assert(rooted(ps, i));
            let f = choose|f: nat| reaches_root(ps, i, f);
            lemma_reaches_push(ps, i, f);
            assert(reaches_root(ps.push(None), i, f));
        } else {
            assert(reaches_root(ps.push(None), i, 0));
        }
    }
}

proof fn lemma_no_self_parent(ps: Seq<Option<TransformId>>, x: int, f: nat)
    requires
        0 <= x < ps.len(),
        ps[x] matches Some(t) && t.index == x,
    ensures
        !reaches_root(ps, x, f),
    decreases f,
{
    if f > 0 {
        lemma_no_self_parent(ps, x, (f - 1) as nat);
    }
}

proof fn lemma_reaches_cut(ps: Seq<Option<TransformId>>, n: int, x: int, f: nat)
    requires
        reaches_root(ps, x, f),
        0 <= n < ps.len(),
    ensures
        reaches_root(ps.update(n, None), x, f),
    decreases f,
{
    if x != n {
        if let Some(p) = ps[x] {
            lemma_reaches_cut(ps, n, p.index as int, (f - 1) as nat);
        }
    }
}

proof fn lemma_reaches_avoiding(ps: Seq<Option<TransformId>>, c: int, q: TransformId, y: int, g: nat)
    requires
        reaches_root(ps, y, g),
        !above(ps, y, c, g),
        0 <= c < ps.len(),
    ensures
        reaches_root(ps.update(c, Some(q)), y, g),
    decreases g,
{
    if let Some(p) = ps[y] {
        lemma_reaches_avoiding(ps, c, q, p.index as int, (g - 1) as nat);
    }
}

proof fn lemma_reaches_link(ps: Seq<Option<TransformId>>, c: int, q: TransformId, fq: nat, x: int, f: nat)
    requires
        reaches_root(ps, x, f),
        reaches_root(ps, q.index as int, fq),
        !above(ps, q.index as int, c, fq),
        0 <= c < ps.len(),
    ensures
        reaches_root(ps.update(c, Some(q)), x, f + 1 + fq),
    decreases f,
{
    let ps2 = ps.update(c, Some(q));
    if x == c {
        lemma_reaches_avoiding(ps, c, q, q.index as int, fq);
        lemma_reaches_mono(ps2, q.index as int, fq, f + fq);
    } else if let Some(p) = ps[x] {
        lemma_reaches_link(ps, c, q, fq, p.index as int, (f - 1) as nat);
    }
}


/// Why a change of the tree was refused.
#[derive(Copy, Clone, PartialEq, Eq, Structural, Debug)]
pub enum GraphError {
    /// The id names no node of the arena.
    UnknownNode,
    /// The child already has a parent.
    AlreadyAttached,
    /// The new parent is the child itself or one of its descendants.
    WouldCycle,
}

/// An arena of transform nodes linked into a forest.
///
/// `compose(parent_world, translation, rotation, scale)` gives a node's world
/// matrix from its parent's (`identity` for a root) and its local values.
pub struct TransformGraph<V, M, F> {
    nodes: Vec<Transform<V, M>>,
    identity: M,
    compose: F,
    children: Ghost<Seq<Seq<TransformId>>>,
}

pub open spec fn valid_link(o: Option<TransformId>, len: int) -> bool {
    o matches Some(t) ==> 0 <= t.index < len
}

impl<V: Copy, M: Copy, F: Fn(M, V, V, V) -> M> TransformGraph<V, M, F> {
    pub closed spec fn len(&self) -> nat {
        self.nodes@.len()
    }

    pub closed spec fn node(&self, i: int) -> Transform<V, M> {
        self.nodes@[i]
    }

    pub closed spec fn spec_identity(&self) -> M {
        self.identity
    }

    pub closed spec fn spec_compose(&self) -> F {
        self.compose
    }

    /// The children of node `p`, in the order in which they were attached.
    pub closed spec fn child_list(&self, p: int) -> Seq<TransformId> {
        self.children@[p]
    }

    pub closed spec fn spec_children(&self) -> Seq<Seq<TransformId>> {
        self.children@
    }

    pub closed spec fn link_seq(&self) -> Seq<Links> {
        Seq::new(
            self.nodes@.len(),
            |i: int|
                (
                    self.nodes@[i].parent,
                    self.nodes@[i].first_child,
                    self.nodes@[i].last_child,
                    self.nodes@[i].next_sibling,
                    self.nodes@[i].previous_sibling,
                ),
        )
    }

    pub open spec fn parents(&self) -> Seq<Option<TransformId>> {
        Seq::new(self.len(), |i: int| self.node(i).spec_parent())
    }

    /// The world matrix of the parent of `i`, or the identity for a root.
    pub open spec fn parent_world(&self, i: int) -> M {
        match self.node(i).spec_parent() {
            None => self.spec_identity(),
            Some(p) => self.node(p.index as int).spec_matrix().unwrap(),
        }
    }

    /// The cached world matrix of `i` is current: it is the composition of its
    /// parent's world matrix with its own local values.
    pub open spec fn world_current(&self, i: int) -> bool {
        let n = self.node(i);
        &&& n.spec_matrix() is Some
        &&& (n.spec_parent() matches Some(p) ==> !self.node(p.index as int).spec_dirty())
        &&& self.spec_compose().ensures(
            (self.parent_world(i), n.spec_translation(), n.spec_rotation(), n.spec_scale()),
            n.spec_matrix().unwrap(),
        )
    }

    /// Every parent chain ends at a root.
    pub closed spec fn acyclic(&self) -> bool {
        forall|i: int| 0 <= i < self.len() ==> #[trigger] rooted(self.parents(), i)
    }

    /// The invariant of the arena: consistent sibling lists, parent links that
    /// reach a root, and cached matrices that are current wherever a node is clean.
    #[verifier::opaque]
    pub closed spec fn wf(&self) -> bool {
        &&& forall|i: int| 0 <= i < self.len() ==> valid_link(#[trigger] self.nodes@[i].parent, self.len() as int)
        &&& self.acyclic()
        &&& links_ok(self.link_seq(), self.children@)
        &&& self.nodes@.len() <= usize::MAX
        &&& forall|i: int| 0 <= i < self.len() && !(#[trigger] self.nodes@[i]).dirty ==> self.world_current(i)
        &&& forall|a: M, t: V, r: V, s: V| #[trigger] self.compose.requires((a, t, r, s))
    }

    /// Node `i` once every node at or below `a` has been marked dirty.
    pub open spec fn marked_node(&self, i: int, a: int) -> Transform<V, M> {
        self.node(i).with_dirty(self.node(i).spec_dirty() || descends_from(self.parents(), i, a))
    }

    /// `self` is `o` with some cached matrices recomputed.
    pub open spec fn same_shape(&self, o: &Self) -> bool {
        &&& self.len() == o.len()
        &&& self.spec_identity() == o.spec_identity()
        &&& self.spec_compose() == o.spec_compose()
        &&& self.spec_children() == o.spec_children()
        &&& forall|i: int| 0 <= i < self.len() ==> (#[trigger] self.node(i)).same_local(&o.node(i))
    }

    proof fn lemma_same_parents(g0: Self, g1: Self)
        requires
            g0.acyclic(),
            g1.nodes@.len() == g0.nodes@.len(),
            forall|j: int| 0 <= j < g1.nodes@.len() ==> (#[trigger] g1.nodes@[j]).parent == g0.nodes@[j].parent,
        ensures
            g1.acyclic(),
            g1.parents() == g0.parents(),
    {
        assert(g1.parents() =~= g0.parents());
    }

    proof fn lemma_attach(g1: Self, g2: Self, c: int, pid: TransformId, fp: nat)
        requires
            g1.wf(),
            0 <= c < g1.len(),
            0 <= pid.index < g1.len(),
            g1.nodes@[c].dirty,
            forall|i: int| 0 <= i < g1.len() && descends_from(g1.parents(), i, c) ==> (#[trigger] g1.nodes@[i]).dirty,
            reaches_root(g1.parents(), pid.index as int, fp),
            !above(g1.parents(), pid.index as int, c, fp),
            g2.nodes@.len() == g1.nodes@.len(),
            g2.identity == g1.identity,
            g2.compose == g1.compose,
            links_ok(g2.link_seq(), g2.children@),
            g2.nodes@.len() <= usize::MAX,
            g2.nodes@[c].parent == Some(pid),
            g2.nodes@[c].dirty,
            forall|j: int| 0 <= j < g1.len() ==> (#[trigger] g2.nodes@[j]).same_local_except_links(&g1.nodes@[j]),
            forall|j: int| 0 <= j < g1.len() && j != c ==> (#[trigger] g2.nodes@[j]).parent == g1.nodes@[j].parent,
        ensures
            g2.wf(),
    {
        reveal(TransformGraph::wf);
        let ps = g1.parents();
        assert(g2.parents() =~= ps.update(c, Some(pid)));
        assert forall|i: int| 0 <= i < g2.len() implies #[trigger] rooted(g2.parents(), i) by {
            assert(rooted(ps, i));
            let f = choose|f: nat| reaches_root(ps, i, f);
            lemma_reaches_link(ps, c, pid, fp, i, f);
            assert(reaches_root(g2.parents(), i, f + 1 + fp));
        }
        assert forall|i: int| 0 <= i < g2.len() && !(#[trigger] g2.nodes@[i]).dirty implies g2.world_current(i) by {
            assert(g2.nodes@[i].same_local_except_links(&g1.nodes@[i]));
            assert(g1.world_current(i));
            if let Some(q) = g1.nodes@[i].parent {
                if q.index == c {
                    assert(above(ps, i, c, 1));
                }
                assert(g2.nodes@[q.index as int].same_local_except_links(&g1.nodes@[q.index as int]));
            }
        }
        assert forall|i: int| 0 <= i < g2.len() implies valid_link(#[trigger] g2.nodes@[i].parent, g2.len() as int) by {
            assert(valid_link(g1.nodes@[i].parent, g1.len() as int));
        }
    }

    proof fn lemma_detach(g1: Self, g2: Self, n: int)
        requires
            g1.wf(),
            0 <= n < g1.len(),
            g1.nodes@[n].dirty,
            forall|i: int| 0 <= i < g1.len() && descends_from(g1.parents(), i, n) ==> (#[trigger] g1.nodes@[i]).dirty,
            g2.nodes@.len() == g1.nodes@.len(),
            g2.identity == g1.identity,
            g2.compose == g1.compose,
            links_ok(g2.link_seq(), g2.children@),
            g2.nodes@.len() <= usize::MAX,
            g2.nodes@[n].parent is None,
            g2.nodes@[n].dirty,
            forall|j: int| 0 <= j < g1.len() ==> (#[trigger] g2.nodes@[j]).same_local_except_links(&g1.nodes@[j]),
            forall|j: int| 0 <= j < g1.len() && j != n ==> (#[trigger] g2.nodes@[j]).parent == g1.nodes@[j].parent,
        ensures
            g2.wf(),
    {
        reveal(TransformGraph::wf);
        let ps = g1.parents();
        assert(g2.parents() =~= ps.update(n, None));
        assert forall|i: int| 0 <= i < g2.len() implies #[trigger] rooted(g2.parents(), i) by {
            assert(rooted(ps, i));
            let f = choose|f: nat| reaches_root(ps, i, f);
            lemma_reaches_cut(ps, n, i, f);
            assert(reaches_root(g2.parents(), i, f));
        }
        assert forall|i: int| 0 <= i < g2.len() && !(#[trigger] g2.nodes@[i]).dirty implies g2.world_current(i) by {
            assert(g2.nodes@[i].same_local_except_links(&g1.nodes@[i]));
            assert(g1.world_current(i));
            if let Some(q) = g1.nodes@[i].parent {
                if q.index == n {
                    assert(above(ps, i, n, 1));
                }
                assert(g2.nodes@[q.index as int].same_local_except_links(&g1.nodes@[q.index as int]));
            }
        }
        assert forall|i: int| 0 <= i < g2.len() implies valid_link(#[trigger] g2.nodes@[i].parent, g2.len() as int) by {
            assert(valid_link(g1.nodes@[i].parent, g1.len() as int));
        }
    }

    proof fn lemma_no_self_parents(g: Self)
        requires
            g.wf(),
        ensures
            forall|i: int| 0 <= i < g.link_seq().len() ==> g.link_seq()[i].0 != Some(tid(i)),
            links_ok(g.link_seq(), g.children@),
            g.link_seq().len() <= usize::MAX,
    {
        reveal(TransformGraph::wf);
        assert forall|i: int| 0 <= i < g.link_seq().len() implies g.link_seq()[i].0 != Some(tid(i)) by {
            assert(rooted(g.parents(), i));
            let f = choose|f: nat| reaches_root(g.parents(), i, f);
            if g.link_seq()[i].0 == Some(tid(i)) {
                lemma_no_self_parent(g.parents(), i, f);
            }
        }
    }

    proof fn lemma_wf_node(g: Self, i: int)
        requires
            g.wf(),
            0 <= i < g.len(),
        ensures
            valid_link(g.node(i).spec_parent(), g.len() as int),
            g.parents()[i] == g.node(i).spec_parent(),
            !g.node(i).spec_dirty() ==> g.world_current(i),
            forall|a: M, t: V, r: V, s: V| #[trigger] g.compose.requires((a, t, r, s)),
    {
        reveal(TransformGraph::wf);
    }

    proof fn lemma_replace_dirty(g0: Self, g1: Self, i: int)
        requires
            g0.wf(),
            0 <= i < g0.nodes@.len(),
            g0.nodes@[i].dirty,
            g1.nodes@.len() == g0.nodes@.len(),
            g1.nodes@[i].dirty,
            g1.nodes@[i].parent == g0.nodes@[i].parent,
            g1.nodes@[i].first_child == g0.nodes@[i].first_child,
            g1.nodes@[i].last_child == g0.nodes@[i].last_child,
            g1.nodes@[i].next_sibling == g0.nodes@[i].next_sibling,
            g1.nodes@[i].previous_sibling == g0.nodes@[i].previous_sibling,
            forall|j: int| 0 <= j < g1.nodes@.len() && j != i ==> #[trigger] g1.nodes@[j] == g0.nodes@[j],
            g1.identity == g0.identity,
            g1.compose == g0.compose,
            g1.children == g0.children,
        ensures
            g1.wf(),
            g1.parents() == g0.parents(),
    {
        reveal(TransformGraph::wf);
        assert forall|j: int| 0 <= j < g1.nodes@.len() implies valid_link(#[trigger] g1.nodes@[j].parent, g1.nodes@.len() as int) by {
            assert(g0.nodes@[j].parent == g1.nodes@[j].parent);
            assert(valid_link(g0.nodes@[j].parent, g0.nodes@.len() as int));
        }
        assert(g1.parents() =~= g0.parents());
        assert(g1.link_seq() =~= g0.link_seq());
        assert forall|j: int| 0 <= j < g1.len() && !(#[trigger] g1.nodes@[j]).dirty implies g1.world_current(j) by {
            assert(g0.world_current(j));
        }
    }

    #[verifier::rlimit(40)]
    proof fn lemma_refresh(g0: Self, g1: Self, i: int)
        requires
            g0.wf(),
            0 <= i < g0.nodes@.len(),
            g0.nodes@[i].dirty,
            g1.nodes@ == g0.nodes@.update(i, g1.nodes@[i]),
            g1.nodes@[i] == (Transform { matrix: g1.nodes@[i].matrix, dirty: false, ..g0.nodes@[i] }),
            g1.identity == g0.identity,
            g1.compose == g0.compose,
            g1.children == g0.children,
            g1.world_current(i),
        ensures
            g1.wf(),
            g1.same_shape(&g0),
            g1.parents() == g0.parents(),
    {
        reveal(TransformGraph::wf);
        assert forall|j: int| 0 <= j < g1.nodes@.len() implies valid_link(#[trigger] g1.nodes@[j].parent, g1.nodes@.len() as int) by {
            assert(g0.nodes@[j].parent == g1.nodes@[j].parent);
            assert(valid_link(g0.nodes@[j].parent, g0.nodes@.len() as int));
        }
        assert(g1.parents() =~= g0.parents());
        assert(g1.link_seq() =~= g0.link_seq());
        assert forall|j: int| 0 <= j < g1.len() && !(#[trigger] g1.nodes@[j]).dirty implies g1.world_current(j) by {
            if j != i {
                assert(g0.world_current(j));
            }
        }
        assert forall|j: int| 0 <= j < g1.nodes@.len() implies #[trigger] g1.nodes@[j].same_local(&g0.nodes@[j]) by {}
    }

    proof fn lemma_dirty_marked(g0: Self, g1: Self, a: int)
        requires
            g0.wf(),
            g1.nodes@.len() == g0.nodes@.len(),
            g1.identity == g0.identity,
            g1.compose == g0.compose,
            g1.children == g0.children,
            forall|j: int| 0 <= j < g1.nodes@.len() ==> #[trigger] g1.nodes@[j] == g0.nodes@[j].with_dirty(
                g0.nodes@[j].dirty || descends_from(g0.parents(), j, a),
            ),
        ensures
            g1.wf(),
            g1.parents() == g0.parents(),
    {
        reveal(TransformGraph::wf);
        assert(g1.parents() =~= g0.parents());
        assert(g1.link_seq() =~= g0.link_seq());
        assert forall|j: int| 0 <= j < g1.nodes@.len() implies valid_link(#[trigger] g1.nodes@[j].parent, g1.nodes@.len() as int) by {
            assert(g0.nodes@[j].parent == g1.nodes@[j].parent);
            assert(valid_link(g0.nodes@[j].parent, g0.nodes@.len() as int));
        }
        let ps = g0.parents();
        assert forall|i: int| 0 <= i < g1.len() && !(#[trigger] g1.nodes@[i]).dirty implies g1.world_current(i) by {
            assert(g0.nodes@[i] == g1.nodes@[i].with_dirty(false));
            assert(g0.world_current(i));
            if let Some(p) = g0.nodes@[i].parent {
                let q = p.index as int;
                assert(!g0.nodes@[q].dirty);
                if descends_from(ps, q, a) {
                    let f = choose|f: nat| above(ps, q, a, f);
                    assert(above(ps, i, a, f + 1));
                    assert(descends_from(ps, i, a));
                }
                assert(g1.nodes@[q] == g0.nodes@[q]);
            }
        }
    }

    /// An empty arena.
    pub fn new(identity: M, compose: F) -> (g: Self)
        requires
            forall|a: M, t: V, r: V, s: V| #[trigger] compose.requires((a, t, r, s)),
        ensures
            g.wf(),
            g.len() == 0,
            g.spec_identity() == identity,
            g.spec_compose() == compose,
    {
        let g = TransformGraph { nodes: Vec::new(), identity, compose, children: Ghost(Seq::empty()) };
        proof {
            reveal(TransformGraph::wf);
            assert(g.link_seq() =~= Seq::<Links>::empty());
        }
        g
    }

    pub fn node_count(&self) -> (r: usize)
        ensures
            r == self.len(),
    {
        self.nodes.len()
    }

    /// Adds a detached node with the given local values and returns its id.
    pub fn create(&mut self, t: V, r: V, s: V) -> (id: TransformId)
        requires
            old(self).wf(),
            old(self).len() < usize::MAX,
        ensures
            final(self).wf(),
            id.index == old(self).len(),
            final(self).len() == old(self).len() + 1,
            final(self).node(id.index as int) == Transform::<V, M>::new_spec(t, r, s),
            ({
                let n = final(self).node(id.index as int);
                &&& n.spec_translation() == t && n.spec_rotation() == r && n.spec_scale() == s
                &&& n.spec_dirty() && !n.spec_dead() && n.spec_matrix() is None
                &&& n.spec_parent() is None && n.spec_first_child() is None && n.spec_last_child() is None
                &&& n.spec_next_sibling() is None && n.spec_previous_sibling() is None
            }),
            forall|i: int| 0 <= i < old(self).len() ==> final(self).node(i) == old(self).node(i),
            forall|i: int| 0 <= i < old(self).len() ==> #[trigger] final(self).child_list(i) == old(self).child_list(i),
            final(self).child_list(id.index as int) == Seq::<TransformId>::empty(),
            final(self).spec_identity() == old(self).spec_identity(),
            final(self).spec_compose() == old(self).spec_compose(),
    {
        proof {
            reveal(TransformGraph::wf);
        }
        let id = TransformId { index: self.nodes.len() };
        let ghost ps0 = self.parents();
        let ghost ls0 = self.link_seq();
        self.nodes.push(Transform::new(t, r, s));
        self.children = Ghost(self.children@.push(Seq::empty()));
        proof {
            lemma_links_push(ls0, old(self).children@);
            assert(self.link_seq() =~= ls0.push((None, None, None, None, None)));
            assert(self.parents() =~= ps0.push(None));
            lemma_rooted_push(ps0);
            assert forall|i: int| 0 <= i < self.len() && !(#[trigger] self.nodes@[i]).dirty implies self.world_current(i) by {
                assert(old(self).world_current(i));
            }
        }
        id
    }

    /// The node stored under `id`.
    pub fn get(&self, id: TransformId) -> (r: &Transform<V, M>)
        requires
            id.index < self.len(),
        ensures
            *r == self.node(id.index as int),
    {
        &self.nodes[id.index]
    }

    /// The children of `p`, read by following `first_child` and then `next_sibling`.
    pub fn children(&self, p: TransformId) -> (r: Vec<TransformId>)
        requires
            self.wf(),
            p.index < self.len(),
        ensures
            r@ == self.child_list(p.index as int),
    {
        proof {
            lemma_children_linked(*self, p.index as int);
        }
        let ghost c = self.child_list(p.index as int);
        let mut r: Vec<TransformId> = Vec::new();
        let mut cur = self.nodes[p.index].first_child;
        while cur.is_some()
            invariant
                self.wf(),
                p.index < self.len(),
                c == self.child_list(p.index as int),
                forall|k: int| 0 <= k < c.len() ==> {
                    let e = #[trigger] c[k];
                    &&& 0 <= e.index < self.len()
                    &&& self.node(e.index as int).spec_next_sibling() == (if k + 1 == c.len() { None } else { Some(c[k + 1]) })
                },
                r.len() <= c.len(),
                r@ == c.subrange(0, r.len() as int),
                cur == (if r.len() < c.len() { Some(c[r.len() as int]) } else { None::<TransformId> }),
            decreases c.len() - r.len(),
        {
            let id = cur.unwrap();
            proof {
                assert(c[r.len() as int] == id);
            }
            r.push(id);
            cur = self.nodes[id.index].next_sibling;
            proof {
                assert(r@ =~= c.subrange(0, r.len() as int));
            }
        }
        proof {
            assert(r@ =~= c);
        }
        r
    }

    /// Whether `a` is `x` or one of its ancestors.
    fn is_under(&self, x: usize, a: usize) -> (r: bool)
        requires
            self.acyclic(),
            x < self.len(),
        ensures
            r == descends_from(self.parents(), x as int, a as int),
    {
        let ghost ps = self.parents();
        proof {
            assert(rooted(ps, x as int));
        }
        let ghost f0 = choose|f: nat| reaches_root(ps, x as int, f);
        let ghost mut f = f0;
        let mut cur = x;
        proof {
            lemma_descends_exact(ps, x as int, a as int, f0);
        }
        loop
            invariant
                self.acyclic(),
                ps == self.parents(),
                reaches_root(ps, cur as int, f),
                descends_from(ps, x as int, a as int) == above(ps, cur as int, a as int, f),
            decreases f,
        {
            if cur == a {
                return true;
            }
            match self.nodes[cur].parent {
                None => {
                    return false;
                },
                Some(p) => {
                    cur = p.index;
                    proof {
                        f = (f - 1) as nat;
                    }
                },
            }
        }
    }

    /// Marks `id` and every node below it dirty.
    pub fn mark_dirty(&mut self, id: TransformId)
        requires
            old(self).wf(),
        ensures
            final(self).wf(),
            final(self).len() == old(self).len(),
            final(self).spec_identity() == old(self).spec_identity(),
            final(self).spec_compose() == old(self).spec_compose(),
            final(self).spec_children() == old(self).spec_children(),
            forall|i: int| 0 <= i < old(self).len() ==> #[trigger] final(self).node(i) == old(self).marked_node(i, id.index as int),
            forall|i: int| 0 <= i < old(self).len() ==> (#[trigger] final(self).node(i)).is_marked(
                &old(self).node(i),
                old(self).node(i).spec_dirty() || descends_from(old(self).parents(), i, id.index as int),
            ),
    {
        let ghost g0 = *self;
        proof {
            reveal(TransformGraph::wf);
        }
        let mut i: usize = 0;
        proof {
            assert(g0.acyclic());
        }
        while i < self.nodes.len()
            invariant
                g0.wf(),
                g0.acyclic(),
                self.nodes@.len() == g0.nodes@.len(),
                self.identity == g0.identity,
                self.compose == g0.compose,
                self.children == g0.children,
                forall|j: int| 0 <= j < i ==> #[trigger] self.nodes@[j] == g0.nodes@[j].with_dirty(
                    g0.nodes@[j].dirty || descends_from(g0.parents(), j, id.index as int),
                ),
                forall|j: int| i <= j < self.nodes@.len() ==> #[trigger] self.nodes@[j] == g0.nodes@[j],
            decreases self.nodes@.len() - i,
        {
            proof {
                Self::lemma_same_parents(g0, *self);
            }
            if self.is_under(i, id.index) {
                self.nodes[i].dirty = true;
            }
            assert(self.nodes@[i as int] == g0.nodes@[i as int].with_dirty(
                g0.nodes@[i as int].dirty || descends_from(g0.parents(), i as int, id.index as int)));
            i += 1;
        }
        proof {
            assert(self.parents() =~= g0.parents());
            Self::lemma_dirty_marked(g0, *self, id.index as int);
        }
    }

    /// Replaces the local translation of `id` and marks it and its descendants dirty.
    pub fn set_translation(&mut self, id: TransformId, v: V)
        requires
            old(self).wf(),
            id.index < old(self).len(),
        ensures
            final(self).wf(),
            final(self).len() == old(self).len(),
            final(self).spec_identity() == old(self).spec_identity(),
            final(self).spec_compose() == old(self).spec_compose(),
            final(self).spec_children() == old(self).spec_children(),
            forall|i: int|
                0 <= i < old(self).len() && i != id.index ==> #[trigger] final(self).node(i) == old(self).marked_node(i, id.index as int),
            final(self).node(id.index as int) == old(self).node(id.index as int).with_dirty(true).with_translation(v),
            final(self).node(id.index as int).spec_translation() == v,
            final(self).node(id.index as int).spec_rotation() == old(self).node(id.index as int).spec_rotation(),
            final(self).node(id.index as int).spec_scale() == old(self).node(id.index as int).spec_scale(),
            final(self).node(id.index as int).spec_dirty(),
            final(self).node(id.index as int).same_frame(&old(self).node(id.index as int)),
            forall|i: int| 0 <= i < old(self).len() && i != id.index ==> (#[trigger] final(self).node(i)).is_marked(
                &old(self).node(i),
                old(self).node(i).spec_dirty() || descends_from(old(self).parents(), i, id.index as int),
            ),
    {
        self.mark_dirty(id);
        proof {
            assert(above(old(self).parents(), id.index as int, id.index as int, 0));
            assert(self.node(id.index as int) == old(self).marked_node(id.index as int, id.index as int));
        }
        let ghost g1 = *self;
        self.nodes[id.index].translation = v;
        proof {
            Self::lemma_replace_dirty(g1, *self, id.index as int);
            assert forall|i: int| 0 <= i < old(self).len() && i != id.index implies #[trigger] self.node(i)
                == old(self).marked_node(i, id.index as int) by {
                assert(g1.node(i) == old(self).marked_node(i, id.index as int));
            }
            assert(self.nodes@[id.index as int] == g1.nodes@[id.index as int].with_translation(v));
        }
    }

    /// Replaces the local rotation of `id` and marks it and its descendants dirty.
    pub fn set_rotation(&mut self, id: TransformId, v: V)
        requires
            old(self).wf(),
            id.index < old(self).len(),
        ensures
            final(self).wf(),
            final(self).len() == old(self).len(),
            final(self).spec_identity() == old(self).spec_identity(),
            final(self).spec_compose() == old(self).spec_compose(),
            final(self).spec_children() == old(self).spec_children(),
            forall|i: int|
                0 <= i < old(self).len() && i != id.index ==> #[trigger] final(self).node(i) == old(self).marked_node(i, id.index as int),
            final(self).node(id.index as int) == old(self).node(id.index as int).with_dirty(true).with_rotation(v),
            final(self).node(id.index as int).spec_rotation() == v,
            final(self).node(id.index as int).spec_translation() == old(self).node(id.index as int).spec_translation(),
            final(self).node(id.index as int).spec_scale() == old(self).node(id.index as int).spec_scale(),
            final(self).node(id.index as int).spec_dirty(),
            final(self).node(id.index as int).same_frame(&old(self).node(id.index as int)),
            forall|i: int| 0 <= i < old(self).len() && i != id.index ==> (#[trigger] final(self).node(i)).is_marked(
                &old(self).node(i),
                old(self).node(i).spec_dirty() || descends_from(old(self).parents(), i, id.index as int),
            ),
    {
        self.mark_dirty(id);
        proof {
            assert(above(old(self).parents(), id.index as int, id.index as int, 0));
            assert(self.node(id.index as int) == old(self).marked_node(id.index as int, id.index as int));
        }
        let ghost g1 = *self;
        self.nodes[id.index].rotation = v;
        proof {
            Self::lemma_replace_dirty(g1, *self, id.index as int);
            assert forall|i: int| 0 <= i < old(self).len() && i != id.index implies #[trigger] self.node(i)
                == old(self).marked_node(i, id.index as int) by {
                assert(g1.node(i) == old(self).marked_node(i, id.index as int));
            }
            assert(self.nodes@[id.index as int] == g1.nodes@[id.index as int].with_rotation(v));
        }
    }

    /// Replaces the local scale of `id` and marks it and its descendants dirty.
    pub fn set_scale(&mut self, id: TransformId, v: V)
        requires
            old(self).wf(),
            id.index < old(self).len(),
        ensures
            final(self).wf(),
            final(self).len() == old(self).len(),
            final(self).spec_identity() == old(self).spec_identity(),
            final(self).spec_compose() == old(self).spec_compose(),
            final(self).spec_children() == old(self).spec_children(),
            forall|i: int|
                0 <= i < old(self).len() && i != id.index ==> #[trigger] final(self).node(i) == old(self).marked_node(i, id.index as int),
            final(self).node(id.index as int) == old(self).node(id.index as int).with_dirty(true).with_scale(v),
            final(self).node(id.index as int).spec_scale() == v,
            final(self).node(id.index as int).spec_translation() == old(self).node(id.index as int).spec_translation(),
            final(self).node(id.index as int).spec_rotation() == old(self).node(id.index as int).spec_rotation(),
            final(self).node(id.index as int).spec_dirty(),
            final(self).node(id.index as int).same_frame(&old(self).node(id.index as int)),
            forall|i: int| 0 <= i < old(self).len() && i != id.index ==> (#[trigger] final(self).node(i)).is_marked(
                &old(self).node(i),
                old(self).node(i).spec_dirty() || descends_from(old(self).parents(), i, id.index as int),
            ),
    {
        self.mark_dirty(id);
        proof {
            assert(above(old(self).parents(), id.index as int, id.index as int, 0));
            assert(self.node(id.index as int) == old(self).marked_node(id.index as int, id.index as int));
        }
        let ghost g1 = *self;
        self.nodes[id.index].scale = v;
        proof {
            Self::lemma_replace_dirty(g1, *self, id.index as int);
            assert forall|i: int| 0 <= i < old(self).len() && i != id.index implies #[trigger] self.node(i)
                == old(self).marked_node(i, id.index as int) by {
                assert(g1.node(i) == old(self).marked_node(i, id.index as int));
            }
            assert(self.nodes@[id.index as int] == g1.nodes@[id.index as int].with_scale(v));
        }
    }

    fn world_rec(&mut self, id: TransformId, Ghost(f): Ghost<nat>) -> (m: M)
        requires
            old(self).wf(),
            id.index < old(self).len(),
            reaches_root(old(self).parents(), id.index as int, f),
        ensures
            final(self).wf(),
            final(self).same_shape(&*old(self)),
            final(self).parents() == old(self).parents(),
            !final(self).node(id.index as int).spec_dirty(),
            final(self).node(id.index as int).spec_matrix() == Some(m),
            final(self).world_current(id.index as int),
        decreases f,
    {
        proof {
            Self::lemma_wf_node(*self, id.index as int);
        }
        if !self.nodes[id.index].dirty {
            proof {
                assert(self.world_current(id.index as int));
            }
            return self.nodes[id.index].matrix.unwrap();
        }
        let pw = match self.nodes[id.index].parent {
            None => self.identity,
            Some(p) => {
                proof {
                    assert(self.parents()[id.index as int] == Some(p));
                }
                self.world_rec(p, Ghost((f - 1) as nat))
            },
        };
        proof {
            Self::lemma_wf_node(*self, id.index as int);
        }
        if !self.nodes[id.index].dirty {
            proof {
                assert(self.world_current(id.index as int));
            }
            return self.nodes[id.index].matrix.unwrap();
        }
        proof {
            Self::lemma_wf_node(*self, id.index as int);
        }
        let t = self.nodes[id.index].translation;
        let r = self.nodes[id.index].rotation;
        let s = self.nodes[id.index].scale;
        let m = (self.compose)(pw, t, r, s);
        let ghost g1 = *self;
        self.nodes[id.index].matrix = Some(m);
        self.nodes[id.index].dirty = false;
        proof {
            let i = id.index as int;
            Self::lemma_wf_node(g1, i);
            if let Some(p) = g1.nodes@[i].parent {
                assert(p.index != id.index);
                assert(self.nodes@[p.index as int] == g1.nodes@[p.index as int]);
            }
            assert(self.parent_world(i) == pw);
            assert(self.world_current(i));
            assert(self.nodes@ == g1.nodes@.update(i, self.nodes@[i]));
            assert(self.nodes@[i] == (Transform { matrix: self.nodes@[i].matrix, dirty: false, ..g1.nodes@[i] }));
            Self::lemma_refresh(g1, *self, i);
        }
        m
    }

    /// The world matrix of `id`, recomputed along the dirty part of its ancestry
    /// and cached.
    pub fn get_world_matrix(&mut self, id: TransformId) -> (m: M)
        requires
            old(self).wf(),
            id.index < old(self).len(),
        ensures
            final(self).wf(),
            final(self).same_shape(&*old(self)),
            !final(self).node(id.index as int).spec_dirty(),
            final(self).node(id.index as int).spec_matrix() == Some(m),
            final(self).world_current(id.index as int),
    {
        proof {
            reveal(TransformGraph::wf);
            assert(rooted(self.parents(), id.index as int));
        }
        let ghost f = choose|f: nat| reaches_root(self.parents(), id.index as int, f);
        self.world_rec(id, Ghost(f))
    }

    /// Splices `child` at the end of `parent`'s children; `child` and its
    /// descendants become dirty, and a dead child comes back to life.
    pub fn attach(&mut self, child: TransformId, parent: TransformId) -> (r: Result<(), GraphError>)
        requires
            old(self).wf(),
        ensures
            final(self).wf(),
            (child.index >= old(self).len() || parent.index >= old(self).len()) <==> r == Err::<(), GraphError>(GraphError::UnknownNode),
            r == Err::<(), GraphError>(GraphError::AlreadyAttached) <==> (child.index < old(self).len() && parent.index < old(self).len()
                && old(self).node(child.index as int).spec_parent() is Some),
            r == Err::<(), GraphError>(GraphError::WouldCycle) <==> (child.index < old(self).len() && parent.index < old(self).len()
                && old(self).node(child.index as int).spec_parent() is None
                && descends_from(old(self).parents(), parent.index as int, child.index as int)),
            r is Err ==> *final(self) == *old(self),
            r is Ok ==> {
                &&& final(self).len() == old(self).len()
                &&& final(self).spec_identity() == old(self).spec_identity()
                &&& final(self).spec_compose() == old(self).spec_compose()
                &&& final(self).node(child.index as int).spec_parent() == Some(parent)
                &&& final(self).node(child.index as int).spec_previous_sibling() == old(self).node(parent.index as int).spec_last_child()
                &&& final(self).node(child.index as int).spec_next_sibling() is None
                &&& final(self).node(parent.index as int).spec_last_child() == Some(child)
                &&& final(self).child_list(parent.index as int) == old(self).child_list(parent.index as int).push(child)
                &&& forall|i: int| 0 <= i < old(self).len() && i != parent.index ==> #[trigger] final(self).child_list(i) == old(self).child_list(i)
                &&& old(self).node(parent.index as int).spec_last_child() is None ==> final(self).node(parent.index as int).spec_first_child()
                    == Some(child)
                &&& forall|l: TransformId| old(self).node(parent.index as int).spec_last_child() == Some(l) && l.index < old(self).len() && l
                    != child ==> #[trigger] final(self).node(l.index as int).spec_next_sibling() == Some(child)
                &&& !final(self).node(child.index as int).spec_dead()
                &&& forall|i: int| 0 <= i < old(self).len() && i != child.index ==>
                    (#[trigger] final(self).node(i)).spec_dead() == old(self).node(i).spec_dead()
                &&& forall|i: int| 0 <= i < old(self).len() && i != child.index ==>
                    (#[trigger] final(self).node(i)).spec_parent() == old(self).node(i).spec_parent()
                &&& forall|i: int| 0 <= i < old(self).len() && descends_from(old(self).parents(), i, child.index as int)
                    ==> (#[trigger] final(self).node(i)).spec_dirty()
                &&& forall|i: int| 0 <= i < old(self).len() ==> (#[trigger] final(self).node(i)).same_values(&old(self).node(i))
            },
    {
        if child.index >= self.nodes.len() || parent.index >= self.nodes.len() {
            return Err(GraphError::UnknownNode);
        }
        if self.nodes[child.index].parent.is_some() {
            return Err(GraphError::AlreadyAttached);
        }
        proof {
            reveal(TransformGraph::wf);
        }
        if self.is_under(parent.index, child.index) {
            return Err(GraphError::WouldCycle);
        }
        let ghost g0 = *self;
        self.mark_dirty(child);
        let ghost g1 = *self;
        proof {
            reveal(TransformGraph::wf);
            assert(above(g0.parents(), child.index as int, child.index as int, 0));
            assert(g1.parents() =~= g0.parents());
            assert(rooted(g1.parents(), parent.index as int));
        }
        let ghost fp = choose|f: nat| reaches_root(g1.parents(), parent.index as int, f);
        proof {
            lemma_descends_exact(g1.parents(), parent.index as int, child.index as int, fp);
        }
        let last = self.nodes[parent.index].last_child;
        match last {
            Some(l) => {
                if l.index < self.nodes.len() {
                    self.nodes[l.index].next_sibling = Some(child);
                }
            },
            None => {
                self.nodes[parent.index].first_child = Some(child);
            },
        }
        self.nodes[parent.index].last_child = Some(child);
        self.nodes[child.index].parent = Some(parent);
        self.nodes[child.index].previous_sibling = last;
        self.nodes[child.index].next_sibling = None;
        self.nodes[child.index].dead = false;
        self.children = Ghost(self.children@.update(parent.index as int, self.children@[parent.index as int].push(child)));
        proof {
            Self::lemma_no_self_parents(g1);
            assert(tid(parent.index as int) == parent);
            lemma_attach_links(g1.link_seq(), g1.children@, child, parent);
            assert(self.link_seq() =~= attach_links(g1.link_seq(), child, parent));
            assert(g1.node(child.index as int) == old(self).marked_node(child.index as int, child.index as int));
            assert forall|j: int| 0 <= j < g1.len() implies (#[trigger] self.nodes@[j]).same_local_except_links(&g1.nodes@[j]) by {}
            assert forall|j: int| 0 <= j < g1.len() && j != child.index implies (#[trigger] self.nodes@[j]).parent == g1.nodes@[j].parent by {}
            Self::lemma_attach(g1, *self, child.index as int, parent, fp);
            assert forall|i: int| 0 <= i < old(self).len() implies (#[trigger] self.node(i)).same_values(&old(self).node(i)) by {
                assert(g1.node(i) == old(self).marked_node(i, child.index as int));
            }
            assert forall|i: int| 0 <= i < old(self).len() && i != child.index implies
                (#[trigger] self.node(i)).spec_parent() == old(self).node(i).spec_parent() by {
                assert(g1.node(i) == old(self).marked_node(i, child.index as int));
            }
            assert forall|i: int| 0 <= i < old(self).len() && descends_from(old(self).parents(), i, child.index as int)
                implies (#[trigger] self.node(i)).spec_dirty() by {
                assert(g1.node(i) == old(self).marked_node(i, child.index as int));
            }
        }
        Ok(())
    }

    /// Unlinks `id` from its parent and siblings, patching their links, and
    /// marks it dead; its own children stay attached to it. `id` and its
    /// descendants become dirty.
    pub fn detach(&mut self, id: TransformId)
        requires
            old(self).wf(),
            id.index < old(self).len(),
        ensures
            final(self).wf(),
            final(self).len() == old(self).len(),
            final(self).spec_identity() == old(self).spec_identity(),
            final(self).spec_compose() == old(self).spec_compose(),
            final(self).node(id.index as int).spec_parent() is None,
            final(self).node(id.index as int).spec_previous_sibling() is None,
            final(self).node(id.index as int).spec_next_sibling() is None,
            final(self).node(id.index as int).spec_dead(),
            forall|i: int| 0 <= i < old(self).len() && i != id.index ==>
                (#[trigger] final(self).node(i)).spec_dead() == old(self).node(i).spec_dead(),
            old(self).node(id.index as int).spec_parent() is None ==> final(self).spec_children() == old(self).spec_children(),
            old(self).node(id.index as int).spec_parent() matches Some(q) ==> exists|k: int|
                0 <= k < old(self).child_list(q.index as int).len() && old(self).child_list(q.index as int)[k] == id
                && final(self).spec_children() == old(self).spec_children().update(
                    q.index as int,
                    old(self).child_list(q.index as int).remove(k),
                ),
            ({
                let n = old(self).node(id.index as int);
                &&& forall|p: TransformId| n.spec_previous_sibling() == Some(p) && p.index < old(self).len() && p != id
                    && n.spec_next_sibling() != Some(p) && n.spec_parent() != Some(p)
                    ==> #[trigger] final(self).node(p.index as int).spec_next_sibling() == n.spec_next_sibling()
                &&& forall|q: TransformId| n.spec_next_sibling() == Some(q) && q.index < old(self).len() && q != id
                    && n.spec_parent() != Some(q) ==> #[trigger] final(self).node(q.index as int).spec_previous_sibling()
                    == n.spec_previous_sibling()
            }),
            forall|i: int| 0 <= i < old(self).len() && i != id.index ==>
                (#[trigger] final(self).node(i)).spec_parent() == old(self).node(i).spec_parent(),
            forall|i: int| 0 <= i < old(self).len() && descends_from(old(self).parents(), i, id.index as int)
                ==> (#[trigger] final(self).node(i)).spec_dirty(),
            forall|i: int| 0 <= i < old(self).len() ==> (#[trigger] final(self).node(i)).same_values(&old(self).node(i)),
    {
        self.mark_dirty(id);
        let ghost g1 = *self;
        proof {
            Self::lemma_no_self_parents(g1);
            reveal(crate::links::node_ok);
            assert(crate::links::node_ok(g1.link_seq(), g1.children@, id.index as int));
        }
        let ghost k: int = match g1.nodes@[id.index as int].parent {
            Some(q) => choose|k: int| 0 <= k < g1.children@[q.index as int].len() && g1.children@[q.index as int][k] == id,
            None => 0,
        };
        let prev = self.nodes[id.index].previous_sibling;
        let next = self.nodes[id.index].next_sibling;
        if let Some(p) = prev {
            if p.index < self.nodes.len() {
                self.nodes[p.index].next_sibling = next;
            }
        }
        if let Some(n) = next {
            if n.index < self.nodes.len() {
                self.nodes[n.index].previous_sibling = prev;
            }
        }
        if let Some(q) = self.nodes[id.index].parent {
            if q.index < self.nodes.len() {
                if self.nodes[q.index].first_child == Some(id) {
                    self.nodes[q.index].first_child = next;
                }
                if self.nodes[q.index].last_child == Some(id) {
                    self.nodes[q.index].last_child = prev;
                }
            }
        }
        self.nodes[id.index].parent = None;
        self.nodes[id.index].previous_sibling = None;
        self.nodes[id.index].next_sibling = None;
        self.nodes[id.index].dead = true;
        self.children = Ghost(detach_children(g1.link_seq(), g1.children@, id, k));
        proof {
            assert(tid(id.index as int) == id);
            assert(g1.children@ == old(self).children@);
            if let Some(q) = g1.nodes@[id.index as int].parent {
                assert(g1.link_seq()[id.index as int].0 == Some(q));
                assert(g1.children@[q.index as int].contains(id));
                assert(0 <= k < g1.children@[q.index as int].len() && g1.children@[q.index as int][k] == id);
                assert(old(self).node(id.index as int).spec_parent() == Some(q));
            }
            lemma_detach_links(g1.link_seq(), g1.children@, id, k);
            assert(self.link_seq() =~= detach_links(g1.link_seq(), id));
            if let Some(q) = old(self).node(id.index as int).spec_parent() {
                assert(self.children@ == detach_children(g1.link_seq(), g1.children@, id, k));
                assert(self.spec_children() == old(self).spec_children().update(
                    q.index as int,
                    old(self).child_list(q.index as int).remove(k),
                ));
            }
            assert(above(old(self).parents(), id.index as int, id.index as int, 0));
            assert(g1.node(id.index as int) == old(self).marked_node(id.index as int, id.index as int));
            assert forall|j: int| 0 <= j < g1.len() implies (#[trigger] self.nodes@[j]).same_local_except_links(&g1.nodes@[j]) by {}
            assert forall|j: int| 0 <= j < g1.len() && j != id.index implies (#[trigger] self.nodes@[j]).parent == g1.nodes@[j].parent by {}
            assert forall|i: int| 0 <= i < g1.len() && descends_from(g1.parents(), i, id.index as int) implies (#[trigger] g1.nodes@[i]).dirty by {
                assert(g1.parents() =~= old(self).parents());
                assert(g1.node(i) == old(self).marked_node(i, id.index as int));
            }
            Self::lemma_detach(g1, *self, id.index as int);
            assert forall|i: int| 0 <= i < old(self).len() implies (#[trigger] self.node(i)).same_values(&old(self).node(i)) by {
                assert(g1.node(i) == old(self).marked_node(i, id.index as int));
            }
            assert forall|i: int| 0 <= i < old(self).len() && i != id.index implies
                (#[trigger] self.node(i)).spec_parent() == old(self).node(i).spec_parent() by {
                assert(g1.node(i) == old(self).marked_node(i, id.index as int));
            }
            assert forall|i: int| 0 <= i < old(self).len() && descends_from(old(self).parents(), i, id.index as int)
                implies (#[trigger] self.node(i)).spec_dirty() by {
                assert(g1.node(i) == old(self).marked_node(i, id.index as int));
            }
            assert forall|i: int| 0 <= i < old(self).len() && i != id.index implies
                (#[trigger] self.node(i)).spec_dead() == old(self).node(i).spec_dead() by {
                assert(g1.node(i) == old(self).marked_node(i, id.index as int));
                assert(self.nodes@[i].dead == g1.nodes@[i].dead);
            }
        }
    }
}

/// In a well-formed arena the cached world matrix of every clean node is its
/// parent's world matrix (the identity for a root) composed with the node's own
/// translation, rotation and scale, and its parent is clean too. Together with
/// the edits marking every descendant dirty and `get_world_matrix` cleaning the
/// node it reads, a read after an ancestor's edit reflects that edit.
pub proof fn lemma_world_matrix_composes<V: Copy, M: Copy, F: Fn(M, V, V, V) -> M>(g: TransformGraph<V, M, F>, i: int)
    requires
        g.wf(),
        0 <= i < g.len(),
        !g.node(i).spec_dirty(),
    ensures
        g.world_current(i),
{
    reveal(TransformGraph::wf);
}

/// The children of a node, in the order they were attached, form a doubly
/// linked list: the node's first and last child are its ends, each child names
/// the node as its parent and its neighbours in the list as its siblings, no
/// child appears twice, and every node naming the node as its parent is in the
/// list. Following `first_child` and then `next_sibling` therefore visits
/// exactly the attached children, each once.
pub proof fn lemma_children_linked<V: Copy, M: Copy, F: Fn(M, V, V, V) -> M>(g: TransformGraph<V, M, F>, p: int)
    requires
        g.wf(),
        0 <= p < g.len(),
    ensures
        g.node(p).spec_first_child() == first_of(g.child_list(p)),
        g.node(p).spec_last_child() == last_of(g.child_list(p)),
        g.child_list(p).no_duplicates(),
        forall|k: int| 0 <= k < g.child_list(p).len() ==> {
            let c = #[trigger] g.child_list(p)[k];
            &&& 0 <= c.index < g.len()
            &&& g.node(c.index as int).spec_parent() == Some(tid(p))
            &&& g.node(c.index as int).spec_previous_sibling() == (if k == 0 { None } else { Some(g.child_list(p)[k - 1]) })
            &&& g.node(c.index as int).spec_next_sibling() == (if k + 1 == g.child_list(p).len() { None } else {
                Some(g.child_list(p)[k + 1])
            })
        },
        forall|i: int| 0 <= i < g.len() && (#[trigger] g.node(i)).spec_parent() == Some(tid(p)) ==> g.child_list(p).contains(tid(i)),
{
    reveal(TransformGraph::wf);
    reveal(crate::links::node_ok);
    reveal(crate::links::entry_ok);
    let ls = g.link_seq();
    assert(crate::links::node_ok(ls, g.children@, p));
    assert forall|k: int| 0 <= k < g.child_list(p).len() implies {
        let c = #[trigger] g.child_list(p)[k];
        &&& 0 <= c.index < g.len()
        &&& g.node(c.index as int).spec_parent() == Some(tid(p))
        &&& g.node(c.index as int).spec_previous_sibling() == (if k == 0 { None } else { Some(g.child_list(p)[k - 1]) })
        &&& g.node(c.index as int).spec_next_sibling() == (if k + 1 == g.child_list(p).len() { None } else {
            Some(g.child_list(p)[k + 1])
        })
    } by {
        assert(crate::links::entry_ok(ls, g.children@, p, k));
    }
    assert forall|i: int| 0 <= i < g.len() && (#[trigger] g.node(i)).spec_parent() == Some(tid(p)) implies g.child_list(p).contains(
        tid(i),
    ) by {
        assert(crate::links::node_ok(ls, g.children@, i));
        assert(tid(p).index as int == p);
    }
}

impl<V, M> Transform<V, M> {
    /// `self` and `o` agree on everything but the cached matrix and the dirty flag.
    pub open spec fn same_local(&self, o: &Self) -> bool {
        &&& self.same_values(o)
        &&& self.spec_dead() == o.spec_dead()
        &&& self.same_links(o)
    }

    /// `self` and `o` have the same parent, child and sibling links.
    pub open spec fn same_links(&self, o: &Self) -> bool {
        &&& self.spec_parent() == o.spec_parent()
        &&& self.spec_first_child() == o.spec_first_child()
        &&& self.spec_last_child() == o.spec_last_child()
        &&& self.spec_next_sibling() == o.spec_next_sibling()
        &&& self.spec_previous_sibling() == o.spec_previous_sibling()
    }

    /// `self` and `o` have the same dead flag, cached matrix and links.
    pub open spec fn same_frame(&self, o: &Self) -> bool {
        &&& self.spec_dead() == o.spec_dead()
        &&& self.spec_matrix() == o.spec_matrix()
        &&& self.same_links(o)
    }

    /// `self` is `o` with its dirty flag set to `d`.
    pub open spec fn is_marked(&self, o: &Self, d: bool) -> bool {
        &&& self.spec_dirty() == d
        &&& self.same_values(o)
        &&& self.same_frame(o)
    }

    /// `self` and `o` agree on everything but the sibling and child links and
    /// the dead flag.
    pub closed spec fn same_local_except_links(&self, o: &Self) -> bool {
        &&& self.translation == o.translation
        &&& self.rotation == o.rotation
        &&& self.scale == o.scale
        &&& self.dirty == o.dirty
        &&& self.matrix == o.matrix
    }

    /// `self` and `o` have the same local translation, rotation and scale.
    pub open spec fn same_values(&self, o: &Self) -> bool {
        &&& self.spec_translation() == o.spec_translation()
        &&& self.spec_rotation() == o.spec_rotation()
        &&& self.spec_scale() == o.spec_scale()
    }

    pub closed spec fn with_dirty(self, d: bool) -> Self {
        Transform { dirty: d, ..self }
    }

    pub closed spec fn new_spec(t: V, r: V, s: V) -> Transform<V, M> {
        Transform {
            translation: t,
            rotation: r,
            scale: s,
            dirty: true,
            dead: false,
            matrix: None,
            parent: None,
            first_child: None,
            last_child: None,
            next_sibling: None,
            previous_sibling: None,
        }
    }
}

} // verus!
