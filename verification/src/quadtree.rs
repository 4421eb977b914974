//! Quad-tree level-of-detail manager for terrain tiles.
//!
//! Tiles are squares in the flat tangent plane: a node covers
//! [cx − half, cx + half] × [cz − half, cz + half], in whole metres.
//! A node is split into four quadrants when the caller's distance rule says
//! the camera is close enough and the node is still coarser than
//! `MIN_HALF`; otherwise it is a leaf.  Only leaves carry a visible mesh
//! entity.  Every change to the set of meshes is reported as a `DeltaOp`,
//! which names the node it concerns by its path of quadrant indices from
//! the root (0 = SW, 1 = SE, 2 = NW, 3 = NE).

use vstd::prelude::*;
use vstd::multiset::Multiset;

verus! {

/// Finest tile half-size in metres: a node with `half <= MIN_HALF` never splits.
pub const MIN_HALF: i32 = 1250;

/// Half-size of the root tile (10 km × 10 km).
pub const ROOT_HALF: i32 = 5000;

/// A node in the quad-tree.
///
/// Positions and sizes are whole metres.  A split node's quadrants have half
/// its half-size, rounded down: exact for the root tile (`ROOT_HALF`) and
/// every tile below it, whose half-sizes are 5000, 2500 and 1250.
pub struct QuadNode<E> {
    /// Flat tangent-plane centre x (metres from world origin).
    pub cx: i32,
    /// Flat tangent-plane centre z (metres from world origin).
    pub cz: i32,
    /// Half-size: tile spans [cx−half, cx+half] × [cz−half, cz+half].
    pub half: i32,
    /// Children, when this node has been split.
    pub children: Option<Box<Quadrants<E>>>,
    /// Entity that owns this tile's mesh (only for leaf nodes).
    pub entity: Option<E>,
}

/// The four children of a split node.
pub struct Quadrants<E> {
    pub sw: QuadNode<E>,
    pub se: QuadNode<E>,
    pub nw: QuadNode<E>,
    pub ne: QuadNode<E>,
}

/// Operations returned by a tree update for the renderer to execute.
pub enum DeltaOp<E> {
    /// Spawn a new tile mesh for the leaf at `slot` (its path from the root).
    Spawn { cx: i32, cz: i32, half: i32, slot: Vec<u8> },
    /// Despawn an existing tile entity.
    Despawn(E),
}

/// Mathematical form of a `DeltaOp`.
pub enum TileOp<E> {
    Spawn { cx: i32, cz: i32, half: i32, slot: Seq<u8> },
    Despawn(E),
}

impl<E> View for DeltaOp<E> {
    type V = TileOp<E>;

    open spec fn view(&self) -> TileOp<E> {
        match self {
            DeltaOp::Spawn { cx, cz, half, slot } => TileOp::Spawn {
                cx: *cx,
                cz: *cz,
                half: *half,
                slot: slot@,
            },
            DeltaOp::Despawn(e) => TileOp::Despawn(*e),
        }
    }
}

/// The mathematical form of a list of operations.
pub open spec fn ops_view<E>(s: Seq<DeltaOp<E>>) -> Seq<TileOp<E>> {
    s.map_values(|o: DeltaOp<E>| o@)
}

/// A fresh leaf with no mesh.
pub open spec fn leaf<E>(cx: int, cz: int, half: int) -> QuadNode<E> {
    QuadNode { cx: cx as i32, cz: cz as i32, half: half as i32, children: None, entity: None }
}

/// The four fresh quadrants of `n`: each of half its size (in whole metres,
/// rounded down), centred in one quarter.
pub open spec fn quadrants_of<E>(n: QuadNode<E>) -> Quadrants<E> {
    let h = n.half / 2;
    Quadrants {
        sw: leaf(n.cx - h, n.cz - h, h),
        se: leaf(n.cx + h, n.cz - h, h),
        nw: leaf(n.cx - h, n.cz + h, h),
        ne: leaf(n.cx + h, n.cz + h, h),
    }
}

/// The children an update works on: the existing ones, or fresh quadrants.
pub open spec fn base_quadrants<E>(n: QuadNode<E>) -> Quadrants<E> {
    match n.children {
        Some(q) => *q,
        None => quadrants_of(n),
    }
}

/// A square whose corners and children fit the `i32` coordinate range.
pub open spec fn placed(cx: int, cz: int, half: int) -> bool {
    &&& 0 <= half
    &&& -i32::MAX <= cx - half
    &&& cx + half <= i32::MAX
    &&& -i32::MAX <= cz - half
    &&& cz + half <= i32::MAX
}

/// The despawn operation for an optional entity.
pub open spec fn despawn_of<E>(e: Option<E>) -> Seq<TileOp<E>> {
    match e {
        Some(x) => seq![TileOp::Despawn(x)],
        None => Seq::empty(),
    }
}

impl<E> QuadNode<E> {
    /// Geometry invariant: the node fits the coordinate range, only nodes
    /// coarser than `MIN_HALF` are split, and the children of a split node
    /// are its four quadrants, recursively.
    pub open spec fn wf(self) -> bool
        decreases self,
    {
        &&& placed(self.cx as int, self.cz as int, self.half as int)
        &&& match self.children {
            None => true,
            Some(q) => {
                let h = self.half / 2;
                &&& self.half > MIN_HALF
                &&& q.sw.cx == self.cx - h && q.sw.cz == self.cz - h && q.sw.half == h
                &&& q.se.cx == self.cx + h && q.se.cz == self.cz - h && q.se.half == h
                &&& q.nw.cx == self.cx - h && q.nw.cz == self.cz + h && q.nw.half == h
                &&& q.ne.cx == self.cx + h && q.ne.cz == self.cz + h && q.ne.half == h
                &&& q.sw.wf() && q.se.wf() && q.nw.wf() && q.ne.wf()
            },
        }
    }

    /// Despawn operations for every entity of the subtree, parent before children.
    pub open spec fn despawns(self) -> Seq<TileOp<E>>
        decreases self,
    {
        match self.children {
            Some(q) => despawn_of(self.entity) + q.sw.despawns() + q.se.despawns()
                + q.nw.despawns() + q.ne.despawns(),
            None => despawn_of(self.entity),
        }
    }

    /// The entities held anywhere in the subtree.
    pub open spec fn entity_bag(self) -> Multiset<E>
        decreases self,
    {
        let own = match self.entity {
            Some(e) => Multiset::singleton(e),
            None => Multiset::empty(),
        };
        match self.children {
            Some(q) => own.add(q.sw.entity_bag()).add(q.se.entity_bag()).add(
                q.nw.entity_bag(),
            ).add(q.ne.entity_bag()),
            None => own,
        }
    }

    /// Spawn operations for the leaves of the subtree that have no entity,
    /// in SW, SE, NW, NE order; `path` is the path of this node.
    pub open spec fn bare_leaves(self, path: Seq<u8>) -> Seq<TileOp<E>>
        decreases self,
    {
        match self.children {
            Some(q) => q.sw.bare_leaves(path.push(0)) + q.se.bare_leaves(path.push(1))
                + q.nw.bare_leaves(path.push(2)) + q.ne.bare_leaves(path.push(3)),
            None => if self.entity is None {
                seq![TileOp::Spawn { cx: self.cx, cz: self.cz, half: self.half, slot: path }]
            } else {
                Seq::empty()
            },
        }
    }

    /// No split node of the subtree holds an entity.
    pub open spec fn entities_on_leaves(self) -> bool
        decreases self,
    {
        match self.children {
            Some(q) => self.entity is None && q.sw.entities_on_leaves()
                && q.se.entities_on_leaves() && q.nw.entities_on_leaves()
                && q.ne.entities_on_leaves(),
            None => true,
        }
    }
}

/// `new` is what one update pass makes of `old` with the distance rule `near`:
/// a node is split exactly when it is coarser than `MIN_HALF` and `near`
/// answered true for it; a node kept as a leaf has no children left.
pub open spec fn stepped<E, F: Fn(i32, i32, i32) -> bool>(
    near: F,
    old: QuadNode<E>,
    new: QuadNode<E>,
) -> bool
    decreases new,
{
    &&& new.cx == old.cx
    &&& new.cz == old.cz
    &&& new.half == old.half
    &&& match new.children {
        Some(q) => {
            let b = base_quadrants(old);
            &&& old.half > MIN_HALF
            &&& near.ensures((old.cx, old.cz, old.half), true)
            &&& new.entity == (if old.children is Some {
                old.entity
            } else {
                None::<E>
            })
            &&& stepped(near, b.sw, q.sw)
            &&& stepped(near, b.se, q.se)
            &&& stepped(near, b.nw, q.nw)
            &&& stepped(near, b.ne, q.ne)
        },
        None => {
            &&& (old.half <= MIN_HALF || near.ensures((old.cx, old.cz, old.half), false))
            &&& new.entity == old.entity
        },
    }
}

/// What `stepped` says of one node, unfolded: the node keeps its place; a
/// node that comes out split was coarser than `MIN_HALF` and judged near,
/// keeps its mesh only if it was split already, and each child comes from the
/// old child (or a fresh quadrant) by a step; a node that comes out a leaf was
/// at `MIN_HALF` or judged far, and keeps its mesh.
pub proof fn lemma_stepped_unfold<E, F: Fn(i32, i32, i32) -> bool>(
    near: F,
    old: QuadNode<E>,
    new: QuadNode<E>,
)
    requires
        stepped(near, old, new),
    ensures
        new.cx == old.cx,
        new.cz == old.cz,
        new.half == old.half,
        new.children is Some ==> (old.half > MIN_HALF && near.ensures(
            (old.cx, old.cz, old.half),
            true,
        ) && new.entity == (if old.children is Some {
            old.entity
        } else {
            None::<E>
        }) && stepped(near, base_quadrants(old).sw, new.children.unwrap().sw) && stepped(
            near,
            base_quadrants(old).se,
            new.children.unwrap().se,
        ) && stepped(near, base_quadrants(old).nw, new.children.unwrap().nw) && stepped(
            near,
            base_quadrants(old).ne,
            new.children.unwrap().ne,
        )),
        new.children is None ==> ((old.half <= MIN_HALF || near.ensures(
            (old.cx, old.cz, old.half),
            false,
        )) && new.entity == old.entity),
{
}

/// The operations one update pass emits while turning `old` into `new`:
/// a node that is split for the first time gives up its own mesh; a node
/// that becomes a leaf despawns every entity below it and asks for a mesh
/// if it has none.
pub open spec fn step_ops<E>(old: QuadNode<E>, new: QuadNode<E>, path: Seq<u8>) -> Seq<
    TileOp<E>,
>
    decreases new,
{
    match new.children {
        Some(q) => {
            let b = base_quadrants(old);
            let pre = if old.children is None {
                despawn_of(old.entity)
            } else {
                Seq::empty()
            };
            pre + step_ops(b.sw, q.sw, path.push(0)) + step_ops(b.se, q.se, path.push(1))
                + step_ops(b.nw, q.nw, path.push(2)) + step_ops(b.ne, q.ne, path.push(3))
        },
        None => {
            let collapsed = match old.children {
                Some(oq) => oq.sw.despawns() + oq.se.despawns() + oq.nw.despawns()
                    + oq.ne.despawns(),
                None => Seq::empty(),
            };
            let spawn = if old.entity is None {
                seq![TileOp::Spawn { cx: old.cx, cz: old.cz, half: old.half, slot: path }]
            } else {
                Seq::empty()
            };
            collapsed + spawn
        },
    }
}

/// The path of child `i` of the node at `path`.
fn child_path(path: &Vec<u8>, i: u8) -> (p: Vec<u8>)
    ensures
        p@ == path@.push(i),
{
    let mut p = path.clone();
    assert(p@ =~= path@);
    p.push(i);
    p
}

fn push_op<E>(ops: &mut Vec<DeltaOp<E>>, op: DeltaOp<E>)
    ensures
        ops_view(final(ops)@) == ops_view(old(ops)@).push(op@),
{
    let ghost before = ops@;
    ops.push(op);
    assert(ops_view(ops@) =~= ops_view(before).push(op@));
}

impl<E> Quadrants<E> {
    /// The four fresh quadrants of the square (cx, cz, half).
    fn around(cx: i32, cz: i32, half: i32) -> (q: Self)
        requires
            placed(cx as int, cz as int, half as int),
        ensures
            q == quadrants_of(QuadNode::<E> { cx, cz, half, children: None, entity: None }),
    {
        let h = half / 2;
        Quadrants {
            sw: QuadNode::new(cx - h, cz - h, h),
            se: QuadNode::new(cx + h, cz - h, h),
            nw: QuadNode::new(cx - h, cz + h, h),
            ne: QuadNode::new(cx + h, cz + h, h),
        }
    }
}

impl<E> QuadNode<E> {
    /// A leaf at (cx, cz) of the given half-size, with no mesh yet.
    pub fn new(cx: i32, cz: i32, half: i32) -> (n: Self)
        ensures
            n == leaf::<E>(cx as int, cz as int, half as int),
    {
        Self { cx, cz, half, children: None, entity: None }
    }

    /// Move every entity of the subtree into `ops` as despawns.
    fn collect_entities(self, ops: &mut Vec<DeltaOp<E>>)
        ensures
            ops_view(final(ops)@) == ops_view(old(ops)@) + self.despawns(),
        decreases self,
    {
        let ghost me = self;
        let ghost start = ops_view(ops@);
        let QuadNode { cx, cz, half, children, entity } = self;
        if let Some(e) = entity {
            push_op(ops, DeltaOp::Despawn(e));
        }
        assert(ops_view(ops@) =~= start + despawn_of(me.entity));
        if let Some(q) = children {
            let Quadrants { sw, se, nw, ne } = *q;
            sw.collect_entities(ops);
            se.collect_entities(ops);
            nw.collect_entities(ops);
            ne.collect_entities(ops);
        }
        assert(ops_view(ops@) =~= start + me.despawns());
    }

    /// Update the subtree at `path` with the distance rule `near`, which
    /// says for a node (cx, cz, half) whether the camera is close enough
    /// to refine it.  Emitted operations are appended to `ops`.
    #[verifier::spinoff_prover]
    #[verifier::rlimit(40)]
    pub fn update<F: Fn(i32, i32, i32) -> bool>(
        &mut self,
        near: &F,
        path: &Vec<u8>,
        ops: &mut Vec<DeltaOp<E>>,
    )
        requires
            old(self).wf(),
            forall|x: i32, z: i32, h: i32| near.requires((x, z, h)),
        ensures
            final(self).wf(),
            stepped(*near, *old(self), *final(self)),
            ops_view(final(ops)@) == ops_view(old(ops)@) + step_ops(
                *old(self),
                *final(self),
                path@,
            ),
        decreases old(self).half,
    {
        let ghost o = *self;
        let ghost start = ops_view(ops@);
        let is_near = near(self.cx, self.cz, self.half);
        if is_near && self.half > MIN_HALF {
            let mut q: Quadrants<E> = match self.children.take() {
                Some(b) => *b,
                None => {
                    if let Some(e) = self.entity.take() {
                        push_op(ops, DeltaOp::Despawn(e));
                    }
                    Quadrants::around(self.cx, self.cz, self.half)
                },
            };
            let ghost b = q;
            let ghost mid = ops_view(ops@);
            assert(b == base_quadrants(o));
            q.sw.update(near, &child_path(path, 0), ops);
            q.se.update(near, &child_path(path, 1), ops);
            q.nw.update(near, &child_path(path, 2), ops);
            q.ne.update(near, &child_path(path, 3), ops);
            self.children = Some(Box::new(q));
            assert(stepped(*near, o, *self));
            assert(ops_view(ops@) =~= start + step_ops(o, *self, path@));
        } else {
            if let Some(b) = self.children.take() {
                let Quadrants { sw, se, nw, ne } = *b;
                sw.collect_entities(ops);
                se.collect_entities(ops);
                nw.collect_entities(ops);
                ne.collect_entities(ops);
            }
            if self.entity.is_none() {
                push_op(
                    ops,
                    DeltaOp::Spawn { cx: self.cx, cz: self.cz, half: self.half, slot: path.clone() },
                );
            }
            assert(ops_view(ops@) =~= start + step_ops(o, *self, path@));
        }
    }
}


// ── Leaves, paths and whole-tree passes ─────────────────────────────────────

impl<E> QuadNode<E> {
    /// The leaves of the subtree, in SW, SE, NW, NE order.
    pub open spec fn leaves(self) -> Seq<QuadNode<E>>
        decreases self,
    {
        match self.children {
            Some(q) => q.sw.leaves() + q.se.leaves() + q.nw.leaves() + q.ne.leaves(),
            None => seq![self],
        }
    }

    /// The node reached from this one by following `path`, if any.
    pub open spec fn node_at(self, path: Seq<u8>) -> Option<QuadNode<E>>
        decreases path.len(),
    {
        if path.len() == 0 {
            Some(self)
        } else {
            match self.children {
                None => None,
                Some(q) => {
                    let rest = path.drop_first();
                    if path[0] == 0 {
                        q.sw.node_at(rest)
                    } else if path[0] == 1 {
                        q.se.node_at(rest)
                    } else if path[0] == 2 {
                        q.nw.node_at(rest)
                    } else if path[0] == 3 {
                        q.ne.node_at(rest)
                    } else {
                        None
                    }
                },
            }
        }
    }

    /// This subtree with the node at `path` (if any) given entity `e`.
    pub open spec fn with_entity_at(self, path: Seq<u8>, e: E) -> QuadNode<E>
        decreases path.len(),
    {
        if path.len() == 0 {
            QuadNode {
                cx: self.cx,
                cz: self.cz,
                half: self.half,
                children: self.children,
                entity: Some(e),
            }
        } else {
            match self.children {
                None => self,
                Some(q) => {
                    let rest = path.drop_first();
                    let nq = if path[0] == 0 {
                        Quadrants { sw: q.sw.with_entity_at(rest, e), se: q.se, nw: q.nw, ne: q.ne }
                    } else if path[0] == 1 {
                        Quadrants { sw: q.sw, se: q.se.with_entity_at(rest, e), nw: q.nw, ne: q.ne }
                    } else if path[0] == 2 {
                        Quadrants { sw: q.sw, se: q.se, nw: q.nw.with_entity_at(rest, e), ne: q.ne }
                    } else if path[0] == 3 {
                        Quadrants { sw: q.sw, se: q.se, nw: q.nw, ne: q.ne.with_entity_at(rest, e) }
                    } else {
                        *q
                    };
                    QuadNode {
                        cx: self.cx,
                        cz: self.cz,
                        half: self.half,
                        children: Some(Box::new(nq)),
                        entity: self.entity,
                    }
                },
            }
        }
    }

    /// The subtree subdivided everywhere down to `MIN_HALF`: nodes coarser
    /// than `MIN_HALF` are split (keeping existing children), nodes at or
    /// below it lose their children.
    pub open spec fn deepened(self) -> QuadNode<E>
        decreases self.half,
    {
        if self.half <= MIN_HALF {
            QuadNode {
                cx: self.cx,
                cz: self.cz,
                half: self.half,
                children: None,
                entity: self.entity,
            }
        } else {
            let b = base_quadrants(self);
            let h = self.half / 2;
            if b.sw.half == h && b.se.half == h && b.nw.half == h && b.ne.half == h {
                QuadNode {
                    cx: self.cx,
                    cz: self.cz,
                    half: self.half,
                    children: Some(
                        Box::new(
                            Quadrants {
                                sw: b.sw.deepened(),
                                se: b.se.deepened(),
                                nw: b.nw.deepened(),
                                ne: b.ne.deepened(),
                            },
                        ),
                    ),
                    entity: self.entity,
                }
            } else {
                self
            }
        }
    }

    /// The subtree with the entities of split nodes removed.
    pub open spec fn stripped(self) -> QuadNode<E>
        decreases self,
    {
        match self.children {
            Some(q) => QuadNode {
                cx: self.cx,
                cz: self.cz,
                half: self.half,
                children: Some(
                    Box::new(
                        Quadrants {
                            sw: q.sw.stripped(),
                            se: q.se.stripped(),
                            nw: q.nw.stripped(),
                            ne: q.ne.stripped(),
                        },
                    ),
                ),
                entity: None,
            },
            None => self,
        }
    }

    /// Operations of the leaves-only pass: split nodes give up their mesh,
    /// leaves without a mesh ask for one.
    pub open spec fn strip_ops(self, path: Seq<u8>) -> Seq<TileOp<E>>
        decreases self,
    {
        match self.children {
            Some(q) => despawn_of(self.entity) + q.sw.strip_ops(path.push(0)) + q.se.strip_ops(
                path.push(1),
            ) + q.nw.strip_ops(path.push(2)) + q.ne.strip_ops(path.push(3)),
            None => if self.entity is None {
                seq![TileOp::Spawn { cx: self.cx, cz: self.cz, half: self.half, slot: path }]
            } else {
                Seq::empty()
            },
        }
    }

    /// Every leaf is at the finest resolution and every split node is coarser.
    pub open spec fn finest_everywhere(self) -> bool
        decreases self,
    {
        match self.children {
            Some(q) => self.half > MIN_HALF && q.sw.finest_everywhere()
                && q.se.finest_everywhere() && q.nw.finest_everywhere()
                && q.ne.finest_everywhere(),
            None => self.half <= MIN_HALF,
        }
    }

    /// Append the leaves of the subtree to `out`.
    pub fn collect_leaves<'a>(&'a self, out: &mut Vec<&'a QuadNode<E>>)
        ensures
            final(out)@.map_values(|r: &QuadNode<E>| *r) == old(out)@.map_values(
                |r: &QuadNode<E>| *r,
            ) + self.leaves(),
        decreases self,
    {
        let ghost start = out@.map_values(|r: &QuadNode<E>| *r);
        match &self.children {
            Some(q) => {
                q.sw.collect_leaves(out);
                q.se.collect_leaves(out);
                q.nw.collect_leaves(out);
                q.ne.collect_leaves(out);
            },
            None => {
                let ghost before = out@;
                out.push(self);
                assert(out@.map_values(|r: &QuadNode<E>| *r) =~= before.map_values(
                    |r: &QuadNode<E>| *r,
                ).push(*self));
            },
        }
        assert(out@.map_values(|r: &QuadNode<E>| *r) =~= start + self.leaves());
    }

    /// This subtree with the node at `path` (if any) replaced by `m`.
    pub open spec fn replaced_at(self, path: Seq<u8>, m: QuadNode<E>) -> QuadNode<E>
        decreases path.len(),
    {
        if path.len() == 0 {
            m
        } else {
            match self.children {
                None => self,
                Some(q) => {
                    let rest = path.drop_first();
                    let nq = if path[0] == 0 {
                        Quadrants { sw: q.sw.replaced_at(rest, m), se: q.se, nw: q.nw, ne: q.ne }
                    } else if path[0] == 1 {
                        Quadrants { sw: q.sw, se: q.se.replaced_at(rest, m), nw: q.nw, ne: q.ne }
                    } else if path[0] == 2 {
                        Quadrants { sw: q.sw, se: q.se, nw: q.nw.replaced_at(rest, m), ne: q.ne }
                    } else if path[0] == 3 {
                        Quadrants { sw: q.sw, se: q.se, nw: q.nw, ne: q.ne.replaced_at(rest, m) }
                    } else {
                        *q
                    };
                    QuadNode {
                        cx: self.cx,
                        cz: self.cz,
                        half: self.half,
                        children: Some(Box::new(nq)),
                        entity: self.entity,
                    }
                },
            }
        }
    }

    /// The node at `slot[i..]`, borrowed mutably.
    fn find_at(&mut self, slot: &Vec<u8>, i: usize) -> (r: Option<&mut QuadNode<E>>)
        requires
            i <= slot@.len(),
        ensures
            match r {
                Some(m) => old(self).node_at(slot@.skip(i as int)) == Some(*m)
                    && *final(self) == old(self).replaced_at(slot@.skip(i as int), *final(m)),
                None => old(self).node_at(slot@.skip(i as int)) is None && *final(self) == *old(self),
            },
        decreases slot@.len() - i,
    {
        let ghost rest = slot@.skip(i as int);
        if i == slot.len() {
            assert(rest.len() == 0);
            return Some(self);
        }
        assert(rest.drop_first() =~= slot@.skip(i + 1));
        assert(rest[0] == slot@[i as int]);
        let k = slot[i];
        if k > 3 {
            return None;
        }
        match &mut self.children {
            None => None,
            Some(b) => {
                let q: &mut Quadrants<E> = &mut **b;
                if k == 0 {
                    q.sw.find_at(slot, i + 1)
                } else if k == 1 {
                    q.se.find_at(slot, i + 1)
                } else if k == 2 {
                    q.nw.find_at(slot, i + 1)
                } else {
                    q.ne.find_at(slot, i + 1)
                }
            },
        }
    }

    /// Find the node named by the path `slot`, borrowed mutably; changes
    /// made through it land at that place in the tree.
    pub fn find_slot_mut(&mut self, slot: &Vec<u8>) -> (r: Option<&mut QuadNode<E>>)
        ensures
            match r {
                Some(m) => old(self).node_at(slot@) == Some(*m) && *final(self)
                    == old(self).replaced_at(slot@, *final(m)),
                None => old(self).node_at(slot@) is None && *final(self) == *old(self),
            },
    {
        assert(slot@.skip(0) =~= slot@);
        self.find_at(slot, 0)
    }

    /// Subdivide everywhere down to `MIN_HALF` (see `deepened`).
    fn deepen(&mut self)
        requires
            old(self).wf(),
        ensures
            *final(self) == old(self).deepened(),
            final(self).wf(),
        decreases old(self).half,
    {
        if self.half <= MIN_HALF {
            self.children = None;
            return;
        }
        let mut q: Quadrants<E> = match self.children.take() {
            Some(b) => *b,
            None => Quadrants::around(self.cx, self.cz, self.half),
        };
        q.sw.deepen();
        q.se.deepen();
        q.nw.deepen();
        q.ne.deepen();
        self.children = Some(Box::new(q));
    }

    /// The leaves-only pass (see `stripped` and `strip_ops`).
    fn strip(&mut self, path: &Vec<u8>, ops: &mut Vec<DeltaOp<E>>)
        requires
            old(self).wf(),
        ensures
            *final(self) == old(self).stripped(),
            final(self).wf(),
            ops_view(final(ops)@) == ops_view(old(ops)@) + old(self).strip_ops(path@),
        decreases old(self).half,
    {
        let ghost o = *self;
        let ghost start = ops_view(ops@);
        match self.children.take() {
            Some(b) => {
                if let Some(e) = self.entity.take() {
                    push_op(ops, DeltaOp::Despawn(e));
                }
                let mut q = *b;
                q.sw.strip(&child_path(path, 0), ops);
                q.se.strip(&child_path(path, 1), ops);
                q.nw.strip(&child_path(path, 2), ops);
                q.ne.strip(&child_path(path, 3), ops);
                self.children = Some(Box::new(q));
            },
            None => {
                if self.entity.is_none() {
                    push_op(
                        ops,
                        DeltaOp::Spawn {
                            cx: self.cx,
                            cz: self.cz,
                            half: self.half,
                            slot: path.clone(),
                        },
                    );
                }
            },
        }
        assert(ops_view(ops@) =~= start + o.strip_ops(path@));
    }
}

// ── Root wrapper ─────────────────────────────────────────────────────────────

/// Root of the terrain quad-tree; the root tile covers ±ROOT_HALF metres.
pub struct QuadTree<E> {
    pub root: QuadNode<E>,
}

impl<E> QuadTree<E> {
    /// A tree made of a single root leaf centred at the origin.
    pub fn new() -> (t: Self)
        ensures
            t.root == leaf::<E>(0, 0, ROOT_HALF as int),
            t.root.wf(),
    {
        Self { root: QuadNode::new(0, 0, ROOT_HALF) }
    }

    /// Force full subdivision down to `MIN_HALF` so the tree contains the
    /// highest-resolution leaf nodes everywhere.
    pub fn force_max_depth(&mut self)
        requires
            old(self).root.wf(),
        ensures
            final(self).root == old(self).root.deepened(),
            final(self).root.wf(),
    {
        self.root.deepen();
    }

    /// Update the tree with the camera distance rule `near` and return the
    /// spawn/despawn operations to execute.
    pub fn update<F: Fn(i32, i32, i32) -> bool>(&mut self, near: &F) -> (ops: Vec<DeltaOp<E>>)
        requires
            old(self).root.wf(),
            forall|x: i32, z: i32, h: i32| near.requires((x, z, h)),
        ensures
            final(self).root.wf(),
            stepped(*near, old(self).root, final(self).root),
            ops_view(ops@) == step_ops(old(self).root, final(self).root, Seq::empty()),
    {
        let mut ops: Vec<DeltaOp<E>> = Vec::new();
        let path: Vec<u8> = Vec::new();
        assert(ops_view(ops@) =~= Seq::empty());
        assert(path@ =~= Seq::<u8>::empty());
        self.root.update(near, &path, &mut ops);
        assert(ops_view(ops@) =~= step_ops(old(self).root, self.root, Seq::empty()));
        ops
    }

    /// Force the tree into a state where all leaf nodes are the finest
    /// resolution (children exist down to `MIN_HALF`) and return spawn ops
    /// for any leaf nodes that need entities, and despawn ops for any
    /// non-leaf nodes that currently own entities.  This is used when only
    /// the highest-resolution tiles are to be rendered.
    pub fn update_force_leaves(&mut self) -> (ops: Vec<DeltaOp<E>>)
        requires
            old(self).root.wf(),
        ensures
            final(self).root == old(self).root.deepened().stripped(),
            final(self).root.wf(),
            ops_view(ops@) == old(self).root.deepened().strip_ops(Seq::empty()),
    {
        self.root.deepen();
        let ghost d = self.root;
        let mut ops: Vec<DeltaOp<E>> = Vec::new();
        let path: Vec<u8> = Vec::new();
        assert(ops_view(ops@) =~= Seq::empty());
        assert(path@ =~= Seq::<u8>::empty());
        self.root.strip(&path, &mut ops);
        assert(ops_view(ops@) =~= d.strip_ops(Seq::empty()));
        ops
    }

    /// Tear down the entire tree, returning despawn ops for every live
    /// entity; the tree is reset to a fresh root.
    pub fn reset(&mut self) -> (ops: Vec<DeltaOp<E>>)
        ensures
            ops_view(ops@) == old(self).root.despawns(),
            final(self).root == leaf::<E>(0, 0, ROOT_HALF as int),
            final(self).root.wf(),
    {
        let mut ops: Vec<DeltaOp<E>> = Vec::new();
        assert(ops_view(ops@) =~= Seq::empty());
        let mut old_root = QuadNode::new(0, 0, ROOT_HALF);
        core::mem::swap(&mut old_root, &mut self.root);
        old_root.collect_entities(&mut ops);
        assert(ops_view(ops@) =~= old(self).root.despawns());
        ops
    }

    /// Record the entity given to a freshly spawned tile, identified by the
    /// `slot` of its `DeltaOp::Spawn`; an unknown slot changes nothing.
    pub fn assign_entity(&mut self, slot: &Vec<u8>, entity: E)
        requires
            old(self).root.wf(),
        ensures
            final(self).root == old(self).root.with_entity_at(slot@, entity),
            final(self).root.wf(),
    {
        let ghost r0 = self.root;
        proof {
            lemma_with_entity_is_replacement(r0, slot@, entity);
        }
        if let Some(node) = self.root.find_slot_mut(slot) {
            node.entity = Some(entity);
        }
    }
}


// ── Laws ─────────────────────────────────────────────────────────────────────

/// The spawn operations of a list, in order.
pub open spec fn spawns<E>(s: Seq<TileOp<E>>) -> Seq<TileOp<E>>
    decreases s.len(),
{
    if s.len() == 0 {
        Seq::empty()
    } else {
        (if s[0] is Spawn {
            seq![s[0]]
        } else {
            Seq::empty()
        }) + spawns(s.drop_first())
    }
}

/// The entities that a list of operations despawns.
pub open spec fn despawned<E>(s: Seq<TileOp<E>>) -> Multiset<E>
    decreases s.len(),
{
    if s.len() == 0 {
        Multiset::empty()
    } else {
        (match s[0] {
            TileOp::Despawn(e) => Multiset::singleton(e),
            _ => Multiset::empty(),
        }).add(despawned(s.drop_first()))
    }
}

proof fn lemma_ops_add<E>(a: Seq<TileOp<E>>, b: Seq<TileOp<E>>)
    ensures
        spawns(a + b) == spawns(a) + spawns(b),
        despawned(a + b) == despawned(a).add(despawned(b)),
    decreases a.len(),
{
    broadcast use vstd::multiset::group_multiset_axioms;

    if a.len() == 0 {
        assert(a + b =~= b);
        assert(spawns(a) + spawns(b) =~= spawns(b));
        assert(despawned(a).add(despawned(b)) =~= despawned(b));
    } else {
        assert((a + b).drop_first() =~= a.drop_first() + b);
        assert((a + b)[0] == a[0]);
        lemma_ops_add(a.drop_first(), b);
        let head = if a[0] is Spawn {
            seq![a[0]]
        } else {
            Seq::<TileOp<E>>::empty()
        };
        assert(spawns(a + b) =~= head + (spawns(a.drop_first()) + spawns(b)));
        assert(spawns(a + b) =~= spawns(a) + spawns(b));
        assert(despawned(a + b) =~= despawned(a).add(despawned(b)));
    }
}

proof fn lemma_despawn_of<E>(e: Option<E>)
    ensures
        spawns(despawn_of(e)) == Seq::<TileOp<E>>::empty(),
        despawned(despawn_of(e)) == (match e {
            Some(x) => Multiset::singleton(x),
            None => Multiset::<E>::empty(),
        }),
{
    broadcast use vstd::multiset::group_multiset_axioms;

    if let Some(x) = e {
        let s = despawn_of(e);
        assert(s.drop_first() =~= Seq::<TileOp<E>>::empty());
        assert(spawns(Seq::<TileOp<E>>::empty()) =~= Seq::<TileOp<E>>::empty());
        assert(despawned(Seq::<TileOp<E>>::empty()) =~= Multiset::<E>::empty());
        assert(spawns(s) =~= Seq::<TileOp<E>>::empty());
        assert(despawned(s) =~= Multiset::singleton(x));
    }
}

proof fn lemma_spawn_one<E>(op: TileOp<E>)
    requires
        op is Spawn,
    ensures
        spawns(seq![op]) == seq![op],
        despawned(seq![op]) == Multiset::<E>::empty(),
{
    broadcast use vstd::multiset::group_multiset_axioms;

    assert(seq![op].drop_first() =~= Seq::<TileOp<E>>::empty());
    assert(spawns(Seq::<TileOp<E>>::empty()) =~= Seq::<TileOp<E>>::empty());
    assert(despawned(Seq::<TileOp<E>>::empty()) =~= Multiset::<E>::empty());
    assert(spawns(seq![op]) =~= seq![op]);
    assert(despawned(seq![op]) =~= Multiset::<E>::empty());
}

/// Tearing a subtree down despawns exactly the entities it holds, and
/// spawns nothing.
pub proof fn law_despawns_cover_subtree<E>(n: QuadNode<E>)
    ensures
        spawns(n.despawns()) == Seq::<TileOp<E>>::empty(),
        despawned(n.despawns()) == n.entity_bag(),
    decreases n,
{
    broadcast use vstd::multiset::group_multiset_axioms;

    lemma_despawn_of(n.entity);
    if let Some(q) = n.children {
        law_despawns_cover_subtree(q.sw);
        law_despawns_cover_subtree(q.se);
        law_despawns_cover_subtree(q.nw);
        law_despawns_cover_subtree(q.ne);
        let a = despawn_of(n.entity);
        lemma_ops_add(a, q.sw.despawns());
        lemma_ops_add(a + q.sw.despawns(), q.se.despawns());
        lemma_ops_add(a + q.sw.despawns() + q.se.despawns(), q.nw.despawns());
        lemma_ops_add(a + q.sw.despawns() + q.se.despawns() + q.nw.despawns(), q.ne.despawns());
        assert(spawns(n.despawns()) =~= Seq::<TileOp<E>>::empty());
        assert(despawned(n.despawns()) =~= n.entity_bag());
    }
}

proof fn lemma_fresh_quadrants<E>(n: QuadNode<E>)
    requires
        n.children is None,
    ensures
        base_quadrants(n).sw.entity_bag() == Multiset::<E>::empty(),
        base_quadrants(n).se.entity_bag() == Multiset::<E>::empty(),
        base_quadrants(n).nw.entity_bag() == Multiset::<E>::empty(),
        base_quadrants(n).ne.entity_bag() == Multiset::<E>::empty(),
        base_quadrants(n).sw.entities_on_leaves(),
        base_quadrants(n).se.entities_on_leaves(),
        base_quadrants(n).nw.entities_on_leaves(),
        base_quadrants(n).ne.entities_on_leaves(),
{
}

/// An update neither loses nor invents entities: what the tree held before
/// is what it holds after, plus what the update despawned.
pub proof fn law_update_conserves_entities<E, F: Fn(i32, i32, i32) -> bool>(
    near: F,
    old: QuadNode<E>,
    new: QuadNode<E>,
    path: Seq<u8>,
)
    requires
        stepped(near, old, new),
    ensures
        old.entity_bag() == new.entity_bag().add(despawned(step_ops(old, new, path))),
    decreases new,
{
    broadcast use vstd::multiset::group_multiset_axioms;

    match new.children {
        Some(q) => {
            let b = base_quadrants(old);
            law_update_conserves_entities(near, b.sw, q.sw, path.push(0));
            law_update_conserves_entities(near, b.se, q.se, path.push(1));
            law_update_conserves_entities(near, b.nw, q.nw, path.push(2));
            law_update_conserves_entities(near, b.ne, q.ne, path.push(3));
            let pre = if old.children is None {
                despawn_of(old.entity)
            } else {
                Seq::empty()
            };
            lemma_despawn_of(old.entity);
            let s0 = step_ops(b.sw, q.sw, path.push(0));
            let s1 = step_ops(b.se, q.se, path.push(1));
            let s2 = step_ops(b.nw, q.nw, path.push(2));
            let s3 = step_ops(b.ne, q.ne, path.push(3));
            lemma_ops_add(pre, s0);
            lemma_ops_add(pre + s0, s1);
            lemma_ops_add(pre + s0 + s1, s2);
            lemma_ops_add(pre + s0 + s1 + s2, s3);
            assert(despawned(Seq::<TileOp<E>>::empty()) =~= Multiset::<E>::empty());
            if old.children is None {
                lemma_fresh_quadrants(old);
            }
            assert(old.entity_bag() =~= new.entity_bag().add(
                despawned(step_ops(old, new, path)),
            ));
        },
        None => {
            let spawn = if old.entity is None {
                seq![TileOp::Spawn { cx: old.cx, cz: old.cz, half: old.half, slot: path }]
            } else {
                Seq::empty()
            };
            if old.entity is None {
                lemma_spawn_one(
                    TileOp::<E>::Spawn { cx: old.cx, cz: old.cz, half: old.half, slot: path },
                );
            } else {
                assert(despawned(spawn) =~= Multiset::<E>::empty());
            }
            match old.children {
                Some(oq) => {
                    law_despawns_cover_subtree(oq.sw);
                    law_despawns_cover_subtree(oq.se);
                    law_despawns_cover_subtree(oq.nw);
                    law_despawns_cover_subtree(oq.ne);
                    let c = oq.sw.despawns() + oq.se.despawns() + oq.nw.despawns()
                        + oq.ne.despawns();
                    lemma_ops_add(oq.sw.despawns(), oq.se.despawns());
                    lemma_ops_add(oq.sw.despawns() + oq.se.despawns(), oq.nw.despawns());
                    lemma_ops_add(
                        oq.sw.despawns() + oq.se.despawns() + oq.nw.despawns(),
                        oq.ne.despawns(),
                    );
                    lemma_ops_add(c, spawn);
                },
                None => {
                    assert(despawned(Seq::<TileOp<E>>::empty()) =~= Multiset::<E>::empty());
                    lemma_ops_add(Seq::empty(), spawn);
                },
            }
            assert(old.entity_bag() =~= new.entity_bag().add(
                despawned(step_ops(old, new, path)),
            ));
        },
    }
}

/// The spawn requests of an update are exactly the leaves of the new tree
/// that have no mesh, each named by its path.
pub proof fn law_update_spawns_bare_leaves<E, F: Fn(i32, i32, i32) -> bool>(
    near: F,
    old: QuadNode<E>,
    new: QuadNode<E>,
    path: Seq<u8>,
)
    requires
        stepped(near, old, new),
    ensures
        spawns(step_ops(old, new, path)) == new.bare_leaves(path),
    decreases new,
{
    match new.children {
        Some(q) => {
            let b = base_quadrants(old);
            law_update_spawns_bare_leaves(near, b.sw, q.sw, path.push(0));
            law_update_spawns_bare_leaves(near, b.se, q.se, path.push(1));
            law_update_spawns_bare_leaves(near, b.nw, q.nw, path.push(2));
            law_update_spawns_bare_leaves(near, b.ne, q.ne, path.push(3));
            let pre = if old.children is None {
                despawn_of(old.entity)
            } else {
                Seq::empty()
            };
            lemma_despawn_of(old.entity);
            assert(spawns(Seq::<TileOp<E>>::empty()) =~= Seq::<TileOp<E>>::empty());
            let s0 = step_ops(b.sw, q.sw, path.push(0));
            let s1 = step_ops(b.se, q.se, path.push(1));
            let s2 = step_ops(b.nw, q.nw, path.push(2));
            let s3 = step_ops(b.ne, q.ne, path.push(3));
            lemma_ops_add(pre, s0);
            lemma_ops_add(pre + s0, s1);
            lemma_ops_add(pre + s0 + s1, s2);
            lemma_ops_add(pre + s0 + s1 + s2, s3);
            assert(spawns(step_ops(old, new, path)) =~= new.bare_leaves(path));
        },
        None => {
            let spawn = if old.entity is None {
                seq![TileOp::Spawn { cx: old.cx, cz: old.cz, half: old.half, slot: path }]
            } else {
                Seq::empty()
            };
            if old.entity is None {
                lemma_spawn_one(
                    TileOp::<E>::Spawn { cx: old.cx, cz: old.cz, half: old.half, slot: path },
                );
            } else {
                assert(spawns(spawn) =~= Seq::<TileOp<E>>::empty());
            }
            match old.children {
                Some(oq) => {
                    law_despawns_cover_subtree(oq.sw);
                    law_despawns_cover_subtree(oq.se);
                    law_despawns_cover_subtree(oq.nw);
                    law_despawns_cover_subtree(oq.ne);
                    let c = oq.sw.despawns() + oq.se.despawns() + oq.nw.despawns()
                        + oq.ne.despawns();
                    lemma_ops_add(oq.sw.despawns(), oq.se.despawns());
                    lemma_ops_add(oq.sw.despawns() + oq.se.despawns(), oq.nw.despawns());
                    lemma_ops_add(
                        oq.sw.despawns() + oq.se.despawns() + oq.nw.despawns(),
                        oq.ne.despawns(),
                    );
                    lemma_ops_add(c, spawn);
                },
                None => {
                    assert(spawns(Seq::<TileOp<E>>::empty()) =~= Seq::<TileOp<E>>::empty());
                    lemma_ops_add(Seq::empty(), spawn);
                },
            }
            assert(spawns(step_ops(old, new, path)) =~= new.bare_leaves(path));
        },
    }
}

/// If only leaves carried meshes before an update, only leaves carry them after.
pub proof fn law_update_keeps_meshes_on_leaves<E, F: Fn(i32, i32, i32) -> bool>(
    near: F,
    old: QuadNode<E>,
    new: QuadNode<E>,
)
    requires
        stepped(near, old, new),
        old.entities_on_leaves(),
    ensures
        new.entities_on_leaves(),
    decreases new,
{
    if let Some(q) = new.children {
        let b = base_quadrants(old);
        if old.children is None {
            lemma_fresh_quadrants(old);
        }
        law_update_keeps_meshes_on_leaves(near, b.sw, q.sw);
        law_update_keeps_meshes_on_leaves(near, b.se, q.se);
        law_update_keeps_meshes_on_leaves(near, b.nw, q.nw);
        law_update_keeps_meshes_on_leaves(near, b.ne, q.ne);
    }
}

/// The tree has the shape the rule `near` asks for: a node is split exactly
/// when it is coarser than `MIN_HALF` and `near` answered true for it.
pub open spec fn shaped<E, F: Fn(i32, i32, i32) -> bool>(near: F, n: QuadNode<E>) -> bool
    decreases n,
{
    match n.children {
        Some(q) => {
            &&& n.half > MIN_HALF
            &&& near.ensures((n.cx, n.cz, n.half), true)
            &&& shaped(near, q.sw)
            &&& shaped(near, q.se)
            &&& shaped(near, q.nw)
            &&& shaped(near, q.ne)
        },
        None => n.half <= MIN_HALF || near.ensures((n.cx, n.cz, n.half), false),
    }
}

/// `near` answers each tile one way.
pub open spec fn answers_one_way<F: Fn(i32, i32, i32) -> bool>(near: F) -> bool {
    forall|x: i32, z: i32, h: i32|
        #![trigger near.ensures((x, z, h), true)]
        !(near.ensures((x, z, h), true) && near.ensures((x, z, h), false))
}

/// An update leaves the tree in the shape its rule asks for: every node of
/// the new tree is split exactly when it is coarser than `MIN_HALF` and the
/// rule judged it near (for a rule that answers each tile one way).
pub proof fn law_update_shapes_tree<E, F: Fn(i32, i32, i32) -> bool>(
    near: F,
    old: QuadNode<E>,
    new: QuadNode<E>,
)
    requires
        stepped(near, old, new),
    ensures
        shaped(near, new),
    decreases new,
{
    if let Some(q) = new.children {
        let b = base_quadrants(old);
        law_update_shapes_tree(near, b.sw, q.sw);
        law_update_shapes_tree(near, b.se, q.se);
        law_update_shapes_tree(near, b.nw, q.nw);
        law_update_shapes_tree(near, b.ne, q.ne);
    }
}

/// An update of a tree already shaped for its rule keeps the tree and asks
/// only for the meshes of leaves without one.
proof fn lemma_shaped_stable<E, F: Fn(i32, i32, i32) -> bool>(
    near: F,
    old: QuadNode<E>,
    new: QuadNode<E>,
    path: Seq<u8>,
)
    requires
        shaped(near, old),
        stepped(near, old, new),
        answers_one_way(near),
    ensures
        new == old,
        step_ops(old, new, path) == old.bare_leaves(path),
    decreases old,
{
    match old.children {
        Some(oq) => {
            assert(near.ensures((old.cx, old.cz, old.half), true));
            if let Some(nq) = new.children {
                lemma_shaped_stable(near, oq.sw, nq.sw, path.push(0));
                lemma_shaped_stable(near, oq.se, nq.se, path.push(1));
                lemma_shaped_stable(near, oq.nw, nq.nw, path.push(2));
                lemma_shaped_stable(near, oq.ne, nq.ne, path.push(3));
                assert(*nq == *oq);
                assert(step_ops(old, new, path) =~= old.bare_leaves(path));
            }
        },
        None => {
            if new.children is Some {
                assert(near.ensures((old.cx, old.cz, old.half), true));
            }
            assert(step_ops(old, new, path) =~= old.bare_leaves(path));
        },
    }
}

/// The tree after `assign_entity(slot, e)` for each spawn operation of
/// `ops` in turn, `e` taken from `es` in the same order; other operations
/// are passed over with their entry of `es`.
pub open spec fn with_entities<E>(n: QuadNode<E>, ops: Seq<TileOp<E>>, es: Seq<E>) -> QuadNode<E>
    decreases ops.len(),
{
    if ops.len() == 0 || es.len() == 0 {
        n
    } else {
        let m = with_entities(n, ops.drop_last(), es.drop_last());
        match ops.last() {
            TileOp::Spawn { slot, .. } => m.with_entity_at(slot, es.last()),
            TileOp::Despawn(_) => m,
        }
    }
}

/// `with_entities` for the subtree at path `p`, whose slots are read
/// relative to `p`.
spec fn assigned_below<E>(n: QuadNode<E>, ops: Seq<TileOp<E>>, p: Seq<u8>, es: Seq<E>) -> QuadNode<E>
    decreases ops.len(),
{
    if ops.len() == 0 || es.len() == 0 {
        n
    } else {
        let m = assigned_below(n, ops.drop_last(), p, es.drop_last());
        match ops.last() {
            TileOp::Spawn { slot, .. } => m.with_entity_at(slot.skip(p.len() as int), es.last()),
            TileOp::Despawn(_) => m,
        }
    }
}

/// Child `i` of a split node (SW, SE, NW, NE for 0, 1, 2, 3).
spec fn child_of<E>(n: QuadNode<E>, i: u8) -> QuadNode<E> {
    match n.children {
        Some(q) => if i == 0 {
            q.sw
        } else if i == 1 {
            q.se
        } else if i == 2 {
            q.nw
        } else {
            q.ne
        },
        None => n,
    }
}

/// `n` with child `i` replaced by `c`.
spec fn with_child<E>(n: QuadNode<E>, i: u8, c: QuadNode<E>) -> QuadNode<E> {
    match n.children {
        Some(q) => QuadNode {
            cx: n.cx,
            cz: n.cz,
            half: n.half,
            children: Some(
                Box::new(
                    if i == 0 {
                        Quadrants { sw: c, se: q.se, nw: q.nw, ne: q.ne }
                    } else if i == 1 {
                        Quadrants { sw: q.sw, se: c, nw: q.nw, ne: q.ne }
                    } else if i == 2 {
                        Quadrants { sw: q.sw, se: q.se, nw: c, ne: q.ne }
                    } else {
                        Quadrants { sw: q.sw, se: q.se, nw: q.nw, ne: c }
                    },
                ),
            ),
            entity: n.entity,
        },
        None => n,
    }
}

/// Every operation is a spawn whose slot starts with `q`.
spec fn spawns_under<E>(ops: Seq<TileOp<E>>, q: Seq<u8>) -> bool {
    forall|k: int|
        0 <= k < ops.len() ==> (#[trigger] ops[k] matches TileOp::Spawn { slot, .. } && slot.len()
            >= q.len() && slot.take(q.len() as int) == q)
}

proof fn lemma_assigned_at_root<E>(n: QuadNode<E>, ops: Seq<TileOp<E>>, es: Seq<E>)
    ensures
        with_entities(n, ops, es) == assigned_below(n, ops, Seq::empty(), es),
    decreases ops.len(),
{
    if ops.len() > 0 && es.len() > 0 {
        lemma_assigned_at_root(n, ops.drop_last(), es.drop_last());
        if let TileOp::Spawn { slot, .. } = ops.last() {
            assert(slot.skip(0) =~= slot);
        }
    }
}

proof fn lemma_assigned_concat<E>(
    n: QuadNode<E>,
    l1: Seq<TileOp<E>>,
    l2: Seq<TileOp<E>>,
    p: Seq<u8>,
    e1: Seq<E>,
    e2: Seq<E>,
)
    requires
        e1.len() == l1.len(),
        e2.len() == l2.len(),
    ensures
        assigned_below(n, l1 + l2, p, e1 + e2) == assigned_below(
            assigned_below(n, l1, p, e1),
            l2,
            p,
            e2,
        ),
    decreases l2.len(),
{
    if l2.len() == 0 {
        assert(l1 + l2 =~= l1);
        assert(e1 + e2 =~= e1);
    } else {
        lemma_assigned_concat(n, l1, l2.drop_last(), p, e1, e2.drop_last());
        assert((l1 + l2).drop_last() =~= l1 + l2.drop_last());
        assert((e1 + e2).drop_last() =~= e1 + e2.drop_last());
    }
}

proof fn lemma_bare_leaves_under<E>(n: QuadNode<E>, p: Seq<u8>)
    ensures
        spawns_under(n.bare_leaves(p), p),
    decreases n,
{
    match n.children {
        Some(q) => {
            lemma_bare_leaves_under(q.sw, p.push(0));
            lemma_bare_leaves_under(q.se, p.push(1));
            lemma_bare_leaves_under(q.nw, p.push(2));
            lemma_bare_leaves_under(q.ne, p.push(3));
            let l0 = q.sw.bare_leaves(p.push(0));
            let l1 = q.se.bare_leaves(p.push(1));
            let l2 = q.nw.bare_leaves(p.push(2));
            let l3 = q.ne.bare_leaves(p.push(3));
            let all = n.bare_leaves(p);
            assert forall|k: int| 0 <= k < all.len() implies (#[trigger] all[k] matches TileOp::Spawn {
                slot,
                ..
            } && slot.len() >= p.len() && slot.take(p.len() as int) == p) by {
                let (l, i, off): (Seq<TileOp<E>>, u8, int) = if k < l0.len() {
                    (l0, 0u8, 0)
                } else if k < l0.len() + l1.len() {
                    (l1, 1u8, l0.len() as int)
                } else if k < l0.len() + l1.len() + l2.len() {
                    (l2, 2u8, (l0.len() + l1.len()) as int)
                } else {
                    (l3, 3u8, (l0.len() + l1.len() + l2.len()) as int)
                };
                assert(all[k] == l[k - off]);
                let slot = l[k - off]->slot;
                assert(slot.take(p.len() + 1int) == p.push(i));
                assert(slot.take(p.len() as int) =~= p.push(i).take(p.len() as int));
                assert(p.push(i).take(p.len() as int) =~= p);
            }
            assert(spawns_under(all, p));
        },
        None => {
            assert(p.take(p.len() as int) =~= p);
        },
    }
}

proof fn lemma_with_child_same<E>(n: QuadNode<E>, i: u8)
    requires
        n.children is Some,
        i < 4,
    ensures
        with_child(n, i, child_of(n, i)) == n,
{
    let q = n.children.unwrap();
    let r = with_child(n, i, child_of(n, i));
    assert(*r.children.unwrap() == *q);
}

proof fn lemma_assigned_descend<E>(
    n: QuadNode<E>,
    i: u8,
    ops: Seq<TileOp<E>>,
    p: Seq<u8>,
    es: Seq<E>,
)
    requires
        n.children is Some,
        i < 4,
        es.len() == ops.len(),
        spawns_under(ops, p.push(i)),
    ensures
        assigned_below(n, ops, p, es) == with_child(
            n,
            i,
            assigned_below(child_of(n, i), ops, p.push(i), es),
        ),
    decreases ops.len(),
{
    if ops.len() == 0 {
        lemma_with_child_same(n, i);
    } else {
        let l = ops.drop_last();
        assert forall|k: int| 0 <= k < l.len() implies (#[trigger] l[k] matches TileOp::Spawn {
            slot,
            ..
        } && slot.len() >= p.push(i).len() && slot.take(p.push(i).len() as int) == p.push(i)) by {
            assert(l[k] == ops[k]);
        }
        lemma_assigned_descend(n, i, l, p, es.drop_last());
        let c = assigned_below(child_of(n, i), l, p.push(i), es.drop_last());
        let m = assigned_below(n, l, p, es.drop_last());
        assert(m == with_child(n, i, c));
        let op = ops[ops.len() - 1];
        let slot = op->slot;
        let e = es.last();
        let rel = slot.skip(p.len() as int);
        assert(slot.take(p.len() + 1int) == p.push(i));
        assert(slot[p.len() as int] == slot.take(p.len() + 1int)[p.len() as int]);
        assert(rel.len() > 0);
        assert(rel[0] == i);
        assert(rel.drop_first() =~= slot.skip(p.push(i).len() as int));
        let c2 = c.with_entity_at(rel.drop_first(), e);
        assert(m.with_entity_at(rel, e) == with_child(n, i, c2)) by {
            let q = n.children.unwrap();
            let r1 = m.with_entity_at(rel, e);
            let r2 = with_child(n, i, c2);
            assert(*r1.children.unwrap() == *r2.children.unwrap());
        }
    }
}

/// Giving every leaf without a mesh its entity, in the order the update
/// asked for them, leaves no leaf without a mesh.
proof fn lemma_assign_bare_leaves<E>(n: QuadNode<E>, p: Seq<u8>, es: Seq<E>)
    requires
        es.len() == n.bare_leaves(p).len(),
    ensures
        assigned_below(n, n.bare_leaves(p), p, es).bare_leaves(p) == Seq::<TileOp<E>>::empty(),
    decreases n,
{
    match n.children {
        None => {
            if n.entity is None {
                let l = n.bare_leaves(p);
                assert(l.drop_last() =~= Seq::<TileOp<E>>::empty());
                assert(p.skip(p.len() as int) =~= Seq::<u8>::empty());
                let m = assigned_below(n, l.drop_last(), p, es.drop_last());
                assert(m == n);
                let r = n.with_entity_at(Seq::<u8>::empty(), es.last());
                assert(r.entity is Some && r.children is None);
                assert(assigned_below(n, l, p, es) == r);
                assert(r.bare_leaves(p) =~= Seq::<TileOp<E>>::empty());
            }
        },
        Some(q) => {
            let l0 = q.sw.bare_leaves(p.push(0));
            let l1 = q.se.bare_leaves(p.push(1));
            let l2 = q.nw.bare_leaves(p.push(2));
            let l3 = q.ne.bare_leaves(p.push(3));
            let a0 = l0.len() as int;
            let a1 = a0 + l1.len();
            let a2 = a1 + l2.len();
            let e0 = es.subrange(0, a0);
            let e1 = es.subrange(a0, a1);
            let e2 = es.subrange(a1, a2);
            let e3 = es.subrange(a2, es.len() as int);
            assert(es =~= ((e0 + e1) + e2) + e3);
            lemma_assigned_concat(n, (l0 + l1) + l2, l3, p, (e0 + e1) + e2, e3);
            lemma_assigned_concat(n, l0 + l1, l2, p, e0 + e1, e2);
            lemma_assigned_concat(n, l0, l1, p, e0, e1);
            lemma_bare_leaves_under(q.sw, p.push(0));
            lemma_bare_leaves_under(q.se, p.push(1));
            lemma_bare_leaves_under(q.nw, p.push(2));
            lemma_bare_leaves_under(q.ne, p.push(3));
            lemma_assign_bare_leaves(q.sw, p.push(0), e0);
            lemma_assign_bare_leaves(q.se, p.push(1), e1);
            lemma_assign_bare_leaves(q.nw, p.push(2), e2);
            lemma_assign_bare_leaves(q.ne, p.push(3), e3);
            let n0 = assigned_below(n, l0, p, e0);
            lemma_assigned_descend(n, 0, l0, p, e0);
            let n1 = assigned_below(n0, l1, p, e1);
            lemma_assigned_descend(n0, 1, l1, p, e1);
            let n2 = assigned_below(n1, l2, p, e2);
            lemma_assigned_descend(n1, 2, l2, p, e2);
            let n3 = assigned_below(n2, l3, p, e3);
            lemma_assigned_descend(n2, 3, l3, p, e3);
            let r = n3.children.unwrap();
            assert(r.sw.bare_leaves(p.push(0)) == Seq::<TileOp<E>>::empty());
            assert(r.se.bare_leaves(p.push(1)) == Seq::<TileOp<E>>::empty());
            assert(r.nw.bare_leaves(p.push(2)) == Seq::<TileOp<E>>::empty());
            assert(r.ne.bare_leaves(p.push(3)) == Seq::<TileOp<E>>::empty());
            assert(n3.bare_leaves(p) =~= Seq::<TileOp<E>>::empty());
        },
    }
}

proof fn lemma_with_entity_at_shaped<E, F: Fn(i32, i32, i32) -> bool>(
    near: F,
    n: QuadNode<E>,
    path: Seq<u8>,
    e: E,
)
    requires
        shaped(near, n),
    ensures
        shaped(near, n.with_entity_at(path, e)),
    decreases path.len(),
{
    if path.len() > 0 {
        if let Some(q) = n.children {
            let rest = path.drop_first();
            lemma_with_entity_at_shaped(near, q.sw, rest, e);
            lemma_with_entity_at_shaped(near, q.se, rest, e);
            lemma_with_entity_at_shaped(near, q.nw, rest, e);
            lemma_with_entity_at_shaped(near, q.ne, rest, e);
        }
    }
}

proof fn lemma_with_entities_shaped<E, F: Fn(i32, i32, i32) -> bool>(
    near: F,
    n: QuadNode<E>,
    ops: Seq<TileOp<E>>,
    es: Seq<E>,
)
    requires
        shaped(near, n),
    ensures
        shaped(near, with_entities(n, ops, es)),
    decreases ops.len(),
{
    if ops.len() > 0 && es.len() > 0 {
        lemma_with_entities_shaped(near, n, ops.drop_last(), es.drop_last());
        if let TileOp::Spawn { slot, .. } = ops.last() {
            lemma_with_entity_at_shaped(
                near,
                with_entities(n, ops.drop_last(), es.drop_last()),
                slot,
                es.last(),
            );
        }
    }
}

/// An update settles: once each spawn an update asked for has been given its
/// entity with `assign_entity`, in order, a second update with the same rule
/// (one that answers each tile one way) emits no operation and leaves the
/// tree as it is.
pub proof fn law_update_settles<E, F: Fn(i32, i32, i32) -> bool>(
    near: F,
    before: QuadNode<E>,
    after: QuadNode<E>,
    es: Seq<E>,
    again: QuadNode<E>,
)
    requires
        stepped(near, before, after),
        answers_one_way(near),
        es.len() == spawns(step_ops(before, after, Seq::empty())).len(),
        stepped(near, with_entities(after, spawns(step_ops(before, after, Seq::empty())), es), again),
    ensures
        again == with_entities(after, spawns(step_ops(before, after, Seq::empty())), es),
        step_ops(
            with_entities(after, spawns(step_ops(before, after, Seq::empty())), es),
            again,
            Seq::empty(),
        ) == Seq::<TileOp<E>>::empty(),
{
    let sp = spawns(step_ops(before, after, Seq::empty()));
    law_update_spawns_bare_leaves(near, before, after, Seq::empty());
    assert(sp == after.bare_leaves(Seq::empty()));
    let settled = with_entities(after, sp, es);
    lemma_assigned_at_root(after, sp, es);
    lemma_assign_bare_leaves(after, Seq::empty(), es);
    law_update_shapes_tree(near, before, after);
    lemma_with_entities_shaped(near, after, sp, es);
    lemma_shaped_stable(near, settled, again, Seq::empty());
}

/// Asking the same rule again changes nothing: a tree that an update has
/// shaped for a rule answering each tile one way comes out of a second
/// update with that rule unchanged, and the second update only requests
/// meshes for the leaves still without one.
pub proof fn law_update_is_stable<E, F: Fn(i32, i32, i32) -> bool>(
    near: F,
    before: QuadNode<E>,
    old: QuadNode<E>,
    new: QuadNode<E>,
    path: Seq<u8>,
)
    requires
        stepped(near, before, old),
        stepped(near, old, new),
        answers_one_way(near),
    ensures
        new == old,
        step_ops(old, new, path) == old.bare_leaves(path),
{
    law_update_shapes_tree(near, before, old);
    lemma_shaped_stable(near, old, new, path);
}

/// After `force_max_depth` every leaf is at the finest resolution and every
/// split node is coarser than it.
pub proof fn law_force_max_depth_reaches_finest<E>(n: QuadNode<E>)
    requires
        n.wf(),
    ensures
        n.deepened().finest_everywhere(),
    decreases n.half,
{
    if n.half > MIN_HALF {
        let b = base_quadrants(n);
        law_force_max_depth_reaches_finest(b.sw);
        law_force_max_depth_reaches_finest(b.se);
        law_force_max_depth_reaches_finest(b.nw);
        law_force_max_depth_reaches_finest(b.ne);
    }
}

/// Removing the meshes of split nodes keeps the shape of the tree.
proof fn lemma_stripped_keeps_finest<E>(n: QuadNode<E>)
    requires
        n.finest_everywhere(),
    ensures
        n.stripped().finest_everywhere(),
    decreases n,
{
    if let Some(q) = n.children {
        lemma_stripped_keeps_finest(q.sw);
        lemma_stripped_keeps_finest(q.se);
        lemma_stripped_keeps_finest(q.nw);
        lemma_stripped_keeps_finest(q.ne);
    }
}

/// After `update_force_leaves` every leaf is at the finest resolution and
/// every split node is coarser than it.
pub proof fn law_force_leaves_reaches_finest<E>(n: QuadNode<E>)
    requires
        n.wf(),
    ensures
        n.deepened().stripped().finest_everywhere(),
{
    law_force_max_depth_reaches_finest(n);
    lemma_stripped_keeps_finest(n.deepened());
}

/// The leaves-only pass leaves meshes on leaves alone, requests exactly the
/// leaves without a mesh, and despawns exactly the meshes it removes.
pub proof fn law_force_leaves<E>(n: QuadNode<E>, path: Seq<u8>)
    ensures
        n.stripped().entities_on_leaves(),
        spawns(n.strip_ops(path)) == n.stripped().bare_leaves(path),
        n.entity_bag() == n.stripped().entity_bag().add(despawned(n.strip_ops(path))),
    decreases n,
{
    broadcast use vstd::multiset::group_multiset_axioms;

    match n.children {
        Some(q) => {
            law_force_leaves(q.sw, path.push(0));
            law_force_leaves(q.se, path.push(1));
            law_force_leaves(q.nw, path.push(2));
            law_force_leaves(q.ne, path.push(3));
            lemma_despawn_of(n.entity);
            let a = despawn_of(n.entity);
            let s0 = q.sw.strip_ops(path.push(0));
            let s1 = q.se.strip_ops(path.push(1));
            let s2 = q.nw.strip_ops(path.push(2));
            let s3 = q.ne.strip_ops(path.push(3));
            lemma_ops_add(a, s0);
            lemma_ops_add(a + s0, s1);
            lemma_ops_add(a + s0 + s1, s2);
            lemma_ops_add(a + s0 + s1 + s2, s3);
            assert(spawns(n.strip_ops(path)) =~= n.stripped().bare_leaves(path));
            assert(n.entity_bag() =~= n.stripped().entity_bag().add(
                despawned(n.strip_ops(path)),
            ));
        },
        None => {
            if n.entity is None {
                lemma_spawn_one(
                    TileOp::<E>::Spawn { cx: n.cx, cz: n.cz, half: n.half, slot: path },
                );
            } else {
                assert(spawns(n.strip_ops(path)) =~= Seq::<TileOp<E>>::empty());
                assert(despawned(n.strip_ops(path)) =~= Multiset::<E>::empty());
            }
            assert(n.entity_bag() =~= n.stripped().entity_bag().add(
                despawned(n.strip_ops(path)),
            ));
        },
    }
}

proof fn lemma_with_entity_is_replacement<E>(n: QuadNode<E>, path: Seq<u8>, e: E)
    requires
        n.wf(),
    ensures
        n.with_entity_at(path, e).wf(),
        n.node_at(path) is None ==> n.with_entity_at(path, e) == n,
        n.node_at(path) matches Some(m) ==> n.with_entity_at(path, e) == n.replaced_at(
            path,
            QuadNode { cx: m.cx, cz: m.cz, half: m.half, children: m.children, entity: Some(e) },
        ),
    decreases path.len(),
{
    if path.len() > 0 {
        if let Some(q) = n.children {
            let rest = path.drop_first();
            lemma_with_entity_is_replacement(q.sw, rest, e);
            lemma_with_entity_is_replacement(q.se, rest, e);
            lemma_with_entity_is_replacement(q.nw, rest, e);
            lemma_with_entity_is_replacement(q.ne, rest, e);
        }
    }
}

/// Assigning an entity to a slot that names a node gives that node the
/// entity and leaves its place in the tree unchanged.
pub proof fn law_assign_entity<E>(n: QuadNode<E>, path: Seq<u8>, e: E)
    requires
        n.node_at(path) is Some,
    ensures
        n.with_entity_at(path, e).node_at(path) == Some(
            QuadNode {
                cx: n.node_at(path).unwrap().cx,
                cz: n.node_at(path).unwrap().cz,
                half: n.node_at(path).unwrap().half,
                children: n.node_at(path).unwrap().children,
                entity: Some(e),
            },
        ),
    decreases path.len(),
{
    if path.len() > 0 {
        let q = n.children.unwrap();
        let rest = path.drop_first();
        if path[0] == 0 {
            law_assign_entity(q.sw, rest, e);
        } else if path[0] == 1 {
            law_assign_entity(q.se, rest, e);
        } else if path[0] == 2 {
            law_assign_entity(q.nw, rest, e);
        } else {
            law_assign_entity(q.ne, rest, e);
        }
    }
}

} // verus!
