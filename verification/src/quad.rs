//! The adaptive quadtree: a recursive spatial container with bounded
//! per-node capacity, delegating entity storage to [`EntityMap`], geometry
//! tests to [`Geometry`] and path bookkeeping to the base-4 codec.
use vstd::prelude::*;

use crate::codec::Base4Int;
use crate::{EntityID, Geometry, SpatialError};
use crate::{contains_defined, geo_contains, geo_intersects, geo_wf, intersects_defined};

verus! {

broadcast use vstd::seq_lib::lemma_seq_contains_after_push;

/// An entity as the quadtree stores it: its identifier, its position and
/// the geometry of its extent.
#[derive(Debug, Clone, Copy)]
pub struct Entity {
    pub id: EntityID,
    pub position: (i32, i32),
    pub bounds: Geometry,
}

impl Entity {
    pub fn new(id: EntityID, position: (i32, i32), bounds: Geometry) -> (e: Entity)
        ensures
            (e == Entity { id, position, bounds }),
    {
        Entity { id, position, bounds }
    }

    pub fn id(&self) -> (r: EntityID)
        ensures
            r == self.id,
    {
        self.id
    }

    pub fn position(&self) -> (r: (i32, i32))
        ensures
            r == self.position,
    {
        self.position
    }

    pub fn bounds(&self) -> (r: Geometry)
        ensures
            r == self.bounds,
    {
        self.bounds
    }

    /// Whether this entity's extent contains `geometry`.
    pub fn contains_geometry(&self, geometry: Geometry) -> (r: bool)
        requires
            geo_wf(self.bounds),
            geo_wf(geometry),
            contains_defined(self.bounds, geometry),
        ensures
            r == geo_contains(self.bounds, geometry),
    {
        self.bounds.contains(geometry)
    }

    /// Whether this entity's extent intersects `geometry`.
    pub fn intersects_geometry(&self, geometry: Geometry) -> (r: bool)
        requires
            geo_wf(self.bounds),
            geo_wf(geometry),
            intersects_defined(self.bounds, geometry),
        ensures
            r == geo_intersects(self.bounds, geometry),
    {
        self.bounds.intersects(geometry)
    }
}

/// One stored entity together with its leaf path.
struct EntityRecord {
    id: EntityID,
    entity: Entity,
    path: Base4Int,
}

/// The mathematical content of a record list: the map from identifier to
/// entity and recorded path, later entries overriding earlier ones.
spec fn assoc_map(s: Seq<EntityRecord>) -> Map<EntityID, (Entity, Seq<u8>)>
    decreases s.len(),
{
    if s.len() == 0 {
        Map::empty()
    } else {
        assoc_map(s.drop_last()).insert(s.last().id, (s.last().entity, s.last().path@))
    }
}

/// With distinct identifiers, every record is visible in the map.
proof fn lemma_assoc_map_index(s: Seq<EntityRecord>, i: int)
    requires
        forall|a: int, b: int| 0 <= a < b < s.len() ==> s[a].id != s[b].id,
        0 <= i < s.len(),
    ensures
        assoc_map(s).contains_key(s[i].id),
        assoc_map(s)[s[i].id] == (s[i].entity, s[i].path@),
    decreases s.len(),
{
    if i < s.len() - 1 {
        lemma_assoc_map_index(s.drop_last(), i);
    }
}

/// An identifier on no record is absent from the map.
proof fn lemma_assoc_map_absent(s: Seq<EntityRecord>, id: EntityID)
    requires
        forall|i: int| 0 <= i < s.len() ==> s[i].id != id,
    ensures
        !assoc_map(s).contains_key(id),
    decreases s.len(),
{
    if s.len() > 0 {
        lemma_assoc_map_absent(s.drop_last(), id);
    }
}

/// Every key of the map is on some record.
proof fn lemma_assoc_map_dom(s: Seq<EntityRecord>)
    ensures
        forall|id: EntityID| #[trigger]
            assoc_map(s).contains_key(id) ==> exists|i: int|
                0 <= i < s.len() && s[i].id == id,
    decreases s.len(),
{
    if s.len() > 0 {
        lemma_assoc_map_dom(s.drop_last());
        assert forall|id: EntityID| #[trigger] assoc_map(s).contains_key(id) implies exists|
            i: int,
        | 0 <= i < s.len() && s[i].id == id by {
            if id == s.last().id {
                assert(s[s.len() - 1].id == id);
            } else {
                assert(assoc_map(s.drop_last()).contains_key(id));
                let j = choose|j: int| 0 <= j < s.drop_last().len() && s.drop_last()[j].id == id;
                assert(s.drop_last()[j] == s[j]);
                assert(s[j].id == id);
            }
        }
    }
}

/// Replacing one record, identifier kept, overwrites exactly its map entry.
proof fn lemma_assoc_map_update(s: Seq<EntityRecord>, i: int, r: EntityRecord)
    requires
        forall|a: int, b: int| 0 <= a < b < s.len() ==> s[a].id != s[b].id,
        0 <= i < s.len(),
        r.id == s[i].id,
    ensures
        assoc_map(s.update(i, r)) == assoc_map(s).insert(r.id, (r.entity, r.path@)),
    decreases s.len(),
{
    let t = s.update(i, r);
    if i == s.len() - 1 {
        assert(t.drop_last() =~= s.drop_last());
        assert(assoc_map(t) =~= assoc_map(s).insert(r.id, (r.entity, r.path@)));
    } else {
        lemma_assoc_map_update(s.drop_last(), i, r);
        assert(t.drop_last() =~= s.drop_last().update(i, r));
        assert(t.last() == s.last());
        assert(assoc_map(t) =~= assoc_map(s).insert(r.id, (r.entity, r.path@)));
    }
}

/// With distinct identifiers the map has exactly one key per record.
proof fn lemma_assoc_map_len(s: Seq<EntityRecord>)
    requires
        forall|a: int, b: int| 0 <= a < b < s.len() ==> s[a].id != s[b].id,
    ensures
        assoc_map(s).dom().finite(),
        assoc_map(s).dom().len() == s.len(),
    decreases s.len(),
{
    if s.len() > 0 {
        lemma_assoc_map_len(s.drop_last());
        lemma_assoc_map_absent(s.drop_last(), s.last().id);
    }
}

/// Owns the set of inserted entities, keyed by identifier; associates each
/// with the leaf path recorded while it descended the tree.
pub struct EntityMap {
    records: Vec<EntityRecord>,
}

impl View for EntityMap {
    type V = Map<EntityID, (Entity, Seq<u8>)>;

    /// The mapping held: identifier to entity and path symbols.
    closed spec fn view(&self) -> Map<EntityID, (Entity, Seq<u8>)> {
        assoc_map(self.records@)
    }
}

impl EntityMap {
    /// Well-formed: one record per identifier, each record keyed by its own
    /// entity's identifier, each path well-formed and of bounded length.
    pub closed spec fn wf(&self) -> bool {
        &&& forall|a: int, b: int|
            0 <= a < b < self.records@.len() ==> self.records@[a].id != self.records@[b].id
        &&& forall|i: int|
            0 <= i < self.records@.len() ==> (#[trigger] self.records@[i]).entity.id
                == self.records@[i].id
        &&& forall|i: int|
            0 <= i < self.records@.len() ==> (#[trigger] self.records@[i]).path.wf()
                && self.records@[i].path@.len() < usize::MAX
    }

    /// Everything `wf` promises of the visible map.
    pub proof fn lemma_wf_facts(&self)
        requires
            self.wf(),
        ensures
            forall|id: EntityID| #[trigger]
                self@.contains_key(id) ==> self@[id].0.id == id && self@[id].1.len()
                    < usize::MAX,
            self@.dom().finite(),
    {
        lemma_assoc_map_dom(self.records@);
        lemma_assoc_map_len(self.records@);
        assert forall|id: EntityID| #[trigger] self@.contains_key(id) implies self@[id].0.id
            == id && self@[id].1.len() < usize::MAX by {
            let i = choose|i: int| 0 <= i < self.records@.len() && self.records@[i].id == id;
            lemma_assoc_map_index(self.records@, i);
        }
    }

    pub fn new_with_capacity(cap: usize) -> (r: EntityMap)
        ensures
            r.wf(),
            r@ == Map::<EntityID, (Entity, Seq<u8>)>::empty(),
    {
        EntityMap { records: Vec::with_capacity(cap) }
    }

    /// The position of the record holding `id`, if any.
    fn find(&self, id: EntityID) -> (r: Option<usize>)
        ensures
            match r {
                Some(i) => i < self.records@.len() && self.records@[i as int].id == id,
                None => forall|i: int| 0 <= i < self.records@.len() ==> self.records@[i].id != id,
            },
    {
        let n = self.records.len();
        let mut i: usize = 0;
        while i < n
            invariant
                0 <= i <= n,
                n == self.records@.len(),
                forall|j: int| 0 <= j < i ==> self.records@[j].id != id,
            decreases n - i,
        {
            if self.records[i].id == id {
                return Some(i);
            }
            i = i + 1;
        }
        None
    }

    /// Records `entity` under `id` with the given leaf path. An identifier
    /// is stored once: re-inserting one is left out.
    pub fn insert_entity(&mut self, id: EntityID, entity: Entity, path: Base4Int)
        requires
            old(self).wf(),
            !old(self)@.contains_key(id),
            entity.id == id,
            path.wf(),
            path@.len() < usize::MAX,
        ensures
            final(self).wf(),
            final(self)@ == old(self)@.insert(id, (entity, path@)),
    {
        proof {
            assert forall|i: int| 0 <= i < self.records@.len() implies self.records@[i].id
                != id by {
                lemma_assoc_map_index(self.records@, i);
            }
        }
        let ghost pre = self.records@;
        self.records.push(EntityRecord { id, entity, path });
        proof {
            assert(self.records@.drop_last() =~= pre);
        }
    }

    /// The entity stored under `id`.
    pub fn get_entity(&self, id: &EntityID) -> (r: &Entity)
        requires
            self.wf(),
            self@.contains_key(*id),
        ensures
            *r == self@[*id].0,
    {
        let found = self.find(*id);
        match found {
            Some(i) => {
                proof {
                    lemma_assoc_map_index(self.records@, i as int);
                }
                &self.records[i].entity
            },
            None => {
                proof {
                    lemma_assoc_map_absent(self.records@, *id);
                }
                // contradicts the precondition: no identifier reaches here
                loop
                    invariant
                        false,
                    decreases 0int,
                {
                }
            },
        }
    }

    /// The decoded leaf path of `id`: `None` exactly when `id` is unknown.
    pub fn get_path(&self, id: EntityID) -> (r: Option<Vec<u8>>)
        requires
            self.wf(),
        ensures
            match r {
                Some(v) => self@.contains_key(id) && v@ == self@[id].1,
                None => !self@.contains_key(id),
            },
    {
        let found = self.find(id);
        match found {
            Some(i) => {
                proof {
                    lemma_assoc_map_index(self.records@, i as int);
                }
                Some(self.records[i].path.peek_all())
            },
            None => {
                proof {
                    lemma_assoc_map_absent(self.records@, id);
                }
                None
            },
        }
    }

    /// Appends one quadrant choice to the leaf path of `id`.
    pub fn push_path(&mut self, id: EntityID, nidx: u8)
        requires
            old(self).wf(),
            old(self)@.contains_key(id),
            nidx < 4,
            old(self)@[id].1.len() + 1 < usize::MAX,
        ensures
            final(self).wf(),
            final(self)@ == old(self)@.insert(
                id,
                (old(self)@[id].0, old(self)@[id].1.push(nidx)),
            ),
    {
        let ghost pre = self.records@;
        let found = self.find(id);
        match found {
            Some(i) => {
                proof {
                    lemma_assoc_map_index(pre, i as int);
                }
                let rec = &mut self.records[i];
                rec.path.push(nidx);
                proof {
                    lemma_assoc_map_update(pre, i as int, *final(rec));
                }
            },
            None => {
                proof {
                    lemma_assoc_map_absent(pre, id);
                }
            },
        }
    }

    /// Removes and returns every stored entity: exactly one per key, the
    /// map left empty.
    pub fn drain(&mut self) -> (r: Vec<Entity>)
        requires
            old(self).wf(),
        ensures
            final(self).wf(),
            final(self)@ == Map::<EntityID, (Entity, Seq<u8>)>::empty(),
            r@.len() == old(self)@.dom().len(),
            forall|id: EntityID| #[trigger]
                old(self)@.contains_key(id) <==> exists|i: int|
                    0 <= i < r@.len() && r@[i].id == id,
            forall|i: int| 0 <= i < r@.len() ==> old(self)@.contains_key(#[trigger] r@[i].id),
    {
        proof {
            self.lemma_wf_facts();
            lemma_assoc_map_len(self.records@);
            lemma_assoc_map_dom(self.records@);
            assert forall|i: int| 0 <= i < self.records@.len() implies old(self)@.contains_key(
                #[trigger] self.records@[i].id,
            ) by {
                lemma_assoc_map_index(self.records@, i);
            }
        }
        let ghost pre = self.records@;
        let mut out: Vec<Entity> = Vec::new();
        let n = self.records.len();
        let mut i: usize = 0;
        while i < n
            invariant
                self.wf(),
                0 <= i <= n,
                n == self.records@.len(),
                self.records@ == pre,
                out@.len() == i,
                forall|j: int| 0 <= j < i ==> out@[j] == pre[j].entity,
            decreases n - i,
        {
            let e = self.records[i].entity.clone();
            proof {
                assert(e == pre[i as int].entity);
            }
            out.push(e);
            i = i + 1;
        }
        self.records = Vec::new();
        proof {
            assert forall|id: EntityID| #[trigger] assoc_map(pre).contains_key(id) implies exists|
                j: int,
            | 0 <= j < out@.len() && out@[j].id == id by {
                let j = choose|j: int| 0 <= j < pre.len() && pre[j].id == id;
                assert(out@[j].id == id);
            }
            assert forall|j: int| 0 <= j < out@.len() implies assoc_map(pre).contains_key(
                #[trigger] out@[j].id,
            ) by {
                lemma_assoc_map_index(pre, j);
            }
        }
        out
    }
}

} // verus!

verus! {

/// The subdivision cutoff: a node at this depth retains every insert
/// instead of splitting further, so that clustered or coincident entities
/// cannot drive the tree to unbounded depth.
pub const MAX_DEPTH: usize = 32;

/// One node of the quadtree: an ordered list of entity identifiers, a
/// rectangular boundary, and optionally four children quartering it.
pub struct QuadTreeNode {
    depth: usize,
    capacity: usize,
    items: Vec<EntityID>,
    boundary: Geometry,
    quadrants: Option<Box<Quadrants>>,
}

/// The four children of an internal node, one per quadrant.
struct Quadrants {
    ne: QuadTreeNode,
    nw: QuadTreeNode,
    se: QuadTreeNode,
    sw: QuadTreeNode,
}

/// Whether `x` is stored anywhere in the subtree rooted at `n`.
spec fn node_has(n: QuadTreeNode, x: EntityID) -> bool
    decreases n,
{
    n.items@.contains(x) || match n.quadrants {
        Some(q) => node_has(q.ne, x) || node_has(q.nw, x) || node_has(q.se, x) || node_has(
            q.sw,
            x,
        ),
        None => false,
    }
}

/// Structural well-formedness of a subtree: rectangular ordered boundaries,
/// depths increasing by one, children inside their parent, the depth cutoff
/// respected, and every identifier stored at most once.
spec fn node_shape(n: QuadTreeNode) -> bool
    decreases n,
{
    &&& n.boundary is Rect
    &&& geo_wf(n.boundary)
    &&& n.depth <= MAX_DEPTH
    &&& n.capacity >= 1
    &&& n.items@.no_duplicates()
    &&& match n.quadrants {
        Some(q) => {
            &&& n.depth < MAX_DEPTH
            &&& q.ne.depth == n.depth + 1
            &&& q.nw.depth == n.depth + 1
            &&& q.se.depth == n.depth + 1
            &&& q.sw.depth == n.depth + 1
            &&& q.ne.capacity == n.capacity
            &&& q.nw.capacity == n.capacity
            &&& q.se.capacity == n.capacity
            &&& q.sw.capacity == n.capacity
            &&& geo_contains(n.boundary, q.ne.boundary)
            &&& geo_contains(n.boundary, q.nw.boundary)
            &&& geo_contains(n.boundary, q.se.boundary)
            &&& geo_contains(n.boundary, q.sw.boundary)
            &&& forall|x: EntityID| #[trigger]
                n.items@.contains(x) ==> !node_has(q.ne, x) && !node_has(q.nw, x) && !node_has(
                    q.se,
                    x,
                ) && !node_has(q.sw, x)
            &&& forall|x: EntityID| #[trigger]
                node_has(q.ne, x) ==> !node_has(q.nw, x) && !node_has(q.se, x) && !node_has(
                    q.sw,
                    x,
                )
            &&& forall|x: EntityID| #[trigger]
                node_has(q.nw, x) ==> !node_has(q.se, x) && !node_has(q.sw, x)
            &&& forall|x: EntityID| #[trigger] node_has(q.se, x) ==> !node_has(q.sw, x)
            &&& node_shape(q.ne)
            &&& node_shape(q.nw)
            &&& node_shape(q.se)
            &&& node_shape(q.sw)
        },
        None => true,
    }
}

/// What a node demands of one stored identifier: known to the map, with a
/// well-formed extent contained in the node's boundary, and a leaf path as
/// long as the descent that reached the node.
spec fn item_ok(n: QuadTreeNode, m: Map<EntityID, (Entity, Seq<u8>)>, id: EntityID) -> bool {
    &&& m.contains_key(id)
    &&& geo_wf(m[id].0.bounds)
    &&& geo_contains(n.boundary, m[id].0.bounds)
    &&& m[id].1.len() == n.depth + 1
}

/// What redistribution demands of an identifier in flight: known to the
/// map, extent well-formed and inside the boundary being split, path as
/// long as one level below that node.
spec fn staged_ok(m: Map<EntityID, (Entity, Seq<u8>)>, b: Geometry, d: int, x: EntityID) -> bool {
    &&& m.contains_key(x)
    &&& geo_wf(m[x].0.bounds)
    &&& geo_contains(b, m[x].0.bounds)
    &&& m[x].1.len() == d + 1
}

/// The subtree's items all satisfy `item_ok` against the map.
spec fn node_entities(n: QuadTreeNode, m: Map<EntityID, (Entity, Seq<u8>)>) -> bool
    decreases n,
{
    &&& forall|i: int| 0 <= i < n.items@.len() ==> item_ok(n, m, #[trigger] n.items@[i])
    &&& match n.quadrants {
        Some(q) => node_entities(q.ne, m) && node_entities(q.nw, m) && node_entities(q.se, m)
            && node_entities(q.sw, m),
        None => true,
    }
}

/// The deepest node depth in the subtree.
spec fn node_max_depth(n: QuadTreeNode) -> nat
    decreases n,
{
    match n.quadrants {
        Some(q) => max2(
            max2(node_max_depth(q.ne), node_max_depth(q.nw)),
            max2(node_max_depth(q.se), node_max_depth(q.sw)),
        ),
        None => n.depth as nat,
    }
}

spec fn max2(a: nat, b: nat) -> nat {
    if a >= b {
        a
    } else {
        b
    }
}

/// The identifiers stored at exactly depth `d` of the subtree, in the order
/// a depth-first walk meets them.
spec fn node_ids_at_depth(n: QuadTreeNode, d: nat) -> Seq<EntityID>
    decreases n,
{
    if n.depth == d {
        n.items@
    } else if n.depth < d {
        match n.quadrants {
            Some(q) => node_ids_at_depth(q.ne, d) + node_ids_at_depth(q.nw, d)
                + node_ids_at_depth(q.se, d) + node_ids_at_depth(q.sw, d),
            None => Seq::empty(),
        }
    } else {
        Seq::empty()
    }
}

/// Entity data is all a subtree reads of the map: any map agreeing on the
/// subtree's identifiers supports the same invariant.
proof fn lemma_entities_stable(
    n: QuadTreeNode,
    m1: Map<EntityID, (Entity, Seq<u8>)>,
    m2: Map<EntityID, (Entity, Seq<u8>)>,
)
    requires
        node_entities(n, m1),
        forall|x: EntityID| #[trigger]
            node_has(n, x) ==> m2.contains_key(x) && m2[x] == m1[x],
    ensures
        node_entities(n, m2),
    decreases n,
{
    assert forall|i: int| 0 <= i < n.items@.len() implies item_ok(
        n,
        m2,
        #[trigger] n.items@[i],
    ) by {
        assert(node_has(n, n.items@[i]));
    }
    match n.quadrants {
        Some(q) => {
            assert forall|x: EntityID| #[trigger] node_has(q.ne, x) implies m2.contains_key(x)
                && m2[x] == m1[x] by {
                assert(node_has(n, x));
            }
            assert forall|x: EntityID| #[trigger] node_has(q.nw, x) implies m2.contains_key(x)
                && m2[x] == m1[x] by {
                assert(node_has(n, x));
            }
            assert forall|x: EntityID| #[trigger] node_has(q.se, x) implies m2.contains_key(x)
                && m2[x] == m1[x] by {
                assert(node_has(n, x));
            }
            assert forall|x: EntityID| #[trigger] node_has(q.sw, x) implies m2.contains_key(x)
                && m2[x] == m1[x] by {
                assert(node_has(n, x));
            }
            lemma_entities_stable(q.ne, m1, m2);
            lemma_entities_stable(q.nw, m1, m2);
            lemma_entities_stable(q.se, m1, m2);
            lemma_entities_stable(q.sw, m1, m2);
        },
        None => {},
    }
}

/// Every identifier a well-formed subtree stores is known to the map, with
/// its extent contained in the subtree's boundary.
proof fn lemma_has_in_map(
    n: QuadTreeNode,
    m: Map<EntityID, (Entity, Seq<u8>)>,
    x: EntityID,
)
    requires
        node_shape(n),
        node_entities(n, m),
        node_has(n, x),
    ensures
        m.contains_key(x),
        geo_wf(m[x].0.bounds),
        geo_contains(n.boundary, m[x].0.bounds),
    decreases n,
{
    if n.items@.contains(x) {
        let i = choose|i: int| 0 <= i < n.items@.len() && n.items@[i] == x;
        assert(item_ok(n, m, n.items@[i]));
    } else {
        let q = n.quadrants.unwrap();
        if node_has(q.ne, x) {
            lemma_has_in_map(q.ne, m, x);
            crate::lemma_rect_contains_transitive(n.boundary, q.ne.boundary, m[x].0.bounds);
        } else if node_has(q.nw, x) {
            lemma_has_in_map(q.nw, m, x);
            crate::lemma_rect_contains_transitive(n.boundary, q.nw.boundary, m[x].0.bounds);
        } else if node_has(q.se, x) {
            lemma_has_in_map(q.se, m, x);
            crate::lemma_rect_contains_transitive(n.boundary, q.se.boundary, m[x].0.bounds);
        } else {
            lemma_has_in_map(q.sw, m, x);
            crate::lemma_rect_contains_transitive(n.boundary, q.sw.boundary, m[x].0.bounds);
        }
    }
}

impl QuadTreeNode {
    /// A fresh leaf with the given boundary, capacity and depth.
    fn with_geometry(geometry: Geometry, capacity: usize, depth: usize) -> (n: QuadTreeNode)
        requires
            geometry is Rect,
            geo_wf(geometry),
            capacity >= 1,
            depth <= MAX_DEPTH,
        ensures
            node_shape(n),
            n.items@ == Seq::<EntityID>::empty(),
            n.quadrants is None,
            n.boundary == geometry,
            n.depth == depth,
            n.capacity == capacity,
            forall|m: Map<EntityID, (Entity, Seq<u8>)>| node_entities(n, m),
            forall|x: EntityID| !node_has(n, x),
            node_max_depth(n) == depth,
    {
        let n = QuadTreeNode {
            boundary: geometry,
            items: Vec::with_capacity(capacity),
            capacity,
            depth,
            quadrants: None,
        };
        proof {
            assert forall|x: EntityID| !node_has(n, x) by {
                assert(!n.items@.contains(x));
            }
        }
        n
    }

    /// Splits a leaf: four children whose rectangles quarter this node's
    /// rectangle around its midpoint, one level deeper.
    fn subdivide(&mut self)
        requires
            node_shape(*old(self)),
            old(self).quadrants is None,
            old(self).depth < MAX_DEPTH,
        ensures
            node_shape(*final(self)),
            final(self).items == old(self).items,
            final(self).boundary == old(self).boundary,
            final(self).depth == old(self).depth,
            final(self).capacity == old(self).capacity,
            final(self).quadrants is Some,
            forall|x: EntityID| node_has(*final(self), x) <==> node_has(*old(self), x),
            forall|m: Map<EntityID, (Entity, Seq<u8>)>| #[trigger]
                node_entities(*old(self), m) ==> node_entities(*final(self), m),
            node_max_depth(*final(self)) == old(self).depth + 1,
    {
        let (min, max) = match self.boundary {
            Geometry::Rect { min, max } => (min, max),
            _ => {
                proof {
                    assert(false);
                }
                ((0i32, 0i32), (0i32, 0i32))
            },
        };
        let half_w = (((max.0 as i64) - (min.0 as i64)) as u64) / 2;
        let half_h = (((max.1 as i64) - (min.1 as i64)) as u64) / 2;
        let cx = ((min.0 as i64) + (half_w as i64)) as i32;
        let cy = ((min.1 as i64) + (half_h as i64)) as i32;
        let ne = Geometry::rect_from_min_max((cx, cy), max);
        let nw = Geometry::rect_from_min_max((min.0, cy), (cx, max.1));
        let se = Geometry::rect_from_min_max((cx, min.1), (max.0, cy));
        let sw = Geometry::rect_from_min_max(min, (cx, cy));
        let new_depth = self.depth + 1;
        let capacity = self.capacity;
        let ne_node = QuadTreeNode::with_geometry(ne, capacity, new_depth);
        let nw_node = QuadTreeNode::with_geometry(nw, capacity, new_depth);
        let se_node = QuadTreeNode::with_geometry(se, capacity, new_depth);
        let sw_node = QuadTreeNode::with_geometry(sw, capacity, new_depth);
        let ghost gne = ne_node;
        let ghost gnw = nw_node;
        let ghost gse = se_node;
        let ghost gsw = sw_node;
        self.quadrants = Some(
            Box::new(Quadrants { ne: ne_node, nw: nw_node, se: se_node, sw: sw_node }),
        );
        proof {
            assert forall|x: EntityID| node_has(*self, x) <==> node_has(*old(self), x) by {
                assert(!node_has(gne, x) && !node_has(gnw, x) && !node_has(gse, x) && !node_has(
                    gsw,
                    x,
                ));
            }
            assert forall|m: Map<EntityID, (Entity, Seq<u8>)>| #[trigger]
                node_entities(*old(self), m) implies node_entities(*self, m) by {
                assert(node_entities(gne, m) && node_entities(gnw, m) && node_entities(gse, m)
                    && node_entities(gsw, m));
                assert forall|i: int| 0 <= i < self.items@.len() implies item_ok(
                    *self,
                    m,
                    #[trigger] self.items@[i],
                ) by {
                    assert(item_ok(*old(self), m, old(self).items@[i]));
                }
            }
            assert(node_shape(*self));
        }
    }

    /// The deepest node depth below (and including) this node.
    fn max_subtree_depth(&self) -> (r: usize)
        requires
            node_shape(*self),
        ensures
            r == node_max_depth(*self),
        decreases MAX_DEPTH - self.depth,
    {
        match &self.quadrants {
            Some(q) => {
                let a = q.ne.max_subtree_depth();
                let b = q.nw.max_subtree_depth();
                let c = q.se.max_subtree_depth();
                let d = q.sw.max_subtree_depth();
                let ab = if a >= b {
                    a
                } else {
                    b
                };
                let cd = if c >= d {
                    c
                } else {
                    d
                };
                if ab >= cd {
                    ab
                } else {
                    cd
                }
            },
            None => self.depth,
        }
    }

    /// Empties every node of the subtree, keeping the structure.
    fn drain(&mut self)
        requires
            node_shape(*old(self)),
        ensures
            node_shape(*final(self)),
            final(self).boundary == old(self).boundary,
            final(self).depth == old(self).depth,
            final(self).capacity == old(self).capacity,
            forall|x: EntityID| !node_has(*final(self), x),
            forall|m: Map<EntityID, (Entity, Seq<u8>)>| node_entities(*final(self), m),
        decreases MAX_DEPTH - old(self).depth,
    {
        self.items.clear();
        let taken = self.quadrants.take();
        match taken {
            Some(q) => {
                let mut quads = *q;
                quads.ne.drain();
                quads.nw.drain();
                quads.se.drain();
                quads.sw.drain();
                let ghost gq = quads;
                self.quadrants = Some(Box::new(quads));
                proof {
                    assert forall|x: EntityID| !node_has(*self, x) by {
                        assert(!self.items@.contains(x));
                        assert(!node_has(gq.ne, x) && !node_has(gq.nw, x) && !node_has(gq.se, x)
                            && !node_has(gq.sw, x));
                    }
                    assert forall|m: Map<EntityID, (Entity, Seq<u8>)>|
                        node_entities(*self, m) by {
                        assert(self.items@.len() == 0);
                        assert(node_entities(gq.ne, m) && node_entities(gq.nw, m)
                            && node_entities(gq.se, m) && node_entities(gq.sw, m));
                    }
                }
            },
            None => {
                proof {
                    assert forall|x: EntityID| !node_has(*self, x) by {
                        assert(!self.items@.contains(x));
                    }
                    assert forall|m: Map<EntityID, (Entity, Seq<u8>)>|
                        node_entities(*self, m) by {
                        assert(self.items@.len() == 0);
                    }
                }
            },
        }
    }
}

} // verus!

verus! {

/// Whether any of the four children stores `x`.
spec fn quad_has(q: Quadrants, x: EntityID) -> bool {
    node_has(q.ne, x) || node_has(q.nw, x) || node_has(q.se, x) || node_has(q.sw, x)
}

/// The four children as the redistribution step needs them: well-formed,
/// aligned on depth and capacity, and pairwise disjoint.
spec fn quads_wf(q: Quadrants, m: Map<EntityID, (Entity, Seq<u8>)>) -> bool {
    &&& node_shape(q.ne)
    &&& node_shape(q.nw)
    &&& node_shape(q.se)
    &&& node_shape(q.sw)
    &&& node_entities(q.ne, m)
    &&& node_entities(q.nw, m)
    &&& node_entities(q.se, m)
    &&& node_entities(q.sw, m)
    &&& q.nw.depth == q.ne.depth
    &&& q.se.depth == q.ne.depth
    &&& q.sw.depth == q.ne.depth
    &&& forall|x: EntityID| #[trigger]
        node_has(q.ne, x) ==> !node_has(q.nw, x) && !node_has(q.se, x) && !node_has(q.sw, x)
    &&& forall|x: EntityID| #[trigger] node_has(q.nw, x) ==> !node_has(q.se, x) && !node_has(
        q.sw,
        x,
    )
    &&& forall|x: EntityID| #[trigger] node_has(q.se, x) ==> !node_has(q.sw, x)
}

/// A subtree disjoint from the one that absorbed `k` reads the same entity
/// data before and after the placement.
proof fn lemma_sibling_preserved(
    sib: QuadTreeNode,
    placed: QuadTreeNode,
    m0: Map<EntityID, (Entity, Seq<u8>)>,
    m1: Map<EntityID, (Entity, Seq<u8>)>,
    k: EntityID,
)
    requires
        node_shape(sib),
        node_entities(sib, m0),
        !node_has(sib, k),
        forall|x: EntityID| #[trigger] node_has(sib, x) ==> !node_has(placed, x),
        m1.dom() == m0.dom(),
        forall|x: EntityID| #![trigger m0[x]]
            m0.contains_key(x) && x != k && !node_has(placed, x) ==> m1[x] == m0[x],
    ensures
        node_entities(sib, m1),
{
    assert forall|x: EntityID| #[trigger] node_has(sib, x) implies m1.contains_key(x) && m1[x]
        == m0[x] by {
        lemma_has_in_map(sib, m0, x);
        assert(m0[x] == m1[x]);
    }
    lemma_entities_stable(sib, m0, m1);
}

/// Attempts the four children in the fixed order, stopping at the first
/// whose boundary contains the entity's extent.
fn insert_into_quadrants(quads: &mut Quadrants, k: EntityID, map: &mut EntityMap) -> (placed:
    bool)
    requires
        quads_wf(*old(quads), old(map)@),
        old(map).wf(),
        old(map)@.contains_key(k),
        geo_wf(old(map)@[k].0.bounds),
        old(map)@[k].1.len() == old(quads).ne.depth,
        !quad_has(*old(quads), k),
    ensures
        final(map).wf(),
        final(map)@.dom() == old(map)@.dom(),
        forall|x: EntityID| #[trigger]
            final(map)@.contains_key(x) ==> final(map)@[x].0 == old(map)@[x].0,
        forall|x: EntityID| #![trigger old(map)@[x]]
            old(map)@.contains_key(x) && x != k && !quad_has(*old(quads), x) ==> final(map)@[x]
                == old(map)@[x],
        quads_wf(*final(quads), final(map)@),
        final(quads).ne.boundary == old(quads).ne.boundary,
        final(quads).nw.boundary == old(quads).nw.boundary,
        final(quads).se.boundary == old(quads).se.boundary,
        final(quads).sw.boundary == old(quads).sw.boundary,
        final(quads).ne.depth == old(quads).ne.depth,
        final(quads).ne.capacity == old(quads).ne.capacity,
        final(quads).nw.capacity == old(quads).nw.capacity,
        final(quads).se.capacity == old(quads).se.capacity,
        final(quads).sw.capacity == old(quads).sw.capacity,
        placed == (geo_contains(old(quads).ne.boundary, old(map)@[k].0.bounds) || geo_contains(
            old(quads).nw.boundary,
            old(map)@[k].0.bounds,
        ) || geo_contains(old(quads).se.boundary, old(map)@[k].0.bounds) || geo_contains(
            old(quads).sw.boundary,
            old(map)@[k].0.bounds,
        )),
        forall|x: EntityID|
            quad_has(*final(quads), x) <==> quad_has(*old(quads), x) || (placed && x == k),
        !placed ==> *final(quads) == *old(quads) && final(map)@ == old(map)@,
        node_max_depth(final(quads).ne) >= node_max_depth(old(quads).ne),
        node_max_depth(final(quads).nw) >= node_max_depth(old(quads).nw),
        node_max_depth(final(quads).se) >= node_max_depth(old(quads).se),
        node_max_depth(final(quads).sw) >= node_max_depth(old(quads).sw),
    decreases MAX_DEPTH - old(quads).ne.depth, 1int,
{
    let ghost m0 = map@;
    let ghost q0 = *quads;
    if quads.ne.insert(k, map, 0) {
        proof {
            assert forall|x: EntityID| #[trigger] node_has(q0.nw, x) implies !node_has(
                q0.ne,
                x,
            ) by {}
            assert forall|x: EntityID| #[trigger] node_has(q0.se, x) implies !node_has(
                q0.ne,
                x,
            ) by {}
            assert forall|x: EntityID| #[trigger] node_has(q0.sw, x) implies !node_has(
                q0.ne,
                x,
            ) by {}
            lemma_sibling_preserved(q0.nw, q0.ne, m0, map@, k);
            lemma_sibling_preserved(q0.se, q0.ne, m0, map@, k);
            lemma_sibling_preserved(q0.sw, q0.ne, m0, map@, k);
            assert forall|x: EntityID| #[trigger] node_has(quads.ne, x) implies !node_has(
                quads.nw,
                x,
            ) && !node_has(quads.se, x) && !node_has(quads.sw, x) by {
                assert(node_has(q0.ne, x) || x == k);
            }
        }
        return true;
    }
    if quads.nw.insert(k, map, 1) {
        proof {
            assert forall|x: EntityID| #[trigger] node_has(q0.se, x) implies !node_has(
                q0.nw,
                x,
            ) by {}
            assert forall|x: EntityID| #[trigger] node_has(q0.sw, x) implies !node_has(
                q0.nw,
                x,
            ) by {}
            lemma_sibling_preserved(q0.ne, q0.nw, m0, map@, k);
            lemma_sibling_preserved(q0.se, q0.nw, m0, map@, k);
            lemma_sibling_preserved(q0.sw, q0.nw, m0, map@, k);
            assert forall|x: EntityID| #[trigger] node_has(quads.nw, x) implies !node_has(
                quads.se,
                x,
            ) && !node_has(quads.sw, x) by {
                assert(node_has(q0.nw, x) || x == k);
            }
            assert forall|x: EntityID| #[trigger] node_has(quads.ne, x) implies !node_has(
                quads.nw,
                x,
            ) && !node_has(quads.se, x) && !node_has(quads.sw, x) by {
                assert(!node_has(q0.nw, x) || x == k);
                assert(x != k);
            }
        }
        return true;
    }
    if quads.se.insert(k, map, 2) {
        proof {
            assert forall|x: EntityID| #[trigger] node_has(q0.sw, x) implies !node_has(
                q0.se,
                x,
            ) by {}
            lemma_sibling_preserved(q0.ne, q0.se, m0, map@, k);
            lemma_sibling_preserved(q0.nw, q0.se, m0, map@, k);
            lemma_sibling_preserved(q0.sw, q0.se, m0, map@, k);
            assert forall|x: EntityID| #[trigger] node_has(quads.se, x) implies !node_has(
                quads.sw,
                x,
            ) by {
                assert(node_has(q0.se, x) || x == k);
            }
            assert forall|x: EntityID| #[trigger] node_has(quads.ne, x) implies !node_has(
                quads.nw,
                x,
            ) && !node_has(quads.se, x) && !node_has(quads.sw, x) by {
                assert(x != k);
                assert(!node_has(q0.se, x));
            }
            assert forall|x: EntityID| #[trigger] node_has(quads.nw, x) implies !node_has(
                quads.se,
                x,
            ) && !node_has(quads.sw, x) by {
                assert(x != k);
                assert(!node_has(q0.se, x));
            }
        }
        return true;
    }
    if quads.sw.insert(k, map, 3) {
        proof {
            lemma_sibling_preserved(q0.ne, q0.sw, m0, map@, k);
            lemma_sibling_preserved(q0.nw, q0.sw, m0, map@, k);
            lemma_sibling_preserved(q0.se, q0.sw, m0, map@, k);
            assert forall|x: EntityID| #[trigger] node_has(quads.ne, x) implies !node_has(
                quads.nw,
                x,
            ) && !node_has(quads.se, x) && !node_has(quads.sw, x) by {
                assert(x != k);
                assert(!node_has(q0.sw, x));
            }
            assert forall|x: EntityID| #[trigger] node_has(quads.nw, x) implies !node_has(
                quads.se,
                x,
            ) && !node_has(quads.sw, x) by {
                assert(x != k);
                assert(!node_has(q0.sw, x));
            }
            assert forall|x: EntityID| #[trigger] node_has(quads.se, x) implies !node_has(
                quads.sw,
                x,
            ) by {
                assert(x != k);
                assert(!node_has(q0.sw, x));
            }
        }
        return true;
    }
    false
}

impl QuadTreeNode {
    /// The recursive insertion step: `nidx`, the index of the quadrant
    /// chosen to reach this node, is appended to the entity's path before
    /// the capacity test. An entity not contained in this node's boundary
    /// is refused; one that fits is stored here, or pushed into the first
    /// child that can hold it after a split, entities straddling several
    /// quadrants staying at this node uncapped. At the depth cutoff the
    /// node retains everything instead of splitting.
    fn insert(&mut self, id: EntityID, map: &mut EntityMap, nidx: u8) -> (placed: bool)
        requires
            node_shape(*old(self)),
            node_entities(*old(self), old(map)@),
            old(map).wf(),
            old(map)@.contains_key(id),
            geo_wf(old(map)@[id].0.bounds),
            old(map)@[id].1.len() == old(self).depth,
            !node_has(*old(self), id),
            nidx < 4,
        ensures
            final(map).wf(),
            final(map)@.dom() == old(map)@.dom(),
            forall|x: EntityID| #[trigger]
                final(map)@.contains_key(x) ==> final(map)@[x].0 == old(map)@[x].0,
            forall|x: EntityID| #![trigger old(map)@[x]]
                old(map)@.contains_key(x) && x != id && !node_has(*old(self), x)
                    ==> final(map)@[x] == old(map)@[x],
            node_shape(*final(self)),
            node_entities(*final(self), final(map)@),
            final(self).boundary == old(self).boundary,
            final(self).depth == old(self).depth,
            final(self).capacity == old(self).capacity,
            placed == geo_contains(old(self).boundary, old(map)@[id].0.bounds),
            forall|x: EntityID|
                node_has(*final(self), x) <==> node_has(*old(self), x) || (placed && x == id),
            !placed ==> *final(self) == *old(self) && final(map)@ == old(map)@,
            node_max_depth(*final(self)) >= node_max_depth(*old(self)),
            old(self).items@.len() < old(self).capacity ==> node_max_depth(*final(self))
                == node_max_depth(*old(self)),
        decreases MAX_DEPTH - old(self).depth, 0int,
    {
        let ghost m0 = map@;
        let ghost self0 = *self;
        let bounds = map.get_entity(&id).bounds;
        if !self.boundary.contains(bounds) {
            return false;
        }
        proof {
            map.lemma_wf_facts();
        }
        map.push_path(id, nidx);
        let ghost m1 = map@;
        proof {
            assert forall|x: EntityID| #[trigger] node_has(self0, x) implies m1.contains_key(x)
                && m1[x] == m0[x] by {
                lemma_has_in_map(self0, m0, x);
                assert(x != id);
            }
            lemma_entities_stable(self0, m0, m1);
        }
        if self.items.len() < self.capacity || self.depth == MAX_DEPTH {
            let ghost items0 = self.items@;
            self.items.push(id);
            proof {
                assert forall|x: EntityID|
                    node_has(*self, x) <==> node_has(self0, x) || x == id by {
                    assert(self.items@ == items0.push(id));
                    if self.items@.contains(x) && x != id {
                        let j = choose|j: int|
                            0 <= j < self.items@.len() && self.items@[j] == x;
                        assert(items0[j] == x);
                    }
                    if items0.contains(x) {
                        let j = choose|j: int| 0 <= j < items0.len() && items0[j] == x;
                        assert(self.items@[j] == x);
                    }
                    if x == id {
                        assert(self.items@[items0.len() as int] == id);
                    }
                }
                assert(node_shape(*self)) by {
                    assert forall|a: int, b: int|
                        0 <= a < b < self.items@.len() implies self.items@[a]
                        != self.items@[b] by {
                        if b < items0.len() {
                        } else {
                            assert(self.items@[b] == id);
                            assert(items0.contains(items0[a]));
                        }
                    }
                    if self0.quadrants is Some {
                        let q = self0.quadrants.unwrap();
                        assert forall|x: EntityID| #[trigger] self.items@.contains(
                            x,
                        ) implies !node_has(q.ne, x) && !node_has(q.nw, x) && !node_has(q.se, x)
                            && !node_has(q.sw, x) by {
                            if x == id {
                                assert(!node_has(self0, id));
                            } else {
                                let j = choose|j: int|
                                    0 <= j < self.items@.len() && self.items@[j] == x;
                                assert(items0[j] == x);
                                assert(items0.contains(x));
                            }
                        }
                    }
                }
                assert(node_entities(*self, m1)) by {
                    assert forall|i: int| 0 <= i < self.items@.len() implies item_ok(
                        *self,
                        m1,
                        #[trigger] self.items@[i],
                    ) by {
                        if i < items0.len() {
                            assert(item_ok(self0, m1, items0[i]));
                        }
                    }
                }
            }
            return true;
        }
        if self.items.len() >= self.capacity && self.quadrants.is_none() {
            self.subdivide();
        }
        let ghost self1 = *self;
        let mut all_ids = self.items.split_off(0);
        all_ids.push(id);
        let ghost aids = all_ids@;
        let taken = self.quadrants.take();
        let q_box = match taken {
            Some(b) => b,
            None => {
                proof {
                    assert(false);
                }
                Box::new(
                    Quadrants {
                        ne: QuadTreeNode::with_geometry(self.boundary, self.capacity, 1),
                        nw: QuadTreeNode::with_geometry(self.boundary, self.capacity, 1),
                        se: QuadTreeNode::with_geometry(self.boundary, self.capacity, 1),
                        sw: QuadTreeNode::with_geometry(self.boundary, self.capacity, 1),
                    },
                )
            },
        };
        let mut quads = *q_box;
        let ghost qstart = quads;
        let ghost b0 = self0.boundary;
        let ghost d0 = self0.depth;
        let ghost c0 = self0.capacity;
        proof {
            assert(aids =~= self1.items@.push(id));
            assert forall|j: int| 0 <= j < aids.len() implies staged_ok(
                m1,
                b0,
                d0 as int,
                #[trigger] aids[j],
            ) by {
                if j < self1.items@.len() {
                    assert(item_ok(self1, m1, self1.items@[j]));
                }
            }
            assert forall|j: int| 0 <= j < aids.len() implies !quad_has(
                qstart,
                #[trigger] aids[j],
            ) && !self.items@.contains(aids[j]) by {
                if j < self1.items@.len() {
                    assert(self1.items@.contains(aids[j]));
                } else {
                    assert(aids[j] == id);
                    assert(!node_has(self0, id));
                }
            }
            assert forall|j: int| 0 <= j < aids.len() implies node_has(
                self0,
                #[trigger] aids[j],
            ) || aids[j] == id by {
                if j < self1.items@.len() {
                    assert(self0.items@.contains(aids[j]));
                }
            }
            assert(aids.no_duplicates()) by {
                assert forall|a: int, b: int| 0 <= a < b < aids.len() implies aids[a]
                    != aids[b] by {
                    if b == aids.len() - 1 {
                        assert(self1.items@.contains(aids[a]));
                        assert(!node_has(self0, id));
                    }
                }
            }
            assert forall|x: EntityID| #[trigger] quad_has(qstart, x) implies node_has(
                self0,
                x,
            ) by {
                if self0.quadrants is Some {
                    assert(qstart == *self0.quadrants.unwrap());
                } else {
                    assert(node_has(self1, x));
                }
            }
        }
        let n = all_ids.len();
        let mut i: usize = 0;
        while i < n
            invariant
                0 <= i <= n,
                n == aids.len(),
                all_ids@ == aids,
                map.wf(),
                map@.dom() == m1.dom(),
                m1.dom() == m0.dom(),
                forall|x: EntityID| #[trigger]
                    map@.contains_key(x) ==> map@[x].0 == m1[x].0,
                forall|x: EntityID| #[trigger] m1.contains_key(x) ==> m1[x].0 == m0[x].0,
                forall|j: int|
                    i <= j < n ==> map@[#[trigger] aids[j]] == m1[aids[j]],
                forall|j: int| 0 <= j < n ==> staged_ok(m1, b0, d0 as int, #[trigger] aids[j]),
                forall|x: EntityID| #![trigger m1[x]]
                    m1.contains_key(x) && !node_has(self0, x) && x != id ==> map@[x] == m1[x],
                quads_wf(quads, map@),
                quads.ne.depth == d0 + 1,
                quads.ne.boundary == qstart.ne.boundary,
                quads.nw.boundary == qstart.nw.boundary,
                quads.se.boundary == qstart.se.boundary,
                quads.sw.boundary == qstart.sw.boundary,
                quads.ne.capacity == c0,
                quads.nw.capacity == c0,
                quads.se.capacity == c0,
                quads.sw.capacity == c0,
                geo_contains(b0, qstart.ne.boundary),
                geo_contains(b0, qstart.nw.boundary),
                geo_contains(b0, qstart.se.boundary),
                geo_contains(b0, qstart.sw.boundary),
                aids.no_duplicates(),
                forall|j: int|
                    0 <= j < n ==> node_has(self0, #[trigger] aids[j]) || aids[j] == id,
                forall|j: int|
                    i <= j < n ==> !quad_has(quads, #[trigger] aids[j])
                        && !self.items@.contains(aids[j]),
                forall|x: EntityID|
                    quad_has(quads, x) || self.items@.contains(x) <==> quad_has(qstart, x)
                        || aids.take(i as int).contains(x),
                forall|x: EntityID| #[trigger]
                    self.items@.contains(x) ==> !quad_has(quads, x),
                self.items@.no_duplicates(),
                forall|j: int|
                    0 <= j < self.items@.len() ==> staged_ok(
                        map@,
                        b0,
                        d0 as int,
                        #[trigger] self.items@[j],
                    ),
                self.boundary == b0,
                self.depth == d0,
                self.capacity == c0,
                old(self).depth == d0,
                self.quadrants is None,
                d0 < MAX_DEPTH,
                forall|x: EntityID| #[trigger] quad_has(qstart, x) ==> node_has(self0, x),
                node_max_depth(quads.ne) >= node_max_depth(qstart.ne),
                node_max_depth(quads.nw) >= node_max_depth(qstart.nw),
                node_max_depth(quads.se) >= node_max_depth(qstart.se),
                node_max_depth(quads.sw) >= node_max_depth(qstart.sw),
            decreases n - i,
        {
            let k = all_ids[i];
            let ghost mpre = map@;
            let ghost qpre = quads;
            let ghost items_pre = self.items@;
            let placed_k = insert_into_quadrants(&mut quads, k, map);
            if !placed_k {
                self.items.push(k);
            }
            proof {
                assert(aids.take(i + 1) =~= aids.take(i as int).push(aids[i as int]));
                assert(!items_pre.contains(k));
                if placed_k {
                    assert(self.items@ == items_pre);
                } else {
                    assert(self.items@ == items_pre.push(k));
                    assert(quads == qpre);
                }
                assert forall|j: int| i + 1 <= j < n implies map@[#[trigger] aids[j]]
                    == m1[aids[j]] by {
                    assert(aids[j] != k);
                    assert(!quad_has(qpre, aids[j]));
                    assert(mpre[aids[j]] == m1[aids[j]]);
                }
                assert forall|x: EntityID| #![trigger m1[x]]
                    m1.contains_key(x) && !node_has(self0, x) && x != id implies map@[x]
                    == m1[x] by {
                    if x != k && !quad_has(qpre, x) {
                        assert(mpre[x] == m1[x]);
                    } else if x == k {
                        assert(aids[i as int] == k);
                        assert(node_has(self0, k) || k == id);
                    } else {
                        assert(quad_has(qpre, x));
                        assert(quad_has(qstart, x) || aids.take(i as int).contains(x));
                        if quad_has(qstart, x) {
                            assert(node_has(self0, x));
                        } else {
                            let j = choose|j: int|
                                0 <= j < i && aids.take(i as int)[j] == x;
                            assert(aids[j] == x);
                            assert(node_has(self0, aids[j]) || aids[j] == id);
                        }
                    }
                }
                assert forall|j: int| i + 1 <= j < n implies !quad_has(
                    quads,
                    #[trigger] aids[j],
                ) && !self.items@.contains(aids[j]) by {
                    assert(aids[j] != k);
                    assert(!quad_has(qpre, aids[j]) && !items_pre.contains(aids[j]));
                }
                assert forall|x: EntityID| #[trigger] self.items@.contains(x) implies !quad_has(
                    quads,
                    x,
                ) by {
                    if placed_k {
                        assert(items_pre.contains(x));
                        assert(x != k);
                        assert(!quad_has(qpre, x));
                    } else {
                        assert(items_pre.contains(x) || x == k);
                        assert(!quad_has(qpre, x) || x == k);
                        assert(!quad_has(qpre, k));
                    }
                }
                assert forall|x: EntityID|
                    quad_has(quads, x) || self.items@.contains(x) <==> quad_has(qstart, x)
                        || aids.take(i + 1).contains(x) by {
                    assert(aids.take(i + 1).contains(x) <==> aids.take(i as int).contains(x)
                        || x == k);
                    assert(quad_has(qpre, x) || items_pre.contains(x) <==> quad_has(qstart, x)
                        || aids.take(i as int).contains(x));
                    if placed_k {
                        assert(quad_has(quads, x) <==> quad_has(qpre, x) || x == k);
                    } else {
                        assert(self.items@.contains(x) <==> items_pre.contains(x) || x == k);
                    }
                }
                assert forall|j: int|
                    0 <= j < self.items@.len() implies staged_ok(
                    map@,
                    b0,
                    d0 as int,
                    #[trigger] self.items@[j],
                ) by {
                    let x = self.items@[j];
                    if !placed_k && j == self.items@.len() - 1 {
                        assert(x == k);
                        assert(map@ == mpre);
                        assert(mpre[k] == m1[k]);
                        assert(staged_ok(m1, b0, d0 as int, k));
                    } else {
                        assert(items_pre[j] == x);
                        assert(items_pre.contains(x));
                        assert(x != k);
                        assert(staged_ok(mpre, b0, d0 as int, x));
                        assert(map@[x] == mpre[x]);
                        assert(map@.contains_key(x));
                    }
                }
            }
            i = i + 1;
        }
        self.quadrants = Some(Box::new(quads));
        let ghost gq = quads;
        proof {
            assert(aids.take(n as int) =~= aids);
            assert forall|x: EntityID|
                node_has(*self, x) <==> node_has(self0, x) || x == id by {
                assert(quad_has(gq, x) || self.items@.contains(x) <==> quad_has(qstart, x)
                    || aids.contains(x));
                if node_has(self0, x) {
                    assert(self1.items@.contains(x) || quad_has(qstart, x));
                    if self1.items@.contains(x) {
                        assert(aids.contains(x)) by {
                            let j = choose|j: int|
                                0 <= j < self1.items@.len() && self1.items@[j] == x;
                            assert(aids[j] == x);
                        }
                    }
                }
                if x == id {
                    assert(aids.last() == id);
                    assert(aids.contains(id));
                }
                if aids.contains(x) {
                    let j = choose|j: int| 0 <= j < aids.len() && aids[j] == x;
                    if j < aids.len() - 1 {
                        assert(self1.items@[j] == x);
                        assert(node_has(self0, x));
                    }
                }
            }
            assert(node_shape(*self)) by {
                assert forall|x: EntityID| #[trigger] self.items@.contains(x) implies !node_has(
                    gq.ne,
                    x,
                ) && !node_has(gq.nw, x) && !node_has(gq.se, x) && !node_has(gq.sw, x) by {
                    assert(!quad_has(gq, x));
                }
            }
            assert(node_entities(*self, map@)) by {
                assert forall|i2: int| 0 <= i2 < self.items@.len() implies item_ok(
                    *self,
                    map@,
                    #[trigger] self.items@[i2],
                ) by {
                    assert(staged_ok(map@, b0, d0 as int, self.items@[i2]));
                    assert(self.boundary == b0 && self.depth == d0);
                }
            }
            assert(node_max_depth(*self) >= node_max_depth(self0)) by {
                if self0.quadrants is Some {
                    assert(qstart == *self0.quadrants.unwrap());
                }
            }
        }
        true
    }
}

} // verus!

verus! {

/// The entity-level test a query applies: containment for a point query,
/// intersection for a region query.
pub open spec fn entity_matches(q: Geometry, b: Geometry) -> bool {
    if q is Point {
        geo_contains(b, q)
    } else {
        geo_intersects(b, q)
    }
}

/// Depths in a well-formed subtree stay within the cutoff, and never fall
/// below the node's own depth.
proof fn lemma_max_depth_bounds(n: QuadTreeNode)
    requires
        node_shape(n),
    ensures
        n.depth <= node_max_depth(n) <= MAX_DEPTH,
    decreases n,
{
    match n.quadrants {
        Some(q) => {
            lemma_max_depth_bounds(q.ne);
            lemma_max_depth_bounds(q.nw);
            lemma_max_depth_bounds(q.se);
            lemma_max_depth_bounds(q.sw);
        },
        None => {},
    }
}

/// A prefix's elements read the same through the longer sequence.
proof fn lemma_prefix_index(a: Seq<EntityID>, b: Seq<EntityID>, j: int)
    requires
        a.is_prefix_of(b),
        0 <= j < a.len(),
    ensures
        b[j] == a[j],
{
    assert(a =~= b.subrange(0, a.len() as int));
}

/// Sequence membership survives extension at either end.
proof fn lemma_prefix_contains(a: Seq<EntityID>, b: Seq<EntityID>, x: EntityID)
    requires
        a.is_prefix_of(b),
        a.contains(x),
    ensures
        b.contains(x),
{
    let j = choose|j: int| 0 <= j < a.len() && a[j] == x;
    assert(b[j] == x);
}

impl QuadTreeNode {
    /// Collects, into `collector`, every identifier in this subtree whose
    /// entity passes the query's test, descending only into nodes whose
    /// boundary passes it first. The descent loses nothing: for a point
    /// query, or a rectangle-bounded entity, passing the entity test forces
    /// every enclosing boundary to pass too.
    fn inner_query(&self, query_type: Geometry, map: &EntityMap, collector: &mut Vec<EntityID>)
        requires
            node_shape(*self),
            node_entities(*self, map@),
            map.wf(),
            geo_wf(query_type),
            forall|x: EntityID| #[trigger]
                node_has(*self, x) ==> !(map@[x].0.bounds is Point),
        ensures
            old(collector)@.is_prefix_of(final(collector)@),
            forall|j: int|
                old(collector)@.len() <= j < final(collector)@.len() ==> node_has(
                    *self,
                    #[trigger] final(collector)@[j],
                ) && map@.contains_key(final(collector)@[j]) && entity_matches(
                    query_type,
                    map@[final(collector)@[j]].0.bounds,
                ),
            forall|x: EntityID| #[trigger]
                node_has(*self, x) && entity_matches(query_type, map@[x].0.bounds) && (
                query_type is Point || map@[x].0.bounds is Rect)
                    ==> final(collector)@.contains(x),
        decreases MAX_DEPTH - self.depth,
    {
        let ghost start = collector@;
        let node_test = match query_type {
            Geometry::Point { .. } => self.boundary.contains(query_type),
            _ => self.boundary.intersects(query_type),
        };
        if !node_test {
            proof {
                assert forall|x: EntityID| #[trigger]
                    node_has(*self, x) && entity_matches(query_type, map@[x].0.bounds) && (
                    query_type is Point || map@[x].0.bounds is Rect) implies collector@.contains(
                    x,
                ) by {
                    lemma_has_in_map(*self, map@, x);
                    match query_type {
                        Geometry::Point { x: px, y: py } => {
                            crate::lemma_point_through_container(
                                self.boundary,
                                map@[x].0.bounds,
                                px,
                                py,
                            );
                        },
                        _ => {
                            crate::lemma_intersects_through_container(
                                self.boundary,
                                map@[x].0.bounds,
                                query_type,
                            );
                        },
                    }
                }
            }
            return ;
        }
        let n = self.items.len();
        let mut i: usize = 0;
        while i < n
            invariant
                0 <= i <= n,
                n == self.items@.len(),
                node_shape(*self),
                node_entities(*self, map@),
                map.wf(),
                geo_wf(query_type),
                forall|x: EntityID| #[trigger]
                    node_has(*self, x) ==> !(map@[x].0.bounds is Point),
                start.is_prefix_of(collector@),
                forall|j: int|
                    start.len() <= j < collector@.len() ==> node_has(
                        *self,
                        #[trigger] collector@[j],
                    ) && map@.contains_key(collector@[j]) && entity_matches(
                        query_type,
                        map@[collector@[j]].0.bounds,
                    ),
                forall|j: int|
                    0 <= j < i && entity_matches(
                        query_type,
                        map@[#[trigger] self.items@[j]].0.bounds,
                    ) ==> collector@.contains(self.items@[j]),
            decreases n - i,
        {
            let id = self.items[i];
            proof {
                assert(self.items@.contains(id));
                assert(node_has(*self, id));
                assert(item_ok(*self, map@, self.items@[i as int]));
            }
            let entity = map.get_entity(&id);
            let matched = match query_type {
                Geometry::Point { .. } => entity.contains_geometry(query_type),
                _ => entity.intersects_geometry(query_type),
            };
            let ghost cpre = collector@;
            if matched {
                collector.push(id);
            }
            proof {
                assert forall|j: int|
                    0 <= j < i + 1 && entity_matches(
                        query_type,
                        map@[#[trigger] self.items@[j]].0.bounds,
                    ) implies collector@.contains(self.items@[j]) by {
                    if j < i {
                        lemma_prefix_contains(cpre, collector@, self.items@[j]);
                    } else {
                        assert(collector@.last() == id);
                    }
                }
            }
            i = i + 1;
        }
        let ghost after_items = collector@;
        match &self.quadrants {
            Some(q) => {
                proof {
                    assert forall|x: EntityID| #[trigger] node_has(q.ne, x) implies !(
                    map@[x].0.bounds is Point) by {
                        assert(node_has(*self, x));
                    }
                    assert forall|x: EntityID| #[trigger] node_has(q.nw, x) implies !(
                    map@[x].0.bounds is Point) by {
                        assert(node_has(*self, x));
                    }
                    assert forall|x: EntityID| #[trigger] node_has(q.se, x) implies !(
                    map@[x].0.bounds is Point) by {
                        assert(node_has(*self, x));
                    }
                    assert forall|x: EntityID| #[trigger] node_has(q.sw, x) implies !(
                    map@[x].0.bounds is Point) by {
                        assert(node_has(*self, x));
                    }
                }
                q.ne.inner_query(query_type, map, collector);
                let ghost c1 = collector@;
                q.nw.inner_query(query_type, map, collector);
                let ghost c2 = collector@;
                q.se.inner_query(query_type, map, collector);
                let ghost c3 = collector@;
                q.sw.inner_query(query_type, map, collector);
                proof {
                    assert forall|j: int|
                        start.len() <= j < collector@.len() implies node_has(
                        *self,
                        #[trigger] collector@[j],
                    ) && map@.contains_key(collector@[j]) && entity_matches(
                        query_type,
                        map@[collector@[j]].0.bounds,
                    ) by {
                        if j < after_items.len() {
                            lemma_prefix_index(after_items, c1, j);
                            lemma_prefix_index(c1, c2, j);
                            lemma_prefix_index(c2, c3, j);
                            lemma_prefix_index(c3, collector@, j);
                            assert(collector@[j] == after_items[j]);
                        } else if j < c1.len() {
                            lemma_prefix_index(c1, c2, j);
                            lemma_prefix_index(c2, c3, j);
                            lemma_prefix_index(c3, collector@, j);
                            assert(node_has(q.ne, c1[j]));
                            assert(node_has(*self, collector@[j]));
                        } else if j < c2.len() {
                            lemma_prefix_index(c2, c3, j);
                            lemma_prefix_index(c3, collector@, j);
                            assert(node_has(q.nw, c2[j]));
                            assert(node_has(*self, collector@[j]));
                        } else if j < c3.len() {
                            lemma_prefix_index(c3, collector@, j);
                            assert(node_has(q.se, c3[j]));
                            assert(node_has(*self, collector@[j]));
                        } else {
                            assert(node_has(q.sw, collector@[j]));
                            assert(node_has(*self, collector@[j]));
                        }
                    }
                    assert forall|x: EntityID| #[trigger]
                        node_has(*self, x) && entity_matches(query_type, map@[x].0.bounds) && (
                        query_type is Point
                            || map@[x].0.bounds is Rect) implies collector@.contains(x) by {
                        if self.items@.contains(x) {
                            let j = choose|j: int|
                                0 <= j < self.items@.len() && self.items@[j] == x;
                            assert(entity_matches(query_type, map@[self.items@[j]].0.bounds));
                            assert(after_items.contains(x));
                            lemma_prefix_contains(after_items, c1, x);
                            lemma_prefix_contains(c1, c2, x);
                            lemma_prefix_contains(c2, c3, x);
                            lemma_prefix_contains(c3, collector@, x);
                        } else if node_has(q.ne, x) {
                            lemma_prefix_contains(c1, c2, x);
                            lemma_prefix_contains(c2, c3, x);
                            lemma_prefix_contains(c3, collector@, x);
                        } else if node_has(q.nw, x) {
                            lemma_prefix_contains(c2, c3, x);
                            lemma_prefix_contains(c3, collector@, x);
                        } else if node_has(q.se, x) {
                            lemma_prefix_contains(c3, collector@, x);
                        } else {
                            assert(node_has(q.sw, x));
                        }
                    }
                }
            },
            None => {
                proof {
                    assert forall|x: EntityID| #[trigger]
                        node_has(*self, x) && entity_matches(query_type, map@[x].0.bounds) && (
                        query_type is Point
                            || map@[x].0.bounds is Rect) implies collector@.contains(x) by {
                        assert(self.items@.contains(x));
                        let j = choose|j: int|
                            0 <= j < self.items@.len() && self.items@[j] == x;
                        assert(entity_matches(query_type, map@[self.items@[j]].0.bounds));
                    }
                }
            },
        }
    }
}

/// The set of entities a query returned: read them out one by one from the
/// most recently collected, or take the whole list.
pub struct Entities {
    items: Vec<Entity>,
}

impl View for Entities {
    type V = Seq<Entity>;

    /// The entities held, in collection order.
    closed spec fn view(&self) -> Seq<Entity> {
        self.items@
    }
}

impl Entities {
    pub fn is_empty(&self) -> (r: bool)
        ensures
            r == (self@.len() == 0),
    {
        self.items.len() == 0
    }

    /// Hands out the most recently collected entity still held.
    pub fn next(&mut self) -> (r: Option<Entity>)
        ensures
            old(self)@.len() == 0 ==> r is None && final(self)@ == old(self)@,
            old(self)@.len() > 0 ==> (r == Some(old(self)@.last()) && final(self)@ == old(
                self,
            )@.drop_last()),
    {
        self.items.pop()
    }

    /// All held entities at once, in collection order.
    pub fn into_vec(self) -> (r: Vec<Entity>)
        ensures
            r@ == self@,
    {
        self.items
    }
}

/// Depth, boundary and stored identifiers of one node, as the node walk
/// reports them.
pub struct NodeInfo {
    level: usize,
    boundary: Geometry,
    entities: Vec<EntityID>,
}

impl NodeInfo {
    /// The depth of the reported node.
    pub fn node_level(&self) -> (r: usize)
        ensures
            r == self.spec_level(),
    {
        self.level
    }

    /// The boundary rectangle of the reported node.
    pub fn bounding_box(&self) -> (r: Geometry)
        ensures
            r == self.spec_boundary(),
    {
        self.boundary
    }

    /// The identifiers stored directly at the reported node.
    pub fn entities(&self) -> (r: &Vec<EntityID>)
        ensures
            r@ == self.spec_entities(),
    {
        &self.entities
    }

    pub closed spec fn spec_level(&self) -> usize {
        self.level
    }

    pub closed spec fn spec_boundary(&self) -> Geometry {
        self.boundary
    }

    pub closed spec fn spec_entities(&self) -> Seq<EntityID> {
        self.entities@
    }
}

} // verus!

verus! {

/// One tree depth walked by `iterate_levels` / one node reported by
/// `iterate_nodes`, at the specification level.
impl QuadTreeNode {
    /// Appends to `container` the identifiers stored at exactly depth
    /// `level` of this subtree, in depth-first order.
    fn gather_at_depth(&self, level: usize, container: &mut Vec<EntityID>)
        requires
            node_shape(*self),
        ensures
            final(container)@ == old(container)@ + node_ids_at_depth(*self, level as nat),
        decreases MAX_DEPTH - self.depth,
    {
        if self.depth == level {
            container.extend_from_slice(self.items.as_slice());
            return ;
        }
        if self.depth < level {
            match &self.quadrants {
                Some(q) => {
                    let ghost g0 = container@;
                    q.ne.gather_at_depth(level, container);
                    q.nw.gather_at_depth(level, container);
                    q.se.gather_at_depth(level, container);
                    q.sw.gather_at_depth(level, container);
                    proof {
                        assert(container@ =~= g0 + (node_ids_at_depth(q.ne, level as nat)
                            + node_ids_at_depth(q.nw, level as nat) + node_ids_at_depth(
                            q.se,
                            level as nat,
                        ) + node_ids_at_depth(q.sw, level as nat)));
                    }
                },
                None => {
                    proof {
                        assert(container@ =~= container@ + node_ids_at_depth(
                            *self,
                            level as nat,
                        ));
                    }
                },
            }
        } else {
            proof {
                assert(container@ =~= container@ + node_ids_at_depth(*self, level as nat));
            }
        }
    }

    /// Reports this node and, beneath it, its quadrants in the fixed order,
    /// depth-first.
    fn collect_nodes(&self, out: &mut Vec<NodeInfo>)
        requires
            node_shape(*self),
        ensures
            old(out)@.len() <= final(out)@.len(),
            final(out)@.len() - old(out)@.len() == node_report(*self).len(),
            forall|j: int| 0 <= j < old(out)@.len() ==> final(out)@[j] == old(out)@[j],
            forall|j: int|
                0 <= j < node_report(*self).len() ==> info_matches(
                    #[trigger] final(out)@[old(out)@.len() + j],
                    node_report(*self)[j],
                ),
        decreases MAX_DEPTH - self.depth,
    {
        let ghost base = out@;
        let info = NodeInfo {
            level: self.depth,
            boundary: self.boundary,
            entities: clone_ids(&self.items),
        };
        out.push(info);
        match &self.quadrants {
            Some(q) => {
                let ghost o0 = out@;
                q.ne.collect_nodes(out);
                let ghost o1 = out@;
                q.nw.collect_nodes(out);
                let ghost o2 = out@;
                q.se.collect_nodes(out);
                let ghost o3 = out@;
                q.sw.collect_nodes(out);
                proof {
                    let r = node_report(*self);
                    let rne = node_report(q.ne);
                    let rnw = node_report(q.nw);
                    let rse = node_report(q.se);
                    let rsw = node_report(q.sw);
                    assert(r =~= seq![
                        (self.depth as nat, self.boundary, self.items@),
                    ] + rne + rnw + rse + rsw);
                    assert forall|j: int| 0 <= j < r.len() implies info_matches(
                        #[trigger] out@[base.len() + j],
                        r[j],
                    ) by {
                        let p = base.len() + j;
                        if j == 0 {
                            assert(o0[p] == info);
                            assert(o1[p] == o0[p]);
                            assert(o2[p] == o1[p]);
                            assert(o3[p] == o2[p]);
                            assert(out@[p] == o3[p]);
                            assert(info_matches(info, r[0]));
                        } else if j < 1 + rne.len() {
                            assert(r[j] == rne[j - 1]);
                            assert(info_matches(o1[o0.len() + (j - 1)], rne[j - 1]));
                            assert(o1[p] == o1[o0.len() + (j - 1)]);
                            assert(o2[p] == o1[p]);
                            assert(o3[p] == o2[p]);
                            assert(out@[p] == o3[p]);
                        } else if j < 1 + rne.len() + rnw.len() {
                            assert(r[j] == rnw[j - 1 - rne.len()]);
                            assert(info_matches(
                                o2[o1.len() + (j - 1 - rne.len())],
                                rnw[j - 1 - rne.len()],
                            ));
                            assert(o2[p] == o2[o1.len() + (j - 1 - rne.len())]);
                            assert(o3[p] == o2[p]);
                            assert(out@[p] == o3[p]);
                        } else if j < 1 + rne.len() + rnw.len() + rse.len() {
                            assert(r[j] == rse[j - 1 - rne.len() - rnw.len()]);
                            assert(info_matches(
                                o3[o2.len() + (j - 1 - rne.len() - rnw.len())],
                                rse[j - 1 - rne.len() - rnw.len()],
                            ));
                            assert(o3[p] == o3[o2.len() + (j - 1 - rne.len() - rnw.len())]);
                            assert(out@[p] == o3[p]);
                        } else {
                            assert(r[j] == rsw[j - 1 - rne.len() - rnw.len() - rse.len()]);
                            assert(info_matches(
                                out@[o3.len() + (j - 1 - rne.len() - rnw.len() - rse.len())],
                                rsw[j - 1 - rne.len() - rnw.len() - rse.len()],
                            ));
                            assert(out@[p] == out@[o3.len() + (j - 1 - rne.len() - rnw.len()
                                - rse.len())]);
                        }
                    }
                }
            },
            None => {
                proof {
                    assert(node_report(*self) =~= seq![
                        (self.depth as nat, self.boundary, self.items@),
                    ]);
                }
            },
        }
    }
}

/// What `iterate_nodes` reports of a subtree: depth, boundary and items of
/// each node, this node first, then the quadrants in the fixed order.
spec fn node_report(n: QuadTreeNode) -> Seq<(nat, Geometry, Seq<EntityID>)>
    decreases n,
{
    seq![(n.depth as nat, n.boundary, n.items@)] + match n.quadrants {
        Some(q) => node_report(q.ne) + node_report(q.nw) + node_report(q.se) + node_report(
            q.sw,
        ),
        None => Seq::empty(),
    }
}

/// Whether one reported `NodeInfo` carries exactly the given node data.
pub open spec fn info_matches(info: NodeInfo, t: (nat, Geometry, Seq<EntityID>)) -> bool {
    info.spec_level() == t.0 && info.spec_boundary() == t.1 && info.spec_entities() == t.2
}

/// A copy of a list of identifiers.
fn clone_ids(v: &Vec<EntityID>) -> (r: Vec<EntityID>)
    ensures
        r@ == v@,
{
    let mut out: Vec<EntityID> = Vec::new();
    let n = v.len();
    let mut i: usize = 0;
    while i < n
        invariant
            0 <= i <= n,
            n == v@.len(),
            out@ == v@.take(i as int),
        decreases n - i,
    {
        out.push(v[i]);
        proof {
            assert(v@.take(i + 1) =~= v@.take(i as int).push(v@[i as int]));
        }
        i = i + 1;
    }
    proof {
        assert(v@.take(n as int) =~= v@);
    }
    out
}

/// The quadtree: one entity map and one root node sharing boundary and
/// capacity. Entities are inserted by value and recovered by queries or by
/// draining the tree.
pub struct QuadTree {
    map: EntityMap,
    root: QuadTreeNode,
}

impl View for QuadTree {
    type V = Map<EntityID, (Entity, Seq<u8>)>;

    /// The stored entities with their recorded leaf paths, by identifier.
    closed spec fn view(&self) -> Map<EntityID, (Entity, Seq<u8>)> {
        self.map@
    }
}

impl QuadTree {
    /// Well-formed: the map and the tree structure agree, every stored
    /// identifier standing in exactly one node under a boundary that
    /// contains its extent.
    pub closed spec fn wf(&self) -> bool {
        &&& self.map.wf()
        &&& node_shape(self.root)
        &&& node_entities(self.root, self.map@)
        &&& self.root.depth == 0
        &&& forall|x: EntityID| #[trigger] self@.contains_key(x) ==> node_has(self.root, x)
    }

    /// The fixed root boundary.
    pub closed spec fn boundary(&self) -> Geometry {
        self.root.boundary
    }

    /// The per-node capacity.
    pub closed spec fn capacity(&self) -> usize {
        self.root.capacity
    }

    /// What `levels` returns: one more than the deepest node's depth.
    pub closed spec fn spec_levels(&self) -> nat {
        node_max_depth(self.root) + 1
    }

    /// Whether the root node still has room below its capacity: an insert
    /// then stores at the root and the level count cannot move. The level
    /// count grows only when a full node receives one more entity and has
    /// to subdivide.
    pub closed spec fn root_has_room(&self) -> bool {
        self.root.items@.len() < self.root.capacity
    }

    /// The identifiers stored at depth `d`, in depth-first order.
    pub closed spec fn spec_ids_at_depth(&self, d: nat) -> Seq<EntityID> {
        node_ids_at_depth(self.root, d)
    }

    /// What `iterate_nodes` reports: depth, boundary and stored identifiers
    /// of every node, this node before its quadrants.
    pub closed spec fn spec_node_report(&self) -> Seq<(nat, Geometry, Seq<EntityID>)> {
        node_report(self.root)
    }

    /// The boundary of a well-formed tree is a well-formed rectangle.
    pub proof fn lemma_boundary_wf(&self)
        requires
            self.wf(),
        ensures
            self.boundary() is Rect,
            geo_wf(self.boundary()),
    {
    }

    /// A new tree over the rectangle from `boundary_min` to `boundary_max`:
    /// refused when the capacity is zero or the bounds are not strictly
    /// ordered on each axis.
    pub fn new(boundary_min: (i32, i32), boundary_max: (i32, i32), capacity: usize) -> (r:
        Result<QuadTree, SpatialError>)
        ensures
            (r is Ok) == (capacity > 0 && boundary_min.0 < boundary_max.0 && boundary_min.1
                < boundary_max.1),
            r matches Ok(t) ==> t.wf() && t@ == Map::<EntityID, (Entity, Seq<u8>)>::empty() && (
            t.boundary() == Geometry::Rect { min: boundary_min, max: boundary_max })
                && t.capacity() == capacity && t.spec_levels() == 1,
            r matches Err(e) ==> (if capacity == 0 {
                e is InvalidCapacity
            } else {
                e is InvalidBounds
            }),
    {
        if capacity == 0 {
            return Err(SpatialError::InvalidCapacity);
        }
        if !(boundary_min.0 < boundary_max.0 && boundary_min.1 < boundary_max.1) {
            return Err(SpatialError::InvalidBounds);
        }
        let boundary = Geometry::rect_from_min_max(boundary_min, boundary_max);
        let root = QuadTreeNode::with_geometry(boundary, capacity, 0);
        let map = EntityMap::new_with_capacity(capacity);
        Ok(QuadTree { map, root })
    }

    /// Inserts an entity whose identifier is not yet stored. An entity
    /// whose extent is not contained in the root boundary is refused with
    /// `OutOfBounds`; any other is recorded in the map and placed in the
    /// tree, and the call reports `Ok(true)`.
    pub fn insert(&mut self, entity: Entity) -> (r: Result<bool, SpatialError>)
        requires
            old(self).wf(),
            geo_wf(entity.bounds),
            !old(self)@.contains_key(entity.id),
        ensures
            final(self).wf(),
            final(self).boundary() == old(self).boundary(),
            final(self).capacity() == old(self).capacity(),
            (r is Ok) == geo_contains(old(self).boundary(), entity.bounds),
            r matches Err(e) ==> e is OutOfBounds && final(self)@ == old(self)@
                && final(self).spec_levels() == old(self).spec_levels(),
            r matches Ok(placed) ==> placed && final(self)@.dom() == old(self)@.dom().insert(
                entity.id,
            ) && final(self)@[entity.id].0 == entity && (forall|k: EntityID| #[trigger]
                old(self)@.contains_key(k) ==> final(self)@.contains_key(k)
                    && final(self)@[k].0 == old(self)@[k].0),
            final(self).spec_levels() >= old(self).spec_levels(),
            old(self).root_has_room() ==> final(self).spec_levels() == old(self).spec_levels(),
    {
        let ghost m0 = self.map@;
        let contained = self.root.boundary.contains(entity.bounds);
        if !contained {
            return Err(SpatialError::OutOfBounds);
        }
        let id = entity.id();
        proof {
            self.map.lemma_wf_facts();
            if node_has(self.root, id) {
                lemma_has_in_map(self.root, m0, id);
            }
        }
        self.map.insert_entity(id, entity, Base4Int::new());
        let ghost m1 = self.map@;
        proof {
            assert forall|x: EntityID| #[trigger] node_has(self.root, x) implies m1.contains_key(
                x,
            ) && m1[x] == m0[x] by {
                lemma_has_in_map(self.root, m0, x);
            }
            lemma_entities_stable(self.root, m0, m1);
        }
        let placed = self.root.insert(id, &mut self.map, 0);
        proof {
            assert forall|x: EntityID| #[trigger] self.map@.contains_key(x) implies node_has(
                self.root,
                x,
            ) by {
                assert(m1.contains_key(x));
            }
            assert(self.map@.dom() =~= m0.dom().insert(id));
        }
        Ok(placed)
    }

    /// One more than the maximum depth over all subtrees.
    pub fn levels(&self) -> (r: usize)
        requires
            self.wf(),
        ensures
            r == self.spec_levels(),
    {
        proof {
            lemma_max_depth_bounds(self.root);
        }
        self.root.max_subtree_depth() + 1
    }

    /// The identifiers stored at each tree depth: element `d` of the result
    /// holds depth `d`, from the root down to the deepest node.
    pub fn iterate_levels(&self) -> (r: Vec<Vec<EntityID>>)
        requires
            self.wf(),
        ensures
            r@.len() == self.spec_levels(),
            forall|d: int| 0 <= d < r@.len() ==> (#[trigger] r@[d])@ == self.spec_ids_at_depth(
                d as nat,
            ),
    {
        proof {
            lemma_max_depth_bounds(self.root);
        }
        let maxd = self.root.max_subtree_depth();
        let mut out: Vec<Vec<EntityID>> = Vec::new();
        let mut level: usize = 0;
        while level <= maxd
            invariant
                node_shape(self.root),
                0 <= level <= maxd + 1,
                maxd == node_max_depth(self.root),
                maxd <= MAX_DEPTH,
                out@.len() == level,
                forall|d: int|
                    0 <= d < level ==> (#[trigger] out@[d])@ == node_ids_at_depth(
                        self.root,
                        d as nat,
                    ),
            decreases maxd + 1 - level,
        {
            let mut container: Vec<EntityID> = Vec::new();
            self.root.gather_at_depth(level, &mut container);
            out.push(container);
            level = level + 1;
        }
        out
    }

    /// Every node of the tree, this node before its quadrants, each with
    /// its depth, boundary and directly stored identifiers.
    pub fn iterate_nodes(&self) -> (r: Vec<NodeInfo>)
        requires
            self.wf(),
        ensures
            r@.len() == self.spec_node_report().len(),
            r@.len() >= 1,
            forall|i: int|
                0 <= i < r@.len() ==> info_matches(
                    #[trigger] r@[i],
                    self.spec_node_report()[i],
                ),
    {
        let mut out: Vec<NodeInfo> = Vec::new();
        self.root.collect_nodes(&mut out);
        proof {
            assert(node_report(self.root).len() >= 1);
            assert forall|i: int| 0 <= i < out@.len() implies info_matches(
                #[trigger] out@[i],
                node_report(self.root)[i],
            ) by {
                assert(info_matches(out@[0 + i], node_report(self.root)[i]));
            }
        }
        out
    }

    /// Drains all entities from the map and all nodes, returning them, and
    /// replaces the root with a fresh empty node of the same boundary and
    /// capacity: exactly one entity per stored identifier comes back.
    pub fn clear(&mut self) -> (r: Vec<Entity>)
        requires
            old(self).wf(),
        ensures
            final(self).wf(),
            final(self)@ == Map::<EntityID, (Entity, Seq<u8>)>::empty(),
            final(self).boundary() == old(self).boundary(),
            final(self).capacity() == old(self).capacity(),
            final(self).spec_levels() == 1,
            r@.len() == old(self)@.dom().len(),
            forall|id: EntityID| #[trigger]
                old(self)@.contains_key(id) <==> exists|i: int|
                    0 <= i < r@.len() && r@[i].id == id,
            forall|i: int| 0 <= i < r@.len() ==> old(self)@.contains_key(#[trigger] r@[i].id),
    {
        let out = self.map.drain();
        self.root.drain();
        let boundary = self.root.boundary;
        let capacity = self.root.capacity;
        let depth_zero: usize = 0;
        self.root = QuadTreeNode::with_geometry(boundary, capacity, depth_zero);
        out
    }

    /// The decoded leaf path recorded for `id`: the quadrant index chosen
    /// at each level while descending to the node holding it, or `None` for
    /// an unknown identifier.
    pub fn entity_path_in_tree(&self, id: EntityID) -> (r: Option<Vec<u8>>)
        requires
            self.wf(),
        ensures
            match r {
                Some(v) => self@.contains_key(id) && v@ == self@[id].1,
                None => !self@.contains_key(id),
            },
    {
        self.map.get_path(id)
    }

    /// All entities matching the query geometry: containment for a point
    /// query, intersection otherwise. Nothing else is returned, and every
    /// matching entity is returned whenever the query is a point or the
    /// entity's extent is a rectangle.
    pub fn query(&self, query_type: Geometry) -> (r: Entities)
        requires
            self.wf(),
            geo_wf(query_type),
            forall|x: EntityID| #[trigger]
                self@.contains_key(x) ==> !(self@[x].0.bounds is Point),
        ensures
            forall|j: int|
                0 <= j < r@.len() ==> self@.contains_key((#[trigger] r@[j]).id) && r@[j]
                    == self@[r@[j].id].0 && entity_matches(query_type, r@[j].bounds),
            forall|x: EntityID| #[trigger]
                self@.contains_key(x) && entity_matches(query_type, self@[x].0.bounds) && (
                query_type is Point || self@[x].0.bounds is Rect) ==> exists|j: int|
                    0 <= j < r@.len() && r@[j].id == x,
    {
        let ids = self.collect_matching(query_type);
        let ghost gids = ids@;
        let r = self.resolve(ids);
        proof {
            assert forall|x: EntityID| #[trigger]
                self@.contains_key(x) && entity_matches(query_type, self@[x].0.bounds) && (
                query_type is Point || self@[x].0.bounds is Rect) implies exists|j: int|
                0 <= j < r@.len() && r@[j].id == x by {
                assert(gids.contains(x));
                let j = choose|j: int| 0 <= j < gids.len() && gids[j] == x;
                assert(r@[j].id == x);
            }
        }
        r
    }

    /// `query`, with the results further filtered through `predicate`:
    /// nothing failing the geometric test is handed to the predicate, and
    /// nothing the predicate can only refuse is returned.
    pub fn query_and_filter<F: Fn(Geometry, &Entity) -> bool>(
        &self,
        query_type: Geometry,
        predicate: F,
    ) -> (r: Entities)
        requires
            self.wf(),
            geo_wf(query_type),
            forall|x: EntityID| #[trigger]
                self@.contains_key(x) ==> !(self@[x].0.bounds is Point),
            forall|g: Geometry, e: &Entity| #[trigger] predicate.requires((g, e)),
        ensures
            forall|j: int|
                0 <= j < r@.len() ==> self@.contains_key((#[trigger] r@[j]).id) && r@[j]
                    == self@[r@[j].id].0 && entity_matches(query_type, r@[j].bounds)
                    && predicate.ensures((query_type, &self@[r@[j].id].0), true),
            forall|x: EntityID| #[trigger]
                self@.contains_key(x) && entity_matches(query_type, self@[x].0.bounds) && (
                query_type is Point || self@[x].0.bounds is Rect) ==> (exists|j: int|
                    0 <= j < r@.len() && r@[j].id == x) || predicate.ensures(
                    (query_type, &self@[x].0),
                    false,
                ),
    {
        let ids = self.collect_matching(query_type);
        let mut items: Vec<Entity> = Vec::new();
        let n = ids.len();
        let mut i: usize = 0;
        while i < n
            invariant
                self.wf(),
                0 <= i <= n,
                n == ids@.len(),
                forall|j: int|
                    0 <= j < n ==> self@.contains_key(#[trigger] ids@[j]) && entity_matches(
                        query_type,
                        self@[ids@[j]].0.bounds,
                    ),
                forall|g: Geometry, e: &Entity| #[trigger] predicate.requires((g, e)),
                forall|j: int|
                    0 <= j < items@.len() ==> self@.contains_key((#[trigger] items@[j]).id)
                        && items@[j] == self@[items@[j].id].0 && entity_matches(
                        query_type,
                        items@[j].bounds,
                    ) && predicate.ensures((query_type, &self@[items@[j].id].0), true),
                forall|j: int|
                    0 <= j < i ==> (exists|j2: int|
                        0 <= j2 < items@.len() && items@[j2].id == #[trigger] ids@[j])
                        || predicate.ensures((query_type, &self@[ids@[j]].0), false),
            decreases n - i,
        {
            let id = ids[i];
            proof {
                self.map.lemma_wf_facts();
            }
            let entity = *self.map.get_entity(&id);
            let ghost items_pre = items@;
            if predicate(query_type, &entity) {
                items.push(entity);
            }
            proof {
                assert forall|j: int|
                    0 <= j < i + 1 implies (exists|j2: int|
                    0 <= j2 < items@.len() && items@[j2].id == #[trigger] ids@[j])
                    || predicate.ensures((query_type, &self@[ids@[j]].0), false) by {
                    if j < i {
                        if exists|j2: int|
                            0 <= j2 < items_pre.len() && items_pre[j2].id == ids@[j] {
                            let j2 = choose|j2: int|
                                0 <= j2 < items_pre.len() && items_pre[j2].id == ids@[j];
                            assert(items@[j2].id == ids@[j]);
                        }
                    } else {
                        if items@.len() > items_pre.len() {
                            assert(items@[items_pre.len() as int].id == ids@[j]);
                        }
                    }
                }
            }
            i = i + 1;
        }
        proof {
            assert forall|x: EntityID| #[trigger]
                self@.contains_key(x) && entity_matches(query_type, self@[x].0.bounds) && (
                query_type is Point || self@[x].0.bounds is Rect) implies (exists|j: int|
                0 <= j < items@.len() && items@[j].id == x) || predicate.ensures(
                (query_type, &self@[x].0),
                false,
            ) by {
                assert(ids@.contains(x));
                let j = choose|j: int| 0 <= j < ids@.len() && ids@[j] == x;
            }
        }
        Entities { items }
    }

    /// The identifiers of all entities matching the query geometry.
    fn collect_matching(&self, query_type: Geometry) -> (ids: Vec<EntityID>)
        requires
            self.wf(),
            geo_wf(query_type),
            forall|x: EntityID| #[trigger]
                self@.contains_key(x) ==> !(self@[x].0.bounds is Point),
        ensures
            forall|j: int|
                0 <= j < ids@.len() ==> self@.contains_key(#[trigger] ids@[j])
                    && entity_matches(query_type, self@[ids@[j]].0.bounds),
            forall|x: EntityID| #[trigger]
                self@.contains_key(x) && entity_matches(query_type, self@[x].0.bounds) && (
                query_type is Point || self@[x].0.bounds is Rect) ==> ids@.contains(x),
    {
        proof {
            assert forall|x: EntityID| #[trigger] node_has(self.root, x) implies !(
            self.map@[x].0.bounds is Point) by {
                lemma_has_in_map(self.root, self.map@, x);
            }
        }
        let mut collector: Vec<EntityID> = Vec::new();
        self.root.inner_query(query_type, &self.map, &mut collector);
        proof {
            assert forall|j: int| 0 <= j < collector@.len() implies self@.contains_key(
                #[trigger] collector@[j],
            ) && entity_matches(query_type, self@[collector@[j]].0.bounds) by {
                lemma_has_in_map(self.root, self.map@, collector@[j]);
            }
        }
        collector
    }

    /// Looks each collected identifier up in the map, in order.
    fn resolve(&self, ids: Vec<EntityID>) -> (r: Entities)
        requires
            self.wf(),
            forall|j: int| 0 <= j < ids@.len() ==> self@.contains_key(#[trigger] ids@[j]),
        ensures
            r@.len() == ids@.len(),
            forall|j: int|
                0 <= j < ids@.len() ==> (#[trigger] r@[j]) == self@[ids@[j]].0 && r@[j].id
                    == ids@[j],
    {
        proof {
            self.map.lemma_wf_facts();
        }
        let mut items: Vec<Entity> = Vec::new();
        let n = ids.len();
        let mut i: usize = 0;
        while i < n
            invariant
                self.wf(),
                0 <= i <= n,
                n == ids@.len(),
                forall|j: int| 0 <= j < n ==> self@.contains_key(#[trigger] ids@[j]),
                forall|id: EntityID| #[trigger] self@.contains_key(id) ==> self@[id].0.id == id,
                items@.len() == i,
                forall|j: int|
                    0 <= j < i ==> (#[trigger] items@[j]) == self@[ids@[j]].0 && items@[j].id
                        == ids@[j],
            decreases n - i,
        {
            let entity = *self.map.get_entity(&ids[i]);
            items.push(entity);
            i = i + 1;
        }
        Entities { items }
    }
}

} // verus!
