//! The spatial quad tree that assigns each region of the world to a shard.
//!
//! The tree covers a rectangular area; a leaf holds the entities inside its
//! quarter and the shard that serves it, and a leaf about to hold more than
//! `LEAF_CAPACITY` entities is split into four quarters that keep its shard.
//! The geometry (which quarter a point falls in, whether the area holds it)
//! is computed outside; the tree works on its result, a `QTPos`: whether the
//! point is inside the area and, for each depth, the quarter it falls in.
use vstd::prelude::*;
use std::collections::HashMap;
use vstd::multiset::Multiset;
use crate::entity::EntityId;

verus! {

broadcast use vstd::std_specs::hash::group_hash_axioms;

pub type ShardId = u32;

/// A leaf splits when an entity would be added to it while it holds this many.
pub const LEAF_CAPACITY: usize = 50;

#[derive(Clone, Copy, PartialEq, Eq, Debug, Structural)]
pub enum QTDir {
    /// +x +y
    NE,
    /// -x +y
    NW,
    /// -x -y
    SW,
    /// +x -y
    SE,
}

pub open spec fn dir_index(d: QTDir) -> usize {
    match d {
        QTDir::NE => 0,
        QTDir::NW => 1,
        QTDir::SW => 2,
        QTDir::SE => 3,
    }
}

pub open spec fn dir_from_index(i: usize) -> Option<QTDir> {
    if i == 0 {
        Some(QTDir::NE)
    } else if i == 1 {
        Some(QTDir::NW)
    } else if i == 2 {
        Some(QTDir::SW)
    } else if i == 3 {
        Some(QTDir::SE)
    } else {
        None
    }
}

impl QTDir {
    pub const NUMBER_OF_DIRS: usize = 4;

    pub fn as_usize(&self) -> (i: usize)
        ensures
            i == dir_index(*self),
            i < 4,
    {
        match self {
            QTDir::NE => 0,
            QTDir::NW => 1,
            QTDir::SW => 2,
            QTDir::SE => 3,
        }
    }

    pub fn from_usize(i: usize) -> (r: Option<Self>)
        ensures
            r == dir_from_index(i),
    {
        match i {
            0 => Some(QTDir::NE),
            1 => Some(QTDir::NW),
            2 => Some(QTDir::SW),
            3 => Some(QTDir::SE),
            _ => None,
        }
    }
}

/// A direction's index reads back as the direction, and exactly the indices
/// below four name one.
pub proof fn lemma_dir_index_roundtrip(d: QTDir, i: usize)
    ensures
        dir_from_index(dir_index(d)) == Some(d),
        dir_from_index(i) is Some <==> i < 4,
        dir_from_index(i) matches Some(e) ==> dir_index(e) == i,
{
}

/// A point as the tree sees it: whether the tree's area holds it, and the
/// quarter it falls in at each depth, from the root down.
pub struct QTPos {
    pub inside: bool,
    pub dirs: Vec<QTDir>,
}

pub struct QTLeafNode {
    pub entities: Vec<EntityId>,
    pub shard_id: ShardId,
}

pub enum QTNode {
    Parent(Box<QTNode>, Box<QTNode>, Box<QTNode>, Box<QTNode>),
    Leaf(QTLeafNode),
}

/// A node's content: a parent's four children (NE, NW, SW, SE), or a leaf's
/// entities and shard.
pub enum NodeModel {
    Parent(Box<NodeModel>, Box<NodeModel>, Box<NodeModel>, Box<NodeModel>),
    Leaf(Seq<EntityId>, ShardId),
}

pub open spec fn model(n: QTNode) -> NodeModel
    decreases n,
{
    match n {
        QTNode::Parent(a, b, c, d) => NodeModel::Parent(
            Box::new(model(*a)),
            Box::new(model(*b)),
            Box::new(model(*c)),
            Box::new(model(*d)),
        ),
        QTNode::Leaf(l) => NodeModel::Leaf(l.entities@, l.shard_id),
    }
}

pub open spec fn child_of(m: NodeModel, d: QTDir) -> NodeModel {
    match m {
        NodeModel::Parent(a, b, c, e) => match d {
            QTDir::NE => *a,
            QTDir::NW => *b,
            QTDir::SW => *c,
            QTDir::SE => *e,
        },
        NodeModel::Leaf(..) => m,
    }
}

pub open spec fn with_child(m: NodeModel, d: QTDir, x: NodeModel) -> NodeModel {
    match m {
        NodeModel::Parent(a, b, c, e) => match d {
            QTDir::NE => NodeModel::Parent(Box::new(x), b, c, e),
            QTDir::NW => NodeModel::Parent(a, Box::new(x), c, e),
            QTDir::SW => NodeModel::Parent(a, b, Box::new(x), e),
            QTDir::SE => NodeModel::Parent(a, b, c, Box::new(x)),
        },
        NodeModel::Leaf(..) => m,
    }
}

/// The quarter an entity falls in at `depth`, by its recorded position.
pub open spec fn dir_at(paths: Map<u32, Seq<QTDir>>, e: EntityId, depth: int) -> QTDir {
    paths[e.0][depth]
}

pub open spec fn in_quarter(paths: Map<u32, Seq<QTDir>>, depth: int, d: QTDir) -> spec_fn(EntityId) -> bool {
    |e: EntityId| dir_at(paths, e, depth) == d
}

/// The entities of a leaf that fall in quarter `d` at `depth`, in order.
pub open spec fn quarter(ents: Seq<EntityId>, paths: Map<u32, Seq<QTDir>>, depth: int, d: QTDir) -> Seq<
    EntityId,
> {
    ents.filter(in_quarter(paths, depth, d))
}

/// Splitting a leaf at `depth`: refused at the maximal depth or when an
/// entity has no recorded position; otherwise four leaves with the same
/// shard, each holding the entities of its quarter.
pub open spec fn split_model(
    ents: Seq<EntityId>,
    shard: ShardId,
    depth: int,
    max: int,
    paths: Map<u32, Seq<QTDir>>,
) -> Option<NodeModel> {
    if depth >= max {
        None
    } else if exists|i: int| 0 <= i < ents.len() && !paths.contains_key(#[trigger] ents[i].0) {
        None
    } else {
        Some(
            NodeModel::Parent(
                Box::new(NodeModel::Leaf(quarter(ents, paths, depth, QTDir::NE), shard)),
                Box::new(NodeModel::Leaf(quarter(ents, paths, depth, QTDir::NW), shard)),
                Box::new(NodeModel::Leaf(quarter(ents, paths, depth, QTDir::SW), shard)),
                Box::new(NodeModel::Leaf(quarter(ents, paths, depth, QTDir::SE), shard)),
            ),
        )
    }
}

/// Adding entity `id` at `dirs` below a node at `depth`: a full leaf is split
/// first and the entity goes on down; the flag tells whether it was stored.
pub open spec fn insert_model(
    m: NodeModel,
    depth: int,
    max: int,
    paths: Map<u32, Seq<QTDir>>,
    id: EntityId,
    dirs: Seq<QTDir>,
) -> (NodeModel, bool)
    decreases max - depth, 1int,
{
    match m {
        NodeModel::Leaf(ents, shard) => {
            if ents.len() + 1 > LEAF_CAPACITY {
                match split_model(ents, shard, depth, max, paths) {
                    None => (m, false),
                    Some(p) => insert_in_parent(p, depth, max, paths, id, dirs),
                }
            } else {
                (NodeModel::Leaf(ents.push(id), shard), true)
            }
        },
        NodeModel::Parent(..) => insert_in_parent(m, depth, max, paths, id, dirs),
    }
}

/// Adding below a parent: into the child of the entity's quarter (a parent
/// never stands at the maximal depth in a well-formed tree).
pub open spec fn insert_in_parent(
    m: NodeModel,
    depth: int,
    max: int,
    paths: Map<u32, Seq<QTDir>>,
    id: EntityId,
    dirs: Seq<QTDir>,
) -> (NodeModel, bool)
    decreases max - depth, 0int,
{
    if depth >= max {
        (m, false)
    } else {
        let d = dirs[depth];
        let r = insert_model(child_of(m, d), depth + 1, max, paths, id, dirs);
        (with_child(m, d, r.0), r.1)
    }
}

/// The leaf that positions with quarters `dirs` fall in: its entities and shard.
pub open spec fn leaf_at(m: NodeModel, depth: int, dirs: Seq<QTDir>) -> (Seq<EntityId>, ShardId)
    decreases m,
{
    match m {
        NodeModel::Leaf(ents, shard) => (ents, shard),
        NodeModel::Parent(a, b, c, e) => {
            let d = dirs[depth];
            match d {
                QTDir::NE => leaf_at(*a, depth + 1, dirs),
                QTDir::NW => leaf_at(*b, depth + 1, dirs),
                QTDir::SW => leaf_at(*c, depth + 1, dirs),
                QTDir::SE => leaf_at(*e, depth + 1, dirs),
            }
        },
    }
}

/// Taking `id` out of the leaf that `dirs` lead to, moving the leaf's last
/// entity into its place.
pub open spec fn remove_model(m: NodeModel, depth: int, dirs: Seq<QTDir>, id: EntityId) -> NodeModel
    decreases m,
{
    match m {
        NodeModel::Leaf(ents, shard) => NodeModel::Leaf(
            ents.update(ents.index_of(id), ents.last()).drop_last(),
            shard,
        ),
        NodeModel::Parent(a, b, c, e) => {
            let d = dirs[depth];
            match d {
                QTDir::NE => NodeModel::Parent(Box::new(remove_model(*a, depth + 1, dirs, id)), b, c, e),
                QTDir::NW => NodeModel::Parent(a, Box::new(remove_model(*b, depth + 1, dirs, id)), c, e),
                QTDir::SW => NodeModel::Parent(a, b, Box::new(remove_model(*c, depth + 1, dirs, id)), e),
                QTDir::SE => NodeModel::Parent(a, b, c, Box::new(remove_model(*e, depth + 1, dirs, id))),
            }
        },
    }
}

/// All entities of a subtree, leaves in NE, NW, SW, SE order.
pub open spec fn all_entities(m: NodeModel) -> Seq<EntityId>
    decreases m,
{
    match m {
        NodeModel::Leaf(ents, _) => ents,
        NodeModel::Parent(a, b, c, e) => all_entities(*a) + all_entities(*b) + all_entities(*c)
            + all_entities(*e),
    }
}

/// `at` is the route to the node: parents stand above the maximal depth,
/// leaves hold at most `LEAF_CAPACITY` entities, and each entity has a
/// recorded position whose quarters start with the route to its leaf.
pub open spec fn node_wf(m: NodeModel, at: Seq<QTDir>, max: int, paths: Map<u32, Seq<QTDir>>) -> bool
    decreases m,
{
    match m {
        NodeModel::Leaf(ents, _) => {
            &&& ents.len() <= LEAF_CAPACITY
            &&& forall|i: int|
                0 <= i < ents.len() ==> paths.contains_key(#[trigger] ents[i].0) && at.len()
                    <= paths[ents[i].0].len() && paths[ents[i].0].take(at.len() as int) == at
        },
        NodeModel::Parent(a, b, c, e) => {
            &&& at.len() < max
            &&& node_wf(*a, at.push(QTDir::NE), max, paths)
            &&& node_wf(*b, at.push(QTDir::NW), max, paths)
            &&& node_wf(*c, at.push(QTDir::SW), max, paths)
            &&& node_wf(*e, at.push(QTDir::SE), max, paths)
        },
    }
}

/// Parents only stand above the maximal depth.
pub open spec fn shape_ok(m: NodeModel, depth: int, max: int) -> bool
    decreases m,
{
    match m {
        NodeModel::Leaf(..) => true,
        NodeModel::Parent(a, b, c, e) => depth < max && shape_ok(*a, depth + 1, max) && shape_ok(
            *b,
            depth + 1,
            max,
        ) && shape_ok(*c, depth + 1, max) && shape_ok(*e, depth + 1, max),
    }
}

pub open spec fn paths_long(paths: Map<u32, Seq<QTDir>>, max: int) -> bool {
    forall|k: u32| #[trigger] paths.contains_key(k) ==> paths[k].len() >= max
}

pub struct QuadTree {
    max_depth: u8,
    entities_transforms: HashMap<u32, Vec<QTDir>>,
    root: QTNode,
}

impl QuadTree {
    /// The recorded quarters of each entity's last position.
    pub closed spec fn paths(&self) -> Map<u32, Seq<QTDir>> {
        self.entities_transforms@.map_values(|v: Vec<QTDir>| v@)
    }

    pub closed spec fn tree(&self) -> NodeModel {
        model(self.root)
    }

    pub closed spec fn max_depth(&self) -> int {
        self.max_depth as int
    }

    /// Every entity of the tree is recorded and sits in the leaf its recorded
    /// position leads to, at most once; every recorded position reaches the
    /// maximal depth.
    pub open spec fn wf(&self) -> bool {
        &&& node_wf(self.tree(), Seq::empty(), self.max_depth(), self.paths())
        &&& all_entities(self.tree()).no_duplicates()
        &&& paths_long(self.paths(), self.max_depth())
    }

    /// The entity is recorded and stored in the leaf its recorded position
    /// leads to.
    pub open spec fn placed(&self, id: EntityId) -> bool {
        self.paths().contains_key(id.0) && leaf_at(self.tree(), 0, self.paths()[id.0]).0.contains(id)
    }
}

pub open spec fn paths_of(m: Map<u32, Vec<QTDir>>) -> Map<u32, Seq<QTDir>> {
    m.map_values(|v: Vec<QTDir>| v@)
}

fn copy_dirs(v: &Vec<QTDir>) -> (r: Vec<QTDir>)
    ensures
        r@ == v@,
{
    let mut r: Vec<QTDir> = Vec::new();
    let mut i: usize = 0;
    while i < v.len()
        invariant
            i <= v@.len(),
            r@ == v@.take(i as int),
        decreases v@.len() - i,
    {
        r.push(v[i]);
        i = i + 1;
        assert(r@ =~= v@.take(i as int));
    }
    assert(v@.take(i as int) =~= v@);
    r
}

fn is_leaf(n: &QTNode) -> (r: bool)
    ensures
        r == (n is Leaf),
{
    match n {
        QTNode::Leaf(_) => true,
        QTNode::Parent(..) => false,
    }
}

impl QTNode {
    /// Starts moving the entities of a freshly split node to the new shards
    /// of its quarters; fails unless the node is a parent of four leaves.
    fn start_authority_switch_after_split(node: &QTNode, new_shards: &[ShardId; 4]) -> (r: Result<(), ()>)
        ensures
            r is Ok <==> (match *node {
                QTNode::Parent(a, b, c, e) => *a is Leaf && *b is Leaf && *c is Leaf && *e is Leaf,
                QTNode::Leaf(_) => false,
            }),
    {
        match node {
            QTNode::Parent(a, b, c, e) => {
                if is_leaf(a) && is_leaf(b) && is_leaf(c) && is_leaf(e) {
                    Ok(())
                } else {
                    Err(())
                }
            },
            QTNode::Leaf(_) => Err(()),
        }
    }

    /// Splits a leaf into four quarter leaves that keep its shard; gives the
    /// leaf back unchanged when the split is refused.
    fn split(leaf: QTLeafNode, depth: u8, max_depth: u8, paths: &HashMap<u32, Vec<QTDir>>) -> (r: Result<
        QTNode,
        QTLeafNode,
    >)
        requires
            paths_long(paths_of(paths@), max_depth as int),
        ensures
            match split_model(leaf.entities@, leaf.shard_id, depth as int, max_depth as int, paths_of(paths@)) {
                None => r matches Err(l) && l.entities@ == leaf.entities@ && l.shard_id == leaf.shard_id,
                Some(p) => r matches Ok(n) && model(n) == p,
            },
    {
        let ghost pm = paths_of(paths@);
        let ghost ents = leaf.entities@;
        if depth >= max_depth {
            return Err(leaf);
        }
        let mut ne: Vec<EntityId> = Vec::new();
        let mut nw: Vec<EntityId> = Vec::new();
        let mut sw: Vec<EntityId> = Vec::new();
        let mut se: Vec<EntityId> = Vec::new();
        let mut i: usize = 0;
        proof {
            reveal_with_fuel(Seq::filter, 1);
        }
        while i < leaf.entities.len()
            invariant
                ents == leaf.entities@,
                pm == paths_of(paths@),
                paths_long(pm, max_depth as int),
                depth < max_depth,
                i <= ents.len(),
                forall|j: int| 0 <= j < i ==> pm.contains_key(#[trigger] ents[j].0),
                ne@ == quarter(ents.take(i as int), pm, depth as int, QTDir::NE),
                nw@ == quarter(ents.take(i as int), pm, depth as int, QTDir::NW),
                sw@ == quarter(ents.take(i as int), pm, depth as int, QTDir::SW),
                se@ == quarter(ents.take(i as int), pm, depth as int, QTDir::SE),
            decreases ents.len() - i,
        {
            let e = leaf.entities[i];
            let path = match paths.get(&e.0) {
                None => {
                    proof {
                        assert(!pm.contains_key(ents[i as int].0));
                    }
                    return Err(leaf);
                },
                Some(path) => path,
            };
            proof {
                assert(pm.contains_key(e.0));
                assert(pm[e.0] == path@);
            }
            let d = path[depth as usize];
            proof {
                let prev = ents.take(i as int);
                assert(ents.take(i + 1) =~= prev.push(e));
                prev.lemma_filter_push(e, in_quarter(pm, depth as int, QTDir::NE));
                prev.lemma_filter_push(e, in_quarter(pm, depth as int, QTDir::NW));
                prev.lemma_filter_push(e, in_quarter(pm, depth as int, QTDir::SW));
                prev.lemma_filter_push(e, in_quarter(pm, depth as int, QTDir::SE));
                assert(dir_at(pm, e, depth as int) == d);
            }
            match d {
                QTDir::NE => ne.push(e),
                QTDir::NW => nw.push(e),
                QTDir::SW => sw.push(e),
                QTDir::SE => se.push(e),
            }
            i = i + 1;
        }
        proof {
            assert(ents.take(i as int) =~= ents);
            assert(!(exists|j: int| 0 <= j < ents.len() && !pm.contains_key(#[trigger] ents[j].0)));
        }
        let shard = leaf.shard_id;
        // Every quarter starts on the shard of the split leaf; moving their
        // entities to new shards is started below.
        let new_shards: [ShardId; 4] = [0, 0, 0, 0];
        let node = QTNode::Parent(
            Box::new(QTNode::Leaf(QTLeafNode { entities: ne, shard_id: shard })),
            Box::new(QTNode::Leaf(QTLeafNode { entities: nw, shard_id: shard })),
            Box::new(QTNode::Leaf(QTLeafNode { entities: sw, shard_id: shard })),
            Box::new(QTNode::Leaf(QTLeafNode { entities: se, shard_id: shard })),
        );
        proof {
            reveal_with_fuel(model, 2);
            assert(split_model(ents, shard, depth as int, max_depth as int, pm) == Some(model(node)));
        }
        match Self::start_authority_switch_after_split(&node, &new_shards) {
            Ok(()) => Ok(node),
            Err(()) => Ok(node),
        }
    }

    /// Adds an entity below `node`, splitting full leaves on the way.
    fn add_entity(
        node: QTNode,
        node_depth: u8,
        max_depth: u8,
        paths: &HashMap<u32, Vec<QTDir>>,
        entity_id: EntityId,
        dirs: &Vec<QTDir>,
    ) -> (r: (QTNode, bool))
        requires
            node_depth <= max_depth,
            dirs@.len() >= max_depth,
            shape_ok(model(node), node_depth as int, max_depth as int),
            paths_long(paths_of(paths@), max_depth as int),
        ensures
            (model(r.0), r.1) == insert_model(
                model(node),
                node_depth as int,
                max_depth as int,
                paths_of(paths@),
                entity_id,
                dirs@,
            ),
        decreases max_depth - node_depth,
    {
        let ghost m = model(node);
        let node = match node {
            QTNode::Leaf(leaf) => {
                if leaf.entities.len() >= LEAF_CAPACITY {
                    match Self::split(leaf, node_depth, max_depth, paths) {
                        Err(leaf) => {
                            return (QTNode::Leaf(leaf), false);
                        },
                        Ok(p) => p,
                    }
                } else {
                    let mut leaf = leaf;
                    leaf.entities.push(entity_id);
                    return (QTNode::Leaf(leaf), true);
                }
            },
            p => p,
        };
        let ghost pm = model(node);
        assert(pm is Parent);
        assert(node_depth < max_depth);
        assert(insert_model(m, node_depth as int, max_depth as int, paths_of(paths@), entity_id, dirs@)
            == insert_in_parent(pm, node_depth as int, max_depth as int, paths_of(paths@), entity_id, dirs@));
        match node {
            QTNode::Parent(a, b, c, e) => {
                let d = dirs[node_depth as usize];
                match d {
                    QTDir::NE => {
                        let (x, ok) = Self::add_entity(*a, node_depth + 1, max_depth, paths, entity_id, dirs);
                        (QTNode::Parent(Box::new(x), b, c, e), ok)
                    },
                    QTDir::NW => {
                        let (x, ok) = Self::add_entity(*b, node_depth + 1, max_depth, paths, entity_id, dirs);
                        (QTNode::Parent(a, Box::new(x), c, e), ok)
                    },
                    QTDir::SW => {
                        let (x, ok) = Self::add_entity(*c, node_depth + 1, max_depth, paths, entity_id, dirs);
                        (QTNode::Parent(a, b, Box::new(x), e), ok)
                    },
                    QTDir::SE => {
                        let (x, ok) = Self::add_entity(*e, node_depth + 1, max_depth, paths, entity_id, dirs);
                        (QTNode::Parent(a, b, c, Box::new(x)), ok)
                    },
                }
            },
            QTNode::Leaf(l) => (QTNode::Leaf(l), false),
        }
    }

    /// The shard of the leaf that `dirs` lead to.
    fn shard_at(node: &QTNode, depth: u8, max_depth: u8, dirs: &Vec<QTDir>) -> (s: ShardId)
        requires
            depth <= max_depth,
            dirs@.len() >= max_depth,
            shape_ok(model(*node), depth as int, max_depth as int),
        ensures
            s == leaf_at(model(*node), depth as int, dirs@).1,
        decreases max_depth - depth,
    {
        match node {
            QTNode::Leaf(l) => l.shard_id,
            QTNode::Parent(a, b, c, e) => {
                let d = dirs[depth as usize];
                match d {
                    QTDir::NE => Self::shard_at(a, depth + 1, max_depth, dirs),
                    QTDir::NW => Self::shard_at(b, depth + 1, max_depth, dirs),
                    QTDir::SW => Self::shard_at(c, depth + 1, max_depth, dirs),
                    QTDir::SE => Self::shard_at(e, depth + 1, max_depth, dirs),
                }
            },
        }
    }

    /// Whether the leaf that `dirs` lead to holds the entity.
    fn leaf_holds(node: &QTNode, depth: u8, max_depth: u8, dirs: &Vec<QTDir>, id: EntityId) -> (r: bool)
        requires
            depth <= max_depth,
            dirs@.len() >= max_depth,
            shape_ok(model(*node), depth as int, max_depth as int),
        ensures
            r == leaf_at(model(*node), depth as int, dirs@).0.contains(id),
        decreases max_depth - depth,
    {
        match node {
            QTNode::Leaf(l) => {
                let mut i: usize = 0;
                while i < l.entities.len()
                    invariant
                        model(*node) == NodeModel::Leaf(l.entities@, l.shard_id),
                        i <= l.entities@.len(),
                        forall|j: int| 0 <= j < i ==> l.entities@[j] != id,
                    decreases l.entities@.len() - i,
                {
                    if l.entities[i] == id {
                        proof {
                            assert(l.entities@[i as int] == id);
                        }
                        return true;
                    }
                    i = i + 1;
                }
                false
            },
            QTNode::Parent(a, b, c, e) => {
                let d = dirs[depth as usize];
                match d {
                    QTDir::NE => Self::leaf_holds(a, depth + 1, max_depth, dirs, id),
                    QTDir::NW => Self::leaf_holds(b, depth + 1, max_depth, dirs, id),
                    QTDir::SW => Self::leaf_holds(c, depth + 1, max_depth, dirs, id),
                    QTDir::SE => Self::leaf_holds(e, depth + 1, max_depth, dirs, id),
                }
            },
        }
    }

    /// Takes an entity out of the leaf that `dirs` lead to.
    fn remove_entity(node: QTNode, depth: u8, max_depth: u8, dirs: &Vec<QTDir>, id: EntityId) -> (r: QTNode)
        requires
            depth <= max_depth,
            dirs@.len() >= max_depth,
            shape_ok(model(node), depth as int, max_depth as int),
            leaf_at(model(node), depth as int, dirs@).0.contains(id),
            leaf_at(model(node), depth as int, dirs@).0.no_duplicates(),
        ensures
            model(r) == remove_model(model(node), depth as int, dirs@, id),
        decreases max_depth - depth,
    {
        match node {
            QTNode::Leaf(leaf) => {
                let mut leaf = leaf;
                let ghost ents = leaf.entities@;
                let mut i: usize = 0;
                while i < leaf.entities.len() && leaf.entities[i] != id
                    invariant
                        ents == leaf.entities@,
                        ents.contains(id),
                        i <= ents.len(),
                        forall|j: int| 0 <= j < i ==> ents[j] != id,
                    decreases ents.len() - i,
                {
                    i = i + 1;
                }
                proof {
                    if i == ents.len() {
                        let k = choose|k: int| 0 <= k < ents.len() && ents[k] == id;
                        assert(false);
                    }
                    let k = ents.index_of(id);
                    assert(ents[k] == id);
                    assert(k == i as int);
                }
                leaf.entities.swap_remove(i);
                QTNode::Leaf(leaf)
            },
            QTNode::Parent(a, b, c, e) => {
                let d = dirs[depth as usize];
                match d {
                    QTDir::NE => QTNode::Parent(Box::new(Self::remove_entity(*a, depth + 1, max_depth, dirs, id)), b, c, e),
                    QTDir::NW => QTNode::Parent(a, Box::new(Self::remove_entity(*b, depth + 1, max_depth, dirs, id)), c, e),
                    QTDir::SW => QTNode::Parent(a, b, Box::new(Self::remove_entity(*c, depth + 1, max_depth, dirs, id)), e),
                    QTDir::SE => QTNode::Parent(a, b, c, Box::new(Self::remove_entity(*e, depth + 1, max_depth, dirs, id))),
                }
            },
        }
    }
}

// ---------------------------------------------------------------------------
// Laws of the tree
// ---------------------------------------------------------------------------

/// The entities of a subtree as a multiset.
pub open spec fn entity_set(m: NodeModel) -> Multiset<EntityId> {
    all_entities(m).to_multiset()
}

/// A well-formed node has its parents above the maximal depth.
pub proof fn lemma_wf_shape(m: NodeModel, at: Seq<QTDir>, max: int, paths: Map<u32, Seq<QTDir>>)
    requires
        node_wf(m, at, max, paths),
    ensures
        shape_ok(m, at.len() as int, max),
    decreases m,
{
    match m {
        NodeModel::Leaf(..) => {},
        NodeModel::Parent(a, b, c, e) => {
            lemma_wf_shape(*a, at.push(QTDir::NE), max, paths);
            lemma_wf_shape(*b, at.push(QTDir::NW), max, paths);
            lemma_wf_shape(*c, at.push(QTDir::SW), max, paths);
            lemma_wf_shape(*e, at.push(QTDir::SE), max, paths);
        },
    }
}

proof fn lemma_parent_entities(a: NodeModel, b: NodeModel, c: NodeModel, e: NodeModel)
    ensures
        entity_set(NodeModel::Parent(Box::new(a), Box::new(b), Box::new(c), Box::new(e)))
            =~= entity_set(a).add(entity_set(b)).add(entity_set(c)).add(entity_set(e)),
{
    let x = all_entities(a);
    let y = all_entities(b);
    let z = all_entities(c);
    let w = all_entities(e);
    vstd::seq_lib::lemma_multiset_commutative(x + y + z, w);
    vstd::seq_lib::lemma_multiset_commutative(x + y, z);
    vstd::seq_lib::lemma_multiset_commutative(x, y);
}

/// The four quarters of a leaf hold exactly its entities.
pub proof fn lemma_quarters_partition(ents: Seq<EntityId>, paths: Map<u32, Seq<QTDir>>, depth: int)
    ensures
        quarter(ents, paths, depth, QTDir::NE).to_multiset().add(
            quarter(ents, paths, depth, QTDir::NW).to_multiset(),
        ).add(quarter(ents, paths, depth, QTDir::SW).to_multiset()).add(
            quarter(ents, paths, depth, QTDir::SE).to_multiset(),
        ) =~= ents.to_multiset(),
    decreases ents.len(),
{
    broadcast use vstd::seq_lib::group_to_multiset_ensures;
    broadcast use vstd::multiset::group_multiset_axioms;

    if ents.len() == 0 {
        reveal_with_fuel(Seq::filter, 1);
    } else {
        let prev = ents.drop_last();
        let e = ents.last();
        assert(ents =~= prev.push(e));
        lemma_quarters_partition(prev, paths, depth);
        prev.lemma_filter_push(e, in_quarter(paths, depth, QTDir::NE));
        prev.lemma_filter_push(e, in_quarter(paths, depth, QTDir::NW));
        prev.lemma_filter_push(e, in_quarter(paths, depth, QTDir::SW));
        prev.lemma_filter_push(e, in_quarter(paths, depth, QTDir::SE));
    }
}

/// Every entity of a quarter comes from the leaf and falls in that quarter.
pub proof fn lemma_quarter_members(ents: Seq<EntityId>, paths: Map<u32, Seq<QTDir>>, depth: int, d: QTDir, i: int)
    requires
        0 <= i < quarter(ents, paths, depth, d).len(),
    ensures
        ents.contains(quarter(ents, paths, depth, d)[i]),
        dir_at(paths, quarter(ents, paths, depth, d)[i], depth) == d,
        quarter(ents, paths, depth, d).len() <= ents.len(),
{
    broadcast use vstd::seq_lib::group_filter_ensures;
    let q = quarter(ents, paths, depth, d);
    ents.lemma_filter_len(in_quarter(paths, depth, d));
    ents.lemma_filter_pred(in_quarter(paths, depth, d), i);
    ents.lemma_filter_contains_rev(in_quarter(paths, depth, d), q[i]);
}

proof fn lemma_split_child_wf(
    ents: Seq<EntityId>,
    at: Seq<QTDir>,
    max: int,
    paths: Map<u32, Seq<QTDir>>,
    d: QTDir,
)
    requires
        node_wf(NodeModel::Leaf(ents, 0), at, max, paths),
        at.len() < max,
        paths_long(paths, max),
    ensures
        node_wf(NodeModel::Leaf(quarter(ents, paths, at.len() as int, d), 0), at.push(d), max, paths),
{
    let q = quarter(ents, paths, at.len() as int, d);
    let at2 = at.push(d);
    if q.len() > 0 {
        lemma_quarter_members(ents, paths, at.len() as int, d, 0);
    }
    assert forall|i: int| 0 <= i < q.len() implies paths.contains_key(#[trigger] q[i].0) && at2.len()
        <= paths[q[i].0].len() && paths[q[i].0].take(at2.len() as int) == at2 by {
        lemma_quarter_members(ents, paths, at.len() as int, d, i);
        let k = choose|k: int| 0 <= k < ents.len() && ents[k] == q[i];
        assert(ents[k] == q[i]);
        let p = paths[q[i].0];
        assert(p.take(at.len() as int) == at);
        assert(p[at.len() as int] == d);
        assert(p.take(at2.len() as int) =~= p.take(at.len() as int).push(d));
    }
}

/// Node well-formedness looks at leaves only through their entities, not
/// their shards.
proof fn lemma_leaf_wf_shard(ents: Seq<EntityId>, s1: ShardId, s2: ShardId, at: Seq<QTDir>, max: int, paths: Map<u32, Seq<QTDir>>)
    ensures
        node_wf(NodeModel::Leaf(ents, s1), at, max, paths) == node_wf(NodeModel::Leaf(ents, s2), at, max, paths),
{
}

/// A split of a well-formed full leaf is well-formed, keeps the leaf's
/// entities, and serves every position from the leaf's shard.
pub proof fn lemma_split_wf(
    ents: Seq<EntityId>,
    shard: ShardId,
    at: Seq<QTDir>,
    max: int,
    paths: Map<u32, Seq<QTDir>>,
)
    requires
        node_wf(NodeModel::Leaf(ents, shard), at, max, paths),
        paths_long(paths, max),
        split_model(ents, shard, at.len() as int, max, paths) is Some,
    ensures
        ({
            let p = split_model(ents, shard, at.len() as int, max, paths).unwrap();
            &&& node_wf(p, at, max, paths)
            &&& entity_set(p) == ents.to_multiset()
            &&& forall|dirs: Seq<QTDir>| #[trigger] leaf_at(p, at.len() as int, dirs).1 == shard
        }),
{
    let depth = at.len() as int;
    let p = split_model(ents, shard, depth, max, paths).unwrap();
    lemma_leaf_wf_shard(ents, shard, 0, at, max, paths);
    lemma_split_child_wf(ents, at, max, paths, QTDir::NE);
    lemma_split_child_wf(ents, at, max, paths, QTDir::NW);
    lemma_split_child_wf(ents, at, max, paths, QTDir::SW);
    lemma_split_child_wf(ents, at, max, paths, QTDir::SE);
    lemma_leaf_wf_shard(quarter(ents, paths, depth, QTDir::NE), shard, 0, at.push(QTDir::NE), max, paths);
    lemma_leaf_wf_shard(quarter(ents, paths, depth, QTDir::NW), shard, 0, at.push(QTDir::NW), max, paths);
    lemma_leaf_wf_shard(quarter(ents, paths, depth, QTDir::SW), shard, 0, at.push(QTDir::SW), max, paths);
    lemma_leaf_wf_shard(quarter(ents, paths, depth, QTDir::SE), shard, 0, at.push(QTDir::SE), max, paths);
    match p {
        NodeModel::Parent(a, b, c, e) => {
            lemma_parent_entities(*a, *b, *c, *e);
        },
        _ => {},
    }
    lemma_quarters_partition(ents, paths, depth);
    assert forall|dirs: Seq<QTDir>| #[trigger] leaf_at(p, depth, dirs).1 == shard by {
        reveal_with_fuel(leaf_at, 2);
    }
}

/// What adding an entity guarantees of the node below which it is added.
pub open spec fn insert_post(
    m: NodeModel,
    at: Seq<QTDir>,
    max: int,
    paths: Map<u32, Seq<QTDir>>,
    id: EntityId,
    dirs: Seq<QTDir>,
    r: (NodeModel, bool),
) -> bool {
    &&& node_wf(r.0, at, max, paths)
    &&& entity_set(r.0) == (if r.1 {
        entity_set(m).insert(id)
    } else {
        entity_set(m)
    })
    &&& r.1 ==> leaf_at(r.0, at.len() as int, dirs).0.contains(id)
    &&& r.1 || (leaf_at(r.0, at.len() as int, dirs).0.len() >= LEAF_CAPACITY && leaf_depth(
        r.0,
        at.len() as int,
        dirs,
    ) >= max)
    &&& leaf_at(m, at.len() as int, dirs).0.len() >= LEAF_CAPACITY && leaf_depth(m, at.len() as int, dirs)
        < max ==> leaf_depth(r.0, at.len() as int, dirs) > leaf_depth(m, at.len() as int, dirs)
    &&& leaf_at(m, at.len() as int, dirs).0.len() < LEAF_CAPACITY ==> r.1
}

/// The depth of the leaf that positions with quarters `dirs` fall in.
pub open spec fn leaf_depth(m: NodeModel, depth: int, dirs: Seq<QTDir>) -> int
    decreases m,
{
    match m {
        NodeModel::Leaf(..) => depth,
        NodeModel::Parent(a, b, c, e) => match dirs[depth] {
            QTDir::NE => leaf_depth(*a, depth + 1, dirs),
            QTDir::NW => leaf_depth(*b, depth + 1, dirs),
            QTDir::SW => leaf_depth(*c, depth + 1, dirs),
            QTDir::SE => leaf_depth(*e, depth + 1, dirs),
        },
    }
}

/// A leaf lies no higher than the node it is searched from.
proof fn lemma_leaf_depth_below(m: NodeModel, depth: int, dirs: Seq<QTDir>)
    ensures
        leaf_depth(m, depth, dirs) >= depth,
        m is Parent ==> leaf_depth(m, depth, dirs) > depth,
    decreases m,
{
    match m {
        NodeModel::Leaf(..) => {},
        NodeModel::Parent(a, b, c, e) => {
            lemma_leaf_depth_below(*a, depth + 1, dirs);
            lemma_leaf_depth_below(*b, depth + 1, dirs);
            lemma_leaf_depth_below(*c, depth + 1, dirs);
            lemma_leaf_depth_below(*e, depth + 1, dirs);
        },
    }
}

/// Adding a recorded entity along its recorded route keeps the subtree
/// well-formed, adds exactly that entity when it succeeds (and nothing when it
/// fails), and stores it in the leaf its position leads to.
pub proof fn lemma_insert(
    m: NodeModel,
    at: Seq<QTDir>,
    max: int,
    paths: Map<u32, Seq<QTDir>>,
    id: EntityId,
    dirs: Seq<QTDir>,
)
    requires
        node_wf(m, at, max, paths),
        paths_long(paths, max),
        paths.contains_key(id.0),
        paths[id.0] == dirs,
        at.len() <= max,
        dirs.take(at.len() as int) == at,
    ensures
        insert_post(m, at, max, paths, id, dirs, insert_model(m, at.len() as int, max, paths, id, dirs)),
    decreases max - at.len(), 1int,
{
    broadcast use vstd::seq_lib::group_to_multiset_ensures;

    let depth = at.len() as int;
    match m {
        NodeModel::Leaf(ents, shard) => {
            if ents.len() + 1 > LEAF_CAPACITY {
                match split_model(ents, shard, depth, max, paths) {
                    None => {
                        assert(depth >= max) by {
                            if exists|i: int| 0 <= i < ents.len() && !paths.contains_key(#[trigger] ents[i].0) {
                                let i = choose|i: int| 0 <= i < ents.len() && !paths.contains_key(#[trigger] ents[i].0);
                                assert(paths.contains_key(ents[i].0));
                            }
                        }
                    },
                    Some(p) => {
                        lemma_split_wf(ents, shard, at, max, paths);
                        lemma_insert_parent(p, at, max, paths, id, dirs);
                        let res = insert_in_parent(p, depth, max, paths, id, dirs);
                        assert(res.0 is Parent);
                        lemma_leaf_depth_below(res.0, depth, dirs);
                    },
                }
            } else {
                let n = ents.push(id);
                assert(n[ents.len() as int] == id);
                assert forall|i: int| 0 <= i < n.len() implies paths.contains_key(#[trigger] n[i].0)
                    && at.len() <= paths[n[i].0].len() && paths[n[i].0].take(at.len() as int) == at by {
                    if i < ents.len() {
                        assert(n[i] == ents[i]);
                    }
                }
            }
        },
        NodeModel::Parent(..) => {
            lemma_insert_parent(m, at, max, paths, id, dirs);
        },
    }
}

/// The same below a parent: the entity goes into the child of its quarter.
pub proof fn lemma_insert_parent(
    p: NodeModel,
    at: Seq<QTDir>,
    max: int,
    paths: Map<u32, Seq<QTDir>>,
    id: EntityId,
    dirs: Seq<QTDir>,
)
    requires
        p is Parent,
        node_wf(p, at, max, paths),
        paths_long(paths, max),
        paths.contains_key(id.0),
        paths[id.0] == dirs,
        at.len() <= max,
        dirs.take(at.len() as int) == at,
    ensures
        insert_post(p, at, max, paths, id, dirs, insert_in_parent(p, at.len() as int, max, paths, id, dirs)),
    decreases max - at.len(), 0int,
{
    broadcast use vstd::multiset::group_multiset_axioms;

    let depth = at.len() as int;
    let d = dirs[depth];
    let at2 = at.push(d);
    assert(dirs.take(depth + 1) =~= at2);
    let child = child_of(p, d);
    lemma_insert(child, at2, max, paths, id, dirs);
    let r = insert_model(child, depth + 1, max, paths, id, dirs);
    match p {
        NodeModel::Parent(a, b, c, e) => {
            lemma_parent_entities(*a, *b, *c, *e);
            let res = insert_in_parent(p, depth, max, paths, id, dirs);
            assert(res.1 == r.1);
            match d {
                QTDir::NE => {
                    lemma_parent_entities(r.0, *b, *c, *e);
                    assert(res.0 == NodeModel::Parent(Box::new(r.0), b, c, e));
                },
                QTDir::NW => {
                    lemma_parent_entities(*a, r.0, *c, *e);
                    assert(res.0 == NodeModel::Parent(a, Box::new(r.0), c, e));
                },
                QTDir::SW => {
                    lemma_parent_entities(*a, *b, r.0, *e);
                    assert(res.0 == NodeModel::Parent(a, b, Box::new(r.0), e));
                },
                QTDir::SE => {
                    lemma_parent_entities(*a, *b, *c, r.0);
                    assert(res.0 == NodeModel::Parent(a, b, c, Box::new(r.0)));
                },
            }
            assert(node_wf(res.0, at, max, paths));
            assert(leaf_at(res.0, depth, dirs) == leaf_at(r.0, depth + 1, dirs));
            assert(leaf_depth(res.0, depth, dirs) == leaf_depth(r.0, depth + 1, dirs));
            assert(leaf_at(p, depth, dirs) == leaf_at(child, depth + 1, dirs));
            assert(leaf_depth(p, depth, dirs) == leaf_depth(child, depth + 1, dirs));
            assert(res.1 ==> leaf_at(res.0, depth, dirs).0.contains(id));
            if res.1 {
                assert(entity_set(res.0) =~= entity_set(p).insert(id));
            } else {
                assert(entity_set(res.0) =~= entity_set(p));
            }
        },
        _ => {},
    }
}

/// Adding an entity never changes which shard serves any position: a split
/// leaf's quarters keep its shard.
pub proof fn lemma_insert_keeps_shards(
    m: NodeModel,
    depth: int,
    max: int,
    paths: Map<u32, Seq<QTDir>>,
    id: EntityId,
    dirs: Seq<QTDir>,
    probe: Seq<QTDir>,
)
    ensures
        leaf_at(insert_model(m, depth, max, paths, id, dirs).0, depth, probe).1 == leaf_at(m, depth, probe).1,
    decreases max - depth, 1int,
{
    match m {
        NodeModel::Leaf(ents, shard) => {
            if ents.len() + 1 > LEAF_CAPACITY {
                match split_model(ents, shard, depth, max, paths) {
                    None => {},
                    Some(p) => {
                        reveal_with_fuel(leaf_at, 2);
                        assert(leaf_at(p, depth, probe).1 == shard);
                        lemma_insert_parent_keeps_shards(p, depth, max, paths, id, dirs, probe);
                    },
                }
            }
        },
        NodeModel::Parent(..) => {
            lemma_insert_parent_keeps_shards(m, depth, max, paths, id, dirs, probe);
        },
    }
}

pub proof fn lemma_insert_parent_keeps_shards(
    p: NodeModel,
    depth: int,
    max: int,
    paths: Map<u32, Seq<QTDir>>,
    id: EntityId,
    dirs: Seq<QTDir>,
    probe: Seq<QTDir>,
)
    requires
        p is Parent,
    ensures
        leaf_at(insert_in_parent(p, depth, max, paths, id, dirs).0, depth, probe).1 == leaf_at(p, depth, probe).1,
    decreases max - depth, 0int,
{
    if depth < max {
        let d = dirs[depth];
        lemma_insert_keeps_shards(child_of(p, d), depth + 1, max, paths, id, dirs, probe);
    }
}

/// Every entity of a well-formed subtree is recorded.
pub proof fn lemma_entities_recorded(m: NodeModel, at: Seq<QTDir>, max: int, paths: Map<u32, Seq<QTDir>>, e: EntityId)
    requires
        node_wf(m, at, max, paths),
        all_entities(m).contains(e),
    ensures
        paths.contains_key(e.0),
    decreases m,
{
    match m {
        NodeModel::Leaf(ents, _) => {
            let i = choose|i: int| 0 <= i < ents.len() && ents[i] == e;
            assert(paths.contains_key(ents[i].0));
        },
        NodeModel::Parent(a, b, c, x) => {
            let (sa, sb, sc, sx) = (all_entities(*a), all_entities(*b), all_entities(*c), all_entities(*x));
            assert(all_entities(m) == sa + sb + sc + sx);
            if sa.contains(e) {
                lemma_entities_recorded(*a, at.push(QTDir::NE), max, paths, e);
            } else if sb.contains(e) {
                lemma_entities_recorded(*b, at.push(QTDir::NW), max, paths, e);
            } else if sc.contains(e) {
                lemma_entities_recorded(*c, at.push(QTDir::SW), max, paths, e);
            } else {
                let i = choose|i: int| 0 <= i < all_entities(m).len() && all_entities(m)[i] == e;
                if i < sa.len() {
                    assert(sa[i] == e);
                } else if i < sa.len() + sb.len() {
                    assert(sb[i - sa.len()] == e);
                } else if i < sa.len() + sb.len() + sc.len() {
                    assert(sc[i - sa.len() - sb.len()] == e);
                } else {
                    assert(sx[i - sa.len() - sb.len() - sc.len()] == e);
                }
                lemma_entities_recorded(*x, at.push(QTDir::SE), max, paths, e);
            }
        },
    }
}

/// Every entity of a well-formed subtree has a recorded position that runs
/// through the subtree's route, and sits in the leaf that position leads to.
pub proof fn lemma_entity_placed(m: NodeModel, at: Seq<QTDir>, max: int, paths: Map<u32, Seq<QTDir>>, e: EntityId)
    requires
        node_wf(m, at, max, paths),
        all_entities(m).contains(e),
    ensures
        paths.contains_key(e.0),
        paths[e.0].len() >= at.len(),
        paths[e.0].take(at.len() as int) == at,
        leaf_at(m, at.len() as int, paths[e.0]).0.contains(e),
    decreases m,
{
    match m {
        NodeModel::Leaf(ents, _) => {
            let i = choose|i: int| 0 <= i < ents.len() && ents[i] == e;
            assert(paths.contains_key(ents[i].0));
        },
        NodeModel::Parent(a, b, c, x) => {
            let (sa, sb, sc, sx) = (all_entities(*a), all_entities(*b), all_entities(*c), all_entities(*x));
            assert(all_entities(m) == sa + sb + sc + sx);
            let d = if sa.contains(e) {
                QTDir::NE
            } else if sb.contains(e) {
                QTDir::NW
            } else if sc.contains(e) {
                QTDir::SW
            } else {
                let i = choose|i: int| 0 <= i < all_entities(m).len() && all_entities(m)[i] == e;
                if i < sa.len() {
                    assert(sa[i] == e);
                } else if i < sa.len() + sb.len() {
                    assert(sb[i - sa.len()] == e);
                } else if i < sa.len() + sb.len() + sc.len() {
                    assert(sc[i - sa.len() - sb.len()] == e);
                } else {
                    assert(sx[i - sa.len() - sb.len() - sc.len()] == e);
                }
                QTDir::SE
            };
            let child = child_of(m, d);
            let at2 = at.push(d);
            lemma_entity_placed(child, at2, max, paths, e);
            let p = paths[e.0];
            assert(p.take(at2.len() as int)[at.len() as int] == p[at.len() as int]);
            assert(p[at.len() as int] == d);
            assert(p.take(at.len() as int) =~= p.take(at2.len() as int).take(at.len() as int));
        },
    }
}

/// In a well-formed tree an entity is placed exactly when the tree holds
/// it, and it is held once.
pub proof fn lemma_tree_entities_placed(t: &QuadTree, e: EntityId)
    requires
        t.wf(),
    ensures
        t.placed(e) <==> all_entities(t.tree()).contains(e),
        all_entities(t.tree()).no_duplicates(),
{
    broadcast use vstd::multiset::group_multiset_axioms;
    broadcast use vstd::seq_lib::group_to_multiset_ensures;

    if all_entities(t.tree()).contains(e) {
        lemma_entity_placed(t.tree(), Seq::empty(), t.max_depth(), t.paths(), e);
    }
    if t.placed(e) {
        let leaf = leaf_at(t.tree(), 0, t.paths()[e.0]).0;
        lemma_leaf_in_subtree(t.tree(), 0, t.paths()[e.0]);
        assert(leaf.to_multiset().contains(e));
        assert(entity_set(t.tree()).contains(e));
    }
}

/// Adding a new entity to a well-formed tree: where the leaf its position
/// leads to has room, the entity is stored; a full leaf above the maximal
/// depth is split, so the leaf the position then leads to lies deeper; and
/// the entity is refused only where that leaf is full at the maximal depth.
pub proof fn lemma_add_refused_only_at_max_depth(t: &QuadTree, id: EntityId, dirs: Seq<QTDir>)
    requires
        t.wf(),
        !t.paths().contains_key(id.0),
        dirs.len() >= t.max_depth(),
    ensures
        ({
            let max = t.max_depth();
            let r = insert_model(t.tree(), 0, max, t.paths().insert(id.0, dirs), id, dirs);
            &&& leaf_at(t.tree(), 0, dirs).0.len() < LEAF_CAPACITY ==> r.1
            &&& leaf_at(t.tree(), 0, dirs).0.len() >= LEAF_CAPACITY && leaf_depth(t.tree(), 0, dirs) < max
                ==> leaf_depth(r.0, 0, dirs) > leaf_depth(t.tree(), 0, dirs)
            &&& !r.1 ==> leaf_at(r.0, 0, dirs).0.len() >= LEAF_CAPACITY && leaf_depth(r.0, 0, dirs) >= max
        }),
{
    let max = t.max_depth();
    let paths = t.paths().insert(id.0, dirs);
    lemma_wf_shape(t.tree(), Seq::empty(), max, t.paths());
    lemma_unrecorded_absent(t.tree(), Seq::empty(), max, t.paths(), id.0);
    assert(EntityId(id.0) == id);
    lemma_wf_record_other(t.tree(), Seq::empty(), max, t.paths(), id.0, dirs);
    assert(paths_long(paths, max));
    assert(dirs.take(0) =~= Seq::<QTDir>::empty());
    lemma_insert(t.tree(), Seq::empty(), max, paths, id, dirs);
}

/// An entity placed in one well-formed tree and held by another well-formed
/// tree is placed there too.
proof fn lemma_kept_entity_placed(t1: &QuadTree, t2: &QuadTree, e: EntityId)
    requires
        t1.wf(),
        t2.wf(),
        t1.placed(e),
        entity_set(t1.tree()).contains(e) ==> entity_set(t2.tree()).contains(e),
    ensures
        t2.placed(e),
{
    broadcast use vstd::multiset::group_multiset_axioms;
    broadcast use vstd::seq_lib::group_to_multiset_ensures;

    lemma_tree_entities_placed(t1, e);
    lemma_tree_entities_placed(t2, e);
}

/// Recording a position under a key that no entity of the subtree uses
/// keeps the subtree well-formed.
pub proof fn lemma_wf_record_other(
    m: NodeModel,
    at: Seq<QTDir>,
    max: int,
    paths: Map<u32, Seq<QTDir>>,
    k: u32,
    v: Seq<QTDir>,
)
    requires
        node_wf(m, at, max, paths),
        !all_entities(m).contains(EntityId(k)),
    ensures
        node_wf(m, at, max, paths.insert(k, v)),
    decreases m,
{
    match m {
        NodeModel::Leaf(ents, _) => {
            assert forall|i: int| 0 <= i < ents.len() implies #[trigger] ents[i].0 != k by {
                if ents[i].0 == k {
                    assert(ents[i] == EntityId(k));
                }
            }
        },
        NodeModel::Parent(a, b, c, x) => {
            let (sa, sb, sc, sx) = (all_entities(*a), all_entities(*b), all_entities(*c), all_entities(*x));
            let all = all_entities(m);
            assert(all == sa + sb + sc + sx);
            assert(!sa.contains(EntityId(k))) by {
                if sa.contains(EntityId(k)) {
                    let i = choose|i: int| 0 <= i < sa.len() && sa[i] == EntityId(k);
                    assert(all[i] == sa[i]);
                }
            }
            assert(!sb.contains(EntityId(k))) by {
                if sb.contains(EntityId(k)) {
                    let i = choose|i: int| 0 <= i < sb.len() && sb[i] == EntityId(k);
                    assert(all[sa.len() + i] == sb[i]);
                }
            }
            assert(!sc.contains(EntityId(k))) by {
                if sc.contains(EntityId(k)) {
                    let i = choose|i: int| 0 <= i < sc.len() && sc[i] == EntityId(k);
                    assert(all[sa.len() + sb.len() + i] == sc[i]);
                }
            }
            assert(!sx.contains(EntityId(k))) by {
                if sx.contains(EntityId(k)) {
                    let i = choose|i: int| 0 <= i < sx.len() && sx[i] == EntityId(k);
                    assert(all[sa.len() + sb.len() + sc.len() + i] == sx[i]);
                }
            }
            lemma_wf_record_other(*a, at.push(QTDir::NE), max, paths, k, v);
            lemma_wf_record_other(*b, at.push(QTDir::NW), max, paths, k, v);
            lemma_wf_record_other(*c, at.push(QTDir::SW), max, paths, k, v);
            lemma_wf_record_other(*x, at.push(QTDir::SE), max, paths, k, v);
        },
    }
}

/// The multiset of a sequence after `swap_remove(k)`.
pub proof fn lemma_swap_remove_multiset<T>(s: Seq<T>, k: int)
    requires
        0 <= k < s.len(),
    ensures
        s.update(k, s.last()).drop_last().to_multiset() =~= s.to_multiset().remove(s[k]),
{
    broadcast use vstd::seq_lib::group_to_multiset_ensures;
    broadcast use vstd::multiset::group_multiset_axioms;

    let t = s.drop_last();
    let last = s.last();
    assert(s =~= t.push(last));
    let r = s.update(k, last).drop_last();
    if k == s.len() - 1 {
        assert(r =~= t);
    } else {
        assert(r =~= t.take(k) + seq![last] + t.skip(k + 1));
        assert(t =~= t.take(k) + seq![t[k]] + t.skip(k + 1));
        vstd::seq_lib::lemma_multiset_commutative(t.take(k) + seq![last], t.skip(k + 1));
        vstd::seq_lib::lemma_multiset_commutative(t.take(k), seq![last]);
        vstd::seq_lib::lemma_multiset_commutative(t.take(k) + seq![t[k]], t.skip(k + 1));
        vstd::seq_lib::lemma_multiset_commutative(t.take(k), seq![t[k]]);
        assert(seq![last] =~= Seq::<T>::empty().push(last));
        assert(seq![t[k]] =~= Seq::<T>::empty().push(t[k]));
        assert(t[k] == s[k]);
    }
}

/// A leaf's entities are among the subtree's entities.
pub proof fn lemma_leaf_in_subtree(m: NodeModel, depth: int, dirs: Seq<QTDir>)
    ensures
        leaf_at(m, depth, dirs).0.to_multiset().subset_of(entity_set(m)),
    decreases m,
{
    broadcast use vstd::multiset::group_multiset_axioms;

    match m {
        NodeModel::Leaf(..) => {},
        NodeModel::Parent(a, b, c, e) => {
            lemma_parent_entities(*a, *b, *c, *e);
            lemma_leaf_in_subtree(*a, depth + 1, dirs);
            lemma_leaf_in_subtree(*b, depth + 1, dirs);
            lemma_leaf_in_subtree(*c, depth + 1, dirs);
            lemma_leaf_in_subtree(*e, depth + 1, dirs);
        },
    }
}

/// In a tree without duplicate entities, no leaf holds one twice.
pub proof fn lemma_leaf_no_dup(m: NodeModel, depth: int, dirs: Seq<QTDir>)
    requires
        all_entities(m).no_duplicates(),
    ensures
        leaf_at(m, depth, dirs).0.no_duplicates(),
{
    broadcast use vstd::multiset::group_multiset_axioms;

    let leaf = leaf_at(m, depth, dirs).0;
    lemma_leaf_in_subtree(m, depth, dirs);
    all_entities(m).lemma_multiset_has_no_duplicates();
    assert forall|x: EntityId| leaf.to_multiset().contains(x) implies leaf.to_multiset().count(x) == 1 by {
        assert(leaf.to_multiset().count(x) <= entity_set(m).count(x));
    }
    leaf.lemma_multiset_has_no_duplicates_conv();
}

/// Taking a stored entity out keeps the subtree well-formed and removes
/// exactly that entity.
pub proof fn lemma_remove(m: NodeModel, at: Seq<QTDir>, max: int, paths: Map<u32, Seq<QTDir>>, dirs: Seq<QTDir>, id: EntityId)
    requires
        node_wf(m, at, max, paths),
        leaf_at(m, at.len() as int, dirs).0.contains(id),
    ensures
        node_wf(remove_model(m, at.len() as int, dirs, id), at, max, paths),
        entity_set(remove_model(m, at.len() as int, dirs, id)) =~= entity_set(m).remove(id),
    decreases m,
{
    broadcast use vstd::multiset::group_multiset_axioms;
    broadcast use vstd::seq_lib::group_to_multiset_ensures;

    let depth = at.len() as int;
    match m {
        NodeModel::Leaf(ents, shard) => {
            let k = ents.index_of(id);
            assert(ents[k] == id);
            lemma_swap_remove_multiset(ents, k);
            let r = ents.update(k, ents.last()).drop_last();
            assert(remove_model(m, depth, dirs, id) == NodeModel::Leaf(r, shard));
            assert forall|i: int| 0 <= i < r.len() implies paths.contains_key(#[trigger] r[i].0)
                && at.len() <= paths[r[i].0].len() && paths[r[i].0].take(at.len() as int) == at by {
                if i == k {
                    assert(r[i] == ents[ents.len() - 1]);
                } else {
                    assert(r[i] == ents[i]);
                }
            }
        },
        NodeModel::Parent(a, b, c, e) => {
            lemma_parent_entities(*a, *b, *c, *e);
            let d = dirs[depth];
            let ch = child_of(m, d);
            let leaf = leaf_at(ch, depth + 1, dirs).0;
            assert(leaf == leaf_at(m, depth, dirs).0);
            lemma_remove(ch, at.push(d), max, paths, dirs, id);
            lemma_leaf_in_subtree(ch, depth + 1, dirs);
            assert(leaf.to_multiset().count(id) > 0);
            assert(entity_set(ch).count(id) > 0);
            let rc = remove_model(ch, depth + 1, dirs, id);
            match d {
                QTDir::NE => {
                    assert(remove_model(m, depth, dirs, id) == NodeModel::Parent(Box::new(rc), b, c, e));
                    lemma_parent_entities(rc, *b, *c, *e);
                },
                QTDir::NW => {
                    assert(remove_model(m, depth, dirs, id) == NodeModel::Parent(a, Box::new(rc), c, e));
                    lemma_parent_entities(*a, rc, *c, *e);
                },
                QTDir::SW => {
                    assert(remove_model(m, depth, dirs, id) == NodeModel::Parent(a, b, Box::new(rc), e));
                    lemma_parent_entities(*a, *b, rc, *e);
                },
                QTDir::SE => {
                    assert(remove_model(m, depth, dirs, id) == NodeModel::Parent(a, b, c, Box::new(rc)));
                    lemma_parent_entities(*a, *b, *c, rc);
                },
            }
        },
    }
}

/// Adding one new entity to a list without duplicates keeps it free of them.
proof fn lemma_no_dup_insert(s: Seq<EntityId>, t: Seq<EntityId>, x: EntityId)
    requires
        s.no_duplicates(),
        !s.contains(x),
        t.to_multiset() == s.to_multiset().insert(x),
    ensures
        t.no_duplicates(),
{
    broadcast use vstd::multiset::group_multiset_axioms;
    broadcast use vstd::seq_lib::group_to_multiset_ensures;

    s.lemma_multiset_has_no_duplicates();
    assert forall|y: EntityId| t.to_multiset().contains(y) implies t.to_multiset().count(y) == 1 by {
        if y != x {
            assert(s.to_multiset().contains(y));
        } else {
            assert(s.to_multiset().count(x) == 0);
        }
    }
    t.lemma_multiset_has_no_duplicates_conv();
}

/// A list with the same elements as a list without duplicates has none.
proof fn lemma_no_dup_same(s: Seq<EntityId>, t: Seq<EntityId>)
    requires
        s.no_duplicates(),
        t.to_multiset() == s.to_multiset(),
    ensures
        t.no_duplicates(),
{
    broadcast use vstd::multiset::group_multiset_axioms;

    s.lemma_multiset_has_no_duplicates();
    t.lemma_multiset_has_no_duplicates_conv();
}

/// Removing an entity from a list without duplicates leaves none of it.
proof fn lemma_no_dup_remove(s: Seq<EntityId>, t: Seq<EntityId>, x: EntityId)
    requires
        s.no_duplicates(),
        t.to_multiset() == s.to_multiset().remove(x),
    ensures
        t.no_duplicates(),
        !t.contains(x),
{
    broadcast use vstd::multiset::group_multiset_axioms;
    broadcast use vstd::seq_lib::group_to_multiset_ensures;

    s.lemma_multiset_has_no_duplicates();
    assert forall|y: EntityId| t.to_multiset().contains(y) implies t.to_multiset().count(y) == 1 by {
        assert(s.to_multiset().contains(y));
    }
    t.lemma_multiset_has_no_duplicates_conv();
    if s.to_multiset().contains(x) {
        assert(s.to_multiset().count(x) == 1);
    }
    assert(t.to_multiset().count(x) == 0);
}

/// An entity without a recorded position is not in a well-formed subtree.
proof fn lemma_unrecorded_absent(m: NodeModel, at: Seq<QTDir>, max: int, paths: Map<u32, Seq<QTDir>>, k: u32)
    requires
        node_wf(m, at, max, paths),
        !paths.contains_key(k),
    ensures
        !all_entities(m).contains(EntityId(k)),
{
    if all_entities(m).contains(EntityId(k)) {
        lemma_entities_recorded(m, at, max, paths, EntityId(k));
    }
}

impl QuadTree {
    pub fn new(max_depth: u8, default_shard: ShardId) -> (t: Self)
        ensures
            t.wf(),
            t.max_depth() == max_depth,
            t.paths() == Map::<u32, Seq<QTDir>>::empty(),
            t.tree() == NodeModel::Leaf(Seq::empty(), default_shard),
    {
        let t = QuadTree {
            max_depth,
            entities_transforms: HashMap::new(),
            root: QTNode::Leaf(QTLeafNode { entities: Vec::new(), shard_id: default_shard }),
        };
        assert(t.paths() =~= Map::<u32, Seq<QTDir>>::empty());
        assert(t.tree() == NodeModel::Leaf(Seq::empty(), default_shard));
        t
    }

    /// Records an entity's position and stores it in the tree, splitting
    /// full leaves on its way; refused for an entity already recorded.
    pub fn add_entity(&mut self, entity_id: EntityId, pos: &QTPos) -> (r: Result<(), ()>)
        requires
            old(self).wf(),
            pos.dirs@.len() >= old(self).max_depth(),
        ensures
            final(self).wf(),
            final(self).max_depth() == old(self).max_depth(),
            old(self).paths().contains_key(entity_id.0) ==> r is Err && final(self).paths()
                == old(self).paths() && final(self).tree() == old(self).tree(),
            !old(self).paths().contains_key(entity_id.0) ==> final(self).paths() == old(
                self,
            ).paths().insert(entity_id.0, pos.dirs@) && (final(self).tree(), r is Ok) == insert_model(
                old(self).tree(),
                0,
                old(self).max_depth(),
                final(self).paths(),
                entity_id,
                pos.dirs@,
            ),
            r is Ok ==> final(self).placed(entity_id),
            !old(self).paths().contains_key(entity_id.0) && leaf_at(old(self).tree(), 0, pos.dirs@).0.len()
                < LEAF_CAPACITY ==> r is Ok,
            !old(self).paths().contains_key(entity_id.0) && r is Err ==> leaf_at(final(self).tree(), 0, pos.dirs@).0.len()
                >= LEAF_CAPACITY && leaf_depth(final(self).tree(), 0, pos.dirs@) >= old(self).max_depth(),
            forall|e: EntityId| #[trigger] old(self).placed(e) ==> final(self).placed(e),
            forall|probe: Seq<QTDir>|
                #[trigger] leaf_at(final(self).tree(), 0, probe).1 == leaf_at(old(self).tree(), 0, probe).1,
    {
        if self.entities_transforms.contains_key(&entity_id.0) {
            return Err(());
        }
        let ghost before: QuadTree = *self;
        let ghost old_paths = self.paths();
        let ghost old_tree = self.tree();
        let dirs_copy = copy_dirs(&pos.dirs);
        self.entities_transforms.insert(entity_id.0, dirs_copy);
        let ghost paths = old_paths.insert(entity_id.0, pos.dirs@);
        assert(self.paths() =~= paths);
        let mut root = QTNode::Leaf(QTLeafNode { entities: Vec::new(), shard_id: 0 });
        std::mem::swap(&mut root, &mut self.root);
        proof {
            lemma_wf_shape(old_tree, Seq::empty(), self.max_depth as int, old_paths);
            assert(paths_long(paths, self.max_depth as int));
        }
        let (new_root, ok) = QTNode::add_entity(
            root,
            0,
            self.max_depth,
            &self.entities_transforms,
            entity_id,
            &pos.dirs,
        );
        self.root = new_root;
        proof {
            let max = self.max_depth as int;
            lemma_unrecorded_absent(old_tree, Seq::empty(), max, old_paths, entity_id.0);
            assert(EntityId(entity_id.0) == entity_id);
            lemma_wf_record_other(old_tree, Seq::empty(), max, old_paths, entity_id.0, pos.dirs@);
            assert(pos.dirs@.take(0) =~= Seq::<QTDir>::empty());
            lemma_insert(old_tree, Seq::empty(), max, paths, entity_id, pos.dirs@);
            assert(self.paths() == paths);
            if ok {
                lemma_no_dup_insert(all_entities(old_tree), all_entities(self.tree()), entity_id);
            } else {
                lemma_no_dup_same(all_entities(old_tree), all_entities(self.tree()));
            }
            assert(node_wf(self.tree(), Seq::empty(), max, self.paths()));
            assert(paths_long(self.paths(), max));
            assert forall|probe: Seq<QTDir>| #[trigger] leaf_at(self.tree(), 0, probe).1 == leaf_at(
                old_tree,
                0,
                probe,
            ).1 by {
                lemma_insert_keeps_shards(old_tree, 0, max, paths, entity_id, pos.dirs@, probe);
            }
            assert forall|e: EntityId| #[trigger] before.placed(e) implies self.placed(e) by {
                broadcast use vstd::multiset::group_multiset_axioms;
                lemma_kept_entity_placed(&before, self, e);
            }
        }
        if ok {
            Ok(())
        } else {
            Err(())
        }
    }

    /// Whether the entity is recorded and stored where its position leads.
    pub fn is_placed(&self, entity_id: EntityId) -> (r: bool)
        requires
            self.wf(),
        ensures
            r == self.placed(entity_id),
    {
        match self.entities_transforms.get(&entity_id.0) {
            None => false,
            Some(dirs) => {
                proof {
                    lemma_wf_shape(self.tree(), Seq::empty(), self.max_depth as int, self.paths());
                    assert(self.paths().contains_key(entity_id.0));
                    assert(self.paths()[entity_id.0] == dirs@);
                }
                QTNode::leaf_holds(&self.root, 0, self.max_depth, dirs, entity_id)
            },
        }
    }

    /// Moves an entity to a new position: its record is updated, it is taken
    /// out of its old leaf and stored in the leaf its new position leads to,
    /// splitting full leaves on the way. An entity without a record is
    /// refused; its new position is recorded all the same.
    pub fn update_entity_node(&mut self, entity_id: EntityId, pos: &QTPos) -> (r: Result<(), ()>)
        requires
            old(self).wf(),
            pos.dirs@.len() >= old(self).max_depth(),
            old(self).paths().contains_key(entity_id.0) ==> old(self).placed(entity_id),
        ensures
            final(self).wf(),
            final(self).max_depth() == old(self).max_depth(),
            final(self).paths() == old(self).paths().insert(entity_id.0, pos.dirs@),
            !old(self).paths().contains_key(entity_id.0) ==> r is Err && final(self).tree() == old(
                self,
            ).tree(),
            old(self).paths().contains_key(entity_id.0) ==> (final(self).tree(), r is Ok) == insert_model(
                remove_model(old(self).tree(), 0, old(self).paths()[entity_id.0], entity_id),
                0,
                old(self).max_depth(),
                final(self).paths(),
                entity_id,
                pos.dirs@,
            ),
            r is Ok ==> final(self).placed(entity_id),
            forall|e: EntityId| #[trigger] old(self).placed(e) && e != entity_id ==> final(self).placed(e),
    {
        let ghost before: QuadTree = *self;
        let ghost old_paths = self.paths();
        let ghost old_tree = self.tree();
        let ghost max = self.max_depth as int;
        let dirs_copy = copy_dirs(&pos.dirs);
        let insert_result = self.entities_transforms.insert(entity_id.0, dirs_copy);
        let ghost paths = old_paths.insert(entity_id.0, pos.dirs@);
        assert(self.paths() =~= paths);
        let old_dirs = match insert_result {
            None => {
                proof {
                    lemma_unrecorded_absent(old_tree, Seq::empty(), max, old_paths, entity_id.0);
                    assert(EntityId(entity_id.0) == entity_id);
                    lemma_wf_record_other(old_tree, Seq::empty(), max, old_paths, entity_id.0, pos.dirs@);
                }
                return Err(());
            },
            Some(v) => v,
        };
        assert(old_paths[entity_id.0] == old_dirs@);
        let mut root = QTNode::Leaf(QTLeafNode { entities: Vec::new(), shard_id: 0 });
        std::mem::swap(&mut root, &mut self.root);
        proof {
            lemma_wf_shape(old_tree, Seq::empty(), max, old_paths);
            lemma_leaf_no_dup(old_tree, 0, old_dirs@);
        }
        let removed = QTNode::remove_entity(root, 0, self.max_depth, &old_dirs, entity_id);
        let ghost mid = model(removed);
        proof {
            lemma_remove(old_tree, Seq::empty(), max, old_paths, old_dirs@, entity_id);
            lemma_no_dup_remove(all_entities(old_tree), all_entities(mid), entity_id);
            assert(EntityId(entity_id.0) == entity_id);
            lemma_wf_record_other(mid, Seq::empty(), max, old_paths, entity_id.0, pos.dirs@);
            lemma_wf_shape(mid, Seq::empty(), max, paths);
            assert(paths_long(paths, max));
        }
        let (new_root, ok) = QTNode::add_entity(
            removed,
            0,
            self.max_depth,
            &self.entities_transforms,
            entity_id,
            &pos.dirs,
        );
        self.root = new_root;
        proof {
            assert(pos.dirs@.take(0) =~= Seq::<QTDir>::empty());
            lemma_insert(mid, Seq::empty(), max, paths, entity_id, pos.dirs@);
            assert(self.paths() == paths);
            if ok {
                lemma_no_dup_insert(all_entities(mid), all_entities(self.tree()), entity_id);
            } else {
                lemma_no_dup_same(all_entities(mid), all_entities(self.tree()));
            }
            assert forall|e: EntityId| #[trigger] before.placed(e) && e != entity_id implies self.placed(e) by {
                broadcast use vstd::multiset::group_multiset_axioms;
                lemma_kept_entity_placed(&before, self, e);
            }
        }
        if ok {
            Ok(())
        } else {
            Err(())
        }
    }

    /// The shard serving a position; `None` outside the tree's area.
    pub fn get_shard_for_pos(&self, pos: &QTPos) -> (r: Option<ShardId>)
        requires
            self.wf(),
            pos.dirs@.len() >= self.max_depth(),
        ensures
            r == (if pos.inside {
                Some(leaf_at(self.tree(), 0, pos.dirs@).1)
            } else {
                None::<ShardId>
            }),
    {
        if !pos.inside {
            return None;
        }
        proof {
            lemma_wf_shape(self.tree(), Seq::empty(), self.max_depth as int, self.paths());
        }
        Some(QTNode::shard_at(&self.root, 0, self.max_depth, &pos.dirs))
    }

    /// The shards whose area overlaps a circle: those of the leaves that hold
    /// a cell the circle touches. A leaf's area is the union of the cells of
    /// maximal depth below it, so the circle overlaps a leaf exactly when it
    /// touches one of those cells. Each shard is given once, in the order the
    /// cells first reach it.
    pub fn shards_near(&self, circle: &QTCircle) -> (r: Vec<u32>)
        requires
            self.wf(),
            forall|i: int| 0 <= i < circle.cells@.len() ==> #[trigger] circle.cells@[i]@.len() >= self.max_depth(),
        ensures
            r@.no_duplicates(),
            forall|s: u32| #[trigger] r@.contains(s) <==> touched_shard(self.tree(), circle.cells@, s),
    {
        proof {
            lemma_wf_shape(self.tree(), Seq::empty(), self.max_depth as int, self.paths());
        }
        let mut r: Vec<u32> = Vec::new();
        let mut i: usize = 0;
        while i < circle.cells.len()
            invariant
                i <= circle.cells@.len(),
                shape_ok(model(self.root), 0, self.max_depth as int),
                forall|j: int| 0 <= j < circle.cells@.len() ==> #[trigger] circle.cells@[j]@.len() >= self.max_depth(),
                r@.no_duplicates(),
                forall|s: u32| #[trigger] r@.contains(s) <==> touched_shard(self.tree(), circle.cells@.take(i as int), s),
            decreases circle.cells@.len() - i,
        {
            let s = QTNode::shard_at(&self.root, 0, self.max_depth, &circle.cells[i]);
            let ghost before = r@;
            let ghost prev = circle.cells@.take(i as int);
            let ghost next = circle.cells@.take(i + 1);
            if !contains_shard(&r, s) {
                r.push(s);
                proof {
                    assert(r@.no_duplicates()) by {
                        assert forall|a: int, b: int| 0 <= a < r@.len() && 0 <= b < r@.len() && a != b implies r@[a] != r@[b] by {
                            if a < before.len() && b < before.len() {
                                assert(r@[a] == before[a] && r@[b] == before[b]);
                            } else if a < before.len() {
                                assert(r@[a] == before[a]);
                                assert(before.contains(r@[a]));
                            } else {
                                assert(r@[b] == before[b]);
                                assert(before.contains(r@[b]));
                            }
                        }
                    }
                }
            }
            proof {
                assert forall|t: u32| #[trigger] r@.contains(t) <==> touched_shard(self.tree(), next, t) by {
                    lemma_touched_step(self.tree(), circle.cells@, i as int, t);
                    if r@.contains(t) && t != s {
                        let k = choose|k: int| 0 <= k < r@.len() && r@[k] == t;
                        if k < before.len() {
                            assert(before[k] == t);
                        }
                    }
                    if before.contains(t) {
                        let k = choose|k: int| 0 <= k < before.len() && before[k] == t;
                        assert(r@[k] == t);
                    }
                    if t == s {
                        if !before.contains(s) {
                            assert(r@[before.len() as int] == s);
                        }
                    }
                }
            }
            i = i + 1;
        }
        assert(circle.cells@.take(i as int) =~= circle.cells@);
        r
    }
}

/// The cells of maximal depth that a circle overlaps, each given by its
/// quarter at every depth from the root down.
pub struct QTCircle {
    pub cells: Vec<Vec<QTDir>>,
}

/// Some cell of `cells` lies in a leaf served by shard `s`.
pub open spec fn touched_shard(m: NodeModel, cells: Seq<Vec<QTDir>>, s: u32) -> bool {
    exists|i: int| 0 <= i < cells.len() && #[trigger] leaf_at(m, 0, cells[i]@).1 == s
}

/// Taking one more cell adds the shard of its leaf.
proof fn lemma_touched_step(m: NodeModel, cells: Seq<Vec<QTDir>>, i: int, t: u32)
    requires
        0 <= i < cells.len(),
    ensures
        touched_shard(m, cells.take(i + 1), t) <==> (touched_shard(m, cells.take(i), t) || leaf_at(
            m,
            0,
            cells[i]@,
        ).1 == t),
{
    let prev = cells.take(i);
    let next = cells.take(i + 1);
    if touched_shard(m, next, t) {
        let k = choose|k: int| 0 <= k < next.len() && #[trigger] leaf_at(m, 0, next[k]@).1 == t;
        if k < i {
            assert(prev[k] == next[k]);
        } else {
            assert(next[k] == cells[i]);
        }
    }
    if touched_shard(m, prev, t) {
        let k = choose|k: int| 0 <= k < prev.len() && #[trigger] leaf_at(m, 0, prev[k]@).1 == t;
        assert(next[k] == prev[k]);
    }
    if leaf_at(m, 0, cells[i]@).1 == t {
        assert(next[i] == cells[i]);
    }
}

fn contains_shard(v: &Vec<u32>, s: u32) -> (r: bool)
    ensures
        r == v@.contains(s),
{
    let mut i: usize = 0;
    while i < v.len()
        invariant
            i <= v@.len(),
            forall|j: int| 0 <= j < i ==> v@[j] != s,
        decreases v@.len() - i,
    {
        if v[i] == s {
            return true;
        }
        i = i + 1;
    }
    false
}

} // verus!
