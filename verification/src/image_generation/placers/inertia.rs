//! The integer side of the inertia placer.
//!
//! The placer lets the entities of a graph drift on a plane until they sit
//! on a grid.  The drifting itself is arithmetic on real numbers and is done
//! by the caller.  What is decided here is exact: which entities take part
//! and who their neighbors are, how long the caller may go on refining, and
//! where the entities end up once their places have been rounded.

pub mod centering;
pub mod topology;

use crate::domain_model::graph::Graph;
use crate::image_generation::placers::inertia::centering::{
    centerable, centered, lemma_centered_mean_is_zero, lemma_truncated_quotient_bound, shifted,
    sum_of, truncated_mean, xs_of, ys_of,
};
use crate::image_generation::placers::inertia::topology::{
    has_node, lemma_neighbors_of_empty, lemma_neighbors_of_push, lemma_topology_next,
    lemma_topology_nodes, lemma_topology_well_formed, neighbors_of, node_of, takes_part,
    topology, well_formed, within, SimNodeView,
};
use std::collections::HashSet;
use vstd::prelude::*;

verus! {

broadcast use vstd::std_specs::hash::group_hash_axioms;

/// One entity of the simulation: who it is and who its neighbors are.
#[derive(Debug, PartialEq)]
pub struct SimNode {
    entity: usize,
    neighbors: HashSet<usize>,
}

impl View for SimNode {
    type V = SimNodeView;

    closed spec fn view(&self) -> SimNodeView {
        SimNodeView { entity: self.entity, neighbors: self.neighbors@ }
    }
}

impl SimNode {
    /// A node without neighbors.
    pub fn new(entity: usize) -> (node: SimNode)
        ensures
            node@ == (SimNodeView { entity, neighbors: Set::empty() }),
    {
        SimNode { entity, neighbors: HashSet::new() }
    }

    /// The entity that the node stands for.
    pub fn entity(&self) -> (entity: usize)
        ensures
            entity == self@.entity,
    {
        self.entity
    }

    /// Whether a relation joins the node's entity and `other`.
    pub fn is_neighbor(&self, other: usize) -> (found: bool)
        ensures
            found == self@.neighbors.contains(other),
    {
        self.neighbors.contains(&other)
    }

    /// How many neighbors the node has.
    pub fn neighbor_count(&self) -> (count: usize)
        ensures
            count == self@.neighbors.len(),
    {
        self.neighbors.len()
    }
}

/// The entities that are placed, in ascending order.
#[derive(Debug, PartialEq)]
pub struct Sim {
    nodes: Vec<SimNode>,
}

impl View for Sim {
    type V = Seq<SimNodeView>;

    closed spec fn view(&self) -> Seq<SimNodeView> {
        self.nodes@.map_values(|node: SimNode| node@)
    }
}

impl Sim {
    #[verifier::type_invariant]
    spec fn nodes_well_formed(&self) -> bool {
        well_formed(self@)
    }

    /// How many entities are placed.
    pub fn len(&self) -> (count: usize)
        ensures
            count == self@.len(),
    {
        self.nodes.len()
    }

    /// The node at a position.  Like every node of a simulation it has at
    /// least one neighbor and is not its own neighbor.
    pub fn node(&self, index: usize) -> (node: &SimNode)
        requires
            index < self@.len(),
        ensures
            node@ == self@[index as int],
            node@.neighbors.finite(),
            node@.neighbors.len() >= 1,
            !node@.neighbors.contains(node@.entity),
            well_formed(self@),
    {
        proof {
            use_type_invariant(self);
        }
        &self.nodes[index]
    }

    /// The nodes of a graph: one for each entity that a relation joins to
    /// another entity, with the entities at the other ends as its neighbors.
    /// An entity without such a relation is left out, and a relation that
    /// joins an entity to itself adds nothing.
    ///
    /// The relations of the graph have to join entities of the graph, which
    /// `Graph::is_well_formed` decides.
    pub fn new(graph: &Graph) -> (sim: Sim)
        requires
            graph.well_formed(),
        ensures
            sim@ == topology(graph.entities@.len() as usize, graph.relation_pairs()),
            well_formed(sim@),
    {
        let count = graph.entities.len();
        let ghost relations = graph.relation_pairs();
        let mut nodes: Vec<SimNode> = Vec::new();
        for entity in 0..count
            invariant
                nodes@.len() == entity,
                forall|a: int|
                    0 <= a < entity ==> (#[trigger] nodes@[a])@ == node_of(
                        Seq::empty(),
                        a as usize,
                    ),
        {
            proof {
                assert(neighbors_of(Seq::empty(), entity) =~= Set::empty());
            }
            nodes.push(SimNode::new(entity));
        }
        proof {
            assert(relations.take(0) =~= Seq::empty());
        }
        for k in 0..graph.relations.len()
            invariant
                graph.well_formed(),
                relations == graph.relation_pairs(),
                count == graph.entities@.len(),
                nodes@.len() == count,
                forall|a: int|
                    0 <= a < count ==> (#[trigger] nodes@[a])@ == node_of(
                        relations.take(k as int),
                        a as usize,
                    ),
        {
            let relation = &graph.relations[k];
            let first = relation.entity_1;
            let second = relation.entity_2;
            let ghost before = nodes@;
            if first != second {
                nodes[first].neighbors.insert(second);
                nodes[second].neighbors.insert(first);
            }
            proof {
                assert(relations.take(k + 1) =~= relations.take(k as int).push((first, second)));
                assert forall|a: int| 0 <= a < count implies (#[trigger] nodes@[a])@ == node_of(
                    relations.take(k + 1),
                    a as usize,
                ) by {
                    lemma_neighbors_of_push(relations.take(k as int), (first, second), a as usize);
                    assert(before[a]@ == node_of(relations.take(k as int), a as usize));
                }
            }
        }
        proof {
            assert(relations.take(relations.len() as int) =~= relations);
        }
        let ghost all = nodes@;
        let mut kept: Vec<SimNode> = Vec::new();
        for node in it: nodes
            invariant
                it.seq() == all,
                all.len() == count,
                forall|a: int|
                    0 <= a < count ==> (#[trigger] all[a])@ == node_of(relations, a as usize),
                kept@.map_values(|node: SimNode| node@) == topology(it.index() as usize, relations),
        {
            proof {
                lemma_topology_next(it.index() as usize, relations);
                lemma_neighbors_of_empty(relations, it.index() as usize);
                assert(node@ == node_of(relations, it.index() as usize));
            }
            let ghost before = kept@;
            if !node.neighbors.is_empty() {
                kept.push(node);
                proof {
                    assert(kept@.map_values(|node: SimNode| node@) =~= before.map_values(
                        |node: SimNode| node@,
                    ).push(node@));
                }
            }
        }
        proof {
            assert(within(relations, count)) by {
                assert forall|i: int| 0 <= i < relations.len() implies (#[trigger] relations[i]).0
                    < count && relations[i].1 < count by {
                    assert(graph.relations@[i].entity_1 < count);
                }
            }
            lemma_topology_well_formed(count, relations);
        }
        Sim { nodes: kept }
    }
}

/// How many refining passes a simulation is given for each of its nodes.
pub const GRID_PASSES_PER_NODE: usize = 256;

/// What the caller does next while it brings the entities onto the grid.
#[derive(Clone, Copy, Debug, PartialEq, Eq, Structural)]
pub enum GridPass {
    /// Push the entities apart and move them towards the grid once more.
    Refine,
    /// Round the places and build the grid.  `converged` tells whether every
    /// entity has reached the grid or the passes have run out.
    Stop { converged: bool },
}

/// The number of refining passes after which a simulation of `node_count`
/// nodes is stopped.
pub open spec fn pass_limit(node_count: nat) -> nat {
    GRID_PASSES_PER_NODE as nat * node_count
}

/// The next step after `passes_done` refining passes: stop as soon as every
/// entity is on the grid, stop without success when the passes have run
/// out, refine otherwise.
pub open spec fn next_pass(node_count: nat, passes_done: nat, on_grid: bool) -> GridPass {
    if on_grid {
        GridPass::Stop { converged: true }
    } else if passes_done >= pass_limit(node_count) {
        GridPass::Stop { converged: false }
    } else {
        GridPass::Refine
    }
}

impl Sim {
    /// Decides whether the entities are to be refined once more, given how
    /// many passes have been made and whether every entity is on the grid.
    pub fn grid_pass(&self, passes_done: usize, on_grid: bool) -> (pass: GridPass)
        ensures
            pass == next_pass(self@.len(), passes_done as nat, on_grid),
    {
        if on_grid {
            return GridPass::Stop { converged: true };
        }
        let out_of_passes = match GRID_PASSES_PER_NODE.checked_mul(self.nodes.len()) {
            Some(limit) => passes_done >= limit,
            None => false,
        };
        if out_of_passes {
            GridPass::Stop { converged: false }
        } else {
            GridPass::Refine
        }
    }
}

/// The final place of one entity on the grid.
#[derive(Clone, Copy, Debug, PartialEq, Eq, Structural)]
pub struct GridNode {
    pub x: isize,
    pub y: isize,
    pub entity: usize,
}

/// The places of the nodes.
pub open spec fn places_of(nodes: Seq<GridNode>) -> Seq<(isize, isize)> {
    nodes.map_values(|node: GridNode| (node.x, node.y))
}

/// The number of grid steps from one place to another, along the axes.
pub open spec fn taxicab_distance(from: (isize, isize), to: (isize, isize)) -> int {
    let along_x = to.0 - from.0;
    let along_y = to.1 - from.1;
    (if along_x < 0 {
        -along_x
    } else {
        along_x
    }) + (if along_y < 0 {
        -along_y
    } else {
        along_y
    })
}

/// No two entities are at the same place.
pub open spec fn separated(places: Seq<(isize, isize)>) -> bool {
    forall|j: int, k: int| 0 <= j < k < places.len() ==> places[j] != places[k]
}

/// The entities at the positions `j` and `k` are two, at most one grid step
/// apart.
pub open spec fn near(places: Seq<(isize, isize)>, j: int, k: int) -> bool {
    k != j && taxicab_distance(places[j], places[k]) <= 1
}

/// Another entity is at most one grid step away from the entity at
/// position `j`.
pub open spec fn has_company(places: Seq<(isize, isize)>, j: int) -> bool {
    exists|k: int| 0 <= k < places.len() && #[trigger] near(places, j, k)
}

/// Every entity has another at most one grid step away.
pub open spec fn cohesive(places: Seq<(isize, isize)>) -> bool {
    forall|j: int| 0 <= j < places.len() ==> has_company(places, j)
}

/// The nodes at their places, moved so that the places are centered: each
/// place less the truncated means of the places.
pub open spec fn centered_grid(nodes: Seq<SimNodeView>, places: Seq<(isize, isize)>) -> Seq<
    GridNode,
> {
    Seq::new(
        nodes.len(),
        |i: int|
            GridNode {
                x: (places[i].0 - truncated_mean(xs_of(places))) as isize,
                y: (places[i].1 - truncated_mean(ys_of(places))) as isize,
                entity: nodes[i].entity,
            },
    )
}

/// Places that have been centered are centered.
pub proof fn lemma_centered_grid_is_centered(
    nodes: Seq<SimNodeView>,
    places: Seq<(isize, isize)>,
)
    requires
        nodes.len() == places.len(),
        centerable(places),
    ensures
        centered(places_of(centered_grid(nodes, places))),
{
    let moved = places_of(centered_grid(nodes, places));
    assert(xs_of(moved) =~= shifted(xs_of(places), truncated_mean(xs_of(places))));
    assert(ys_of(moved) =~= shifted(ys_of(places), truncated_mean(ys_of(places))));
    lemma_centered_mean_is_zero(xs_of(places));
    lemma_centered_mean_is_zero(ys_of(places));
}

/// The final places of the entities that were placed, centered on the
/// origin.
#[derive(Debug)]
pub struct GridPlacements {
    nodes: Vec<GridNode>,
    converged: bool,
}

impl View for GridPlacements {
    type V = Seq<GridNode>;

    closed spec fn view(&self) -> Seq<GridNode> {
        self.nodes@
    }
}

impl GridPlacements {
    #[verifier::type_invariant]
    spec fn is_centered(&self) -> bool {
        centered(places_of(self.nodes@))
    }

    /// Whether every entity had reached the grid before its place was
    /// rounded.
    pub closed spec fn has_converged(&self) -> bool {
        self.converged
    }

    /// The placed entities, in ascending order.
    pub fn nodes(&self) -> (nodes: &Vec<GridNode>)
        ensures
            nodes@ == self@,
            centered(places_of(self@)),
    {
        proof {
            use_type_invariant(self);
        }
        &self.nodes
    }

    /// Whether every entity had reached the grid before its place was
    /// rounded.
    pub fn converged(&self) -> (converged: bool)
        ensures
            converged == self.has_converged(),
    {
        self.converged
    }

    /// Whether no two entities are at the same place.
    pub fn is_separated(&self) -> (apart: bool)
        ensures
            apart == separated(places_of(self@)),
    {
        let ghost places = places_of(self.nodes@);
        let count = self.nodes.len();
        for j in 0..count
            invariant
                count == self.nodes@.len(),
                places == places_of(self.nodes@),
                forall|a: int, b: int| 0 <= a < b < count && a < j ==> places[a] != places[b],
        {
            for k in (j + 1)..count
                invariant
                    j < count,
                    count == self.nodes@.len(),
                    places == places_of(self.nodes@),
                    forall|a: int, b: int| 0 <= a < b < count && a < j ==> places[a] != places[b],
                    forall|b: int| j < b < k ==> places[j as int] != places[b],
            {
                if self.nodes[j].x == self.nodes[k].x && self.nodes[j].y == self.nodes[k].y {
                    assert(places[j as int] == places[k as int]);
                    return false;
                }
            }
        }
        true
    }

    /// Whether every entity has another at most one grid step away.
    pub fn is_cohesive(&self) -> (together: bool)
        ensures
            together == cohesive(places_of(self@)),
    {
        let ghost places = places_of(self.nodes@);
        let count = self.nodes.len();
        for j in 0..count
            invariant
                count == self.nodes@.len(),
                places == places_of(self.nodes@),
                forall|a: int| 0 <= a < j ==> has_company(places, a),
        {
            let mut found = false;
            for k in 0..count
                invariant
                    j < count,
                    count == self.nodes@.len(),
                    places == places_of(self.nodes@),
                    found <==> exists|b: int| 0 <= b < k && #[trigger] near(places, j as int, b),
            {
                if k != j && one_step_apart(&self.nodes[j], &self.nodes[k]) {
                    assert(near(places, j as int, k as int));
                    found = true;
                } else {
                    assert(!near(places, j as int, k as int));
                }
            }
            if !found {
                assert(!has_company(places, j as int));
                return false;
            }
        }
        true
    }
}

/// Whether two nodes are at most one grid step apart.
fn one_step_apart(from: &GridNode, to: &GridNode) -> (near: bool)
    ensures
        near == (taxicab_distance((from.x, from.y), (to.x, to.y)) <= 1),
{
    let along_x = to.x as i128 - from.x as i128;
    let along_y = to.y as i128 - from.y as i128;
    let steps = (if along_x < 0 {
        -along_x
    } else {
        along_x
    }) + (if along_y < 0 {
        -along_y
    } else {
        along_y
    });
    steps <= 1
}

/// The sum of the first coordinates and the sum of the second.
fn sum_places(places: &Vec<(isize, isize)>) -> (sums: (i128, i128))
    ensures
        sums.0 == sum_of(xs_of(places@)),
        sums.1 == sum_of(ys_of(places@)),
        -(places@.len() * 0x8000_0000_0000_0000) <= sums.0 <= places@.len()
            * 0x8000_0000_0000_0000,
        -(places@.len() * 0x8000_0000_0000_0000) <= sums.1 <= places@.len()
            * 0x8000_0000_0000_0000,
{
    let ghost xs = xs_of(places@);
    let ghost ys = ys_of(places@);
    let mut sum_x: i128 = 0;
    let mut sum_y: i128 = 0;
    for i in 0..places.len()
        invariant
            xs == xs_of(places@),
            ys == ys_of(places@),
            sum_x == sum_of(xs.take(i as int)),
            sum_y == sum_of(ys.take(i as int)),
            -i * 0x8000_0000_0000_0000 <= sum_x <= i * 0x8000_0000_0000_0000,
            -i * 0x8000_0000_0000_0000 <= sum_y <= i * 0x8000_0000_0000_0000,
    {
        proof {
            assert(xs.take(i + 1).drop_last() =~= xs.take(i as int));
            assert(ys.take(i + 1).drop_last() =~= ys.take(i as int));
        }
        sum_x = sum_x + places[i].0 as i128;
        sum_y = sum_y + places[i].1 as i128;
    }
    proof {
        assert(xs.take(places@.len() as int) =~= xs);
        assert(ys.take(places@.len() as int) =~= ys);
    }
    (sum_x, sum_y)
}

impl Sim {
    /// Puts the nodes at the given places, one place for each node in
    /// order, and centers the places on the origin: the mean of each
    /// coordinate, rounded towards zero, is taken from every place.  All
    /// places move alike, so that the entities are as separated and as
    /// cohesive on the grid as they were at the places given.  The
    /// simulation ends here; `converged` is kept with the grid.
    ///
    /// `None` where a centered coordinate is too large for an `isize`.
    pub fn build_grid(self, places: Vec<(isize, isize)>, converged: bool) -> (grid: Option<
        GridPlacements,
    >)
        requires
            places@.len() == self@.len(),
        ensures
            grid is Some <==> centerable(places@),
            grid matches Some(grid) ==> {
                &&& grid@ == centered_grid(self@, places@)
                &&& centered(places_of(grid@))
                &&& separated(places_of(grid@)) == separated(places@)
                &&& cohesive(places_of(grid@)) == cohesive(places@)
                &&& grid.has_converged() == converged
            },
    {
        let count = places.len();
        if count == 0 {
            proof {
                assert(centered_grid(self@, places@) =~= Seq::empty());
                assert(places_of(Seq::<GridNode>::empty()) =~= Seq::empty());
                assert(xs_of(Seq::empty()) =~= Seq::empty());
                assert(ys_of(Seq::empty()) =~= Seq::empty());
            }
            return Some(GridPlacements { nodes: Vec::new(), converged });
        }
        let (sum_x, sum_y) = sum_places(&places);
        proof {
            lemma_truncated_quotient_bound(sum_x as int, count as int, 0x8000_0000_0000_0000);
            lemma_truncated_quotient_bound(sum_y as int, count as int, 0x8000_0000_0000_0000);
        }
        let mean_x = sum_x / (count as i128);
        let mean_y = sum_y / (count as i128);
        let mut nodes: Vec<GridNode> = Vec::new();
        for i in 0..count
            invariant
                count == places@.len(),
                -0x8000_0000_0000_0000 <= mean_x <= 0x8000_0000_0000_0000,
                -0x8000_0000_0000_0000 <= mean_y <= 0x8000_0000_0000_0000,
                count == self@.len(),
                count == self.nodes@.len(),
                mean_x == truncated_mean(xs_of(places@)),
                mean_y == truncated_mean(ys_of(places@)),
                nodes@ == centered_grid(self@, places@).take(i as int),
                forall|j: int|
                    0 <= j < i ==> {
                        &&& isize::MIN <= (#[trigger] places@[j]).0 - mean_x <= isize::MAX
                        &&& isize::MIN <= places@[j].1 - mean_y <= isize::MAX
                    },
        {
            let x = places[i].0 as i128 - mean_x;
            let y = places[i].1 as i128 - mean_y;
            if x < isize::MIN as i128 || x > isize::MAX as i128 || y < isize::MIN as i128 || y
                > isize::MAX as i128 {
                return None;
            }
            nodes.push(GridNode { x: x as isize, y: y as isize, entity: self.nodes[i].entity });
            proof {
                assert(nodes@ =~= centered_grid(self@, places@).take(i + 1));
            }
        }
        proof {
            assert(centered_grid(self@, places@).take(count as int) =~= centered_grid(
                self@,
                places@,
            ));
            lemma_centered_grid_is_centered(self@, places@);
            lemma_centering_keeps_layout(self@, places@);
        }
        Some(GridPlacements { nodes, converged })
    }
}

/// An entity that no relation joins to another entity has no node, and no
/// place on the grid that is built from the nodes.
pub proof fn lemma_isolated_entity_is_left_out(
    entity_count: usize,
    relations: Seq<(usize, usize)>,
    places: Seq<(isize, isize)>,
    entity: usize,
)
    requires
        !takes_part(relations, entity),
    ensures
        !has_node(topology(entity_count, relations), entity),
        forall|k: int|
            0 <= k < centered_grid(topology(entity_count, relations), places).len()
                ==> (#[trigger] centered_grid(
                topology(entity_count, relations),
                places,
            )[k]).entity != entity,
{
    lemma_topology_nodes(entity_count, relations);
}

/// Centering moves every place by the same amount: the offset between the
/// places of two entities is what it was before.
pub proof fn lemma_centering_keeps_offsets(
    nodes: Seq<SimNodeView>,
    places: Seq<(isize, isize)>,
    j: int,
    k: int,
)
    requires
        nodes.len() == places.len(),
        centerable(places),
        0 <= j < places.len(),
        0 <= k < places.len(),
    ensures
        centered_grid(nodes, places)[j].x - centered_grid(nodes, places)[k].x == places[j].0
            - places[k].0,
        centered_grid(nodes, places)[j].y - centered_grid(nodes, places)[k].y == places[j].1
            - places[k].1,
        taxicab_distance(
            places_of(centered_grid(nodes, places))[j],
            places_of(centered_grid(nodes, places))[k],
        ) == taxicab_distance(places[j], places[k]),
{
}

/// Centering neither brings entities together nor drives them apart: the
/// centered places are separated exactly if the places were, and cohesive
/// exactly if the places were.
pub proof fn lemma_centering_keeps_layout(nodes: Seq<SimNodeView>, places: Seq<(isize, isize)>)
    requires
        nodes.len() == places.len(),
        centerable(places),
    ensures
        separated(places_of(centered_grid(nodes, places))) == separated(places),
        cohesive(places_of(centered_grid(nodes, places))) == cohesive(places),
{
    let moved = places_of(centered_grid(nodes, places));
    assert forall|j: int, k: int| 0 <= j < places.len() && 0 <= k < places.len() implies (moved[j]
        == moved[k]) == (places[j] == places[k]) && near(moved, j, k) == near(places, j, k) by {
        lemma_centering_keeps_offsets(nodes, places, j, k);
    }
    assert forall|j: int| 0 <= j < places.len() implies has_company(moved, j) == has_company(
        places,
        j,
    ) by {
        if has_company(moved, j) {
            let k = choose|k: int| 0 <= k < moved.len() && #[trigger] near(moved, j, k);
            assert(near(places, j, k));
        }
        if has_company(places, j) {
            let k = choose|k: int| 0 <= k < places.len() && #[trigger] near(places, j, k);
            assert(near(moved, j, k));
        }
    }
    if separated(places) {
        assert forall|j: int, k: int| 0 <= j < k < moved.len() implies moved[j] != moved[k] by {
            assert(places[j] != places[k]);
        }
    }
    if separated(moved) {
        assert forall|j: int, k: int| 0 <= j < k < places.len() implies places[j] != places[k] by {
            assert(moved[j] != moved[k]);
        }
    }
    if cohesive(places) {
        assert forall|j: int| 0 <= j < moved.len() implies has_company(moved, j) by {
            assert(has_company(places, j));
        }
    }
    if cohesive(moved) {
        assert forall|j: int| 0 <= j < places.len() implies has_company(places, j) by {
            assert(has_company(moved, j));
        }
    }
}

} // verus!
