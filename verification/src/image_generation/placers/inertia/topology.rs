//! Which entities take part in the simulation, and who their neighbors are.
//!
//! A neighbor is always another entity: a relation that joins an entity to
//! itself gives it no neighbor, and an entity with no other relation than
//! such ones is left out like one without relations.

use vstd::prelude::*;

verus! {

/// The relation joins `a` and `b`, in either direction.
pub open spec fn joins(relation: (usize, usize), a: usize, b: usize) -> bool {
    relation == (a, b) || relation == (b, a)
}

/// Some relation joins `a` and `b`.
pub open spec fn related(relations: Seq<(usize, usize)>, a: usize, b: usize) -> bool {
    exists|i: int| 0 <= i < relations.len() && joins(#[trigger] relations[i], a, b)
}

/// The relation has `a` at one end and another entity at the other.
pub open spec fn links(relation: (usize, usize), a: usize) -> bool {
    relation.0 != relation.1 && (relation.0 == a || relation.1 == a)
}

/// Some relation joins `a` to another entity.
pub open spec fn takes_part(relations: Seq<(usize, usize)>, a: usize) -> bool {
    exists|i: int| 0 <= i < relations.len() && links(#[trigger] relations[i], a)
}

/// The other entities that some relation joins to `a`.
pub open spec fn neighbors_of(relations: Seq<(usize, usize)>, a: usize) -> Set<usize> {
    Set::new(|b: usize| b != a && related(relations, a, b))
}

/// What a `SimNode` holds, as a mathematical value.
pub struct SimNodeView {
    pub entity: usize,
    pub neighbors: Set<usize>,
}

/// The node of an entity: the entity with its neighbors.
pub open spec fn node_of(relations: Seq<(usize, usize)>, entity: usize) -> SimNodeView {
    SimNodeView { entity, neighbors: neighbors_of(relations, entity) }
}

/// The nodes of a graph with `entity_count` entities: the entities that a
/// relation joins to another entity, in ascending order, each with its
/// neighbors.  An entity without such a relation has no node.
pub open spec fn topology(entity_count: usize, relations: Seq<(usize, usize)>) -> Seq<
    SimNodeView,
> {
    Seq::new(entity_count as nat, |a: int| a as usize).filter(
        |a: usize| takes_part(relations, a),
    ).map_values(|a: usize| node_of(relations, a))
}

/// `entity` has a node, and `neighbor` is among its neighbors.
pub open spec fn has_neighbor(nodes: Seq<SimNodeView>, entity: usize, neighbor: usize) -> bool {
    exists|k: int|
        0 <= k < nodes.len() && (#[trigger] nodes[k]).entity == entity
            && nodes[k].neighbors.contains(neighbor)
}

/// `entity` has a node.
pub open spec fn has_node(nodes: Seq<SimNodeView>, entity: usize) -> bool {
    exists|k: int| 0 <= k < nodes.len() && (#[trigger] nodes[k]).entity == entity
}

/// What holds of the nodes of every simulation: they stand in ascending
/// order of their entities, each has a neighbor, nobody is its own
/// neighbor, and whoever is a neighbor of an entity has that entity as a
/// neighbor.
pub open spec fn well_formed(nodes: Seq<SimNodeView>) -> bool {
    &&& forall|j: int, k: int|
        0 <= j < k < nodes.len() ==> (#[trigger] nodes[j]).entity < (#[trigger] nodes[k]).entity
    &&& forall|k: int|
        0 <= k < nodes.len() ==> (#[trigger] nodes[k]).neighbors.finite()
            && nodes[k].neighbors.len() > 0
    &&& forall|k: int|
        0 <= k < nodes.len() ==> !(#[trigger] nodes[k]).neighbors.contains(nodes[k].entity)
    &&& forall|a: usize, b: usize|
        #[trigger] has_neighbor(nodes, a, b) ==> has_neighbor(nodes, b, a)
}

/// The ends of every relation are below `entity_count`.
pub open spec fn within(relations: Seq<(usize, usize)>, entity_count: usize) -> bool {
    forall|i: int|
        0 <= i < relations.len() ==> (#[trigger] relations[i]).0 < entity_count && relations[i].1
            < entity_count
}

/// One more relation adds each of its ends to the neighbors of the other,
/// unless its ends are the same entity.
pub proof fn lemma_neighbors_of_push(
    relations: Seq<(usize, usize)>,
    relation: (usize, usize),
    a: usize,
)
    ensures
        neighbors_of(relations.push(relation), a) == {
            let known = neighbors_of(relations, a);
            let first = if a == relation.0 && a != relation.1 {
                known.insert(relation.1)
            } else {
                known
            };
            if a == relation.1 && a != relation.0 {
                first.insert(relation.0)
            } else {
                first
            }
        },
{
    let more = relations.push(relation);
    let known = neighbors_of(relations, a);
    let first = if a == relation.0 && a != relation.1 {
        known.insert(relation.1)
    } else {
        known
    };
    let both = if a == relation.1 && a != relation.0 {
        first.insert(relation.0)
    } else {
        first
    };
    assert forall|b: usize| neighbors_of(more, a).contains(b) <==> both.contains(b) by {
        if related(more, a, b) {
            let i = choose|i: int| 0 <= i < more.len() && joins(#[trigger] more[i], a, b);
            if i < relations.len() {
                assert(joins(relations[i], a, b));
            }
        }
        if related(relations, a, b) {
            let i = choose|i: int| 0 <= i < relations.len() && joins(#[trigger] relations[i], a, b);
            assert(joins(more[i], a, b));
        }
        if joins(relation, a, b) {
            assert(joins(more[relations.len() as int], a, b));
        }
    }
    assert(neighbors_of(more, a) =~= both);
}

/// An entity has neighbors exactly if a relation joins it to another
/// entity.
pub proof fn lemma_neighbors_of_empty(relations: Seq<(usize, usize)>, a: usize)
    ensures
        neighbors_of(relations, a).is_empty() <==> !takes_part(relations, a),
{
    if takes_part(relations, a) {
        let i = choose|i: int| 0 <= i < relations.len() && links(#[trigger] relations[i], a);
        let b = if relations[i].0 == a {
            relations[i].1
        } else {
            relations[i].0
        };
        assert(joins(relations[i], a, b));
        assert(neighbors_of(relations, a).contains(b));
    } else {
        assert forall|b: usize| !neighbors_of(relations, a).contains(b) by {
            if b != a && related(relations, a, b) {
                let i = choose|i: int|
                    0 <= i < relations.len() && joins(#[trigger] relations[i], a, b);
                assert(links(relations[i], a));
            }
        }
    }
}

/// An entity has finitely many neighbors.
pub proof fn lemma_neighbors_of_finite(relations: Seq<(usize, usize)>, a: usize)
    ensures
        neighbors_of(relations, a).finite(),
    decreases relations.len(),
{
    if relations.len() == 0 {
        assert(neighbors_of(relations, a) =~= Set::empty());
    } else {
        lemma_neighbors_of_finite(relations.drop_last(), a);
        lemma_neighbors_of_push(relations.drop_last(), relations.last(), a);
        assert(relations =~= relations.drop_last().push(relations.last()));
    }
}

/// The nodes of one more entity: those before, and its own node if it takes
/// part in a relation.
pub proof fn lemma_topology_next(entity_count: usize, relations: Seq<(usize, usize)>)
    requires
        entity_count < usize::MAX,
    ensures
        topology((entity_count + 1) as usize, relations) == if takes_part(relations, entity_count) {
            topology(entity_count, relations).push(node_of(relations, entity_count))
        } else {
            topology(entity_count, relations)
        },
{
    let taking_part = |a: usize| takes_part(relations, a);
    let node = |a: usize| node_of(relations, a);
    let before = Seq::new(entity_count as nat, |a: int| a as usize);
    let with = Seq::new((entity_count + 1) as nat, |a: int| a as usize);
    assert(with =~= before.push(entity_count));
    before.lemma_filter_push(entity_count, taking_part);
    if takes_part(relations, entity_count) {
        assert(before.filter(taking_part).push(entity_count).map_values(node) =~= before.filter(
            taking_part,
        ).map_values(node).push(node_of(relations, entity_count)));
    }
}

/// The nodes of a graph, entity by entity: every node is the node of an
/// entity that takes part in a relation, the entities ascend, and every
/// entity that takes part in a relation has a node.
pub proof fn lemma_topology_nodes(entity_count: usize, relations: Seq<(usize, usize)>)
    ensures
        forall|k: int|
            0 <= k < topology(entity_count, relations).len() ==> {
                let node = #[trigger] topology(entity_count, relations)[k];
                &&& node.entity < entity_count
                &&& takes_part(relations, node.entity)
                &&& node == node_of(relations, node.entity)
            },
        forall|j: int, k: int|
            0 <= j < k < topology(entity_count, relations).len() ==> (#[trigger] topology(
                entity_count,
                relations,
            )[j]).entity < (#[trigger] topology(entity_count, relations)[k]).entity,
        forall|a: usize|
            a < entity_count && #[trigger] takes_part(relations, a) ==> has_node(
                topology(entity_count, relations),
                a,
            ),
    decreases entity_count,
{
    let nodes = topology(entity_count, relations);
    if entity_count == 0 {
        reveal(Seq::filter);
        assert(nodes =~= Seq::empty());
    } else {
        let last = (entity_count - 1) as usize;
        let before = topology(last, relations);
        lemma_topology_nodes(last, relations);
        lemma_topology_next(last, relations);
        assert forall|a: usize|
            a < entity_count && #[trigger] takes_part(relations, a) implies has_node(nodes, a) by {
            if a == last {
                assert(nodes[nodes.len() - 1].entity == a);
            } else {
                assert(has_node(before, a));
                let k = choose|k: int| 0 <= k < before.len() && (#[trigger] before[k]).entity == a;
                assert(nodes[k].entity == a);
            }
        }
    }
}

/// Where the relations stay within the entities, the nodes of the graph
/// are well formed.
pub proof fn lemma_topology_well_formed(entity_count: usize, relations: Seq<(usize, usize)>)
    requires
        within(relations, entity_count),
    ensures
        well_formed(topology(entity_count, relations)),
{
    let nodes = topology(entity_count, relations);
    lemma_topology_nodes(entity_count, relations);
    assert forall|k: int| 0 <= k < nodes.len() implies (#[trigger] nodes[k]).neighbors.finite()
        && nodes[k].neighbors.len() > 0 by {
        lemma_neighbors_of_finite(relations, nodes[k].entity);
        lemma_neighbors_of_empty(relations, nodes[k].entity);
        if nodes[k].neighbors.len() == 0 {
            nodes[k].neighbors.lemma_len0_is_empty();
        }
    }
    assert forall|a: usize, b: usize| #[trigger] has_neighbor(nodes, a, b) implies has_neighbor(
        nodes,
        b,
        a,
    ) by {
        let k = choose|k: int|
            0 <= k < nodes.len() && (#[trigger] nodes[k]).entity == a
                && nodes[k].neighbors.contains(b);
        assert(b != a && related(relations, a, b));
        let i = choose|i: int| 0 <= i < relations.len() && joins(#[trigger] relations[i], a, b);
        assert(joins(relations[i], b, a));
        assert(links(relations[i], b));
        assert(takes_part(relations, b));
        assert(has_node(nodes, b));
        let j = choose|j: int| 0 <= j < nodes.len() && (#[trigger] nodes[j]).entity == b;
        assert(nodes[j].neighbors.contains(a));
    }
}

/// Entities that are related by relations are related by every list that
/// holds those relations.
proof fn lemma_related_in(
    relations: Seq<(usize, usize)>,
    others: Seq<(usize, usize)>,
    a: usize,
    b: usize,
)
    requires
        forall|pair: (usize, usize)| relations.contains(pair) ==> others.contains(pair),
    ensures
        related(relations, a, b) ==> related(others, a, b),
{
    if related(relations, a, b) {
        let i = choose|i: int| 0 <= i < relations.len() && joins(#[trigger] relations[i], a, b);
        assert(relations.contains(relations[i]));
        let j = choose|j: int| 0 <= j < others.len() && others[j] == relations[i];
        assert(joins(others[j], a, b));
    }
}

/// Graphs with as many entities whose relations join the same pairs of
/// entities have the same nodes with the same neighbors, in whatever order
/// and direction the relations are written.
pub proof fn lemma_topology_of_same_pairs(
    entity_count: usize,
    first: Seq<(usize, usize)>,
    second: Seq<(usize, usize)>,
)
    requires
        forall|a: usize, b: usize| related(first, a, b) == related(second, a, b),
    ensures
        topology(entity_count, first) == topology(entity_count, second),
    decreases entity_count,
{
    assert forall|a: usize| takes_part(first, a) == takes_part(second, a) by {
        lemma_neighbors_of_empty(first, a);
        lemma_neighbors_of_empty(second, a);
        assert(neighbors_of(first, a) =~= neighbors_of(second, a));
    }
    if entity_count == 0 {
        reveal(Seq::filter);
        assert(topology(entity_count, first) =~= Seq::empty());
        assert(topology(entity_count, second) =~= Seq::empty());
    } else {
        let last = (entity_count - 1) as usize;
        lemma_topology_of_same_pairs(last, first, second);
        lemma_topology_next(last, first);
        lemma_topology_next(last, second);
        assert(neighbors_of(first, last) =~= neighbors_of(second, last));
    }
}

/// Graphs with as many entities and the same set of relations have the same
/// nodes with the same neighbors: neither the order of the relations nor a
/// relation that is written twice makes a difference.
pub proof fn lemma_topology_of_same_relations(
    entity_count: usize,
    first: Seq<(usize, usize)>,
    second: Seq<(usize, usize)>,
)
    requires
        forall|pair: (usize, usize)| first.contains(pair) <==> second.contains(pair),
    ensures
        topology(entity_count, first) == topology(entity_count, second),
{
    assert forall|a: usize, b: usize| related(first, a, b) == related(second, a, b) by {
        lemma_related_in(first, second, a, b);
        lemma_related_in(second, first, a, b);
    }
    lemma_topology_of_same_pairs(entity_count, first, second);
}

/// No entity is its own neighbor, whatever the relations are: a relation
/// that joins an entity to itself adds nothing.
pub proof fn lemma_nobody_is_its_own_neighbor(
    entity_count: usize,
    relations: Seq<(usize, usize)>,
    k: int,
)
    requires
        0 <= k < topology(entity_count, relations).len(),
    ensures
        !topology(entity_count, relations)[k].neighbors.contains(
            topology(entity_count, relations)[k].entity,
        ),
{
    lemma_topology_nodes(entity_count, relations);
}

/// Relations that join an entity to itself make no difference: the nodes
/// are those of the graph without them.
pub proof fn lemma_topology_without_loops(entity_count: usize, relations: Seq<(usize, usize)>)
    ensures
        topology(entity_count, relations) == topology(
            entity_count,
            relations.filter(|relation: (usize, usize)| relation.0 != relation.1),
        ),
    decreases entity_count,
{
    let proper = |relation: (usize, usize)| relation.0 != relation.1;
    let kept = relations.filter(proper);
    assert forall|a: usize| takes_part(relations, a) == takes_part(kept, a) by {
        if takes_part(relations, a) {
            let i = choose|i: int| 0 <= i < relations.len() && links(#[trigger] relations[i], a);
            relations.lemma_filter_contains(proper, i);
            let j = choose|j: int| 0 <= j < kept.len() && kept[j] == relations[i];
            assert(links(kept[j], a));
        }
        if takes_part(kept, a) {
            let j = choose|j: int| 0 <= j < kept.len() && links(#[trigger] kept[j], a);
            assert(kept.contains(kept[j]));
            relations.lemma_filter_contains_rev(proper, kept[j]);
            let i = choose|i: int| 0 <= i < relations.len() && relations[i] == kept[j];
            assert(links(relations[i], a));
        }
    }
    assert forall|a: usize| neighbors_of(relations, a) == neighbors_of(kept, a) by {
        assert forall|b: usize|
            neighbors_of(relations, a).contains(b) == neighbors_of(kept, a).contains(b) by {
            if b != a && related(relations, a, b) {
                let i = choose|i: int|
                    0 <= i < relations.len() && joins(#[trigger] relations[i], a, b);
                relations.lemma_filter_contains(proper, i);
                let j = choose|j: int| 0 <= j < kept.len() && kept[j] == relations[i];
                assert(joins(kept[j], a, b));
            }
            if b != a && related(kept, a, b) {
                let j = choose|j: int| 0 <= j < kept.len() && joins(#[trigger] kept[j], a, b);
                assert(kept.contains(kept[j]));
                relations.lemma_filter_contains_rev(proper, kept[j]);
                let i = choose|i: int| 0 <= i < relations.len() && relations[i] == kept[j];
                assert(joins(relations[i], a, b));
            }
        }
        assert(neighbors_of(relations, a) =~= neighbors_of(kept, a));
    }
    if entity_count == 0 {
        reveal(Seq::filter);
        assert(topology(entity_count, relations) =~= Seq::empty());
        assert(topology(entity_count, kept) =~= Seq::empty());
    } else {
        let last = (entity_count - 1) as usize;
        lemma_topology_without_loops(last, relations);
        lemma_topology_next(last, relations);
        lemma_topology_next(last, kept);
    }
}

} // verus!
