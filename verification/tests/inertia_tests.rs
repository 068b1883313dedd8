use server::domain_model::graph::{Arrow, Entity, Graph, Multiplicity, Relation, Style};
use server::image_generation::placers::inertia::{
    GridNode, GridPass, GridPlacements, Sim, SimNode, GRID_PASSES_PER_NODE,
};
use std::collections::HashSet;

fn dummy_entity() -> Entity {
    Entity { name: "".to_string(), color: 0xff00ffff, style: Style::Regular }
}

fn dummy_relation(entity_1: usize, entity_2: usize) -> Relation {
    Relation {
        text: "".to_string(),
        entity_1,
        entity_2,
        arrow_1: Arrow::Plain,
        arrow_2: Arrow::Arrow,
        mult_1: Multiplicity::Number(1),
        mult_2: Multiplicity::RangeFrom(1..),
    }
}

fn graph_of(entity_count: usize, relations: &[(usize, usize)]) -> Graph {
    let mut graph = Graph::new();
    for _ in 0..entity_count {
        graph.entities.push(dummy_entity());
    }
    for &(entity_1, entity_2) in relations {
        graph.relations.push(dummy_relation(entity_1, entity_2));
    }
    graph
}

fn neighbors(sim: &Sim, index: usize, entity_count: usize) -> Vec<usize> {
    (0..entity_count).filter(|&other| sim.node(index).is_neighbor(other)).collect()
}

fn entities(sim: &Sim) -> Vec<usize> {
    (0..sim.len()).map(|index| sim.node(index).entity()).collect()
}

fn mean(values: &[isize]) -> isize {
    let sum: i128 = values.iter().map(|&value| value as i128).sum();
    (sum / values.len() as i128) as isize
}

fn taxicab_between(a: &GridNode, b: &GridNode) -> isize {
    (a.x - b.x).abs() + (a.y - b.y).abs()
}

fn chess_between(a: &GridNode, b: &GridNode) -> isize {
    (a.x - b.x).abs().max((a.y - b.y).abs())
}

fn nearest_other(grid: &GridPlacements, node: &GridNode) -> isize {
    grid.nodes()
        .iter()
        .filter(|other| other.entity != node.entity)
        .map(|other| taxicab_between(node, other))
        .min()
        .unwrap()
}

fn assert_distinct(grid: &GridPlacements) {
    let mut taken: HashSet<(isize, isize)> = HashSet::new();
    for node in grid.nodes().iter() {
        assert!(taken.insert((node.x, node.y)), "two entities at {:?}", (node.x, node.y));
    }
}

fn assert_centered(grid: &GridPlacements) {
    if grid.nodes().is_empty() {
        return;
    }
    let xs: Vec<isize> = grid.nodes().iter().map(|node| node.x).collect();
    let ys: Vec<isize> = grid.nodes().iter().map(|node| node.y).collect();
    assert_eq!((mean(&xs), mean(&ys)), (0, 0));
}

// The drifting of the entities around the library's `Sim`: the places are
// pairs of `f32`, pushed apart, pulled together and moved towards the grid
// pass by pass.

fn taxicab(v: (f32, f32)) -> f32 {
    v.0.abs() + v.1.abs()
}

fn minus(a: (f32, f32), b: (f32, f32)) -> (f32, f32) {
    (a.0 - b.0, a.1 - b.1)
}

fn taxicab_normalized(v: (f32, f32)) -> Option<(f32, f32)> {
    let len = taxicab(v);
    if len < f32::EPSILON {
        None
    } else {
        Some((v.0 / len, v.1 / len))
    }
}

fn greatest_axis(v: (f32, f32)) -> (f32, f32) {
    if v.0.abs() > v.1.abs() {
        (v.0, 0.0)
    } else {
        (0.0, v.1)
    }
}

struct Drift {
    sim: Sim,
    pos: Vec<(f32, f32)>,
}

fn seed(graph: &Graph) -> Drift {
    assert!(graph.is_well_formed());
    let sim = Sim::new(graph);
    let mut pos = Vec::new();
    for index in 0..sim.len() {
        let entity = sim.node(index).entity();
        let (sin, cos) = (entity as f32 * 1.0).sin_cos();
        let radius = (entity as f32).sqrt();
        pos.push((radius * cos, radius * sin));
    }
    Drift { sim, pos }
}

fn push_step(drift: &mut Drift) {
    let old = drift.pos.clone();
    for i in 0..old.len() {
        for j in (i + 1)..old.len() {
            let dist = minus(old[j], drift.pos[i]);
            if taxicab(dist) < 1.0 {
                drift.pos[i] = match taxicab_normalized(dist) {
                    Some(norm) => minus(old[j], norm),
                    None => (old[j].0, old[j].1 + 1.0),
                };
            }
        }
    }
}

fn move_step(drift: &mut Drift) {
    let old = drift.pos.clone();
    for i in 0..old.len() {
        let node = drift.sim.node(i);
        let mass = node.neighbor_count() as f32;
        for j in 0..old.len() {
            if j == i {
                continue;
            }
            let pull = if node.is_neighbor(drift.sim.node(j).entity()) { 0.32 } else { 0.08 };
            let toward = minus(old[j], drift.pos[i]);
            drift.pos[i].0 += toward.0 / mass * pull;
            drift.pos[i].1 += toward.1 / mass * pull;
        }
    }
}

fn step(drift: &mut Drift) {
    push_step(drift);
    move_step(drift);
}

fn slim(drift: &mut Drift) {
    let old = drift.pos.clone();
    for i in 0..old.len() {
        let mut closest: Option<(f32, f32)> = None;
        for j in 0..old.len() {
            if j == i {
                continue;
            }
            let nearer = match closest {
                Some(best) => taxicab(minus(old[j], old[i])) < taxicab(minus(best, old[i])),
                None => true,
            };
            if nearer {
                closest = Some(old[j]);
            }
        }
        if let Some(closest) = closest {
            let displacement = minus(closest, old[i]);
            if taxicab(displacement) > 1.1 {
                let axis = greatest_axis(displacement);
                let len = taxicab(axis);
                drift.pos[i] = minus(closest, (axis.0 / len, axis.1 / len));
            }
        }
    }
}

fn step_toward_grid(drift: &mut Drift) {
    for pos in drift.pos.iter_mut() {
        pos.0 += (pos.0.round() - pos.0) * 0.2;
        pos.1 += (pos.1.round() - pos.1) * 0.2;
    }
}

fn all_nodes_on_grid(drift: &Drift) -> bool {
    !drift
        .pos
        .iter()
        .any(|pos| (pos.0 - pos.0.round()).abs() >= 0.01 || (pos.1 - pos.1.round()).abs() >= 0.01)
}

fn build_grid(mut drift: Drift) -> GridPlacements {
    push_step(&mut drift);
    slim(&mut drift);
    let mut passes = 0;
    let converged = loop {
        match drift.sim.grid_pass(passes, all_nodes_on_grid(&drift)) {
            GridPass::Refine => {
                push_step(&mut drift);
                step_toward_grid(&mut drift);
                passes += 1;
            }
            GridPass::Stop { converged } => break converged,
        }
    };
    let places: Vec<(isize, isize)> =
        drift.pos.iter().map(|pos| (pos.0.round() as isize, pos.1.round() as isize)).collect();
    drift.sim.build_grid(places, converged).unwrap()
}

fn relax(mut drift: Drift, steps: usize) -> GridPlacements {
    for _ in 0..steps {
        step(&mut drift);
    }
    build_grid(drift)
}

fn run_sim(drift: Drift) -> GridPlacements {
    relax(drift, 30)
}

#[test]
fn generation_is_consistent() {
    let mut graph = Graph::new();
    graph.entities = vec![dummy_entity(), dummy_entity(), dummy_entity()];
    graph.relations = vec![dummy_relation(0, 2), dummy_relation(1, 2)];

    assert_eq!(Sim::new(&graph), Sim::new(&graph));
}

#[test]
fn nodes_stay_apart() {
    let mut graph = Graph::new();
    graph.entities =
        vec![dummy_entity(), dummy_entity(), dummy_entity(), dummy_entity(), dummy_entity()];
    graph.relations = vec![
        dummy_relation(0, 2),
        dummy_relation(1, 2),
        dummy_relation(3, 2),
        dummy_relation(3, 4),
        dummy_relation(4, 2),
    ];

    let grid = run_sim(seed(&graph));

    let mut taken_points: HashSet<(isize, isize)> = HashSet::new();

    for node in grid.nodes().iter() {
        assert!(
            taken_points.insert((node.x, node.y)),
            "Point {:?} is already on the grid, but entity {} tried to go there.",
            (node.x, node.y),
            node.entity
        );
    }
}

#[test]
fn nodes_stay_together() {
    let mut graph = Graph::new();
    graph.entities = vec![
        dummy_entity(),
        dummy_entity(),
        dummy_entity(),
        dummy_entity(),
        dummy_entity(),
        dummy_entity(),
        dummy_entity(),
        dummy_entity(),
        dummy_entity(),
        dummy_entity(),
    ];
    graph.relations = vec![
        dummy_relation(0, 2),
        dummy_relation(1, 2),
        dummy_relation(3, 2),
        dummy_relation(3, 4),
        dummy_relation(4, 2),
        dummy_relation(6, 2),
        dummy_relation(7, 6),
        dummy_relation(5, 8),
        dummy_relation(2, 8),
        dummy_relation(1, 8),
        dummy_relation(1, 7),
    ];

    let grid = run_sim(seed(&graph));

    for node in grid.nodes().iter() {
        let mut farthest_distance = f32::INFINITY;
        for other in grid.nodes().iter() {
            if node.entity == other.entity {
                continue;
            }
            let node_pos = (node.x as f32, node.y as f32);
            let other_pos = (other.x as f32, other.y as f32);
            farthest_distance = f32::min(farthest_distance, taxicab(minus(other_pos, node_pos)));
        }
        assert!(
            farthest_distance <= 1.0,
            "Entity {} is too far away from everything! ({} units)",
            node.entity,
            farthest_distance
        );
    }
}

#[test]
fn three_entities_in_a_chain_are_placed_side_by_side() {
    let graph = graph_of(3, &[(0, 2), (1, 2)]);
    let grid = relax(seed(&graph), 64);

    assert!(grid.converged());
    assert_eq!(grid.nodes().len(), 3);
    assert_eq!(grid.nodes().iter().map(|node| node.entity).collect::<Vec<_>>(), vec![0, 1, 2]);
    assert_distinct(&grid);
    assert!(grid.is_separated());
    assert!(grid.is_cohesive());
    assert_centered(&grid);
    // The middle entity is one grid step away from either end.
    let nodes = grid.nodes();
    assert_eq!(taxicab_between(&nodes[2], &nodes[0]), 1);
    assert_eq!(taxicab_between(&nodes[2], &nodes[1]), 1);
    for node in nodes.iter() {
        assert_eq!(nearest_other(&grid, node), 1);
    }
}

#[test]
fn three_entities_after_a_short_relaxation_touch_at_a_corner() {
    let graph = graph_of(3, &[(0, 2), (1, 2)]);
    let grid = run_sim(seed(&graph));

    assert!(grid.converged());
    assert_eq!(grid.nodes().len(), 3);
    assert_distinct(&grid);
    assert!(grid.is_separated());
    assert_centered(&grid);
    // The middle entity touches both ends, be it along a diagonal.
    let nodes = grid.nodes();
    assert_eq!(chess_between(&nodes[2], &nodes[0]), 1);
    assert_eq!(chess_between(&nodes[2], &nodes[1]), 1);
}

#[test]
fn five_entities_have_their_nearest_one_step_away() {
    let graph = graph_of(5, &[(0, 2), (1, 2), (3, 2), (3, 4), (4, 2)]);
    let grid = run_sim(seed(&graph));

    assert!(grid.converged());
    assert_eq!(grid.nodes().len(), 5);
    assert_distinct(&grid);
    assert!(grid.is_separated());
    assert!(grid.is_cohesive());
    assert_centered(&grid);
    for node in grid.nodes().iter() {
        assert!(nearest_other(&grid, node) <= 1, "entity {} is left alone", node.entity);
    }
}

#[test]
fn entity_without_relations_is_not_placed() {
    for entity_count in [3usize, 4, 7, 12] {
        // The last entity takes part in no relation.
        let graph = graph_of(entity_count, &[(0, 1), (1, 0)]);
        let sim = Sim::new(&graph);
        assert_eq!(entities(&sim), vec![0, 1]);
        let grid = run_sim(seed(&graph));
        assert_eq!(grid.nodes().iter().map(|node| node.entity).collect::<Vec<_>>(), vec![0, 1]);
    }
    // An isolated entity in the middle.
    let graph = graph_of(5, &[(0, 4), (3, 1), (1, 4)]);
    let grid = run_sim(seed(&graph));
    assert_eq!(grid.nodes().iter().map(|node| node.entity).collect::<Vec<_>>(), vec![0, 1, 3, 4]);
    assert!(grid.nodes().iter().all(|node| node.entity != 2));
}

#[test]
fn nodes_of_a_chain() {
    let sim = Sim::new(&graph_of(3, &[(0, 2), (1, 2)]));
    assert_eq!(sim.len(), 3);
    assert_eq!(entities(&sim), vec![0, 1, 2]);
    assert_eq!(neighbors(&sim, 0, 3), vec![2]);
    assert_eq!(neighbors(&sim, 1, 3), vec![2]);
    assert_eq!(neighbors(&sim, 2, 3), vec![0, 1]);
    assert_eq!(sim.node(0).neighbor_count(), 1);
    assert_eq!(sim.node(1).neighbor_count(), 1);
    assert_eq!(sim.node(2).neighbor_count(), 2);
}

#[test]
fn neighbors_are_mutual() {
    let count = 10;
    let graph = graph_of(
        count,
        &[(0, 2), (1, 2), (3, 2), (3, 4), (4, 2), (6, 2), (7, 6), (5, 8), (2, 8), (1, 8), (1, 7)],
    );
    let sim = Sim::new(&graph);
    assert_eq!(entities(&sim), vec![0, 1, 2, 3, 4, 5, 6, 7, 8]);
    for index in 0..sim.len() {
        let node = sim.node(index);
        assert!(node.neighbor_count() >= 1);
        assert!(!node.is_neighbor(node.entity()));
        for other in 0..sim.len() {
            assert_eq!(
                node.is_neighbor(sim.node(other).entity()),
                sim.node(other).is_neighbor(node.entity())
            );
        }
    }
    assert_eq!(neighbors(&sim, 2, count), vec![0, 1, 3, 4, 6, 8]);
    assert_eq!(neighbors(&sim, 5, count), vec![8]);
}

#[test]
fn order_and_repetition_of_relations_make_no_difference() {
    let first = Sim::new(&graph_of(4, &[(0, 2), (1, 2), (3, 1)]));
    let second = Sim::new(&graph_of(4, &[(3, 1), (0, 2), (1, 2), (0, 2), (3, 1)]));
    assert_eq!(first, second);
    // Nor does the direction in which a relation is written.
    let third = Sim::new(&graph_of(4, &[(2, 0), (2, 1), (1, 3)]));
    assert_eq!(first, third);
    // Another relation does.
    let fourth = Sim::new(&graph_of(4, &[(0, 2), (1, 2), (3, 0)]));
    assert_ne!(first, fourth);
}

#[test]
fn relation_of_an_entity_with_itself_adds_nothing() {
    // Related to itself alone, the entity is left out like an isolated one.
    let graph = graph_of(3, &[(1, 1)]);
    assert!(graph.is_well_formed());
    let sim = Sim::new(&graph);
    assert_eq!(sim.len(), 0);
    assert_eq!(entities(&sim), Vec::<usize>::new());
    let grid = sim.build_grid(Vec::new(), true).unwrap();
    assert!(grid.nodes().is_empty());

    // Related to another entity too, it has that entity as its neighbor and
    // not itself.
    let sim = Sim::new(&graph_of(3, &[(1, 1), (1, 2), (2, 2)]));
    assert_eq!(entities(&sim), vec![1, 2]);
    assert_eq!(neighbors(&sim, 0, 3), vec![2]);
    assert_eq!(neighbors(&sim, 1, 3), vec![1]);
    assert_eq!(sim.node(0).neighbor_count(), 1);
    assert_eq!(sim.node(1).neighbor_count(), 1);
    assert!(!sim.node(0).is_neighbor(1));
    assert!(!sim.node(1).is_neighbor(2));

    // The nodes are those of the graph without such relations.
    assert_eq!(
        Sim::new(&graph_of(4, &[(0, 0), (0, 3), (3, 3), (2, 2), (3, 1), (1, 1)])),
        Sim::new(&graph_of(4, &[(0, 3), (3, 1)]))
    );
}

#[test]
fn nobody_is_its_own_neighbor() {
    let graphs = [
        graph_of(3, &[(0, 2), (1, 2)]),
        graph_of(3, &[(0, 0), (1, 1), (2, 2)]),
        graph_of(3, &[(0, 0), (0, 1), (1, 1), (1, 2), (2, 2), (2, 0)]),
        graph_of(5, &[(4, 4), (4, 0), (4, 4)]),
    ];
    for graph in graphs.iter() {
        let sim = Sim::new(graph);
        for index in 0..sim.len() {
            let node = sim.node(index);
            assert!(!node.is_neighbor(node.entity()));
            assert!(node.neighbor_count() >= 1);
        }
    }
}

#[test]
fn empty_graph_gives_empty_grid() {
    let graph = Graph::new();
    assert!(graph.is_well_formed());
    let sim = Sim::new(&graph);
    assert_eq!(sim.len(), 0);
    assert_eq!(sim.grid_pass(0, true), GridPass::Stop { converged: true });
    let grid = sim.build_grid(Vec::new(), true).unwrap();
    assert!(grid.nodes().is_empty());
    assert!(grid.converged());

    let grid = run_sim(seed(&graph_of(4, &[])));
    assert!(grid.nodes().is_empty());
    assert!(grid.converged());
}

#[test]
fn relation_beyond_the_entities_is_found() {
    assert!(graph_of(3, &[(0, 2), (1, 2)]).is_well_formed());
    assert!(!graph_of(3, &[(0, 2), (1, 3)]).is_well_formed());
    assert!(!graph_of(3, &[(3, 0)]).is_well_formed());
    assert!(!graph_of(0, &[(0, 0)]).is_well_formed());
    assert!(graph_of(0, &[]).is_well_formed());
}

#[test]
fn node_without_neighbors() {
    let node = SimNode::new(7);
    assert_eq!(node.entity(), 7);
    assert_eq!(node.neighbor_count(), 0);
    assert!(!node.is_neighbor(7));
    assert!(!node.is_neighbor(0));
}

#[test]
fn grid_is_centered_on_the_truncated_mean() {
    let sim = Sim::new(&graph_of(3, &[(0, 2), (1, 2)]));
    // Sums 3 and 2: means 1 and 0.
    let grid = sim.build_grid(vec![(0, 0), (2, 1), (1, 1)], true).unwrap();
    assert_eq!(
        grid.nodes()[..],
        [
            GridNode { x: -1, y: 0, entity: 0 },
            GridNode { x: 1, y: 1, entity: 1 },
            GridNode { x: 0, y: 1, entity: 2 },
        ]
    );
    assert_centered(&grid);
}

#[test]
fn mean_is_rounded_towards_zero() {
    // Sums -5 and 5 over 3: means -1 and 1, not -2 and 1.
    let sim = Sim::new(&graph_of(3, &[(0, 2), (1, 2)]));
    let grid = sim.build_grid(vec![(-3, 3), (-1, 1), (-1, 1)], false).unwrap();
    assert_eq!(
        grid.nodes()[..],
        [
            GridNode { x: -2, y: 2, entity: 0 },
            GridNode { x: 0, y: 0, entity: 1 },
            GridNode { x: 0, y: 0, entity: 2 },
        ]
    );
    assert!(!grid.converged());
    assert_centered(&grid);

    // Sum -1 over 2: mean 0.
    let sim = Sim::new(&graph_of(2, &[(0, 1)]));
    let grid = sim.build_grid(vec![(-1, -1), (0, 0)], true).unwrap();
    assert_eq!(
        grid.nodes()[..],
        [GridNode { x: -1, y: -1, entity: 0 }, GridNode { x: 0, y: 0, entity: 1 }]
    );
    assert_centered(&grid);
}

#[test]
fn centered_grids_have_mean_zero() {
    let graph = graph_of(4, &[(0, 1), (2, 3)]);
    let cases: Vec<Vec<(isize, isize)>> = vec![
        vec![(0, 0), (0, 0), (0, 0), (0, 0)],
        vec![(10, -7), (11, -7), (12, -8), (13, -9)],
        vec![(-1, 0), (-1, 0), (-1, 0), (0, 1)],
        vec![(1000000, -1000000), (3, 4), (-17, 5), (6, 6)],
        vec![
            (isize::MAX, isize::MIN),
            (isize::MAX - 1, isize::MIN + 1),
            (isize::MAX, isize::MIN),
            (isize::MAX - 3, isize::MIN + 2),
        ],
    ];
    for places in cases {
        let grid = Sim::new(&graph).build_grid(places.clone(), true).unwrap();
        assert_centered(&grid);
        // Every place has moved by the same amount.
        for index in 1..places.len() {
            assert_eq!(grid.nodes()[index].x - grid.nodes()[0].x, places[index].0 - places[0].0);
            assert_eq!(grid.nodes()[index].y - grid.nodes()[0].y, places[index].1 - places[0].1);
        }
        assert_eq!(entities(&Sim::new(&graph)), vec![0, 1, 2, 3]);
    }
}

#[test]
fn grid_that_cannot_be_centered_is_refused() {
    let graph = graph_of(3, &[(0, 2), (1, 2)]);
    // The mean is positive, and the smallest coordinate cannot go lower.
    let places = vec![(isize::MAX, 0), (isize::MAX, 0), (isize::MIN, 0)];
    assert!(Sim::new(&graph).build_grid(places, true).is_none());
    let places = vec![(0, isize::MIN), (0, isize::MIN), (0, isize::MAX)];
    assert!(Sim::new(&graph).build_grid(places, true).is_none());
    // Here the mean is zero and nothing moves.
    let places = vec![(isize::MAX, 0), (0, 0), (isize::MIN, 0)];
    let grid = Sim::new(&graph).build_grid(places, true).unwrap();
    assert_eq!(grid.nodes()[0].x, isize::MAX);
    assert_eq!(grid.nodes()[2].x, isize::MIN);
}

#[test]
fn refining_stops_on_the_grid_or_when_the_passes_run_out() {
    let sim = Sim::new(&graph_of(3, &[(0, 2), (1, 2)]));
    let limit = 3 * GRID_PASSES_PER_NODE;
    assert_eq!(GRID_PASSES_PER_NODE, 256);
    assert_eq!(sim.grid_pass(0, false), GridPass::Refine);
    assert_eq!(sim.grid_pass(limit - 1, false), GridPass::Refine);
    assert_eq!(sim.grid_pass(limit, false), GridPass::Stop { converged: false });
    assert_eq!(sim.grid_pass(usize::MAX, false), GridPass::Stop { converged: false });
    assert_eq!(sim.grid_pass(0, true), GridPass::Stop { converged: true });
    assert_eq!(sim.grid_pass(limit, true), GridPass::Stop { converged: true });
    assert_eq!(sim.grid_pass(usize::MAX, true), GridPass::Stop { converged: true });
}

#[test]
fn equal_graphs_are_placed_alike() {
    let relations = [(0, 2), (1, 2), (3, 2), (3, 4), (4, 2)];
    let first = run_sim(seed(&graph_of(5, &relations)));
    let second = run_sim(seed(&graph_of(5, &relations)));
    assert_eq!(first.nodes()[..], second.nodes()[..]);
    assert_eq!(first.converged(), second.converged());
}

#[test]
fn entities_at_one_place_are_not_separated() {
    let graph = graph_of(3, &[(0, 2), (1, 2)]);
    let grid = Sim::new(&graph).build_grid(vec![(0, 0), (1, 0), (2, 0)], true).unwrap();
    assert!(grid.is_separated());
    let grid = Sim::new(&graph).build_grid(vec![(0, 0), (1, 0), (0, 0)], true).unwrap();
    assert!(!grid.is_separated());
    let grid = Sim::new(&graph).build_grid(vec![(4, 4), (4, 4), (4, 4)], true).unwrap();
    assert!(!grid.is_separated());
    let grid = Sim::new(&graph).build_grid(vec![(0, 1), (1, 0), (1, 1)], true).unwrap();
    assert!(grid.is_separated());
    // Places that agree in one coordinate only are different places.
    let grid = Sim::new(&graph).build_grid(vec![(0, 1), (0, 2), (1, 1)], true).unwrap();
    assert!(grid.is_separated());
}

#[test]
fn entity_far_from_all_others_breaks_cohesion() {
    let graph = graph_of(3, &[(0, 2), (1, 2)]);
    let grid = Sim::new(&graph).build_grid(vec![(0, 0), (1, 0), (2, 0)], true).unwrap();
    assert!(grid.is_cohesive());
    let grid = Sim::new(&graph).build_grid(vec![(0, 0), (1, 0), (1, 1)], true).unwrap();
    assert!(grid.is_cohesive());
    // A diagonal neighbor is two steps away.
    let grid = Sim::new(&graph).build_grid(vec![(0, 0), (1, 1), (2, 1)], true).unwrap();
    assert!(!grid.is_cohesive());
    let grid = Sim::new(&graph).build_grid(vec![(0, 0), (1, 0), (3, 0)], true).unwrap();
    assert!(!grid.is_cohesive());
    // Entities at one place keep each other company.
    let grid = Sim::new(&graph).build_grid(vec![(0, 0), (0, 0), (0, 1)], true).unwrap();
    assert!(grid.is_cohesive());
    // The farthest that two places can be apart.
    let graph = graph_of(2, &[(0, 1)]);
    let places = vec![(isize::MAX, isize::MAX), (isize::MIN, isize::MIN)];
    let grid = Sim::new(&graph).build_grid(places, true).unwrap();
    assert!(!grid.is_cohesive());
    assert!(grid.is_separated());
}

#[test]
fn empty_grid_is_separated_and_cohesive() {
    let grid = Sim::new(&Graph::new()).build_grid(Vec::new(), true).unwrap();
    assert!(grid.is_separated());
    assert!(grid.is_cohesive());
    // An entity that is related to itself alone is not on the grid.
    let grid = Sim::new(&graph_of(1, &[(0, 0)])).build_grid(Vec::new(), true).unwrap();
    assert!(grid.nodes().is_empty());
    assert!(grid.is_separated());
    assert!(grid.is_cohesive());
}

#[test]
fn entity_related_to_itself_alone_is_not_placed() {
    let grid = run_sim(seed(&graph_of(1, &[(0, 0)])));
    assert!(grid.converged());
    assert!(grid.nodes().is_empty());
    let grid = run_sim(seed(&graph_of(6, &[(5, 5), (1, 4)])));
    assert_eq!(grid.nodes().iter().map(|node| node.entity).collect::<Vec<_>>(), vec![1, 4]);
}

#[test]
fn two_related_entities_touch() {
    let grid = run_sim(seed(&graph_of(2, &[(0, 1)])));
    assert!(grid.converged());
    assert_eq!(grid.nodes().len(), 2);
    assert!(grid.is_separated());
    assert_centered(&grid);
    // They touch, be it at a corner.
    let nodes = grid.nodes();
    assert_eq!(chess_between(&nodes[0], &nodes[1]), 1);
}
