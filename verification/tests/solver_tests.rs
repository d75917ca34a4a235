use std::sync::Arc;

use mstdc::branch_bound::parallel::worker_treat;
use mstdc::branch_bound::traits::BBProblem;
use mstdc::branch_bound::parallel::Coordinator;
use mstdc::branch_bound::problem_pool::ProblemPool;
use mstdc::branch_bound::serial;
use mstdc::branch_bound::solving_status::SolvingStatus;
use mstdc::branch_bound::traits::Solution as SolutionTrait;
use mstdc::dependency_bounds::create_constant_bounds;
use mstdc::instance_bb::edge::Edge;
use mstdc::instance_bb::problem::BaseProblem;
use mstdc::instance_bb::problem::Problem;
use mstdc::instance_bb::problem::Solution;
use mstdc::instance_bb::problem::SubproblemIterator;
use mstdc::BoundMap;
use mstdc::Digraph;
use mstdc::GraphImpl;
use mstdc::Instance;
use mstdc::WeightedGraph;

fn build_instance(
    n: usize,
    weighted_edges: Vec<(usize, usize, u64)>,
    l: usize,
    u: usize,
    arcs: Vec<(usize, usize)>,
) -> Instance {
    let wg = WeightedGraph::from_weighted_edges(n, weighted_edges);
    let num_edges = wg.num_edges();
    let mut d = Digraph::new(num_edges);
    for (a, b) in arcs {
        d.add_edge(a, b).unwrap();
    }
    let (lb, ub) = create_constant_bounds(&wg, l, u);
    Instance::new(wg, d, lb, ub)
}

fn root_problem(instance: Instance) -> Problem {
    Problem::Base(Arc::new(BaseProblem::new(Arc::new(instance))))
}

fn solve_serial(instance: Instance) -> Option<Solution> {
    serial::branch_and_bound::<Problem, ProblemPool<Problem>>(root_problem(instance))
}

fn solve_parallel(instance: Instance, num_workers: usize) -> Option<Solution> {
    let mut coordinator: Coordinator<Problem> = Coordinator::new();
    let mut inboxes: Vec<Vec<(Problem, Solution)>> = Vec::new();
    for _ in 0..num_workers {
        inboxes.push(Vec::new());
    }
    match coordinator.start(root_problem(instance)) {
        None => return coordinator.extract_best_solution(),
        Some(first) => inboxes[0].push(first),
    }
    let mut cursor: usize = 0;
    while coordinator.keep_running() {
        let mut message = None;
        for inbox in inboxes.iter_mut() {
            if let Some(item) = inbox.pop() {
                message = Some(item);
                break;
            }
        }
        let (problem, relaxed) = message.expect("an open subproblem must be queued");
        let report = worker_treat(problem, relaxed);
        for dispatch in coordinator.handle_message(report) {
            inboxes[cursor % num_workers].push(dispatch);
            cursor += 1;
        }
    }
    coordinator.extract_best_solution()
}

fn s1_instance() -> Instance {
    let weighted_edges = vec![
        (0, 1, 1),
        (0, 2, 9),
        (0, 5, 14),
        (1, 2, 10),
        (1, 3, 15),
        (2, 3, 11),
        (2, 5, 2),
        (3, 4, 6),
        (4, 5, 9),
    ];
    build_instance(6, weighted_edges, 0, 6, vec![])
}

fn s3_instance() -> Instance {
    let weighted_edges = vec![(0, 1, 1), (1, 2, 1), (2, 3, 1)];
    build_instance(4, weighted_edges, 0, 0, vec![])
}

#[test]
fn classical_mst_no_constraints() {
    let solution = solve_serial(s1_instance()).expect("a spanning tree exists");
    assert!(solution.is_feasible());
    assert_eq!(solution.cost(), 27);

    let chosen = solution.edges();
    for (u, v) in [(0, 1), (0, 2), (2, 5), (3, 4), (4, 5)] {
        assert!(chosen.iter().any(|e| e.u == u && e.v == v));
    }
}

#[test]
fn forced_infeasibility_cycle_of_dependencies() {
    // a triangle where each edge forbids a chosen in-neighbour, with
    // the dependencies arranged in a cycle: no tree satisfies all
    let weighted_edges = vec![(0, 1, 1), (0, 2, 1), (1, 2, 1)];
    let instance = build_instance(3, weighted_edges, 0, 0, vec![(0, 1), (1, 2), (2, 0)]);
    assert!(solve_serial(instance).is_none());
}

#[test]
fn unique_spanning_tree_path() {
    let solution = solve_serial(s3_instance()).expect("the path is a spanning tree");
    assert!(solution.is_feasible());
    assert_eq!(solution.cost(), 3);
    let chosen = solution.edges();
    assert_eq!(chosen.len(), 3);
    for (u, v) in [(0, 1), (1, 2), (2, 3)] {
        assert!(chosen.iter().any(|e| e.u == u && e.v == v));
    }
}

#[test]
fn exclusion_versus_derivation() {
    // a complete graph where the cheapest edge needs one chosen
    // dependency: either the tree keeps that dependency or it drops
    // the cheapest edge
    let weighted_edges = vec![
        (0, 1, 1),
        (0, 2, 2),
        (0, 3, 3),
        (1, 2, 4),
        (1, 3, 5),
        (2, 3, 6),
    ];
    let wg = WeightedGraph::from_weighted_edges(4, weighted_edges);
    let num_edges = wg.num_edges();
    let mut d = Digraph::new(num_edges);
    // the edge between 2 and 3 is a dependency of the edge between 0
    // and 1, which are the last and first edges in canonical order
    d.add_edge(5, 0).unwrap();
    let mut lb = BoundMap::new();
    let mut ub = BoundMap::new();
    for (u, v) in wg.edges() {
        let l = if (u, v) == (0, 1) { 1 } else { 0 };
        lb.insert(u, v, l);
        ub.insert(u, v, 6);
    }
    let instance = Instance::new(wg, d, lb, ub);
    let solution = solve_serial(instance).expect("a feasible tree exists");
    assert!(solution.is_feasible());
    let chosen = solution.edges();
    let has01 = chosen.iter().any(|e| e.u == 0 && e.v == 1);
    let has23 = chosen.iter().any(|e| e.u == 2 && e.v == 3);
    assert!(!has01 || has23);
}

#[test]
fn parallel_equivalence() {
    // the parallel protocol returns the serial optimum for every
    // worker count
    let serial_cost_a = solve_serial(s1_instance()).unwrap().cost();
    let serial_cost_b = solve_serial(s3_instance()).unwrap().cost();
    for k in [1, 2, 4] {
        let par_a = solve_parallel(s1_instance(), k).unwrap();
        assert_eq!(par_a.cost(), serial_cost_a);
        let par_b = solve_parallel(s3_instance(), k).unwrap();
        assert_eq!(par_b.cost(), serial_cost_b);
    }
}

#[test]
fn single_worker_matches_serial() {
    let serial_sol = solve_serial(s1_instance()).unwrap();
    let parallel_sol = solve_parallel(s1_instance(), 1).unwrap();
    assert_eq!(serial_sol.cost(), parallel_sol.cost());
}

#[test]
fn empty_graph_has_no_solution() {
    let instance = build_instance(0, vec![], 0, 0, vec![]);
    assert_eq!(instance.graph().num_edges(), 0);
    assert!(solve_serial(instance).is_none());
    let instance2 = build_instance(0, vec![], 0, 0, vec![]);
    assert!(solve_parallel(instance2, 2).is_none());
}

#[test]
fn single_vertex_trivial_tree() {
    let instance = build_instance(1, vec![], 0, 0, vec![]);
    let solution = solve_serial(instance).expect("one vertex spans itself");
    assert!(solution.is_feasible());
    assert_eq!(solution.cost(), 0);
    assert_eq!(solution.edges().len(), 0);
}

#[test]
fn disconnected_graph_has_no_solution() {
    let weighted_edges = vec![(0, 1, 1), (2, 3, 1)];
    let instance = build_instance(4, weighted_edges, 0, 4, vec![]);
    assert!(solve_serial(instance).is_none());
    let weighted_edges2 = vec![(0, 1, 1), (2, 3, 1)];
    let instance2 = build_instance(4, weighted_edges2, 0, 4, vec![]);
    assert!(solve_parallel(instance2, 2).is_none());
}

#[test]
fn solving_status_rules() {
    // the best solution only improves strictly, and the lower bound
    // never passes the upper one
    let cheap = solve_serial(s3_instance()).unwrap();
    let dear = solve_serial(s1_instance()).unwrap();
    assert!(cheap.cost() < dear.cost());

    let mut status: SolvingStatus<Solution> = SolvingStatus::new();
    assert!(!status.finished());
    assert!(status.set_best_solution(dear).is_ok());
    let worse = solve_serial(s1_instance()).unwrap();
    assert!(status.set_best_solution(worse).is_err());
    assert!(status.set_best_solution(cheap).is_ok());

    let expensive_bound = solve_serial(s1_instance()).unwrap().get_cost();
    assert!(status.set_lower_bound(expensive_bound).is_err());
    let tight_bound = solve_serial(s3_instance()).unwrap().get_cost();
    assert!(status.set_lower_bound(tight_bound).is_ok());
    assert!(status.finished());
    assert!(status.extract_best_solution().is_some());
}

#[test]
fn subproblem_iterator_children() {
    // expanding an infeasible relaxation yields the exclusion child
    // first from the last position, then the derivation children
    let weighted_edges = vec![(0, 1, 1), (1, 2, 1), (2, 3, 1)];
    let instance = build_instance(4, weighted_edges, 0, 0, vec![(0, 1)]);
    let problem = root_problem(instance);
    let relaxed = solve_relaxation_of(&problem);
    assert!(!relaxed.is_feasible());
    let mut iterator = SubproblemIterator::new(&problem, &relaxed);
    let mut count = 0;
    while let Some(child) = iterator.next_subproblem() {
        match child {
            Problem::Base(_) => panic!("children are always derived"),
            Problem::Derived(_) => {}
        }
        count += 1;
    }
    assert!(count >= 1);
}

fn solve_relaxation_of(problem: &Problem) -> Solution {
    problem.solve_relaxation()
}

#[test]
fn instance_accessors_round_trip() {
    // an instance rebuilt from what its accessors return reads the same
    let original = s1_instance();
    let n = original.graph().num_verts();
    let mut records: Vec<(usize, usize, u64)> = Vec::new();
    for (u, v) in original.graph().edges() {
        records.push((u, v, original.graph().get_edge_weight(u, v).unwrap()));
    }
    let wg = WeightedGraph::from_weighted_edges(n, records);
    let mut d = Digraph::new(original.dependencies().num_verts());
    for (a, b) in original.dependencies().edges() {
        d.add_edge(a, b).unwrap();
    }
    let mut lb = BoundMap::new();
    let mut ub = BoundMap::new();
    for (u, v) in original.graph().edges() {
        lb.insert(u, v, original.dep_lb().get(u, v).unwrap());
        ub.insert(u, v, original.dep_ub().get(u, v).unwrap());
    }
    let rebuilt = Instance::new(wg, d, lb, ub);

    assert_eq!(rebuilt.graph().num_verts(), original.graph().num_verts());
    assert_eq!(rebuilt.graph().edges(), original.graph().edges());
    for (u, v) in original.graph().edges() {
        assert_eq!(
            rebuilt.graph().get_edge_weight(u, v),
            original.graph().get_edge_weight(u, v)
        );
        assert_eq!(rebuilt.dep_lb().get(u, v), original.dep_lb().get(u, v));
        assert_eq!(rebuilt.dep_ub().get(u, v), original.dep_ub().get(u, v));
    }
    assert_eq!(
        rebuilt.dependencies().edges(),
        original.dependencies().edges()
    );
}

#[test]
fn instance_files_round_trip() {
    // writing an instance as its three files' rows and reading them
    // back restores the graph, the dependency digraph and both bound
    // maps exactly, down to the text lines
    let original = s1_instance();
    let (g_rows, d_rows, b_rows) = mstdc::files::instance_to_rows(&original);

    // rows survive the trip through rendered text lines
    let g_lines = mstdc::files::rows_to_lines(&g_rows);
    let g_rows2 = mstdc::files::rows_from_lines(&g_lines).expect("rendered lines parse");
    assert_eq!(g_rows, g_rows2);
    let b_lines = mstdc::files::rows_to_lines(&b_rows);
    let b_rows2 = mstdc::files::rows_from_lines(&b_lines).expect("rendered lines parse");
    assert_eq!(b_rows, b_rows2);

    let rebuilt = mstdc::files::instance_from_rows(&g_rows2, &d_rows, &b_rows2)
        .expect("rendered rows form a coherent instance");

    assert_eq!(rebuilt.graph().num_verts(), original.graph().num_verts());
    assert_eq!(rebuilt.graph().edges(), original.graph().edges());
    for (u, v) in original.graph().edges() {
        assert_eq!(
            rebuilt.graph().get_edge_weight(u, v),
            original.graph().get_edge_weight(u, v)
        );
        assert_eq!(rebuilt.dep_lb().get(u, v), original.dep_lb().get(u, v));
        assert_eq!(rebuilt.dep_ub().get(u, v), original.dep_ub().get(u, v));
    }
    assert_eq!(
        rebuilt.dependencies().edges(),
        original.dependencies().edges()
    );

    // and the re-read instance solves to the same cost
    let cost = solve_serial(rebuilt).unwrap().cost();
    assert_eq!(cost, 27);

    // the same trip holds at the level of whole text lines
    let original2 = s1_instance();
    let (gl, dl, bl) = mstdc::files::instance_to_lines(&original2);
    let reread = mstdc::files::instance_from_lines(&gl, &dl, &bl)
        .expect("rendered lines form a coherent instance");
    assert_eq!(reread.graph().edges(), original2.graph().edges());
    assert_eq!(solve_serial(reread).unwrap().cost(), 27);
}

#[test]
fn malformed_files_are_rejected() {
    // a stray letter, a bad header, an out-of-range endpoint and a
    // duplicate edge are all refused
    let bad_line = vec![b"12a".to_vec()];
    assert!(mstdc::files::rows_from_lines(&bad_line).is_none());

    let no_header: Vec<Vec<u64>> = vec![];
    assert!(mstdc::files::weighted_graph_from_rows(&no_header).is_none());

    let wide_header = vec![vec![2, 2]];
    assert!(mstdc::files::weighted_graph_from_rows(&wide_header).is_none());

    let out_of_range = vec![vec![2], vec![0, 5, 1]];
    assert!(mstdc::files::weighted_graph_from_rows(&out_of_range).is_none());

    let duplicate = vec![vec![3], vec![0, 1, 1], vec![1, 0, 2]];
    assert!(mstdc::files::weighted_graph_from_rows(&duplicate).is_none());

    let good = vec![vec![3], vec![0, 1, 1], vec![1, 2, 2]];
    assert!(mstdc::files::weighted_graph_from_rows(&good).is_some());

    let dup_arcs = vec![vec![2], vec![0, 1], vec![0, 1]];
    assert!(mstdc::files::digraph_from_rows(&dup_arcs).is_none());
    let arcs = vec![vec![2], vec![0, 1], vec![1, 0]];
    assert!(mstdc::files::digraph_from_rows(&arcs).is_some());

    let short_bounds = vec![vec![0, 1, 2]];
    assert!(mstdc::files::bounds_from_rows(&short_bounds).is_none());
}

#[test]
fn interval_bounds_stay_in_range() {
    // whatever the random draws, the bounds respect their interval and
    // each other
    let weighted_edges = vec![(0, 1, 1), (1, 2, 1), (0, 2, 1)];
    let wg = WeightedGraph::from_weighted_edges(3, weighted_edges);
    let (lb, ub) = mstdc::dependency_bounds::create_interval_bounds(&wg, 1, 3);
    for (u, v) in wg.edges() {
        let l = lb.get(u, v).unwrap();
        let b = ub.get(u, v).unwrap();
        assert!(1 <= l && l < 3);
        assert!(l <= b && b < 3);
    }
}

#[test]
fn edge_status_of_relaxation() {
    // in a path with strict lower bounds, a relaxed tree edge reports
    // too few chosen dependencies
    let weighted_edges = vec![(0, 1, 1), (1, 2, 1)];
    let instance = build_instance(3, weighted_edges, 1, 2, vec![]);
    let problem = root_problem(instance);
    let relaxed = solve_relaxation_of(&problem);
    let status = relaxed.edge_status(&Edge { u: 0, v: 1 });
    assert_eq!(status, mstdc::instance_bb::problem::EdgeStatus::TooFewDeps);
    assert!(!relaxed.is_feasible());
}
