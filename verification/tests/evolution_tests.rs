use conjecture_search::bfs::WS;
use conjecture_search::builders::from_edges;
use conjecture_search::chance::shuffled_pairs;
use conjecture_search::cmaes::{
    add_parents_small_curri, assemble_encodings, construct_state, create_child,
    create_random_edges, encode, launch_CMAES,
};
use conjecture_search::enumerate::list_all_pairs;
use conjecture_search::harness::Verdict;
use conjecture_search::ils::{
    create_complete_graph, create_random_graph, create_random_regular_graph, fill_by_degree,
    graph_from_bits, iterative_local_search, local_search, perturb_with, perturbation,
};
use conjecture_search::score::{Score, NEG_INFINITY_KEY};
use conjecture_search::state::State;

fn sc(k: i64) -> Score {
    Score { key: k }
}

fn sorted(mut v: Vec<(usize, usize)>) -> Vec<(usize, usize)> {
    v.sort();
    v
}

fn assert_simple(st: &State) {
    let adj = st.adjacency();
    let n = st.n_sommet();
    let mut upper: u128 = 0;
    for i in 0..n {
        assert!(!adj[i][i]);
        for j in 0..n {
            assert_eq!(adj[i][j], adj[j][i]);
            if i < j && adj[i][j] {
                upper += 1;
            }
        }
    }
    assert_eq!(st.n_arete(), upper);
}

#[test]
fn a_shuffle_keeps_every_pair_once() {
    for n in [0usize, 1, 2, 5, 20] {
        let pairs = shuffled_pairs(n);
        assert_eq!(sorted(pairs), list_all_pairs(n));
    }
}

#[test]
fn a_shuffle_changes_the_order() {
    let ordered = list_all_pairs(20);
    let mut moved = false;
    for _ in 0..20 {
        if shuffled_pairs(20) != ordered {
            moved = true;
        }
    }
    assert!(moved);
}

#[test]
fn the_complete_graph_joins_every_pair() {
    let st = create_complete_graph(6, 12);
    assert_eq!(st.n_sommet(), 6);
    assert_eq!(st.n_arete(), 15);
    assert_eq!(st.conj(), 12);
    assert_eq!(st.size_terminal(), 1);
    assert!(st.non_edges().is_empty());
    assert!(st.seq().is_empty());
    assert_simple(&st);
    assert_eq!(create_complete_graph(1, 1).n_arete(), 0);
    assert_eq!(create_complete_graph(0, 1).n_sommet(), 0);
}

#[test]
fn bits_choose_the_pairs_in_lexicographic_order() {
    let st = graph_from_bits(4, 3, &vec![true, false, false, true, true, false]);
    assert_eq!(st.edges(), vec![(0, 1), (1, 2), (1, 3)]);
    assert_eq!(st.conj(), 3);
    let short = graph_from_bits(4, 3, &vec![false, true]);
    assert_eq!(short.edges(), vec![(0, 2)]);
    let long = graph_from_bits(3, 3, &vec![true; 9]);
    assert_eq!(long.n_arete(), 3);
    assert_simple(&st);
}

#[test]
fn a_random_graph_is_simple() {
    let mut counts = Vec::new();
    for _ in 0..30 {
        let st = create_random_graph(8, 5);
        assert_eq!(st.n_sommet(), 8);
        assert_eq!(st.conj(), 5);
        assert!(st.seq().is_empty());
        assert_simple(&st);
        counts.push(st.n_arete());
    }
    assert!(counts.iter().any(|c| *c != counts[0]));
    assert!(counts.iter().all(|c| *c <= 28));
}

#[test]
fn a_fill_by_degree_stops_above_the_bound() {
    let order = list_all_pairs(5);
    let st = fill_by_degree(5, 1, 2, &order);
    assert_eq!(st.edges(), vec![(0, 1), (0, 2), (1, 2), (3, 4)]);
    for d in st.degrees() {
        assert!(d <= 2);
    }
    let none = fill_by_degree(5, 0, 2, &order);
    assert_eq!(none.edges(), vec![(0, 1), (2, 3)]);
    let skipped = fill_by_degree(3, 5, 2, &vec![(0, 0), (0, 7), (2, 1), (1, 2)]);
    assert_eq!(skipped.edges(), vec![(1, 2)]);
    assert_eq!(skipped.n_arete(), 1);
    assert_simple(&st);
}

#[test]
fn a_random_regular_graph_bounds_the_degrees() {
    for _ in 0..20 {
        let st = create_random_regular_graph(10, 3, 9);
        assert_eq!(st.n_sommet(), 10);
        assert_eq!(st.conj(), 9);
        assert_simple(&st);
        for d in st.degrees() {
            assert!(d <= 4);
        }
    }
}

#[test]
fn a_perturbation_exchanges_two_pairs() {
    let st = from_edges(4, 4, 1, &vec![(0, 1), (2, 3)]);
    let order = vec![(0, 2), (0, 1), (1, 3), (2, 3)];
    let out = perturb_with(&st, &order);
    assert_eq!(out.edges(), vec![(0, 2), (2, 3)]);
    assert_eq!(out.n_arete(), 2);
    let order = vec![(0, 1), (2, 3), (0, 2), (1, 3)];
    let out = perturb_with(&st, &order);
    assert_eq!(out.edges(), vec![(0, 2), (2, 3)]);
    assert_simple(&out);
}

#[test]
fn a_perturbation_without_a_partner_flips_one_pair() {
    let full = create_complete_graph(3, 1);
    let out = perturb_with(&full, &vec![(0, 1), (0, 2), (1, 2)]);
    assert_eq!(out.edges(), vec![(0, 2), (1, 2)]);
    let empty = State::empty(3, 1, 1);
    let out = perturb_with(&empty, &vec![(1, 2), (0, 1), (0, 2)]);
    assert_eq!(out.edges(), vec![(1, 2)]);
    let one = from_edges(2, 2, 1, &vec![(0, 1)]);
    assert_eq!(perturb_with(&one, &vec![(0, 1)]).n_arete(), 0);
}

#[test]
fn a_perturbation_along_nothing_changes_nothing() {
    let st = from_edges(4, 4, 1, &vec![(0, 1), (2, 3)]);
    assert_eq!(perturb_with(&st, &Vec::new()).adjacency(), st.adjacency());
    assert_eq!(perturb_with(&st, &vec![(1, 1), (0, 2)]).adjacency(), st.adjacency());
    assert_eq!(perturb_with(&st, &vec![(0, 4)]).adjacency(), st.adjacency());
    let single = State::new();
    assert_eq!(perturbation(&single).adjacency(), single.adjacency());
}

#[test]
fn a_random_perturbation_keeps_the_rest_of_the_state() {
    let mut st = from_edges(6, 6, 21, &vec![(0, 1), (2, 3), (4, 5), (1, 2)]);
    st.set_best_score(sc(-4));
    for _ in 0..20 {
        let out = perturbation(&st);
        assert_eq!(out.n_sommet(), 6);
        assert_eq!(out.conj(), 21);
        assert_eq!(out.best_score().key, -4);
        assert_eq!(out.n_arete(), 4);
        assert_ne!(out.adjacency(), st.adjacency());
        assert_simple(&out);
    }
}

#[test]
fn a_local_search_accepts_strict_improvements() {
    let st = from_edges(4, 4, 1, &vec![(0, 1)]);
    let mut ls = local_search(st.clone(), sc(10));
    let cand = ls.neighbor((2, 3));
    assert_eq!(cand.edges(), vec![(0, 1), (2, 3)]);
    assert_eq!(cand.seq().len(), 1);
    assert_eq!(cand.seq()[0].ind, 4);
    assert!(!ls.offer(&cand, sc(10)));
    assert!(!ls.offer(&cand, sc(9)));
    assert!(ls.offer(&cand, sc(11)));
    let next = ls.neighbor((0, 2));
    assert_eq!(next.edges(), vec![(0, 1), (0, 2)]);
    assert!(!ls.offer(&next, sc(11)));
    let same = ls.neighbor((0, 1));
    assert_eq!(same.adjacency(), st.adjacency());
    let best = ls.finish();
    assert_eq!(best.edges(), vec![(0, 1), (2, 3)]);
    assert_eq!(best.best_score().key, 11);
}

#[test]
fn a_local_search_ends_with_a_pass_that_nothing_improves() {
    let st = from_edges(4, 4, 1, &vec![(0, 1)]);
    let mut ls = local_search(st.clone(), sc(0));
    let mut tried = Vec::new();
    while let Some(c) = ls.next_candidate() {
        assert!(tried.len() < 6);
        assert_eq!(c.seq().len(), 1);
        let m = c.seq()[0];
        assert_eq!(m.ind, 4);
        tried.push((m.from, m.to as usize));
        let mut expected = st.clone();
        expected.play(m);
        assert_eq!(c.adjacency(), expected.adjacency());
        assert!(!ls.offer(&c, sc(-1)));
    }
    assert_eq!(sorted(tried), list_all_pairs(4));
    assert!(ls.next_candidate().is_none());
    let best = ls.finish();
    assert_eq!(best.adjacency(), st.adjacency());
    assert_eq!(best.best_score().key, NEG_INFINITY_KEY);
}

#[test]
fn a_local_search_begins_a_new_pass_after_an_improvement() {
    let st = from_edges(4, 4, 1, &vec![(0, 1)]);
    let mut ls = local_search(st.clone(), sc(0));
    let first = ls.next_candidate().unwrap();
    let second = ls.next_candidate().unwrap();
    assert!(!ls.offer(&first, sc(0)));
    assert!(ls.offer(&second, sc(5)));
    let mut tried = 0;
    while let Some(c) = ls.next_candidate() {
        tried += 1;
        assert!(tried <= 6);
        assert!(!ls.offer(&c, sc(5)));
    }
    assert_eq!(tried, 6);
    let best = ls.finish();
    assert_eq!(best.adjacency(), second.adjacency());
    assert_eq!(best.best_score().key, 5);
}

#[test]
fn a_local_search_without_pairs_is_over_at_once() {
    let st = State::new();
    let mut ls = local_search(st.clone(), sc(0));
    assert!(ls.next_candidate().is_none());
    assert!(ls.next_candidate().is_none());
    assert_eq!(ls.finish().adjacency(), st.adjacency());
}

#[test]
fn an_iterated_search_walks_to_better_states() {
    let mut start = from_edges(3, 3, 1, &vec![]);
    start.set_best_score(sc(-9));
    let mut searched = from_edges(3, 3, 1, &vec![(0, 1)]);
    searched.set_best_score(sc(-5));
    let mut ils = iterative_local_search(start.clone(), searched.clone());
    assert!(ils.goes_on());
    assert_eq!(ils.state().adjacency(), searched.adjacency());
    assert_eq!(ils.best_state().adjacency(), start.adjacency());
    let mut worse = from_edges(3, 3, 1, &vec![(1, 2)]);
    worse.set_best_score(sc(-7));
    assert_eq!(ils.record(worse.clone()), Verdict::Progress);
    assert_eq!(ils.state().adjacency(), searched.adjacency());
    assert_eq!(ils.best_state().adjacency(), worse.adjacency());
    let mut better = from_edges(3, 3, 1, &vec![(0, 2)]);
    better.set_best_score(sc(-2));
    assert_eq!(ils.record(better.clone()), Verdict::Progress);
    assert_eq!(ils.state().adjacency(), better.adjacency());
    assert_eq!(ils.record(worse.clone()), Verdict::Unchanged);
    assert_eq!(ils.state().adjacency(), better.adjacency());
    let out = ils.finish(true);
    assert_eq!(out.adjacency(), better.adjacency());
}

#[test]
fn an_iterated_search_ends_on_a_counterexample() {
    let mut start = State::empty(3, 3, 1);
    start.set_best_score(sc(-9));
    let mut ils = iterative_local_search(start.clone(), start.clone());
    let mut found = from_edges(3, 3, 1, &vec![(0, 1), (1, 2)]);
    found.set_best_score(Score { key: 4607182418800017408 });
    assert_eq!(ils.record(found.clone()), Verdict::Counterexample);
    assert!(!ils.goes_on());
    assert_eq!(ils.finish(false).adjacency(), found.adjacency());
    let mut other = iterative_local_search(start.clone(), found.clone());
    assert!(!other.goes_on());
    assert_eq!(other.record(start.clone()), Verdict::Unchanged);
    assert_eq!(other.finish(true).adjacency(), start.adjacency());
}

#[test]
fn an_encoding_is_the_matrix_row_by_row() {
    let st = from_edges(3, 3, 1, &vec![(0, 1), (1, 2)]);
    assert_eq!(encode(&st), vec![0, 1, 0, 1, 0, 1, 0, 1, 0]);
    assert_eq!(encode(&State::new()), vec![0]);
    assert!(encode(&State::empty(0, 1, 1)).is_empty());
    let all = assemble_encodings(&vec![State::new(), st.clone()]);
    assert_eq!(all, vec![vec![0], vec![0, 1, 0, 1, 0, 1, 0, 1, 0]]);
}

#[test]
fn a_child_is_read_back_from_its_bits() {
    let st = from_edges(4, 4, 1, &vec![(0, 3), (1, 2), (2, 3)]);
    let child = create_child(&encode(&st)).unwrap();
    assert_eq!(child.adjacency(), st.adjacency());
    assert_eq!(child.n_arete(), 3);
    assert_eq!(child.conj(), 1);
    assert_eq!(child.size_terminal(), 1);
    let lower = create_child(&vec![1, 0, 0, 1, 0, 0, 0, 1, 1]).unwrap();
    assert_eq!(lower.edges(), vec![(0, 1), (1, 2)]);
    assert_eq!(lower.n_arete(), 2);
    assert_simple(&lower);
    assert_eq!(create_child(&Vec::new()).unwrap().n_sommet(), 0);
    assert_eq!(create_child(&vec![1]).unwrap().n_arete(), 0);
}

#[test]
fn a_child_of_no_square_is_rejected() {
    for len in [2usize, 3, 5, 8, 10, 15, 17, 24] {
        assert!(create_child(&vec![0; len]).is_none());
    }
    for side in 0..7usize {
        assert_eq!(create_child(&vec![0; side * side]).unwrap().n_sommet(), side);
    }
}

#[test]
fn a_state_is_built_from_the_pairs_labelled_one() {
    let child = vec![(1, (0, 1)), (0, (0, 2)), (1, (2, 1)), (1, (1, 1)), (2, (0, 2)), (1, (1, 0))];
    let st = construct_state(&child, 3);
    assert_eq!(st.edges(), vec![(0, 1), (1, 2)]);
    assert_eq!(st.n_arete(), 2);
    assert_eq!(st.n_sommet(), 3);
    assert_eq!(st.conj(), 1);
    let skipped = construct_state(&vec![(1, (0, 5)), (1, (4, 4))], 3);
    assert_eq!(skipped.n_arete(), 0);
}

#[test]
fn random_edges_are_all_pairs_labelled_zero() {
    let list = create_random_edges(6);
    assert_eq!(list.len(), 15);
    assert!(list.iter().all(|(v, _)| *v == 0));
    assert_eq!(sorted(list.iter().map(|(_, p)| *p).collect()), list_all_pairs(6));
}

#[test]
fn parents_are_filled_up_with_empty_graphs() {
    let given = vec![from_edges(3, 3, 4, &vec![(0, 1)])];
    let out = add_parents_small_curri(4, 5, given);
    assert_eq!(out.len(), 4);
    assert_eq!(out[0].n_arete(), 1);
    for st in &out[1..] {
        assert_eq!(st.n_sommet(), 5);
        assert_eq!(st.n_arete(), 0);
        assert_eq!(st.conj(), 1);
    }
    let kept = add_parents_small_curri(1, 5, vec![State::new(), State::new()]);
    assert_eq!(kept.len(), 2);
}

#[test]
fn an_evolution_keeps_the_best_of_each_generation() {
    let mut run = launch_CMAES(3, 17, 4, sc(-8));
    assert_eq!(run.current_parents().len(), 3);
    assert_eq!(run.best_state().conj(), 17);
    assert_eq!(run.best_state().n_sommet(), 1);
    assert!(run.next_generation(2));
    let children = vec![
        from_edges(4, 1, 1, &vec![(0, 1)]),
        from_edges(4, 1, 1, &vec![(0, 1), (1, 2)]),
        from_edges(4, 1, 1, &vec![(0, 1), (1, 2), (2, 3)]),
    ];
    assert_eq!(run.offer(&children[0], sc(-9)), Verdict::Unchanged);
    assert_eq!(run.offer(&children[1], sc(-3)), Verdict::Progress);
    assert_eq!(run.offer(&children[2], sc(-5)), Verdict::Unchanged);
    assert_eq!(run.best_state().n_arete(), 2);
    let mut pool = Vec::new();
    for p in run.current_parents() {
        pool.push(WS { w: sc(-6), s: p.clone() });
    }
    for (c, w) in children.iter().zip([-9i64, -3, -5]) {
        pool.push(WS { w: sc(w), s: c.clone() });
    }
    run.select(pool);
    let edges: Vec<u128> = run.current_parents().iter().map(|s| s.n_arete()).collect();
    assert_eq!(edges, vec![2, 3, 0]);
    assert!(run.next_generation(2));
    assert!(!run.next_generation(2));
    assert!(!run.next_generation(-1));
}

#[test]
fn an_evolution_scores_its_graphs_by_its_conjecture() {
    let run = launch_CMAES(2, 50, 3, sc(-8));
    for p in run.current_parents() {
        assert_eq!(p.conj(), 50);
        assert_eq!(p.n_sommet(), 3);
        assert_eq!(p.n_arete(), 0);
    }
    let child = run.decode(&vec![0, 1, 0, 1, 0, 1, 0, 1, 0]).unwrap();
    assert_eq!(child.conj(), 50);
    assert_eq!(child.n_sommet(), 3);
    assert_eq!(child.edges(), vec![(0, 1), (1, 2)]);
    assert!(child.seq().is_empty());
    assert!(run.decode(&vec![0, 1, 0]).is_none());
}
