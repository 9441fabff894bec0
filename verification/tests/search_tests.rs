use conjecture_search::builders::from_edges;
use conjecture_search::chance::uniform_index;
use conjecture_search::conjecture::bound;
use conjecture_search::graph::Move;
use conjecture_search::harness::{timed_out, Incumbent, Verdict};
use conjecture_search::nmcs::{Task, NMCS};
use conjecture_search::nrpa::{NRPA, PLAYOUT};
use conjecture_search::playout::{playout, Playout};
use conjecture_search::score::{Score, COUNTEREXAMPLE_KEY, NEG_INFINITY_KEY};
use conjecture_search::state::State;
use nalgebra::{DMatrix, SymmetricEigen};

fn key(x: f64) -> i64 {
    let bits = x.to_bits() as i64;
    if bits < 0 {
        bits ^ i64::MAX
    } else {
        bits
    }
}

fn first_conjecture(st: &State) -> Score {
    let lap = st.laplacian_matrix();
    let n = lap.len();
    let m = DMatrix::from_fn(n, n, |i, j| lap[i][j] as f64);
    let mu = SymmetricEigen::new(m).eigenvalues.iter().cloned().fold(f64::NEG_INFINITY, f64::max);
    let mut values = Vec::new();
    for (sum, d) in st.average_degree_neighbors_vec() {
        let d = d as f64;
        let mut r = (4.0 * d.powf(3.0) / ((1.0 / d) * (sum as f64))).sqrt();
        if r.is_nan() {
            r = 0.0;
        }
        values.push(Score { key: key(r) });
    }
    let b = bound(&values).key;
    Score { key: key(mu - f64::from_bits((if b < 0 { b ^ i64::MAX } else { b }) as u64)) }
}

fn edge_count_score(st: &State) -> Score {
    Score { key: st.n_arete() as i64 - 100 }
}

fn run_playout(st: State, score: &dyn Fn(&State) -> Score) -> State {
    let first = score(&st);
    let mut p = playout(st, first);
    loop {
        let moves = p.moves();
        let i = match uniform_index(moves.len()) {
            Some(i) => i,
            None => break,
        };
        p.advance(moves[i]);
        let sc = score(p.state());
        if !p.record(sc) {
            break;
        }
    }
    p.finish()
}

fn run_nmcs(expe: &mut NMCS, st: State, n: i8, score: &dyn Fn(&State) -> Score) -> State {
    let first = score(&st);
    let mut level = expe.nmcs(st, first);
    while let Some(child) = level.next_child() {
        let cand = if n <= 1 { run_playout(child, score) } else { run_nmcs(expe, child, n - 1, score) };
        let sc = score(&cand);
        let out = level.record(expe, &cand, sc);
        if out.stop {
            return expe.best_state().clone();
        }
    }
    expe.best_state().clone()
}

#[test]
fn verdicts_follow_the_best_score() {
    let st = from_edges(3, 3, 1, &vec![(0, 1)]);
    let mut inc = Incumbent::new(State::new());
    assert_eq!(inc.best_score().key, NEG_INFINITY_KEY);
    assert_eq!(inc.offer(&st, Score { key: key(-2.0) }), Verdict::Progress);
    assert_eq!(inc.offer(&st, Score { key: key(-2.0) }), Verdict::Unchanged);
    assert_eq!(inc.offer(&st, Score { key: key(-3.0) }), Verdict::Unchanged);
    assert_eq!(inc.offer(&st, Score { key: COUNTEREXAMPLE_KEY }), Verdict::Progress);
    assert_eq!(inc.best_score().key, COUNTEREXAMPLE_KEY);
    assert_eq!(inc.offer(&st, Score { key: key(0.5) }), Verdict::Counterexample);
    assert_eq!(inc.offer(&st, Score { key: key(0.5) }), Verdict::Unchanged);
    assert_eq!(inc.offer(&st, Score { key: key(0.75) }), Verdict::Counterexample);
    assert_eq!(inc.best_state().best_score().key, key(0.75));
    assert_eq!(inc.best_state().adjacency(), st.adjacency());
}

#[test]
fn the_incumbent_holds_the_state_that_earned_the_score() {
    let a = from_edges(3, 3, 4, &vec![(0, 1)]);
    let b = from_edges(3, 3, 4, &vec![(0, 1), (1, 2)]);
    let mut inc = Incumbent::with_score(State::new(), Score { key: key(-9.0) });
    inc.offer(&a, Score { key: key(-1.0) });
    inc.offer(&b, Score { key: key(-5.0) });
    assert_eq!(inc.best_state().adjacency(), a.adjacency());
    assert_eq!(inc.best_state().conj(), 4);
    inc.offer(&b, Score { key: key(1.0) });
    let best = inc.into_state();
    assert_eq!(best.adjacency(), b.adjacency());
    assert_eq!(best.best_score().key, key(1.0));
}

#[test]
fn timeouts_of_zero_or_less_never_end() {
    assert!(!timed_out(10_000_000, 0));
    assert!(!timed_out(10_000_000, -1));
    assert!(!timed_out(59_999, 60_000));
    assert!(!timed_out(60_000, 60_000));
    assert!(timed_out(60_001, 60_000));
    assert!(timed_out(u64::MAX, i64::MAX));
}

#[test]
fn uniform_index_stays_below_the_bound() {
    assert_eq!(uniform_index(0), None);
    assert_eq!(uniform_index(1), Some(0));
    let mut hit = [false; 5];
    for _ in 0..400 {
        let i = uniform_index(5).unwrap();
        assert!(i < 5);
        hit[i] = true;
    }
    assert!(hit.iter().all(|h| *h));
}

#[test]
fn a_playout_fills_the_graph() {
    let mut st = State::new();
    st.set_size_terminal(4);
    let end = run_playout(st, &edge_count_score);
    assert_eq!(end.n_sommet(), 4);
    assert_eq!(end.n_arete(), 6);
    assert_eq!(end.seq().len(), 6);
    assert_eq!(end.best_score().key, 6 - 100);
    assert!(end.legal_moves().is_empty());
}

#[test]
fn a_playout_returns_the_best_state_on_the_way() {
    let mut st = State::new();
    st.set_size_terminal(4);
    let falling = |s: &State| Score { key: -(s.n_arete() as i64) - 5 };
    let end = run_playout(st.clone(), &falling);
    assert_eq!(end.adjacency(), st.adjacency());
    assert_eq!(end.seq().len(), 0);
    assert_eq!(end.best_score().key, NEG_INFINITY_KEY);
}

#[test]
fn a_playout_stops_at_a_counterexample() {
    let mut st = State::new();
    st.set_size_terminal(5);
    let at_three = |s: &State| {
        if s.n_arete() >= 3 {
            Score { key: key(1.0) }
        } else {
            Score { key: key(-1.0) }
        }
    };
    let first = at_three(&st);
    let mut p = Playout::open(st, first);
    let mut steps = 0;
    loop {
        let moves = p.moves();
        if moves.is_empty() {
            break;
        }
        p.advance(moves[0]);
        steps += 1;
        let sc = at_three(p.state());
        let goes_on = p.record(sc);
        assert_eq!(goes_on, steps < 3);
    }
    assert_eq!(steps, 3);
    assert!(p.moves().is_empty());
    assert_eq!(p.best_score().key, key(1.0));
    let end = p.finish();
    assert_eq!(end.n_arete(), 3);
    assert_eq!(end.best_score().key, key(1.0));
}

#[test]
fn a_playout_of_a_terminal_state_has_no_moves() {
    let st = from_edges(3, 2, 1, &vec![]);
    assert!(st.terminal());
    let p = Playout::open(st.clone(), Score { key: 0 });
    assert!(p.moves().is_empty());
    assert_eq!(p.finish().adjacency(), st.adjacency());
}

#[test]
fn nmcs_starts_from_nothing() {
    let mut expe = NMCS::new();
    assert_eq!(expe.best_yet().key, NEG_INFINITY_KEY);
    assert_eq!(expe.timeout(), -1);
    assert_eq!(expe.best_state().n_sommet(), 1);
    expe.set_timeout(60_000);
    assert_eq!(expe.timeout(), 60_000);
}

#[test]
fn a_level_tries_every_move_then_commits() {
    let mut expe = NMCS::new();
    let mut st = State::new();
    st.set_size_terminal(3);
    st.play(Move { ind: 1, from: 0, to: -1 });
    let mut level = expe.nmcs(st.clone(), Score { key: key(-1.0) });
    let moves = st.legal_moves();
    assert_eq!(moves.len(), 2);
    let first = level.next_child().unwrap();
    assert_eq!(first.seq()[1], moves[0]);
    let out = level.record(&mut expe, &first, Score { key: key(-3.0) });
    assert_eq!((out.report, out.stop), (Verdict::Unchanged, false));
    let second = level.next_child().unwrap();
    assert_eq!(second.seq()[1], moves[1]);
    let out = level.record(&mut expe, &second, Score { key: key(-0.5) });
    assert_eq!((out.report, out.stop), (Verdict::Progress, false));
    assert_eq!(level.best_score().key, key(-0.5));
    let third = level.next_child().unwrap();
    assert_eq!(level.state().seq().len(), 2);
    assert_eq!(level.state().seq()[1], moves[1]);
    assert_eq!(third.seq().len(), 3);
    assert_eq!(third.n_arete(), 3);
    let out = level.record(&mut expe, &third, Score { key: key(-2.0) });
    assert_eq!((out.report, out.stop), (Verdict::Unchanged, false));
    assert!(level.next_child().is_none());
    assert!(level.next_child().is_none());
    assert_eq!(expe.best_state().adjacency(), second.adjacency());
    assert_eq!(level.into_best().adjacency(), second.adjacency());
}

#[test]
fn a_level_stops_at_a_counterexample() {
    let mut expe = NMCS::new();
    let mut st = State::new();
    st.set_size_terminal(3);
    let mut level = expe.nmcs(st, Score { key: key(-1.0) });
    let child = level.next_child().unwrap();
    let out = level.record(&mut expe, &child, Score { key: key(0.25) });
    assert_eq!((out.report, out.stop), (Verdict::Counterexample, true));
    assert_eq!(expe.best_yet().key, key(0.25));
    assert_eq!(expe.best_state().adjacency(), child.adjacency());
    let mut again = expe.nmcs(child.clone(), Score { key: key(-1.0) });
    let other = again.next_child().unwrap();
    let out = again.record(&mut expe, &other, Score { key: key(0.25) });
    assert_eq!((out.report, out.stop), (Verdict::Unchanged, true));
}

#[test]
fn a_level_says_what_to_do_next() {
    let mut expe = NMCS::new();
    expe.set_timeout(1_000);
    let mut st = State::new();
    st.set_size_terminal(3);
    let mut level = expe.nmcs(st.clone(), Score { key: key(-1.0) });
    match level.next(&expe, 1, 0) {
        Task::Rollout(c) => assert_eq!(c.n_sommet(), 2),
        _ => panic!("a child at level one is rolled out"),
    }
    let mut level = expe.nmcs(st.clone(), Score { key: key(-1.0) });
    match level.next(&expe, 3, 1_000) {
        Task::Nested(c, n) => {
            assert_eq!(c.n_sommet(), 2);
            assert_eq!(n, 2);
        }
        _ => panic!("a child above level one is searched one level down"),
    }
    let mut level = expe.nmcs(st.clone(), Score { key: key(-1.0) });
    let child = level.next_child().unwrap();
    level.record(&mut expe, &child, Score { key: key(-0.5) });
    match level.next(&expe, 1, 1_001) {
        Task::Return(s) => assert_eq!(s.best_score().key, key(-0.5)),
        _ => panic!("a level returns once the time is up"),
    }
    let full = from_edges(3, 3, 1, &vec![(0, 1), (0, 2), (1, 2)]);
    let mut done = expe.nmcs(full.clone(), Score { key: key(-9.0) });
    match done.next(&expe, 1, 0) {
        Task::Return(s) => assert_eq!(s.adjacency(), full.adjacency()),
        _ => panic!("a level that never had a child returns its state"),
    }
    let mut two = State::new();
    two.set_size_terminal(2);
    let mut last = expe.nmcs(two, Score { key: key(-9.0) });
    let only = last.next_child().unwrap();
    last.record(&mut expe, &only, Score { key: key(-9.5) });
    match last.next(&expe, 1, 0) {
        Task::Return(s) => assert_eq!(s.adjacency(), child.adjacency()),
        _ => panic!("a level without a child left returns the best state of the search"),
    }
}

#[test]
fn a_level_on_a_terminal_state_is_done() {
    let expe = NMCS::new();
    let st = from_edges(3, 2, 1, &vec![]);
    let mut level = expe.nmcs(st, Score { key: 0 });
    assert!(level.next_child().is_none());
}

#[test]
fn nmcs_level_one_on_four_vertices() {
    let mut st = State::new();
    st.set_size_terminal(4);
    let mut expe = NMCS::new();
    let best = run_nmcs(&mut expe, st, 1, &first_conjecture);
    assert!(best.n_sommet() <= 4 + 1);
    if expe.best_yet().key == NEG_INFINITY_KEY {
        assert_eq!(best.n_sommet(), 1);
        assert_eq!(first_conjecture(&best).key, 0);
    } else {
        assert_eq!(first_conjecture(&best).key, expe.best_yet().key);
        assert_eq!(best.best_score().key, expe.best_yet().key);
    }
    assert!(!expe.best_yet().is_counterexample());
    let again = conjecture_search::builders::replay(best.seq(), 4, 1);
    assert_eq!(again.adjacency(), best.adjacency());
}

#[test]
fn nmcs_level_two_with_a_toy_score() {
    let mut st = State::new();
    st.set_size_terminal(3);
    let mut expe = NMCS::new();
    let best = run_nmcs(&mut expe, st, 2, &edge_count_score);
    assert_eq!(best.n_arete(), 3);
    assert_eq!(expe.best_yet().key, 3 - 100);
}

#[test]
fn nrpa_levels_repeat_a_hundred_times() {
    assert_eq!(PLAYOUT, 100);
    let mut expe = NRPA::new();
    expe.set_timeout(1_000);
    assert!(expe.is_rollout(0, 0));
    assert!(!expe.is_rollout(1, 0));
    assert!(!expe.is_rollout(1, 1_000));
    assert!(expe.is_rollout(1, 1_001));
    assert!(expe.is_rollout(3, 5_000));
    let unbounded = NRPA::new();
    assert!(!unbounded.is_rollout(2, u64::MAX));
    let st = State::new();
    let mut level = expe.nrpa(&st, Score { key: key(-1.0) });
    let mut n = 0;
    while level.next_iteration() {
        n += 1;
    }
    assert_eq!(n, 100);
    assert!(!level.next_iteration());
}

#[test]
fn an_nrpa_level_keeps_the_best_sequence() {
    let mut expe = NRPA::new();
    let st = State::new();
    let a = from_edges(2, 3, 1, &vec![(0, 1)]);
    let b = from_edges(3, 3, 1, &vec![(0, 1), (1, 2)]);
    let mut level = expe.nrpa(&st, Score { key: key(-1.0) });
    assert_eq!(level.record(&mut expe, &a, Score { key: key(-1.0) }), Verdict::Unchanged);
    assert_eq!(level.state().adjacency(), st.adjacency());
    assert_eq!(expe.best_yet().key, NEG_INFINITY_KEY);
    assert_eq!(level.record(&mut expe, &a, Score { key: key(-0.5) }), Verdict::Progress);
    assert_eq!(level.state().adjacency(), a.adjacency());
    assert_eq!(level.stscore().key, key(-0.5));
    assert_eq!(level.record(&mut expe, &b, Score { key: key(0.5) }), Verdict::Counterexample);
    assert_eq!(expe.best_state().adjacency(), b.adjacency());
    let mut inner = expe.nrpa(&st, Score { key: key(-1.0) });
    assert_eq!(inner.record(&mut expe, &a, Score { key: key(0.25) }), Verdict::Unchanged);
    assert_eq!(inner.stscore().key, key(0.25));
    assert_eq!(expe.best_yet().key, key(0.5));
}

#[test]
fn adapt_walks_the_best_sequence() {
    let mut ini = State::new();
    ini.set_size_terminal(3);
    let seq = vec![
        Move { ind: 1, from: 0, to: -1 },
        Move { ind: 2, from: 1, to: -1 },
        Move { ind: 3, from: 0, to: 2 },
    ];
    let trace = NRPA::adapt(&seq, &ini);
    assert_eq!(trace.len(), 3);
    let mut s = ini.clone();
    for (step, m) in trace.iter().zip(seq.iter()) {
        assert_eq!(step.best, *m);
        assert_eq!(step.moves, s.legal_moves());
        assert!(step.moves.contains(m));
        s.play(*m);
    }
    assert_eq!(trace[0].moves.len(), 1);
    assert_eq!(trace[1].moves.len(), 2);
    assert_eq!(trace[2].moves.len(), 1);
    assert!(NRPA::adapt(&Vec::new(), &ini).is_empty());
}

#[test]
fn adapting_along_one_move_weighs_it_against_the_open_moves() {
    let ini = from_edges(3, 5, 1, &vec![(0, 1)]);
    let best = Move { ind: 3, from: 1, to: 2 };
    let trace = NRPA::adapt(&vec![best], &ini);
    assert_eq!(trace.len(), 1);
    let open = trace[0].moves.len();
    assert_eq!(open, 5);
    let mut policy = vec![0.0f64; open];
    for w in policy.iter_mut() {
        *w -= 1.0 / open as f64;
    }
    let chosen = trace[0].moves.iter().position(|m| *m == trace[0].best).unwrap();
    policy[chosen] += 1.0;
    assert!((policy[chosen] - (1.0 - 1.0 / open as f64)).abs() < 1e-12);
}

#[test]
fn every_search_rolls_out_alike() {
    let mut st = State::new();
    st.set_size_terminal(3);
    let score = Score { key: key(-1.0) };
    let a = conjecture_search::nmcs::launch_nmcs(5).playout(st.clone(), score);
    let b = conjecture_search::nrpa::launch_nrpa(5).playout(st.clone(), score);
    let c = conjecture_search::grave::launch_grave(50, 5).playout(st.clone(), score);
    for p in [a, b, c] {
        assert_eq!(p.moves(), st.legal_moves());
        assert_eq!(p.best_score().key, key(-1.0));
        assert_eq!(p.finish().adjacency(), st.adjacency());
    }
}

#[test]
fn launchers_set_the_searches_up() {
    let nmcs = conjecture_search::nmcs::launch_nmcs(60_000);
    assert_eq!(nmcs.timeout(), 60_000);
    assert_eq!(nmcs.best_yet().key, NEG_INFINITY_KEY);
    let nrpa = conjecture_search::nrpa::launch_nrpa(1_000);
    assert!(nrpa.is_rollout(1, 1_001));
    assert!(!nrpa.is_rollout(1, 1_000));
    assert_eq!(nrpa.best_state().n_sommet(), 1);
    let mut grave = conjecture_search::grave::launch_grave(1, 60_000);
    assert_eq!(grave.timeout(), 60_000);
    let st = State::new();
    let d = grave.begin();
    grave.leaf(d, &st, Score { key: key(-1.0) });
    assert_eq!(grave.best_score_yet().key, key(-1.0));
}
