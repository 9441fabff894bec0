use conjecture_search::builders::{
    construct_SQ_17, construct_SQ_50, construct_SQ_66, construct_SQ_star, from_edges, replay,
};
use conjecture_search::graph::Move;
use conjecture_search::state::State;

fn mv(ind: usize, from: usize, to: i64) -> Move {
    Move { ind, from, to }
}

fn assert_simple(st: &State) {
    let n = st.n_sommet();
    let adj = st.adjacency();
    assert_eq!(adj.len(), n);
    let mut upper: u128 = 0;
    for i in 0..n {
        assert_eq!(adj[i].len(), n);
        assert!(!adj[i][i]);
        for j in 0..n {
            assert_eq!(adj[i][j], adj[j][i]);
            assert_eq!(adj[i][j], st.has_edge(i, j));
            if i < j && adj[i][j] {
                upper += 1;
            }
        }
    }
    assert_eq!(st.n_arete(), upper);
}

fn path_on_four() -> State {
    let mut st = State::new();
    st.set_size_terminal(4);
    st.play(mv(1, 0, -1));
    st.play(mv(2, 1, -1));
    st.play(mv(3, 2, -1));
    st
}

#[test]
fn new_state_is_single_vertex() {
    let st = State::new();
    assert_eq!(st.n_sommet(), 1);
    assert_eq!(st.n_arete(), 0);
    assert_eq!(st.size_terminal(), 1);
    assert_eq!(st.conj(), 1);
    assert!(st.seq().is_empty());
    assert_eq!(st.best_score().key, -9218868437227405313);
    assert_simple(&st);
}

#[test]
fn play_new_vertex_adds_edge() {
    let mut st = State::new();
    st.play(mv(1, 0, -1));
    assert_eq!(st.n_sommet(), 2);
    assert_eq!(st.n_arete(), 1);
    assert!(st.has_edge(0, 1));
    assert!(st.has_edge(1, 0));
    assert!(!st.has_edge(0, 0));
    assert_eq!(st.seq().len(), 1);
    assert_simple(&st);
}

#[test]
fn play_target_beyond_the_graph_adds_vertex() {
    let mut st = State::new();
    st.play(mv(1, 0, 7));
    assert_eq!(st.n_sommet(), 2);
    assert_eq!(st.n_arete(), 1);
    assert!(st.has_edge(0, 1));
    assert_simple(&st);
}

#[test]
fn play_existing_edge_changes_nothing_but_the_sequence() {
    let mut st = path_on_four();
    let before = st.adjacency();
    st.play(mv(4, 0, 1));
    assert_eq!(st.adjacency(), before);
    assert_eq!(st.n_arete(), 3);
    assert_eq!(st.seq().len(), 4);
    assert_eq!(st.seq()[3], mv(4, 0, 1));
}

#[test]
fn play_loop_changes_nothing_but_the_sequence() {
    let mut st = path_on_four();
    let before = st.adjacency();
    st.play(mv(4, 2, 2));
    assert_eq!(st.adjacency(), before);
    assert_eq!(st.n_sommet(), 4);
    assert_eq!(st.n_arete(), 3);
    assert_eq!(st.seq().len(), 4);
}

#[test]
fn play_source_out_of_range_changes_nothing_but_the_sequence() {
    let mut st = path_on_four();
    let before = st.adjacency();
    st.play(mv(4, 4, 0));
    st.play(mv(4, 9, -1));
    assert_eq!(st.adjacency(), before);
    assert_eq!(st.n_arete(), 3);
    assert_eq!(st.seq().len(), 5);
}

#[test]
fn play_target_below_the_sentinel_changes_nothing_but_the_sequence() {
    let mut st = path_on_four();
    let before = st.adjacency();
    st.play(mv(4, 0, -2));
    assert_eq!(st.adjacency(), before);
    assert_eq!(st.n_sommet(), 4);
    assert_eq!(st.seq().len(), 4);
}

#[test]
fn play_joins_two_vertices() {
    let mut st = path_on_four();
    st.play(mv(4, 0, 3));
    assert!(st.has_edge(0, 3));
    assert!(st.has_edge(3, 0));
    assert_eq!(st.n_arete(), 4);
    assert_simple(&st);
}

#[test]
fn add_arete_leaves_the_sequence() {
    let mut st = path_on_four();
    st.add_arete(0, 2);
    assert!(st.has_edge(0, 2));
    assert_eq!(st.n_arete(), 4);
    assert_eq!(st.seq().len(), 3);
    st.add_arete(3, -1);
    assert_eq!(st.n_sommet(), 5);
    assert!(st.has_edge(3, 4));
    assert_eq!(st.n_arete(), 5);
    assert_simple(&st);
}

#[test]
fn set_edge_joins_and_parts() {
    let mut st = path_on_four();
    st.set_edge(0, 3, true);
    assert_eq!(st.n_arete(), 4);
    st.set_edge(0, 3, true);
    assert_eq!(st.n_arete(), 4);
    st.set_edge(3, 0, false);
    assert_eq!(st.n_arete(), 3);
    assert!(!st.has_edge(0, 3));
    st.set_edge(0, 3, false);
    assert_eq!(st.n_arete(), 3);
    assert_eq!(st.seq().len(), 3);
    assert_simple(&st);
}

#[test]
fn symmetry_and_edge_count_survive_any_moves() {
    let mut st = State::new();
    st.set_size_terminal(6);
    let moves = vec![
        mv(1, 0, -1),
        mv(2, 0, -1),
        mv(3, 1, 2),
        mv(3, 2, 1),
        mv(3, 5, 0),
        mv(3, 1, 1),
        mv(3, 2, 9),
        mv(4, 3, 0),
        mv(4, 0, 3),
        mv(4, 3, -1),
        mv(5, 4, -7),
    ];
    for m in moves {
        st.play(m);
        assert_simple(&st);
    }
    assert_eq!(st.n_sommet(), 5);
    assert_eq!(st.n_arete(), 6);
    assert_eq!(st.seq().len(), 11);
}

#[test]
fn replay_rebuilds_the_matrix() {
    let mut st = State::new();
    st.set_size_terminal(5);
    st.set_conj(7);
    let moves = vec![mv(1, 0, -1), mv(2, 1, -1), mv(3, 0, 2), mv(3, 0, 2), mv(3, 3, 0), mv(3, 2, -1)];
    for m in &moves {
        st.play(*m);
    }
    let again = replay(st.seq(), st.size_terminal(), st.conj());
    assert_eq!(again.adjacency(), st.adjacency());
    assert_eq!(again.n_arete(), st.n_arete());
    assert_eq!(again.seq(), st.seq());
    assert_eq!(again.conj(), 7);
    assert_eq!(again.size_terminal(), 5);
}

#[test]
fn replay_of_nothing_is_the_single_vertex() {
    let st = replay(&Vec::new(), 3, 2);
    assert_eq!(st.adjacency(), vec![vec![false]]);
    assert_eq!(st.n_arete(), 0);
}

#[test]
fn terminal_is_strictly_above_the_cap() {
    let mut st = State::new();
    st.set_size_terminal(2);
    assert!(!st.terminal());
    st.play(mv(1, 0, -1));
    assert_eq!(st.n_sommet(), 2);
    assert!(!st.terminal());
    st.play(mv(2, 0, -1));
    assert_eq!(st.n_sommet(), 3);
    assert!(st.terminal());
}

#[test]
fn terminal_of_the_new_state() {
    let st = State::new();
    assert!(!st.terminal());
    let mut zero = State::new();
    zero.set_size_terminal(0);
    assert!(zero.terminal());
}

#[test]
fn legal_moves_below_the_cap() {
    let mut st = State::new();
    st.set_size_terminal(3);
    assert_eq!(st.legal_moves(), vec![mv(1, 0, -1)]);
    st.play(mv(1, 0, -1));
    assert_eq!(st.legal_moves(), vec![mv(2, 0, -1), mv(2, 1, -1)]);
    st.play(mv(2, 1, -1));
    assert_eq!(st.legal_moves(), vec![mv(3, 0, 2)]);
    st.play(mv(3, 0, 2));
    assert!(st.legal_moves().is_empty());
}

#[test]
fn legal_moves_order_is_vertices_then_pairs() {
    let st = from_edges(4, 6, 1, &vec![(1, 2)]);
    assert_eq!(
        st.legal_moves(),
        vec![
            mv(4, 0, -1),
            mv(4, 1, -1),
            mv(4, 2, -1),
            mv(4, 3, -1),
            mv(4, 0, 1),
            mv(4, 0, 2),
            mv(4, 0, 3),
            mv(4, 1, 3),
            mv(4, 2, 3),
        ]
    );
}

#[test]
fn legal_moves_are_legal_and_nothing_else_is() {
    let st = from_edges(4, 6, 1, &vec![(1, 2)]);
    for m in st.legal_moves() {
        assert!(st.is_legal_move(m));
    }
    assert!(!st.is_legal_move(mv(4, 1, 2)));
    assert!(!st.is_legal_move(mv(4, 2, 1)));
    assert!(!st.is_legal_move(mv(3, 0, 1)));
    assert!(!st.is_legal_move(mv(4, 4, -1)));
    assert!(!st.is_legal_move(mv(4, 0, 4)));
    assert!(!st.is_legal_move(mv(4, 0, 0)));
    assert!(!st.is_legal_move(mv(4, 0, -2)));
    let capped = from_edges(4, 4, 1, &vec![(1, 2)]);
    assert!(!capped.is_legal_move(mv(4, 0, -1)));
    assert!(capped.is_legal_move(mv(4, 0, 1)));
}

#[test]
fn legal_moves_are_stable_across_calls() {
    let st = path_on_four();
    assert_eq!(st.legal_moves(), st.legal_moves());
    assert_eq!(st.clone().legal_moves(), st.legal_moves());
}

#[test]
fn a_legal_move_adds_one_edge() {
    let st = from_edges(4, 6, 1, &vec![(1, 2)]);
    for m in st.legal_moves() {
        let mut child = st.clone();
        child.play(m);
        assert_eq!(child.n_arete(), st.n_arete() + 1);
        let grown = if m.to == -1 { 1 } else { 0 };
        assert_eq!(child.n_sommet(), st.n_sommet() + grown);
    }
}

#[test]
fn edges_and_non_edges_part_the_pairs() {
    let st = from_edges(4, 4, 1, &vec![(2, 0), (1, 3), (0, 2), (3, 3), (0, 9)]);
    assert_eq!(st.edges(), vec![(0, 2), (1, 3)]);
    assert_eq!(st.non_edges(), vec![(0, 1), (0, 3), (1, 2), (2, 3)]);
    assert_eq!(st.pairs(None), vec![(0, 1), (0, 2), (0, 3), (1, 2), (1, 3), (2, 3)]);
    assert_eq!(st.n_arete(), 2);
    assert_simple(&st);
}

#[test]
fn clone_is_a_value_copy() {
    let st = path_on_four();
    let mut other = st.clone();
    other.play(mv(4, 0, 3));
    assert_eq!(st.n_arete(), 3);
    assert_eq!(other.n_arete(), 4);
    assert!(!st.has_edge(0, 3));
    assert_eq!(st.seq().len(), 3);
}

#[test]
fn setters_change_one_field() {
    let mut st = path_on_four();
    st.set_conj(41);
    st.set_size_terminal(9);
    st.set_best_score(conjecture_search::score::Score { key: 12 });
    assert_eq!(st.conj(), 41);
    assert_eq!(st.size_terminal(), 9);
    assert_eq!(st.best_score().key, 12);
    assert_eq!(st.n_arete(), 3);
    assert_eq!(st.seq().len(), 3);
}

#[test]
fn sq_star_has_twelve_vertices_and_twenty_one_edges() {
    for conj in [1usize, 17, 50, 68] {
        let st = construct_SQ_star(conj);
        assert_eq!(st.n_sommet(), 12);
        assert_eq!(st.n_arete(), 21);
        assert_eq!(st.conj(), conj);
        assert_eq!(st.edges().len(), 21);
        assert!(st.seq().is_empty());
        assert_simple(&st);
        assert!(st.has_edge(0, 1) && st.has_edge(5, 0) && st.has_edge(10, 11));
        assert!(!st.has_edge(0, 2));
    }
}

#[test]
fn sq_17_50_66_edge_counts() {
    let a = construct_SQ_17(17);
    let b = construct_SQ_50(50);
    let c = construct_SQ_66(66);
    assert_eq!((a.n_sommet(), a.n_arete(), a.conj()), (12, 20, 17));
    assert_eq!((b.n_sommet(), b.n_arete(), b.conj()), (12, 18, 50));
    assert_eq!((c.n_sommet(), c.n_arete(), c.conj()), (12, 14, 66));
    assert_simple(&a);
    assert_simple(&b);
    assert_simple(&c);
    assert!(a.has_edge(1, 4) && b.has_edge(3, 10) && c.has_edge(5, 11));
}

#[test]
fn empty_state_of_any_order() {
    let st = State::empty(5, 8, 3);
    assert_eq!(st.n_sommet(), 5);
    assert_eq!(st.n_arete(), 0);
    assert_eq!(st.size_terminal(), 8);
    assert_eq!(st.conj(), 3);
    assert_eq!(st.non_edges().len(), 10);
    let none = State::empty(0, 0, 1);
    assert_eq!(none.n_sommet(), 0);
    assert!(none.legal_moves().is_empty());
}
