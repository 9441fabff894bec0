use conjecture_search::builders::{construct_SQ_star, from_edges};
use conjecture_search::conjecture::{
    bound, fallback, family, Element, Fallback, Family, CONJECTURES,
};
use conjecture_search::enumerate::list_all_pairs;
use conjecture_search::ils::create_complete_graph;
use conjecture_search::score::{Score, COUNTEREXAMPLE_KEY, INFINITY_KEY, NEG_INFINITY_KEY};
use conjecture_search::state::State;
use nalgebra::{DMatrix, SymmetricEigen};

fn key(x: f64) -> i64 {
    let bits = x.to_bits() as i64;
    if bits < 0 {
        bits ^ i64::MAX
    } else {
        bits
    }
}

fn largest_eigenvalue(st: &State) -> f64 {
    let lap = st.laplacian_matrix();
    let n = lap.len();
    let m = DMatrix::from_fn(n, n, |i, j| lap[i][j] as f64);
    let eigen = SymmetricEigen::new(m);
    eigen.eigenvalues.iter().cloned().fold(f64::NEG_INFINITY, f64::max)
}

fn first_conjecture(st: &State) -> f64 {
    let mu = largest_eigenvalue(st);
    let mut values = Vec::new();
    for e in st.elements() {
        let d = e.di as f64;
        let m = (1.0 / d) * (e.si as f64);
        let mut r = (4.0 * d.powf(3.0) / m).sqrt();
        if r.is_nan() {
            r = 0.0;
        }
        values.push(Score { key: key(r) });
    }
    let b = bound(&values);
    let bits = if b.key < 0 { b.key ^ i64::MAX } else { b.key };
    mu - f64::from_bits(bits as u64)
}

#[test]
fn keys_of_the_named_scores() {
    assert_eq!(key(f64::NEG_INFINITY), NEG_INFINITY_KEY);
    assert_eq!(key(f64::INFINITY), INFINITY_KEY);
    assert_eq!(key(0.0001), COUNTEREXAMPLE_KEY);
    assert_eq!(key(0.0), 0);
    assert_eq!(Score::neg_infinity().key, NEG_INFINITY_KEY);
    assert_eq!(Score::infinity().key, INFINITY_KEY);
    assert_eq!(Score::zero().key, 0);
}

#[test]
fn keys_order_as_the_doubles_do() {
    let xs = [
        f64::NEG_INFINITY,
        -1.0e12,
        -3.0,
        -1.0e-9,
        0.0,
        1.0e-9,
        0.0001,
        0.00010000000000000002,
        1.0,
        2.0,
        1.0e12,
        f64::INFINITY,
    ];
    for i in 0..xs.len() {
        for j in 0..xs.len() {
            assert_eq!(xs[i] < xs[j], key(xs[i]) < key(xs[j]));
            let a = Score { key: key(xs[i]) };
            let b = Score { key: key(xs[j]) };
            assert_eq!(a.exceeds(b), xs[i] > xs[j]);
        }
        assert_eq!(Score { key: key(xs[i]) }.is_counterexample(), xs[i] > 0.0001);
    }
}

#[test]
fn counterexample_bound_is_strict() {
    assert!(!Score { key: COUNTEREXAMPLE_KEY }.is_counterexample());
    assert!(Score { key: COUNTEREXAMPLE_KEY + 1 }.is_counterexample());
    assert!(!Score { key: 0 }.is_counterexample());
    assert!(!Score::neg_infinity().is_counterexample());
}

#[test]
fn families_of_the_conjectures() {
    assert_eq!(CONJECTURES, 68);
    assert_eq!(family(0), Family::Unknown);
    for c in 1..=32 {
        assert_eq!(family(c), Family::Vertex);
    }
    for c in 33..=68 {
        assert_eq!(family(c), Family::Edge);
    }
    assert_eq!(family(69), Family::Unknown);
}

#[test]
fn fallbacks_of_the_conjectures() {
    let two = [39, 40, 43, 44, 45, 46, 49, 52, 53, 54, 55, 57, 58, 60, 62, 68];
    for c in 0..=70usize {
        let expected = if c == 41 {
            Fallback::DegreeGap
        } else if c == 48 {
            Fallback::SquareSum
        } else if two.contains(&c) {
            Fallback::Two
        } else {
            Fallback::Zero
        };
        assert_eq!(fallback(c), expected);
    }
}

#[test]
fn bound_is_the_greatest_value_or_zero() {
    assert_eq!(bound(&Vec::new()).key, 0);
    assert_eq!(bound(&vec![Score { key: key(-2.5) }]).key, key(-2.5));
    let values: Vec<Score> =
        [1.5, 8.0, -3.0, 8.0, 2.0].iter().map(|x| Score { key: key(*x) }).collect();
    assert_eq!(bound(&values).key, key(8.0));
    let negative: Vec<Score> = [-1.5, -8.0].iter().map(|x| Score { key: key(*x) }).collect();
    assert_eq!(bound(&negative).key, key(-1.5));
}

#[test]
fn degrees_of_a_path() {
    let st = from_edges(4, 4, 1, &vec![(0, 1), (1, 2), (2, 3)]);
    assert_eq!(st.degrees(), vec![1, 2, 2, 1]);
    assert_eq!(st.average_degree_neighbors_vec(), vec![(2, 1), (3, 2), (3, 2), (2, 1)]);
    assert_eq!(
        st.degree_matrix(),
        vec![vec![1, 0, 0, 0], vec![0, 2, 0, 0], vec![0, 0, 2, 0], vec![0, 0, 0, 1]]
    );
    assert_eq!(
        st.laplacian_matrix(),
        vec![vec![1, -1, 0, 0], vec![-1, 2, -1, 0], vec![0, -1, 2, -1], vec![0, 0, -1, 1]]
    );
}

#[test]
fn degrees_of_an_isolated_vertex() {
    let st = State::new();
    assert_eq!(st.degrees(), vec![0]);
    assert_eq!(st.average_degree_neighbors_vec(), vec![(0, 0)]);
    assert_eq!(st.laplacian_matrix(), vec![vec![0]]);
}

#[test]
fn laplacian_rows_sum_to_zero() {
    let st = construct_SQ_star(1);
    for row in st.laplacian_matrix() {
        assert_eq!(row.iter().sum::<i128>(), 0);
    }
    let total: usize = st.degrees().iter().sum();
    assert_eq!(total as u128, 2 * st.n_arete());
}

#[test]
fn score_of_the_single_vertex_is_zero() {
    let st = State::new();
    assert_eq!(first_conjecture(&st), 0.0);
}

#[test]
fn score_of_a_single_edge_is_zero() {
    let st = from_edges(2, 2, 1, &vec![(0, 1)]);
    assert_eq!(st.degrees(), vec![1, 1]);
    assert_eq!(st.average_degree_neighbors_vec(), vec![(1, 1), (1, 1)]);
    assert!((largest_eigenvalue(&st) - 2.0).abs() < 1e-9);
    assert!(first_conjecture(&st).abs() < 1e-9);
}

#[test]
fn score_of_the_complete_graph_on_five() {
    let st = create_complete_graph(5, 1);
    assert_eq!(st.n_arete(), 10);
    assert_eq!(st.degrees(), vec![4; 5]);
    assert_eq!(st.average_degree_neighbors_vec(), vec![(16, 4); 5]);
    assert!((largest_eigenvalue(&st) - 5.0).abs() < 1e-9);
    assert!((first_conjecture(&st) + 3.0).abs() < 1e-9);
}

#[test]
fn score_of_the_probe_graph_is_finite() {
    let st = construct_SQ_star(1);
    assert!(first_conjecture(&st).is_finite());
    assert_eq!(st.n_arete(), 21);
}

#[test]
fn score_depends_on_the_matrix_alone() {
    let a = from_edges(4, 4, 1, &vec![(0, 1), (1, 2), (2, 3)]);
    let b = from_edges(4, 9, 1, &vec![(2, 3), (1, 2), (1, 0), (0, 1)]);
    assert_eq!(a.adjacency(), b.adjacency());
    assert_eq!(first_conjecture(&a).to_bits(), first_conjecture(&b).to_bits());
    assert_eq!(first_conjecture(&a).to_bits(), first_conjecture(&a.clone()).to_bits());
}

#[test]
fn all_pairs_are_listed_in_lexicographic_order() {
    assert!(list_all_pairs(0).is_empty());
    assert!(list_all_pairs(1).is_empty());
    assert_eq!(list_all_pairs(2), vec![(0, 1)]);
    assert_eq!(list_all_pairs(4), vec![(0, 1), (0, 2), (0, 3), (1, 2), (1, 3), (2, 3)]);
    assert_eq!(list_all_pairs(20).len(), 190);
}

fn el(di: usize, dj: usize, si: u128, sj: u128) -> Element {
    Element { di, dj, si, sj }
}

#[test]
fn a_vertex_conjecture_is_evaluated_on_each_vertex() {
    let st = from_edges(4, 4, 7, &vec![(0, 1), (1, 2), (2, 3)]);
    assert_eq!(
        st.elements(),
        vec![el(1, 1, 2, 2), el(2, 2, 3, 3), el(2, 2, 3, 3), el(1, 1, 2, 2)]
    );
    assert_eq!(State::new().elements(), vec![el(0, 0, 0, 0)]);
}

#[test]
fn an_edge_conjecture_is_evaluated_on_each_edge() {
    let st = from_edges(4, 4, 33, &vec![(2, 3), (0, 1), (1, 2), (1, 3)]);
    assert_eq!(st.edges(), vec![(0, 1), (1, 2), (1, 3), (2, 3)]);
    assert_eq!(
        st.elements(),
        vec![el(1, 3, 3, 5), el(3, 2, 5, 5), el(3, 2, 5, 5), el(2, 2, 5, 5)]
    );
    let bare = from_edges(3, 3, 68, &vec![]);
    assert!(bare.elements().is_empty());
}

#[test]
fn an_unknown_conjecture_is_evaluated_on_nothing() {
    let st = from_edges(3, 3, 0, &vec![(0, 1)]);
    assert!(st.elements().is_empty());
    let st = from_edges(3, 3, 69, &vec![(0, 1)]);
    assert!(st.elements().is_empty());
}
