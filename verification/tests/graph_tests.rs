use cdm::coaccess::CoAccessGraph;
use cdm::fixlog::{lnfix, LOG_SCALE};

fn hist(paths: &[&str]) -> Vec<String> {
    paths.iter().map(|p| p.to_string()).collect()
}

#[test]
fn short_history_gives_empty_graph() {
    let g = CoAccessGraph::build(&hist(&["/a", "/b"]), 3);
    assert!(g.neighbors_of(&String::from("/a")).is_empty());
    assert_eq!(g.score_for(&String::from("/a"), &String::from("/b")), None);
}

#[test]
fn window_under_two_gives_empty_graph() {
    let g = CoAccessGraph::build(&hist(&["/a", "/b", "/c"]), 1);
    assert!(g.neighbors_of(&String::from("/a")).is_empty());
    let g0 = CoAccessGraph::build(&hist(&["/a", "/b", "/c"]), 0);
    assert!(g0.neighbors_of(&String::from("/b")).is_empty());
}

#[test]
fn example_four_windows() {
    // windows of 3: {A,B,C} x3 as distinct sets, then {A,B,D}
    let h = hist(&["A", "B", "C", "A", "B", "D"]);
    let g = CoAccessGraph::build(&h, 3);
    let (a, b, c, d) = (
        String::from("A"),
        String::from("B"),
        String::from("C"),
        String::from("D"),
    );
    // A and B share every window: the degenerate maximal association, 1.0
    assert_eq!(g.score_for(&a, &b), Some(LOG_SCALE as i64));
    assert_eq!(g.score_for(&b, &a), Some(LOG_SCALE as i64));
    // every other pair has zero pointwise mutual information and is dropped
    assert_eq!(g.score_for(&a, &c), None);
    assert_eq!(g.score_for(&b, &c), None);
    assert_eq!(g.score_for(&a, &d), None);
    assert_eq!(g.score_for(&b, &d), None);
    assert_eq!(g.score_for(&c, &d), None);
    let na = g.neighbors_of(&a);
    assert_eq!(na.len(), 1);
    assert_eq!(na[0].neighbor, "B");
    assert_eq!(na[0].score, LOG_SCALE as i64);
    assert!(g.neighbors_of(&c).is_empty());
    assert!(g.neighbors_of(&d).is_empty());
}

#[test]
fn positive_association_between_clustered_paths() {
    // A pairs with X early, C pairs with X late, Q sits alone in between.
    let h = hist(&["A", "X", "A", "X", "Q", "Q", "Q", "X", "C", "X"]);
    let g = CoAccessGraph::build(&h, 2);
    let (a, x, q, c) = (
        String::from("A"),
        String::from("X"),
        String::from("Q"),
        String::from("C"),
    );
    let sa = g.score_for(&x, &a).expect("A co-accesses X");
    let sc = g.score_for(&x, &c).expect("C co-accesses X");
    // ln(9/7)/ln(3) and ln(9/7)/ln(9/2), about 0.229 and 0.167
    assert!(0 < sc && sc < sa && sa < LOG_SCALE as i64, "sa={} sc={}", sa, sc);
    assert!((200_000..260_000).contains(&sa), "sa={}", sa);
    assert!((140_000..190_000).contains(&sc), "sc={}", sc);
    // the exact scaled values, recomputed from the score formula: with 9
    // windows, X in 7 and A in 3 of them and 3 joint, the score is
    // (ln 3 + ln 9 - ln 7 - ln 3) / (ln 9 - ln 3); C has 2 for A's 3
    let num_a = lnfix(3) as i64 + lnfix(9) as i64 - lnfix(7) as i64 - lnfix(3) as i64;
    let den_a = lnfix(9) as i64 - lnfix(3) as i64;
    assert_eq!(sa, num_a * LOG_SCALE as i64 / den_a);
    let num_c = lnfix(2) as i64 + lnfix(9) as i64 - lnfix(7) as i64 - lnfix(2) as i64;
    let den_c = lnfix(9) as i64 - lnfix(2) as i64;
    assert_eq!(sc, num_c * LOG_SCALE as i64 / den_c);
    // X never gains from its neighbor Q: the pair is anti-correlated
    assert_eq!(g.score_for(&x, &q), None);
    // adjacency comes strongest first
    let nx = g.neighbors_of(&x);
    assert_eq!(nx.len(), 2);
    assert_eq!(nx[0].neighbor, "A");
    assert_eq!(nx[1].neighbor, "C");
    assert!(nx[0].score >= nx[1].score);
}

#[test]
fn edge_symmetry_across_all_pairs() {
    let h = hist(&["A", "X", "A", "X", "Q", "Q", "Q", "X", "C", "X", "A", "C"]);
    let g = CoAccessGraph::build(&h, 3);
    let names = ["A", "X", "Q", "C"];
    for p in names {
        for q in names {
            assert_eq!(
                g.score_for(&p.to_string(), &q.to_string()),
                g.score_for(&q.to_string(), &p.to_string()),
                "asymmetry between {} and {}",
                p,
                q
            );
        }
    }
}

#[test]
fn every_retained_edge_scores_positive_and_sorted() {
    let h = hist(&["A", "X", "A", "X", "Q", "Q", "Q", "X", "C", "X", "A", "C", "Q", "A"]);
    let g = CoAccessGraph::build(&h, 3);
    for p in ["A", "X", "Q", "C"] {
        let edges = g.neighbors_of(&p.to_string());
        for e in &edges {
            assert!(e.score > 0 && e.score <= LOG_SCALE as i64);
        }
        for w in edges.windows(2) {
            assert!(w[0].score >= w[1].score);
        }
    }
}

#[test]
fn identical_input_builds_identical_graph() {
    let h = hist(&["A", "X", "A", "X", "Q", "Q", "Q", "X", "C", "X"]);
    let g1 = CoAccessGraph::build(&h, 2);
    let g2 = CoAccessGraph::build(&h, 2);
    for p in ["A", "X", "Q", "C"] {
        let n1 = g1.neighbors_of(&p.to_string());
        let n2 = g2.neighbors_of(&p.to_string());
        assert_eq!(n1.len(), n2.len());
        for (e1, e2) in n1.iter().zip(n2.iter()) {
            assert_eq!(e1.neighbor, e2.neighbor);
            assert_eq!(e1.score, e2.score);
        }
    }
}

#[test]
fn repeats_inside_a_window_count_once() {
    // A appears twice in each window; marginal and joint counts collapse,
    // so A-B is a full joint pair and scores maximal.
    let h = hist(&["A", "A", "B", "A", "A", "B"]);
    let g = CoAccessGraph::build(&h, 3);
    assert_eq!(
        g.score_for(&String::from("A"), &String::from("B")),
        Some(LOG_SCALE as i64)
    );
}

#[test]
fn fixed_point_logarithm_exact_values() {
    assert_eq!(lnfix(1), 0);
    assert_eq!(lnfix(2), 693_147);
    assert_eq!(lnfix(4), 1_386_294);
    assert_eq!(lnfix(1 << 20), 20 * 693_147);
}
