use nalgebra::DMatrix;
use wta_min::computation::{compute_val_for_tree, EvalRequest, EvalStep, TreeNode};
use wta_min::data_structures::{
    prod_vec_to_automaton, AutomatonError, GrammarType, Production, WeightedTreeAutomatonMatrix,
    WeightedTreeAutomatonStruct,
};
use wta_min::matrix::WMatrix;
use wta_min::minimisation::{minimize_automaton, MatReply, MatRequest, MinStep};

fn to_dm(w: &WMatrix) -> DMatrix<f64> {
    DMatrix::from_fn(w.rows, w.cols, |r, c| f64::from_bits(w.data[r * w.cols + c]))
}

fn from_dm(m: &DMatrix<f64>) -> WMatrix {
    let mut data = Vec::new();
    for r in 0..m.nrows() {
        for c in 0..m.ncols() {
            data.push(m[(r, c)].to_bits());
        }
    }
    WMatrix { rows: m.nrows(), cols: m.ncols(), data }
}

fn answer(req: &MatRequest) -> MatReply {
    match req {
        MatRequest::Kron(a, b) => MatReply::Mat(from_dm(&to_dm(a).kronecker(&to_dm(b)))),
        MatRequest::Mul(a, b) => MatReply::Mat(from_dm(&(to_dm(a) * to_dm(b)))),
        MatRequest::Rank(m, eps) => MatReply::Rank(to_dm(m).rank(f64::from_bits(*eps))),
        MatRequest::Solve(a, rhs, eps) => {
            let svd = to_dm(a).svd(true, true);
            match svd.solve(&to_dm(rhs), f64::from_bits(*eps)) {
                Ok(x) => MatReply::Solved(Some(from_dm(&x))),
                Err(_) => MatReply::Solved(None),
            }
        }
        MatRequest::FoldMul(factors, tail) => {
            let mut acc = DMatrix::from_element(1, 1, 1.0);
            for f in factors {
                acc = acc.kronecker(&to_dm(f));
            }
            MatReply::Mat(from_dm(&(acc * to_dm(tail))))
        }
    }
}

fn run_minimize(a: WeightedTreeAutomatonMatrix) -> WeightedTreeAutomatonMatrix {
    let mut run = minimize_automaton(a);
    let mut reply: Option<MatReply> = None;
    loop {
        match run.step(reply.take()) {
            MinStep::Ask(req) => reply = Some(answer(&req)),
            MinStep::Done(out) => return out,
            MinStep::Fail(e) => panic!("minimization failed: {:?}", e),
        }
    }
}

fn evaluate(a: &WeightedTreeAutomatonMatrix, t: &TreeNode) -> f64 {
    let mut run = compute_val_for_tree(a.clone(), t).expect("tree fits the automaton");
    let mut reply: Option<WMatrix> = None;
    loop {
        match run.step(reply.take()) {
            EvalStep::Ask(EvalRequest::Kron(x, y)) => {
                reply = Some(from_dm(&to_dm(&x).kronecker(&to_dm(&y))));
            }
            EvalStep::Ask(EvalRequest::Mul(x, y)) => {
                reply = Some(from_dm(&(to_dm(&x) * to_dm(&y))));
            }
            EvalStep::Done(bits) => return f64::from_bits(bits),
        }
    }
}

fn prod(sym: &str, left: &[&str], right: &[&str], cost: f64) -> Production {
    Production {
        root_symbol: sym.to_string(),
        left_states: left.iter().map(|s| s.to_string()).collect(),
        right_states: right.iter().map(|s| s.to_string()).collect(),
        cost: cost.to_bits(),
    }
}

fn rules(
    num_states: usize,
    alphabet: &[(&str, usize)],
    groups: Vec<(&str, Vec<Production>)>,
) -> WeightedTreeAutomatonStruct {
    WeightedTreeAutomatonStruct {
        num_states,
        grammar_type: GrammarType::BottomUp,
        ranked_alphabet: alphabet.iter().map(|(s, r)| (s.to_string(), *r)).collect(),
        transition_structs: groups
            .into_iter()
            .map(|(s, ps)| (s.to_string(), ps))
            .collect(),
    }
}

fn leaf(s: &str) -> TreeNode {
    TreeNode { label: s.to_string(), children: Vec::new() }
}

fn node(s: &str, children: Vec<TreeNode>) -> TreeNode {
    TreeNode { label: s.to_string(), children }
}

/// The counter automaton: `a` counts itself on top of any subtree, `b` adds
/// its two branches, `c` is the zero leaf.
fn counter_automaton() -> WeightedTreeAutomatonMatrix {
    let s = rules(
        2,
        &[("a", 1), ("b", 2), ("c", 0), ("!", 2)],
        vec![
            ("c", vec![prod("c", &[], &["p"], 1.0)]),
            (
                "a",
                vec![
                    prod("a", &["p"], &["p"], 1.0),
                    prod("a", &["p"], &["q"], 1.0),
                    prod("a", &["q"], &["q"], 1.0),
                ],
            ),
            (
                "b",
                vec![
                    prod("b", &["p", "p"], &["p"], 1.0),
                    prod("b", &["p", "q"], &["q"], 1.0),
                    prod("b", &["q", "p"], &["q"], 1.0),
                ],
            ),
            ("!", vec![prod("!", &["q"], &[], 1.0)]),
        ],
    );
    prod_vec_to_automaton(s).expect("well-formed rule list")
}

/// The arithmetic automaton: `+` adds and `x` multiplies the values of the
/// leaves `0` and `1`.
fn computation_automaton() -> WeightedTreeAutomatonMatrix {
    let s = rules(
        2,
        &[("0", 0), ("1", 0), ("+", 2), ("x", 2), ("!", 2)],
        vec![
            ("0", vec![prod("0", &[], &["p"], 1.0)]),
            ("1", vec![prod("1", &[], &["p"], 1.0), prod("1", &[], &["q"], 1.0)]),
            (
                "+",
                vec![
                    prod("+", &["p", "p"], &["p"], 1.0),
                    prod("+", &["p", "q"], &["q"], 1.0),
                    prod("+", &["q", "p"], &["q"], 1.0),
                ],
            ),
            (
                "x",
                vec![
                    prod("x", &["p", "p"], &["p"], 1.0),
                    prod("x", &["q", "q"], &["q"], 1.0),
                ],
            ),
            ("!", vec![prod("!", &["q"], &[], 1.0)]),
        ],
    );
    prod_vec_to_automaton(s).expect("well-formed rule list")
}

/// The rgb automaton: the leaves carry packed color intensities and `+`
/// averages its two branches.
fn rgb_automaton() -> WeightedTreeAutomatonMatrix {
    let s = rules(
        2,
        &[("R", 0), ("G", 0), ("B", 0), ("+", 2), ("!", 2)],
        vec![
            ("R", vec![prod("R", &[], &["p"], 1.0), prod("R", &[], &["q"], 256000000.0)]),
            ("G", vec![prod("G", &[], &["p"], 1.0), prod("G", &[], &["q"], 256.0)]),
            ("B", vec![prod("B", &[], &["p"], 1.0), prod("B", &[], &["q"], 256000.0)]),
            (
                "+",
                vec![
                    prod("+", &["p", "p"], &["p"], 1.0),
                    prod("+", &["p", "q"], &["q"], 0.5),
                    prod("+", &["q", "p"], &["q"], 0.5),
                ],
            ),
            ("!", vec![prod("!", &["q"], &[], 1.0)]),
        ],
    );
    prod_vec_to_automaton(s).expect("well-formed rule list")
}

#[test]
fn simple_counter_example() {
    let automaton = counter_automaton();
    let temp_tree_1 = leaf("c");
    let temp_tree_2 = node("a", vec![leaf("c")]);
    let temp_tree_3 = node("a", vec![node("a", vec![leaf("c")])]);
    let temp_tree_4 = node("b", vec![leaf("c"), leaf("c")]);
    let temp_tree_5 = node("a", vec![node("b", vec![leaf("c"), leaf("c")])]);
    let temp_tree_6 = node(
        "a",
        vec![node("b", vec![leaf("c"), node("a", vec![leaf("c")])])],
    );
    let val_1 = evaluate(&automaton, &temp_tree_1);
    let val_2 = evaluate(&automaton, &temp_tree_2);
    let val_3 = evaluate(&automaton, &temp_tree_3);
    let val_4 = evaluate(&automaton, &temp_tree_4);
    let val_5 = evaluate(&automaton, &temp_tree_5);
    let val_6 = evaluate(&automaton, &temp_tree_6);
    assert_eq!(val_1, 0.0);
    assert_eq!(val_2, 1.0);
    assert_eq!(val_3, 2.0);
    assert_eq!(val_4, 0.0);
    assert_eq!(val_5, 1.0);
    assert_eq!(val_6, 2.0);
}

#[test]
fn simple_computation_example() {
    let automaton = computation_automaton();
    let temp_tree_1 = leaf("0");
    let temp_tree_2 = leaf("1");
    let temp_tree_3 = node("+", vec![leaf("1"), leaf("1")]);
    let temp_tree_4 = node("x", vec![leaf("1"), leaf("1")]);
    let temp_tree_5 = node("x", vec![leaf("0"), leaf("1")]);
    let temp_tree_6 = node(
        "+",
        vec![
            node("x", vec![leaf("1"), leaf("1")]),
            node("+", vec![leaf("1"), leaf("1")]),
        ],
    );
    let temp_tree_7 = node(
        "x",
        vec![
            node("+", vec![leaf("1"), leaf("1")]),
            node(
                "+",
                vec![
                    leaf("1"),
                    node(
                        "+",
                        vec![leaf("1"), node("+", vec![leaf("1"), leaf("1")])],
                    ),
                ],
            ),
        ],
    );
    assert_eq!(evaluate(&automaton, &temp_tree_1), 0.0);
    assert_eq!(evaluate(&automaton, &temp_tree_2), 1.0);
    assert_eq!(evaluate(&automaton, &temp_tree_3), 2.0);
    assert_eq!(evaluate(&automaton, &temp_tree_4), 1.0);
    assert_eq!(evaluate(&automaton, &temp_tree_5), 0.0);
    assert_eq!(evaluate(&automaton, &temp_tree_6), 3.0);
    assert_eq!(evaluate(&automaton, &temp_tree_7), 8.0);
}

#[test]
fn simple_rgb_example() {
    let automaton = rgb_automaton();
    let temp_tree_1 = leaf("R");
    let temp_tree_2 = leaf("G");
    let temp_tree_3 = node("+", vec![leaf("G"), leaf("B")]);
    let temp_tree_4 = node("+", vec![leaf("B"), leaf("B")]);
    let temp_tree_5 = node("+", vec![leaf("R"), leaf("R")]);
    let temp_tree_6 = node(
        "+",
        vec![
            node("+", vec![leaf("R"), leaf("R")]),
            node("+", vec![leaf("G"), leaf("B")]),
        ],
    );
    assert_eq!(evaluate(&automaton, &temp_tree_1), 256000000.0);
    assert_eq!(evaluate(&automaton, &temp_tree_2), 256.0);
    assert_eq!(evaluate(&automaton, &temp_tree_3), 128128.0);
    assert_eq!(evaluate(&automaton, &temp_tree_4), 256000.0);
    assert_eq!(evaluate(&automaton, &temp_tree_5), 256000000.0);
    assert_eq!(evaluate(&automaton, &temp_tree_6), 128064064.0);
}

/// The end-to-end scenario: the minimized counter automaton reproduces every
/// sampled weight within the tolerance while using no more states.
#[test]
fn counter_minimization_end_to_end() {
    let automaton = counter_automaton();
    let minimized = run_minimize(automaton.clone());
    assert!(minimized.num_states <= automaton.num_states);
    let trees = vec![
        leaf("c"),
        node("a", vec![leaf("c")]),
        node("a", vec![node("a", vec![leaf("c")])]),
        node("b", vec![leaf("c"), leaf("c")]),
        node("a", vec![node("b", vec![leaf("c"), leaf("c")])]),
        node(
            "a",
            vec![node("b", vec![leaf("c"), node("a", vec![leaf("c")])])],
        ),
    ];
    let expected = [0.0, 1.0, 2.0, 0.0, 1.0, 2.0];
    for (t, e) in trees.iter().zip(expected.iter()) {
        assert_eq!(evaluate(&automaton, t), *e);
        assert!((evaluate(&minimized, t) - e).abs() < 1e-5);
    }
}

/// Semantic equivalence on sampled trees for a second automaton family.
#[test]
fn computation_minimization_equivalence() {
    let automaton = computation_automaton();
    let minimized = run_minimize(automaton.clone());
    assert!(minimized.num_states <= automaton.num_states);
    let trees = vec![
        leaf("0"),
        leaf("1"),
        node("+", vec![leaf("1"), leaf("1")]),
        node("x", vec![leaf("1"), node("+", vec![leaf("1"), leaf("1")])]),
    ];
    for t in &trees {
        let a = evaluate(&automaton, t);
        let b = evaluate(&minimized, t);
        assert!((a - b).abs() < 1e-5, "{} vs {}", a, b);
    }
}

/// Re-minimizing leaves the state count alone and keeps the weights.
#[test]
fn minimization_idempotent() {
    let automaton = counter_automaton();
    let once = run_minimize(automaton.clone());
    let twice = run_minimize(once.clone());
    assert_eq!(once.num_states, twice.num_states);
    let trees = vec![
        leaf("c"),
        node("a", vec![leaf("c")]),
        node("b", vec![leaf("c"), node("a", vec![leaf("c")])]),
    ];
    for t in &trees {
        let a = evaluate(&once, t);
        let b = evaluate(&twice, t);
        assert!((a - b).abs() < 1e-5, "{} vs {}", a, b);
    }
}

/// The conversion writes each production's cost into the mixed-radix cell, the
/// last write winning.
#[test]
fn conversion_round_trip() {
    let automaton = counter_automaton();
    // States sorted: p = 0, q = 1. The rule `b q p -> q` selects row
    // 1*2 + 0 = 2 and column 1.
    let mats: Vec<&(String, WMatrix)> = automaton.transition_matrices.iter().collect();
    let b_mat = &mats.iter().find(|e| e.0 == "b").unwrap().1;
    assert_eq!(b_mat.get(2, 1), 1.0f64.to_bits());
    // An untouched cell keeps the zero weight.
    assert_eq!(b_mat.get(3, 0), 0.0f64.to_bits());
    // The final-weight vector is indexed by state.
    let g = &mats.iter().find(|e| e.0 == "!").unwrap().1;
    assert_eq!(g.get(0, 0), 0.0f64.to_bits());
    assert_eq!(g.get(1, 0), 1.0f64.to_bits());

    // Two rules on the same cell: the later one wins.
    let s = rules(
        1,
        &[("c", 0), ("!", 1)],
        vec![
            ("c", vec![prod("c", &[], &["p"], 2.0), prod("c", &[], &["p"], 5.0)]),
            ("!", vec![prod("!", &["p"], &[], 1.0)]),
        ],
    );
    let a = prod_vec_to_automaton(s).expect("well-formed rule list");
    let mats: Vec<&(String, WMatrix)> = a.transition_matrices.iter().collect();
    let c_mat = &mats.iter().find(|e| e.0 == "c").unwrap().1;
    assert_eq!(c_mat.get(0, 0), 5.0f64.to_bits());
}

#[test]
fn conversion_rejects_missing_final_entry() {
    let s = rules(
        1,
        &[("c", 0)],
        vec![("c", vec![prod("c", &[], &["p"], 1.0)])],
    );
    assert_eq!(
        prod_vec_to_automaton(s).unwrap_err(),
        AutomatonError::MissingTransitionEntry
    );
}

#[test]
fn conversion_rejects_wrong_state_count() {
    let s = rules(
        3,
        &[("c", 0), ("!", 3)],
        vec![
            ("c", vec![prod("c", &[], &["p"], 1.0)]),
            ("!", vec![prod("!", &["p"], &[], 1.0)]),
        ],
    );
    assert_eq!(
        prod_vec_to_automaton(s).unwrap_err(),
        AutomatonError::MalformedProduction
    );
}

#[test]
fn conversion_rejects_rank_mismatch() {
    let s = rules(
        1,
        &[("a", 2), ("!", 1)],
        vec![
            ("a", vec![prod("a", &["p"], &["p"], 1.0)]),
            ("!", vec![prod("!", &["p"], &[], 1.0)]),
        ],
    );
    assert_eq!(
        prod_vec_to_automaton(s).unwrap_err(),
        AutomatonError::DimensionMismatch
    );
}

#[test]
fn evaluation_rejects_unknown_label() {
    let automaton = counter_automaton();
    let t = leaf("z");
    match compute_val_for_tree(automaton, &t) {
        Err(AutomatonError::MissingTransitionEntry) => {}
        other => panic!("unexpected: {:?}", other.map(|_| ())),
    }
}

#[test]
fn evaluation_rejects_arity_mismatch() {
    let automaton = counter_automaton();
    let t = node("a", vec![leaf("c"), leaf("c")]);
    match compute_val_for_tree(automaton, &t) {
        Err(AutomatonError::DimensionMismatch) => {}
        other => panic!("unexpected: {:?}", other.map(|_| ())),
    }
}

/// The conversion keeps the grammar direction and the alphabet.
#[test]
fn conversion_keeps_alphabet() {
    let automaton = counter_automaton();
    assert_eq!(automaton.num_states, 2);
    assert!(matches!(automaton.grammar_type, GrammarType::BottomUp));
    let names: Vec<String> = automaton
        .ranked_alphabet
        .iter()
        .map(|e| e.0.clone())
        .collect();
    assert_eq!(names, vec!["a", "b", "c", "!"]);
    // The reserved entry records the state count.
    assert_eq!(automaton.ranked_alphabet[3].1, 2);
}

/// A state that no leaf builds and no final weight observes adds nothing:
/// minimization drops it, and the smaller automaton stays weight-equivalent.
#[test]
fn minimization_drops_redundant_state() {
    let s = rules(
        3,
        &[("a", 1), ("b", 2), ("c", 0), ("!", 3)],
        vec![
            ("c", vec![prod("c", &[], &["p"], 1.0)]),
            (
                "a",
                vec![
                    prod("a", &["p"], &["p"], 1.0),
                    prod("a", &["p"], &["q"], 1.0),
                    prod("a", &["q"], &["q"], 1.0),
                    prod("a", &["r"], &["r"], 1.0),
                ],
            ),
            (
                "b",
                vec![
                    prod("b", &["p", "p"], &["p"], 1.0),
                    prod("b", &["p", "q"], &["q"], 1.0),
                    prod("b", &["q", "p"], &["q"], 1.0),
                ],
            ),
            ("!", vec![prod("!", &["q"], &[], 1.0)]),
        ],
    );
    let automaton = prod_vec_to_automaton(s).expect("well-formed rule list");
    assert_eq!(automaton.num_states, 3);
    let minimized = run_minimize(automaton.clone());
    assert!(minimized.num_states < automaton.num_states);
    let trees = vec![
        leaf("c"),
        node("a", vec![leaf("c")]),
        node("b", vec![leaf("c"), node("a", vec![leaf("c")])]),
    ];
    for t in &trees {
        let a = evaluate(&automaton, t);
        let b = evaluate(&minimized, t);
        assert!((a - b).abs() < 1e-5, "{} vs {}", a, b);
    }
}

/// The reserved final-weight pseudo-symbol is no tree label.
#[test]
fn evaluation_rejects_reserved_symbol() {
    let automaton = counter_automaton();
    let t = leaf("!");
    match compute_val_for_tree(automaton, &t) {
        Err(AutomatonError::MissingTransitionEntry) => {}
        other => panic!("unexpected: {:?}", other.map(|_| ())),
    }
}
