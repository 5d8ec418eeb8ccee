use nalgebra::DMatrix;
use wta_min::data_structures::{
    prod_vec_to_automaton, AutomatonError, GrammarType, Production, WeightedTreeAutomatonStruct,
};
use wta_min::matrix::WMatrix;
use wta_min::minimisation::{MatReply, MatRequest};
use wta_min::states::{find_name, insert_state, str_lt_exec};
use wta_min::step_iii::{step_iii_solve, ProjStep};

fn to_dm(w: &WMatrix) -> DMatrix<f64> {
    DMatrix::from_fn(w.rows, w.cols, |r, c| f64::from_bits(w.data[r * w.cols + c]))
}

fn from_dm(m: &DMatrix<f64>) -> WMatrix {
    let mut data = Vec::new();
    for r in 0..m.nrows() {
        for c in 0..m.ncols() {
            data.push(m[(r, c)].to_bits());
        }
    }
    WMatrix { rows: m.nrows(), cols: m.ncols(), data }
}

/// A calculator that computes honestly except that it reports every
/// least-squares solve as unsolvable.
fn answer_unsolvable(req: &MatRequest) -> MatReply {
    match req {
        MatRequest::Kron(a, b) => MatReply::Mat(from_dm(&to_dm(a).kronecker(&to_dm(b)))),
        MatRequest::Mul(a, b) => MatReply::Mat(from_dm(&(to_dm(a) * to_dm(b)))),
        MatRequest::Rank(m, eps) => MatReply::Rank(to_dm(m).rank(f64::from_bits(*eps))),
        MatRequest::Solve(_, _, _) => MatReply::Solved(None),
        MatRequest::FoldMul(factors, tail) => {
            let mut acc = DMatrix::from_element(1, 1, 1.0);
            for f in factors {
                acc = acc.kronecker(&to_dm(f));
            }
            MatReply::Mat(from_dm(&(acc * to_dm(tail))))
        }
    }
}

fn prod(sym: &str, left: &[&str], right: &[&str], cost: f64) -> Production {
    Production {
        root_symbol: sym.to_string(),
        left_states: left.iter().map(|s| s.to_string()).collect(),
        right_states: right.iter().map(|s| s.to_string()).collect(),
        cost: cost.to_bits(),
    }
}

/// A solve that finds no solution ends the projection with the matching error.
#[test]
fn projection_reports_unsolvable_solves() {
    let s = WeightedTreeAutomatonStruct {
        num_states: 1,
        grammar_type: GrammarType::BottomUp,
        ranked_alphabet: vec![("c".to_string(), 0), ("!".to_string(), 1)],
        transition_structs: vec![
            ("c".to_string(), vec![prod("c", &[], &["p"], 1.0)]),
            ("!".to_string(), vec![prod("!", &["p"], &[], 1.0)]),
        ],
    };
    let a = prod_vec_to_automaton(s).expect("well-formed rule list");
    let f = from_dm(&DMatrix::from_element(1, 1, 1.0));
    let b = from_dm(&DMatrix::from_element(1, 1, 1.0));
    let mut run = step_iii_solve(&a, &f, &b);
    let mut reply: Option<MatReply> = None;
    loop {
        match run.step(reply.take()) {
            ProjStep::Ask(req) => reply = Some(answer_unsolvable(&req)),
            ProjStep::Done(_) => panic!("the projection should fail"),
            ProjStep::Fail(e) => {
                assert_eq!(e, AutomatonError::UnsolvableProjection);
                break;
            }
        }
    }
}

#[test]
fn state_names_sort_lexicographically() {
    assert!(str_lt_exec(&"a".to_string(), &"b".to_string()));
    assert!(str_lt_exec(&"a".to_string(), &"ab".to_string()));
    assert!(!str_lt_exec(&"b".to_string(), &"ab".to_string()));
    assert!(!str_lt_exec(&"q1".to_string(), &"q1".to_string()));
    assert!(str_lt_exec(&"q1".to_string(), &"q2".to_string()));

    let mut order: Vec<String> = Vec::new();
    insert_state(&mut order, "q2".to_string());
    insert_state(&mut order, "q1".to_string());
    insert_state(&mut order, "q10".to_string());
    insert_state(&mut order, "q1".to_string());
    assert_eq!(order, vec!["q1".to_string(), "q10".to_string(), "q2".to_string()]);
    assert_eq!(find_name(&order, &"q10".to_string()), Some(1));
    assert_eq!(find_name(&order, &"q3".to_string()), None);
}
