use nalgebra::DMatrix;
use wta_min::matrix::WMatrix;
use wta_min::minimisation::{tzeng, MatReply, MatRequest, TzengStep};
use wta_min::tuples::next_tuple;

#[test]
fn tuple_enumeration_order() {
    let r1 = next_tuple(vec![1, 1], 2, false).unwrap();
    assert_eq!(r1, vec![1, 2]);
    let r2 = next_tuple(r1, 2, false).unwrap();
    assert_eq!(r2, vec![2, 1]);
    let r3 = next_tuple(r2, 2, false).unwrap();
    assert_eq!(r3, vec![2, 2]);
    assert_eq!(next_tuple(r3, 2, false), None);
}

#[test]
fn tuple_enumeration_empty_and_zero_digits() {
    // An empty tuple has no successor.
    assert_eq!(next_tuple(vec![], 2, false), None);
    // Digits below the pool roll through it one position at a time.
    let r = next_tuple(vec![0, 0], 2, false).unwrap();
    assert_eq!(r, vec![0, 1]);
    let r = next_tuple(r, 2, false).unwrap();
    assert_eq!(r, vec![0, 2]);
    let r = next_tuple(r, 2, false).unwrap();
    assert_eq!(r, vec![1, 1]);
}

#[test]
fn forced_tuples_always_carry_the_bound() {
    // Walk the whole forced enumeration for bound 2 and length 2.
    let mut cur = vec![1, 1];
    let mut seen = Vec::new();
    loop {
        match next_tuple(cur.clone(), 2, true) {
            Some(y) => {
                assert!(y.contains(&2), "{:?} lacks the bound", y);
                seen.push(y.clone());
                cur = y;
            }
            None => break,
        }
    }
    assert_eq!(seen, vec![vec![1, 2], vec![2, 1], vec![2, 2]]);
    // A skipped successor jumps straight to the next tuple with the bound.
    assert_eq!(next_tuple(vec![1, 1], 3, true), Some(vec![1, 3]));
    assert_eq!(next_tuple(vec![1, 3], 3, true), Some(vec![2, 3]));
}

fn to_dm(w: &WMatrix) -> DMatrix<f64> {
    DMatrix::from_fn(w.rows, w.cols, |r, c| f64::from_bits(w.data[r * w.cols + c]))
}

fn from_dm(m: &DMatrix<f64>) -> WMatrix {
    let mut data = Vec::new();
    for r in 0..m.nrows() {
        for c in 0..m.ncols() {
            data.push(m[(r, c)].to_bits());
        }
    }
    WMatrix { rows: m.nrows(), cols: m.ncols(), data }
}

fn answer(req: &MatRequest) -> MatReply {
    match req {
        MatRequest::Kron(a, b) => MatReply::Mat(from_dm(&to_dm(a).kronecker(&to_dm(b)))),
        MatRequest::Mul(a, b) => MatReply::Mat(from_dm(&(to_dm(a) * to_dm(b)))),
        MatRequest::Rank(m, eps) => MatReply::Rank(to_dm(m).rank(f64::from_bits(*eps))),
        MatRequest::Solve(a, rhs, eps) => {
            let svd = to_dm(a).svd(true, true);
            match svd.solve(&to_dm(rhs), f64::from_bits(*eps)) {
                Ok(x) => MatReply::Solved(Some(from_dm(&x))),
                Err(_) => MatReply::Solved(None),
            }
        }
        MatRequest::FoldMul(factors, tail) => {
            let mut acc = DMatrix::from_element(1, 1, 1.0);
            for f in factors {
                acc = acc.kronecker(&to_dm(f));
            }
            MatReply::Mat(from_dm(&(acc * to_dm(tail))))
        }
    }
}

/// The saturation search, seeded with a column whose closure under the one
/// transform spans the whole plane, fills the matrix to full rank whatever
/// order the frontier is served in.
#[test]
fn saturation_reaches_the_spanned_rank() {
    let seed = from_dm(&DMatrix::from_column_slice(2, 1, &[1.0, 0.0]));
    let b = from_dm(&DMatrix::from_element(2, 2, 0.0));
    let swap = from_dm(&DMatrix::from_row_slice(2, 2, &[0.0, 1.0, 1.0, 0.0]));
    let mut run = tzeng(seed, b, vec![swap]);
    let mut reply: Option<MatReply> = None;
    let out = loop {
        match run.step(reply.take()) {
            TzengStep::Ask(req) => reply = Some(answer(&req)),
            TzengStep::Done(out) => break out,
        }
    };
    assert_eq!(to_dm(&out).rank(1e-5), 2);
}

/// A transform set that only rescales the seed spans a line: the search stops
/// at rank one and never exceeds it.
#[test]
fn saturation_stops_at_the_spanned_subspace() {
    let seed = from_dm(&DMatrix::from_column_slice(2, 1, &[1.0, 0.0]));
    let b = from_dm(&DMatrix::from_element(2, 2, 0.0));
    let scale = from_dm(&DMatrix::from_row_slice(2, 2, &[2.0, 0.0, 0.0, 0.0]));
    let mut run = tzeng(seed, b, vec![scale]);
    let mut reply: Option<MatReply> = None;
    let out = loop {
        match run.step(reply.take()) {
            TzengStep::Ask(req) => reply = Some(answer(&req)),
            TzengStep::Done(out) => break out,
        }
    };
    assert_eq!(to_dm(&out).rank(1e-5), 1);
}
