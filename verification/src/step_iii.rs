use vstd::prelude::*;
use vstd::pervasive::unreached;
use crate::data_structures::final_sym;
use crate::data_structures::final_symbol;
use crate::data_structures::first_pos;
use crate::data_structures::has_sym;
use crate::data_structures::lemma_first_pos;
use crate::data_structures::lemma_first_pos_same_keys;
use crate::data_structures::lookup_first;
use crate::data_structures::spow;
use crate::data_structures::sym_value;
use crate::data_structures::AutomatonError;
use crate::data_structures::GrammarType;
use crate::data_structures::WeightedTreeAutomatonMatrix;
use crate::matrix::WMatrix;
use crate::minimisation::EPS_BITS;
use crate::minimisation::MatReply;
use crate::minimisation::MatRequest;

verus! {

/// Which request of the projection step is out.
pub enum ProjPending {
    Idle,
    /// One row of the forward basis times the backward basis is out.
    RowMul,
    /// The rank of the grown projection basis with that row appended is out.
    RowRank { tent: WMatrix },
    /// The minimized final-weight vector is out.
    GammaMul,
    /// The next Kronecker power of the projection basis is out.
    PowKron,
    /// The projected right-hand side for the current symbol is out.
    RightMul,
    /// The least-squares solve for the current symbol is out.
    SolveSym,
}

/// What a projection step hands back: the next numeric job, the minimized
/// automaton, or the failure that ends the run.
pub enum ProjStep {
    Ask(MatRequest),
    Done(WeightedTreeAutomatonMatrix),
    Fail(AutomatonError),
}

/// The projection step: compute the minimized forward basis by filtering the
/// rows of `F * B` that raise the rank, read the new state count off its row
/// count, project the final weights, and solve one least-squares system per
/// symbol against the Kronecker powers of the new basis. The row filter is
/// what makes the minimized automaton at most as large as the original: a row
/// only stays when the rank grows, and the rank never exceeds the column
/// count.
pub struct ProjRun {
    pub n: usize,
    pub alpha: Vec<(String, usize)>,
    pub mats: Vec<WMatrix>,
    pub grammar_type: GrammarType,
    pub f: WMatrix,
    pub b: WMatrix,
    pub gamma: WMatrix,
    pub new_f: WMatrix,
    pub row: usize,
    pub new_gamma: Option<WMatrix>,
    pub pows: Vec<WMatrix>,
    pub max_rk: usize,
    pub out_alpha: Vec<(String, usize)>,
    pub out_mats: Vec<(String, WMatrix)>,
    pub sym: usize,
    pub pending: ProjPending,
    pub eps_bits: u64,
}

impl ProjRun {
    pub open spec fn nn(self) -> nat {
        self.n as nat
    }

    /// The minimized state count: the rows kept so far.
    pub open spec fn new_n(self) -> nat {
        self.new_f.nrows()
    }

    pub open spec fn wf(self) -> bool {
        &&& self.n >= 1
        &&& self.n * self.n <= usize::MAX
        &&& self.alpha@.len() == self.mats@.len()
        &&& forall|k: int|
            0 <= k < self.mats@.len() ==> {
                let m = #[trigger] self.mats@[k];
                &&& m.wf()
                &&& (self.alpha@[k].0@ == final_sym() ==> m.shape(self.nn(), 1))
                &&& (self.alpha@[k].0@ != final_sym() ==> m.shape(
                    spow(self.nn(), self.alpha@[k].1 as nat),
                    self.nn(),
                ))
            }
        &&& has_sym(self.alpha@, final_sym())
        &&& forall|k: int|
            0 <= k < self.alpha@.len() && (#[trigger] self.alpha@[k]).0@ != final_sym()
                ==> self.alpha@[k].1 <= self.max_rk
        &&& self.f.wf()
        &&& self.f.shape(self.nn(), self.nn())
        &&& self.b.wf()
        &&& self.b.shape(self.nn(), self.nn())
        &&& self.gamma.wf()
        &&& self.gamma.shape(self.nn(), 1)
        &&& self.new_f.wf()
        &&& self.new_f.ncols() == self.nn()
        &&& self.row <= self.n
        &&& self.new_n() <= self.row
        &&& self.new_n() <= self.nn()
        &&& match self.new_gamma {
            Some(g) => {
                &&& self.row == self.n
                &&& g.wf()
                &&& g.shape(self.new_n(), 1)
            },
            None => self.pows@.len() == 0 && self.sym == 0,
        }
        &&& self.pows@.len() <= self.max_rk + 1
        &&& (self.pows@.len() > 0 ==> self.new_gamma is Some)
        &&& (self.pows@.len() >= 1 ==> self.pows@.len() >= 2 || self.max_rk == 0)
        &&& forall|k: int|
            0 <= k < self.pows@.len() ==> (#[trigger] self.pows@[k]).wf() && self.pows@[k].shape(
                spow(self.new_n(), k as nat),
                spow(self.nn(), k as nat),
            )
        &&& self.sym <= self.alpha@.len()
        &&& (self.sym > 0 ==> self.pows@.len() == self.max_rk + 1)
        &&& self.out_alpha@.len() == self.sym
        &&& self.out_mats@.len() == self.sym
        &&& forall|k: int|
            0 <= k < self.sym ==> {
                let oa = #[trigger] self.out_alpha@[k];
                let om = self.out_mats@[k];
                &&& oa.0@ == self.alpha@[k].0@
                &&& om.0@ == self.alpha@[k].0@
                &&& om.1.wf()
                &&& (self.alpha@[k].0@ == final_sym() ==> oa.1 == self.new_n() && om.1.shape(
                    self.new_n(),
                    1,
                ) && match self.new_gamma {
                    Some(g) => om.1.same_bits(g),
                    None => false,
                })
                &&& (self.alpha@[k].0@ != final_sym() ==> oa.1 == self.alpha@[k].1 && om.1.shape(
                    spow(self.new_n(), self.alpha@[k].1 as nat),
                    self.new_n(),
                ))
            }
        &&& match self.pending {
            ProjPending::Idle => true,
            ProjPending::RowMul => self.row < self.n && self.new_gamma is None,
            ProjPending::RowRank { tent } => {
                &&& self.row < self.n
                &&& self.new_gamma is None
                &&& tent.wf()
                &&& tent.shape(self.new_n() + 1, self.nn())
                &&& self.new_n() + 1 <= self.nn()
            },
            ProjPending::GammaMul => self.row == self.n && self.new_gamma is None,
            ProjPending::PowKron => self.new_gamma is Some && 2 <= self.pows@.len()
                <= self.max_rk,
            ProjPending::RightMul => {
                &&& self.new_gamma is Some
                &&& self.pows@.len() == self.max_rk + 1
                &&& self.sym < self.alpha@.len()
                &&& self.alpha@[self.sym as int].0@ != final_sym()
            },
            ProjPending::SolveSym => {
                &&& self.new_gamma is Some
                &&& self.pows@.len() == self.max_rk + 1
                &&& self.sym < self.alpha@.len()
                &&& self.alpha@[self.sym as int].0@ != final_sym()
            },
        }
    }

    /// The request the state calls for: the next row of `F` times `B`, the
    /// rank of the grown basis, the projected final weights, the next
    /// Kronecker power, the current symbol's right-hand side, or its
    /// least-squares solve against the transposed basis.
    pub open spec fn asks(self, req: MatRequest) -> bool {
        match self.pending {
            ProjPending::Idle => false,
            ProjPending::RowMul => req matches MatRequest::Mul(a, bb) && a.shape(1, self.nn())
                && (forall|c: int|
                0 <= c < self.nn() ==> #[trigger] a.ent(0, c) == self.f.ent(self.row as int, c))
                && bb.same_bits(self.b),
            ProjPending::RowRank { tent } => req matches MatRequest::Rank(mm, eb) && mm.same_bits(
                tent,
            ) && eb == self.eps_bits,
            ProjPending::GammaMul => req matches MatRequest::Mul(a, bb) && a.same_bits(self.new_f)
                && bb.same_bits(self.gamma),
            ProjPending::PowKron => req matches MatRequest::Kron(a, bb) && self.pows@.len() >= 1
                && a.same_bits(self.pows@.last()) && bb.same_bits(self.new_f),
            ProjPending::RightMul => req matches MatRequest::Mul(a, bb) && a.same_bits(
                self.pows@[self.alpha@[self.sym as int].1 as int],
            ) && bb.same_bits(self.mats@[self.sym as int]),
            ProjPending::SolveSym => req matches MatRequest::Solve(a, rhs, eb) && a.shape(
                self.nn(),
                self.new_n(),
            ) && (forall|r: int, c: int|
                0 <= r < self.nn() && 0 <= c < self.new_n() ==> #[trigger] a.ent(r, c)
                    == self.new_f.ent(c, r)) && eb == self.eps_bits,
        }
    }

    /// A shape the projection would need does not fit the address space: the
    /// next Kronecker power of the basis, the current symbol's right-hand
    /// side, or its solve.
    pub open spec fn dim_stuck(self) -> bool {
        let pl = self.pows@.len() as int;
        ||| (self.new_gamma is Some && 1 <= pl && pl <= self.max_rk && (spow(
            self.new_n(),
            (pl - 1) as nat,
        ) * self.new_n() > usize::MAX || spow(self.nn(), (pl - 1) as nat) * self.nn()
            > usize::MAX))
        ||| (self.sym < self.alpha@.len() && self.alpha@[self.sym as int].0@ != final_sym() && spow(
            self.new_n(),
            self.alpha@[self.sym as int].1 as nat,
        ) * self.nn() > usize::MAX)
        ||| (self.sym < self.alpha@.len() && self.alpha@[self.sym as int].0@ != final_sym()
            && self.new_n() * spow(self.new_n(), self.alpha@[self.sym as int].1 as nat)
            > usize::MAX)
    }

    /// Progress, coarsest first: rows of `F` left to filter, the final
    /// weights still unprojected, Kronecker powers missing, symbols left, and
    /// the stage of the request in flight. Every step that asks again is
    /// lexicographically below its predecessor, so a run always finishes.
    pub open spec fn measures(self) -> (int, int, int, int, int) {
        (
            self.n - self.row,
            if self.new_gamma is None {
                1int
            } else {
                0int
            },
            self.max_rk + 1 - self.pows@.len(),
            self.alpha@.len() - self.sym,
            match self.pending {
                ProjPending::Idle => 3int,
                ProjPending::RowMul => 2,
                ProjPending::RowRank { tent } => 1,
                ProjPending::GammaMul => 1,
                ProjPending::PowKron => 1,
                ProjPending::RightMul => 2,
                ProjPending::SolveSym => 1,
            },
        )
    }

    /// Lexicographic decrease of the progress measures.
    pub open spec fn progressed(pre: Self, post: Self) -> bool {
        let a = pre.measures();
        let b = post.measures();
        ||| b.0 < a.0
        ||| (b.0 == a.0 && b.1 < a.1)
        ||| (b.0 == a.0 && b.1 == a.1 && b.2 < a.2)
        ||| (b.0 == a.0 && b.1 == a.1 && b.2 == a.2 && b.3 < a.3)
        ||| (b.0 == a.0 && b.1 == a.1 && b.2 == a.2 && b.3 == a.3 && b.4 < a.4)
    }

    /// The reply the run is waiting for, if a request is out.
    pub open spec fn awaits(self, reply: Option<MatReply>) -> bool {
        match self.pending {
            ProjPending::Idle => reply is None,
            ProjPending::RowMul => match reply {
                Some(MatReply::Mat(v)) => v.wf() && v.shape(1, self.nn()),
                _ => false,
            },
            ProjPending::RowRank { tent } => match reply {
                Some(MatReply::Rank(k)) => k <= tent.nrows() && k <= tent.ncols(),
                _ => false,
            },
            ProjPending::GammaMul => match reply {
                Some(MatReply::Mat(g)) => g.wf() && g.shape(self.new_n(), 1),
                _ => false,
            },
            ProjPending::PowKron => match reply {
                Some(MatReply::Mat(m)) => m.wf() && m.shape(
                    spow(self.new_n(), self.pows@.len() as nat),
                    spow(self.nn(), self.pows@.len() as nat),
                ),
                _ => false,
            },
            ProjPending::RightMul => match reply {
                Some(MatReply::Mat(m)) => m.wf() && m.shape(
                    spow(self.new_n(), self.alpha@[self.sym as int].1 as nat),
                    self.nn(),
                ),
                _ => false,
            },
            ProjPending::SolveSym => match reply {
                Some(MatReply::Solved(x)) => match x {
                    Some(m) => m.wf() && m.shape(
                        self.new_n(),
                        spow(self.new_n(), self.alpha@[self.sym as int].1 as nat),
                    ),
                    None => true,
                },
                _ => false,
            },
        }
    }

    /// Walk the phases until the next product, rank or solve is needed, or the
    /// minimized automaton is finished.
    #[verifier::loop_isolation(false)]
    #[verifier::rlimit(100)]
    fn advance(&mut self) -> (r: ProjStep)
        requires
            old(self).wf(),
            old(self).pending is Idle,
        ensures
            final(self).wf(),
            final(self).n == old(self).n,
            final(self).alpha == old(self).alpha,
            final(self).mats == old(self).mats,
            final(self).grammar_type == old(self).grammar_type,
            final(self).f == old(self).f,
            final(self).b == old(self).b,
            final(self).gamma == old(self).gamma,
            final(self).max_rk == old(self).max_rk,
            final(self).eps_bits == old(self).eps_bits,
            final(self).new_f == old(self).new_f,
            final(self).new_gamma == old(self).new_gamma,
            final(self).row == old(self).row,
            old(self).pows@.len() > 0 ==> final(self).pows == old(self).pows,
            final(self).sym >= old(self).sym,
            final(self).out_alpha@.len() >= old(self).out_alpha@.len(),
            final(self).out_mats@.len() >= old(self).out_mats@.len(),
            forall|k: int|
                0 <= k < old(self).out_alpha@.len() ==> final(self).out_alpha@[k] == old(
                    self,
                ).out_alpha@[k] && final(self).out_mats@[k] == old(self).out_mats@[k],
            match r {
                ProjStep::Ask(req) => {
                    &&& req.consistent()
                    &&& forall|rep: MatReply| req.answers(rep) ==> final(self).awaits(Some(rep))
                    &&& final(self).asks(req)
                    &&& Self::progressed(*old(self), *final(self))
                },
                ProjStep::Done(out) => {
                    &&& out.wf()
                    &&& out.num_states <= old(self).n
                    &&& out.num_states == final(self).new_n()
                    &&& out.grammar_type == old(self).grammar_type
                    &&& out.ranked_alphabet@.len() == old(self).alpha@.len()
                    &&& out.transition_matrices@.len() == old(self).alpha@.len()
                    &&& forall|k: int|
                        0 <= k < old(self).alpha@.len() ==> {
                            &&& (#[trigger] out.ranked_alphabet@[k]).0@ == old(
                                self,
                            ).alpha@[k].0@
                            &&& (old(self).alpha@[k].0@ != final_sym()
                                ==> out.ranked_alphabet@[k].1 == old(self).alpha@[k].1)
                            &&& (old(self).alpha@[k].0@ == final_sym()
                                ==> out.ranked_alphabet@[k].1 == out.num_states)
                            &&& out.transition_matrices@[k].0@ == old(self).alpha@[k].0@
                            &&& out.transition_matrices@[k].1.same_bits(
                                final(self).out_mats@[k].1,
                            )
                        }
                },
                ProjStep::Fail(e) => e == AutomatonError::DimensionMismatch
                    && final(self).dim_stuck(),
            },
    {
        loop
            invariant
                self.wf(),
                self.pending is Idle,
                self.n == old(self).n,
                self.alpha == old(self).alpha,
                self.mats == old(self).mats,
                self.grammar_type == old(self).grammar_type,
                self.f == old(self).f,
                self.b == old(self).b,
                self.gamma == old(self).gamma,
                self.max_rk == old(self).max_rk,
                self.eps_bits == old(self).eps_bits,
                self.new_f == old(self).new_f,
                self.new_gamma == old(self).new_gamma,
                self.row == old(self).row,
                old(self).pows@.len() > 0 ==> self.pows == old(self).pows,
                self.sym >= old(self).sym,
                self.out_alpha@.len() >= old(self).out_alpha@.len(),
                self.out_mats@.len() >= old(self).out_mats@.len(),
                forall|k: int|
                    0 <= k < old(self).out_alpha@.len() ==> self.out_alpha@[k] == old(
                        self,
                    ).out_alpha@[k] && self.out_mats@[k] == old(self).out_mats@[k],
            decreases (if self.row < self.n {
                1int
            } else {
                0int
            }), (if self.new_gamma is None {
                1int
            } else {
                0int
            }), self.max_rk + 1 - self.pows@.len(), self.alpha@.len() - self.sym,
        {
            if self.row < self.n {
                // Filter the next row of F * B by rank.
                let v = self.f.row(self.row);
                let req = MatRequest::Mul(v, self.b.duplicate());
                proof {
                    assert(1 * self.nn() == self.nn()) by (nonlinear_arith);
                    assert(req.consistent());
                }
                self.pending = ProjPending::RowMul;
                return ProjStep::Ask(req);
            }
            let has_gamma = match &self.new_gamma {
                Some(_) => true,
                None => false,
            };
            if !has_gamma {
                // The minimized final weights: the kept basis times gamma.
                let req = MatRequest::Mul(self.new_f.duplicate(), self.gamma.duplicate());
                proof {
                    assert(self.new_n() * 1 <= usize::MAX) by (nonlinear_arith)
                        requires
                            self.new_n() <= usize::MAX,
                    ;
                }
                self.pending = ProjPending::GammaMul;
                proof {
                    assert(req.consistent());
                    assert(forall|rep: MatReply| req.answers(rep) ==> self.awaits(Some(rep)));
                }
                return ProjStep::Ask(req);
            }
            if self.pows.len() == 0 {
                // Kronecker powers of the new basis, zeroth and first.
                let mut unit = match WMatrix::zeros(1, 1) {
                    Some(m) => m,
                    None => unreached(),
                };
                unit.set(0, 0, crate::matrix::ONE_BITS);
                proof {
                    assert(spow(self.new_n(), 0) == 1 && spow(self.nn(), 0) == 1);
                }
                self.pows.push(unit);
                if self.max_rk >= 1 {
                    let first = self.new_f.duplicate();
                    proof {
                        assert(spow(self.new_n(), 1) == self.new_n() * spow(self.new_n(), 0));
                        assert(self.new_n() * 1 == self.new_n()) by (nonlinear_arith);
                        assert(spow(self.nn(), 1) == self.nn() * spow(self.nn(), 0));
                        assert(self.nn() * 1 == self.nn()) by (nonlinear_arith);
                    }
                    self.pows.push(first);
                }
                continue ;
            }
            let pl = self.pows.len();
            if pl <= self.max_rk {
                // The next Kronecker power, if its shape fits memory.
                let prev = &self.pows[pl - 1];
                let pr = prev.rows();
                let pc = prev.cols();
                let nfr = self.new_f.rows();
                let nfc = self.new_f.cols();
                let rows_ok = pr.checked_mul(nfr);
                let cols_ok = pc.checked_mul(nfc);
                match (rows_ok, cols_ok) {
                    (Some(_), Some(_)) => {
                        proof {
                            let pln = pl as nat;
                            assert(spow(self.new_n(), pln) == self.new_n() * spow(
                                self.new_n(),
                                (pln - 1) as nat,
                            ));
                            assert(spow(self.new_n(), (pln - 1) as nat) * self.new_n()
                                == self.new_n() * spow(self.new_n(), (pln - 1) as nat))
                                by (nonlinear_arith);
                            assert(spow(self.nn(), pln) == self.nn() * spow(
                                self.nn(),
                                (pln - 1) as nat,
                            ));
                            assert(spow(self.nn(), (pln - 1) as nat) * self.nn() == self.nn()
                                * spow(self.nn(), (pln - 1) as nat)) by (nonlinear_arith);
                        }
                        let req = MatRequest::Kron(prev.duplicate(), self.new_f.duplicate());
                        self.pending = ProjPending::PowKron;
                        return ProjStep::Ask(req);
                    },
                    _ => {
                        return ProjStep::Fail(AutomatonError::DimensionMismatch);
                    },
                }
            }
            let al = self.alpha.len();
            if self.sym < al {
                let bang = final_symbol();
                let is_final = self.alpha[self.sym].0.eq(&bang);
                if is_final {
                    // The reserved entry records the new state count and the
                    // projected final weights.
                    let name = self.alpha[self.sym].0.clone();
                    let name2 = self.alpha[self.sym].0.clone();
                    let new_n = self.new_f.rows();
                    let g = match &self.new_gamma {
                        Some(g) => g.duplicate(),
                        None => unreached(),
                    };
                    self.out_alpha.push((name, new_n));
                    self.out_mats.push((name2, g));
                    self.sym = self.sym + 1;
                    continue ;
                }
                // Project this symbol: right-hand side first.
                let rk = self.alpha[self.sym].1;
                let mu = self.mats[self.sym].duplicate();
                let pow = self.pows[rk].duplicate();
                let pwr = pow.rows();
                match pwr.checked_mul(self.n) {
                    Some(_) => {},
                    None => {
                        return ProjStep::Fail(AutomatonError::DimensionMismatch);
                    },
                }
                let req = MatRequest::Mul(pow, mu);
                self.pending = ProjPending::RightMul;
                return ProjStep::Ask(req);
            }
            // Assemble the minimized automaton.
            let new_n = self.new_f.rows();
            let mut out_alpha: Vec<(String, usize)> = Vec::new();
            let mut out_mats: Vec<(String, WMatrix)> = Vec::new();
            let mut k: usize = 0;
            while k < self.out_alpha.len()
                invariant
                    self.wf(),
                    self.sym == self.alpha@.len(),
                    self.out_alpha@.len() == self.out_mats@.len(),
                    0 <= k <= self.out_alpha@.len(),
                    out_alpha@.len() == k,
                    out_mats@.len() == k,
                    forall|i: int|
                        0 <= i < k ==> (#[trigger] out_alpha@[i]).0@ == self.out_alpha@[i].0@
                            && out_alpha@[i].1 == self.out_alpha@[i].1,
                    forall|i: int|
                        0 <= i < k ==> (#[trigger] out_mats@[i]).0@ == self.out_mats@[i].0@
                            && out_mats@[i].1.wf() && out_mats@[i].1.shape(
                            self.out_mats@[i].1.nrows(),
                            self.out_mats@[i].1.ncols(),
                        ) && out_mats@[i].1.same_bits(self.out_mats@[i].1),
                decreases self.out_alpha@.len() - k,
            {
                let name = self.out_alpha[k].0.clone();
                let rank = self.out_alpha[k].1;
                let name2 = self.out_mats[k].0.clone();
                let m = self.out_mats[k].1.duplicate();
                out_alpha.push((name, rank));
                out_mats.push((name2, m));
                k = k + 1;
            }
            let out = WeightedTreeAutomatonMatrix {
                num_states: new_n,
                grammar_type: self.grammar_type,
                ranked_alphabet: out_alpha,
                transition_matrices: out_mats,
            };
            proof {
                assert(out.wf()) by {
                    assert forall|i: int| 0 <= i < self.alpha@.len() implies self.alpha@[i].0@
                        == out.ranked_alphabet@[i].0@ by {}
                    lemma_first_pos_same_keys(self.alpha@, out.ranked_alphabet@, final_sym());
                    lemma_first_pos(self.alpha@, final_sym());
                    lemma_first_pos(out.ranked_alphabet@, final_sym());
                    let fpos = first_pos(self.alpha@, final_sym());
                    assert(self.alpha@[fpos].0@ == final_sym());
                    assert(out.ranked_alphabet@[fpos].1 == out.num_states);
                    assert(sym_value(out.ranked_alphabet@, final_sym()) == out.num_states);
                }
            }
            return ProjStep::Done(out);
        }
    }

    /// Feed the previous request's answer and get the next job, the minimized
    /// automaton, or the failure that ends the run.
    pub fn step(&mut self, reply: Option<MatReply>) -> (r: ProjStep)
        requires
            old(self).wf(),
            old(self).awaits(reply),
        ensures
            final(self).wf(),
            final(self).n == old(self).n,
            final(self).alpha == old(self).alpha,
            final(self).mats == old(self).mats,
            final(self).grammar_type == old(self).grammar_type,
            final(self).f == old(self).f,
            final(self).b == old(self).b,
            final(self).gamma == old(self).gamma,
            final(self).max_rk == old(self).max_rk,
            final(self).eps_bits == old(self).eps_bits,
            // How the reply is digested, case by case.
            match (old(self).pending, reply) {
                (ProjPending::Idle, None) => {
                    &&& final(self).new_f == old(self).new_f
                    &&& final(self).new_gamma == old(self).new_gamma
                    &&& final(self).row == old(self).row
                },
                (ProjPending::RowMul, Some(MatReply::Mat(v))) => {
                    &&& final(self).new_f == old(self).new_f
                    &&& final(self).row == old(self).row
                    &&& final(self).new_gamma == old(self).new_gamma
                    &&& match final(self).pending {
                        ProjPending::RowRank { tent } => {
                            &&& tent.nrows() == old(self).new_n() + 1
                            &&& tent.ncols() == old(self).nn()
                            &&& forall|r2: int, c: int|
                                0 <= r2 < old(self).new_n() && 0 <= c < old(self).nn()
                                    ==> #[trigger] tent.ent(r2, c) == old(self).new_f.ent(r2, c)
                            &&& forall|c: int|
                                0 <= c < old(self).nn() ==> #[trigger] tent.ent(
                                    old(self).new_n() as int,
                                    c,
                                ) == v.ent(0, c)
                        },
                        _ => false,
                    }
                },
                (ProjPending::RowRank { tent }, Some(MatReply::Rank(k))) => {
                    &&& final(self).row == old(self).row + 1
                    &&& if k > old(self).new_n() {
                        // Independent: the projected row becomes a new state.
                        &&& final(self).new_f.same_bits(tent)
                        &&& final(self).new_n() == old(self).new_n() + 1
                    } else {
                        // Dependent: the row is dropped.
                        &&& final(self).new_f == old(self).new_f
                    }
                },
                (ProjPending::GammaMul, Some(MatReply::Mat(g))) => final(self).new_gamma == Some(
                    g,
                ),
                (ProjPending::PowKron, Some(MatReply::Mat(m))) => final(self).pows@ == old(
                    self,
                ).pows@.push(m),
                (ProjPending::RightMul, Some(MatReply::Mat(m))) => match r {
                    ProjStep::Ask(req) => req matches MatRequest::Solve(a, rhs, eb)
                        && rhs.shape(old(self).nn(), m.nrows()) && (forall|r2: int, c: int|
                        0 <= r2 < rhs.nrows() && 0 <= c < rhs.ncols() ==> #[trigger] rhs.ent(
                            r2,
                            c,
                        ) == m.ent(c, r2)),
                    ProjStep::Fail(e) => e == AutomatonError::DimensionMismatch,
                    _ => false,
                },
                (ProjPending::SolveSym, Some(MatReply::Solved(None))) => r matches ProjStep::Fail(
                    e,
                ) && e == AutomatonError::UnsolvableProjection,
                (ProjPending::SolveSym, Some(MatReply::Solved(Some(x)))) => {
                    &&& final(self).sym > old(self).sym
                    &&& final(self).out_alpha@.len() > old(self).sym
                    &&& final(self).out_alpha@[old(self).sym as int].1 == old(self).alpha@[
                        old(self).sym as int
                    ].1
                    &&& forall|r2: int, c: int|
                        0 <= r2 < final(self).out_mats@[old(self).sym as int].1.nrows() && 0 <= c
                            < final(self).out_mats@[old(self).sym as int].1.ncols()
                            ==> #[trigger] final(self).out_mats@[old(self).sym as int].1.ent(r2, c)
                            == x.ent(c, r2)
                },
                _ => false,
            },
            match r {
                ProjStep::Ask(req) => {
                    &&& req.consistent()
                    &&& forall|rep: MatReply| req.answers(rep) ==> final(self).awaits(Some(rep))
                    &&& final(self).asks(req)
                    &&& Self::progressed(*old(self), *final(self))
                },
                ProjStep::Done(out) => {
                    // The assembled automaton: the new state count read off the
                    // kept rows, the grammar kind and per-symbol keys and ranks
                    // carried over, the reserved entry remapped to the new
                    // count, and the solved matrices in place.
                    &&& out.wf()
                    &&& out.num_states <= old(self).n
                    &&& out.num_states == final(self).new_n()
                    &&& out.grammar_type == old(self).grammar_type
                    &&& out.ranked_alphabet@.len() == old(self).alpha@.len()
                    &&& out.transition_matrices@.len() == old(self).alpha@.len()
                    &&& forall|k: int|
                        0 <= k < old(self).alpha@.len() ==> {
                            &&& (#[trigger] out.ranked_alphabet@[k]).0@ == old(self).alpha@[k].0@
                            &&& (old(self).alpha@[k].0@ != final_sym()
                                ==> out.ranked_alphabet@[k].1 == old(self).alpha@[k].1)
                            &&& (old(self).alpha@[k].0@ == final_sym()
                                ==> out.ranked_alphabet@[k].1 == out.num_states)
                            &&& out.transition_matrices@[k].0@ == old(self).alpha@[k].0@
                            &&& out.transition_matrices@[k].1.same_bits(
                                final(self).out_mats@[k].1,
                            )
                        }
                },
                ProjStep::Fail(e) => (e == AutomatonError::UnsolvableProjection && reply
                    matches Some(MatReply::Solved(None))) || (e == AutomatonError::DimensionMismatch
                    && final(self).dim_stuck()),
            },
    {
        match reply {
            None => {
                proof {
                    assert(self.pending is Idle);
                }
                self.advance()
            },
            Some(MatReply::Mat(m)) => {
                let kind = match &self.pending {
                    ProjPending::RowMul => 0usize,
                    ProjPending::GammaMul => 1,
                    ProjPending::PowKron => 2,
                    ProjPending::RightMul => 3,
                    _ => unreached(),
                };
                if kind == 0 {
                    // A filtered row: keep it only if it raises the rank.
                    proof {
                        assert((self.new_n() + 1) * self.nn() <= self.nn() * self.nn())
                            by (nonlinear_arith)
                            requires
                                self.new_n() + 1 <= self.nn(),
                        ;
                    }
                    let tent = self.new_f.append_row(&m);
                    let req = MatRequest::Rank(tent.duplicate(), self.eps_bits);
                    self.pending = ProjPending::RowRank { tent };
                    return ProjStep::Ask(req);
                }
                if kind == 1 {
                    self.pending = ProjPending::Idle;
                    self.new_gamma = Some(m);
                    return self.advance();
                }
                if kind == 2 {
                    self.pending = ProjPending::Idle;
                    proof {
                        let pl = self.pows@.len() as nat;
                        assert(spow(self.new_n(), pl) == self.new_n() * spow(
                            self.new_n(),
                            (pl - 1) as nat,
                        ));
                        assert(spow(self.new_n(), (pl - 1) as nat) * self.new_n() == self.new_n()
                            * spow(self.new_n(), (pl - 1) as nat)) by (nonlinear_arith);
                        assert(spow(self.nn(), pl) == self.nn() * spow(self.nn(), (pl - 1) as nat));
                        assert(spow(self.nn(), (pl - 1) as nat) * self.nn() == self.nn() * spow(
                            self.nn(),
                            (pl - 1) as nat,
                        )) by (nonlinear_arith);
                    }
                    self.pows.push(m);
                    return self.advance();
                }
                // kind == 3: the right-hand side arrived; ask for the solve.
                let rhs = m.transpose();
                let ft = self.new_f.transpose();
                let fc = ft.cols();
                let rc = rhs.cols();
                match fc.checked_mul(rc) {
                    Some(_) => {},
                    None => {
                        self.pending = ProjPending::Idle;
                        return ProjStep::Fail(AutomatonError::DimensionMismatch);
                    },
                }
                let req = MatRequest::Solve(ft, rhs, self.eps_bits);
                self.pending = ProjPending::SolveSym;
                ProjStep::Ask(req)
            },
            Some(MatReply::Rank(k)) => {
                let tent = match &self.pending {
                    ProjPending::RowRank { tent } => tent.duplicate(),
                    _ => unreached(),
                };
                self.pending = ProjPending::Idle;
                if k > self.new_f.rows() {
                    // Independent: the projected row becomes a new state.
                    self.new_f = tent;
                }
                self.row = self.row + 1;
                self.advance()
            },
            Some(MatReply::Solved(x)) => {
                proof {
                    assert(self.pending is SolveSym);
                }
                match x {
                    None => {
                        self.pending = ProjPending::Idle;
                        ProjStep::Fail(AutomatonError::UnsolvableProjection)
                    },
                    Some(xm) => {
                        // The solved rows, transposed back, are the symbol's
                        // minimized transition matrix.
                        self.pending = ProjPending::Idle;
                        let _al = self.alpha.len();
                        let new_mu = xm.transpose();
                        let name = self.alpha[self.sym].0.clone();
                        let name2 = self.alpha[self.sym].0.clone();
                        let rk = self.alpha[self.sym].1;
                        self.out_alpha.push((name, rk));
                        self.out_mats.push((name2, new_mu));
                        self.sym = self.sym + 1;
                        proof {
                            assert forall|k: int| 0 <= k < self.sym implies {
                                let oa = #[trigger] self.out_alpha@[k];
                                let om = self.out_mats@[k];
                                &&& oa.0@ == self.alpha@[k].0@
                                &&& om.0@ == self.alpha@[k].0@
                                &&& om.1.wf()
                                &&& (self.alpha@[k].0@ == final_sym() ==> oa.1 == self.new_n()
                                    && om.1.shape(self.new_n(), 1))
                                &&& (self.alpha@[k].0@ != final_sym() ==> oa.1 == self.alpha@[k].1
                                    && om.1.shape(
                                    spow(self.new_n(), self.alpha@[k].1 as nat),
                                    self.new_n(),
                                ))
                            } by {
                                if k < self.sym - 1 {
                                    assert(self.out_alpha@[k] == old(self).out_alpha@[k]);
                                    assert(self.out_mats@[k] == old(self).out_mats@[k]);
                                } else {
                                    assert(self.out_alpha@[k].0@ == self.alpha@[k].0@);
                                }
                            }
                        }
                        self.advance()
                    },
                }
            },
        }
    }
}

/// Set up the projection of a well-formed automaton through its forward and
/// backward bases.
#[verifier::loop_isolation(false)]
pub fn step_iii_solve(
    automaton_matrix: &WeightedTreeAutomatonMatrix,
    f: &WMatrix,
    b: &WMatrix,
) -> (r: ProjRun)
    requires
        automaton_matrix.wf(),
        automaton_matrix.num_states >= 1,
        automaton_matrix.num_states * automaton_matrix.num_states <= usize::MAX,
        f.wf(),
        f.shape(automaton_matrix.num_states as nat, automaton_matrix.num_states as nat),
        b.wf(),
        b.shape(automaton_matrix.num_states as nat, automaton_matrix.num_states as nat),
    ensures
        r.wf(),
        r.awaits(None),
        r.n == automaton_matrix.num_states,
        // The machine starts on the automaton's alphabet and matrices in
        // order, the given bases, the final-weight vector, and an empty
        // projection basis.
        r.alpha@.len() == automaton_matrix.ranked_alphabet@.len(),
        forall|k: int|
            0 <= k < r.alpha@.len() ==> (#[trigger] r.alpha@[k]).0@
                == automaton_matrix.ranked_alphabet@[k].0@ && r.alpha@[k].1
                == automaton_matrix.ranked_alphabet@[k].1 && r.mats@[k].same_bits(
                automaton_matrix.transition_matrices@[k].1,
            ),
        r.grammar_type == automaton_matrix.grammar_type,
        r.f.same_bits(*f),
        r.b.same_bits(*b),
        r.gamma.same_bits(
            crate::data_structures::sym_value(
                automaton_matrix.transition_matrices@,
                final_sym(),
            ),
        ),
        r.new_n() == 0,
        r.row == 0,
        r.new_gamma is None,
        r.pows@.len() == 0,
        r.out_alpha@.len() == 0,
        r.out_mats@.len() == 0,
        r.sym == 0,
        r.pending is Idle,
        r.eps_bits == EPS_BITS,
{
    let n = automaton_matrix.num_states;
    let bang = final_symbol();
    let mut alpha: Vec<(String, usize)> = Vec::new();
    let mut mats: Vec<WMatrix> = Vec::new();
    let mut max_rk: usize = 0;
    let src_alpha = &automaton_matrix.ranked_alphabet;
    let tm = &automaton_matrix.transition_matrices;
    let mut a: usize = 0;
    while a < src_alpha.len()
        invariant
            0 <= a <= src_alpha@.len(),
            alpha@.len() == a,
            mats@.len() == a,
            forall|k: int|
                0 <= k < a ==> (#[trigger] alpha@[k]).0@ == src_alpha@[k].0@ && alpha@[k].1
                    == src_alpha@[k].1 && mats@[k].same_bits(tm@[k].1),
            forall|k: int|
                0 <= k < a ==> {
                    let m = #[trigger] mats@[k];
                    &&& m.wf()
                    &&& (alpha@[k].0@ == final_sym() ==> m.shape(n as nat, 1))
                    &&& (alpha@[k].0@ != final_sym() ==> m.shape(
                        spow(n as nat, alpha@[k].1 as nat),
                        n as nat,
                    ))
                },
            forall|k: int|
                0 <= k < a && (#[trigger] alpha@[k]).0@ != final_sym() ==> alpha@[k].1 <= max_rk,
        decreases src_alpha@.len() - a,
    {
        let name = src_alpha[a].0.clone();
        let rank = src_alpha[a].1;
        let m = tm[a].1.duplicate();
        proof {
            let mm = automaton_matrix.transition_matrices@[a as int];
            assert(mm.1.wf());
            assert(automaton_matrix.ranked_alphabet@[a as int].0@ == final_sym() ==> mm.1.shape(
                n as nat,
                1,
            ));
            assert(automaton_matrix.ranked_alphabet@[a as int].0@ != final_sym() ==> mm.1.shape(
                spow(n as nat, automaton_matrix.ranked_alphabet@[a as int].1 as nat),
                n as nat,
            ));
        }
        if !src_alpha[a].0.eq(&bang) {
            if rank > max_rk {
                max_rk = rank;
            }
        }
        alpha.push((name, rank));
        mats.push(m);
        a = a + 1;
    }
    proof {
        lemma_first_pos_same_keys(automaton_matrix.ranked_alphabet@, alpha@, final_sym());
        lemma_first_pos_same_keys(
            automaton_matrix.ranked_alphabet@,
            automaton_matrix.transition_matrices@,
            final_sym(),
        );
        lemma_first_pos(automaton_matrix.ranked_alphabet@, final_sym());
    }
    let gamma = match lookup_first(&automaton_matrix.transition_matrices, &bang) {
        Some(g) => {
            proof {
                let p = first_pos(automaton_matrix.ranked_alphabet@, final_sym());
                assert(automaton_matrix.ranked_alphabet@[p].0@ == final_sym());
                assert(automaton_matrix.transition_matrices@[p].1 == *g);
            }
            g.duplicate()
        },
        None => unreached(),
    };
    let new_f = match WMatrix::zeros(0, n) {
        Some(m) => m,
        None => {
            proof {
                assert(0 * n == 0) by (nonlinear_arith);
            }
            unreached()
        },
    };
    ProjRun {
        n,
        alpha,
        mats,
        grammar_type: automaton_matrix.grammar_type,
        f: f.duplicate(),
        b: b.duplicate(),
        gamma,
        new_f,
        row: 0,
        new_gamma: None,
        pows: Vec::new(),
        max_rk,
        out_alpha: Vec::new(),
        out_mats: Vec::new(),
        sym: 0,
        pending: ProjPending::Idle,
        eps_bits: EPS_BITS,
    }
}

} // verus!
