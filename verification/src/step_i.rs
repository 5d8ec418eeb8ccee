use vstd::prelude::*;
use vstd::pervasive::unreached;
use crate::data_structures::final_symbol;
use crate::data_structures::nonfinal_positions;
use crate::data_structures::spow;
use crate::data_structures::WeightedTreeAutomatonMatrix;
use crate::matrix::WMatrix;
use crate::minimisation::fold_cols;
use crate::minimisation::fold_rows;
use crate::minimisation::EPS_BITS;
use crate::minimisation::MatReply;
use crate::minimisation::row_written;
use crate::minimisation::MatRequest;
use crate::tuples::lemma_lex_lt_val;
use crate::tuples::next_tuple;
use crate::tuples::tuple_val;

verus! {

/// Which request of the forward-space search is out.
pub enum FwdPending {
    /// Nothing is out; the machine still has to walk the schedule.
    Idle,
    /// The rank of `f` after the unchecked seed row was written is out.
    SeedRank,
    /// The Kronecker-and-multiply of the current tuple's rows is out.
    Candidate,
    /// The rank of `f` with the candidate written into row `j` is out.
    TentRank { tent: WMatrix },
}

/// What a forward step hands back: the next numeric job, or the finished
/// forward basis matrix.
pub enum FwdStep {
    Ask(MatRequest),
    Done(WMatrix),
}

/// The forward-space computation: grow a maximal independent set of row
/// vectors reachable by contexts of increasing depth `i`. Nullary symbols seed
/// the first row; for each depth every symbol contributes the candidates built
/// from all tuples of earlier rows that mention the newest depth, and a
/// candidate row stays only when it raises the numerical rank of `f`. The
/// enumeration, the row selection and all bookkeeping are verified; products
/// and ranks come from the caller's calculator, and whatever it answers the
/// machine keeps `f` an `n x n` matrix and never selects a row out of range.
pub struct ForwardRun {
    pub n: usize,
    pub syms: Vec<(String, usize)>,
    pub mats: Vec<WMatrix>,
    pub f: WMatrix,
    pub rank_f: usize,
    pub i: usize,
    pub j: usize,
    pub sym: usize,
    pub tuple: Vec<usize>,
    pub active: bool,
    pub pending: FwdPending,
    pub eps_bits: u64,
}

impl ForwardRun {
    pub open spec fn nn(self) -> nat {
        self.n as nat
    }

    pub open spec fn wf(self) -> bool {
        &&& self.n >= 1
        &&& self.n < usize::MAX
        &&& self.f.wf()
        &&& self.f.shape(self.nn(), self.nn())
        &&& self.rank_f <= self.n
        &&& self.syms@.len() == self.mats@.len()
        &&& forall|k: int|
            0 <= k < self.mats@.len() ==> (#[trigger] self.mats@[k]).wf() && self.mats@[k].shape(
                spow(self.nn(), self.syms@[k].1 as nat),
                self.nn(),
            )
        &&& self.j <= self.n
        &&& self.i <= self.j + 1
        &&& self.sym <= self.syms@.len()
        &&& forall|r: int| self.j <= r < self.nn() ==> self.f.row_zero(r)
        &&& self.active ==> {
            &&& self.sym < self.syms@.len()
            &&& self.tuple@.len() == self.syms@[self.sym as int].1
            &&& forall|d: int| 0 <= d < self.tuple@.len() ==> 1 <= #[trigger] self.tuple@[d] <= self.i
            &&& self.tuple@.len() > 0 ==> self.i >= 1 && self.i <= self.j
            &&& self.tuple@.len() == 0 ==> self.j >= 1
        }
        &&& match self.pending {
            FwdPending::Idle => true,
            FwdPending::SeedRank => self.active && self.j >= 1,
            FwdPending::Candidate => self.active && self.j < self.n && self.tuple@.len() >= 1,
            FwdPending::TentRank { tent } => {
                &&& self.active
                &&& self.j < self.n
                &&& self.j >= 1
                &&& tent.wf()
                &&& tent.shape(self.nn(), self.nn())
                &&& forall|r: int, c: int|
                    0 <= r < self.nn() && 0 <= c < self.nn() && r != self.j ==> tent.ent(r, c)
                        == self.f.ent(r, c)
            },
        }
    }

    /// The request the state calls for: the Kronecker-and-multiply of the
    /// rows the active tuple selects, or the rank of `f` with the seed or
    /// candidate row written in.
    pub open spec fn asks(self, req: MatRequest) -> bool {
        match self.pending {
            FwdPending::Idle => false,
            FwdPending::SeedRank => req matches MatRequest::Rank(mm, eb) && mm.same_bits(self.f)
                && eb == self.eps_bits,
            FwdPending::Candidate => req matches MatRequest::FoldMul(factors, tail)
                && tail.same_bits(self.mats@[self.sym as int]) && factors@.len()
                == self.tuple@.len() && (forall|p: int, c: int|
                0 <= p < factors@.len() && 0 <= c < self.nn() ==> #[trigger] factors@[p].ent(0, c)
                    == self.f.ent(self.tuple@[p] - 1, c)),
            FwdPending::TentRank { tent } => req matches MatRequest::Rank(mm, eb) && mm.same_bits(
                tent,
            ) && eb == self.eps_bits && (self.tuple@.len() == 0 ==> forall|c: int|
                0 <= c < self.nn() ==> tent.ent(self.j as int, c) == self.mats@[
                    self.sym as int
                ].ent(0, c)),
        }
    }

    /// Progress, coarsest first: free rows of the basis, depth passes left at
    /// this row count, the walk through the symbols, and the position in the
    /// current tuple enumeration together with the request stage. Every step
    /// that asks again is lexicographically below its predecessor, so the
    /// search always finishes.
    pub open spec fn measures(self) -> (int, int, int, int) {
        (
            self.n - self.j,
            self.j + 1 - self.i,
            2 * (self.syms@.len() - self.sym) + (if self.active {
                0int
            } else {
                1int
            }),
            3 * (if self.active {
                spow((self.i + 1) as nat, self.tuple@.len() as nat) - tuple_val(
                    self.tuple@,
                    self.i,
                )
            } else {
                0int
            }) + (match self.pending {
                FwdPending::Idle => 3int,
                FwdPending::SeedRank => 3,
                FwdPending::Candidate => 2,
                FwdPending::TentRank { tent } => 1,
            }),
        )
    }

    /// Lexicographic decrease of the progress measures.
    pub open spec fn progressed(pre: Self, post: Self) -> bool {
        let a = pre.measures();
        let b = post.measures();
        ||| b.0 < a.0
        ||| (b.0 == a.0 && b.1 < a.1)
        ||| (b.0 == a.0 && b.1 == a.1 && b.2 < a.2)
        ||| (b.0 == a.0 && b.1 == a.1 && b.2 == a.2 && b.3 < a.3)
    }

    /// The reply the run is waiting for, if a request is out.
    pub open spec fn awaits(self, reply: Option<MatReply>) -> bool {
        match self.pending {
            FwdPending::Idle => reply is None,
            FwdPending::SeedRank => match reply {
                Some(MatReply::Rank(k)) => k <= self.nn(),
                _ => false,
            },
            FwdPending::Candidate => match reply {
                Some(MatReply::Mat(m)) => m.wf() && m.shape(1, self.nn()),
                _ => false,
            },
            FwdPending::TentRank { tent } => match reply {
                Some(MatReply::Rank(k)) => k <= self.nn(),
                _ => false,
            },
        }
    }

    /// Walk depths, symbols and tuples until the next candidate's product or
    /// rank is needed, or the search is saturated.
    #[verifier::loop_isolation(false)]
    fn advance(&mut self) -> (r: FwdStep)
        requires
            old(self).wf(),
            old(self).pending is Idle,
        ensures
            final(self).wf(),
            final(self).n == old(self).n,
            final(self).syms == old(self).syms,
            final(self).mats == old(self).mats,
            final(self).eps_bits == old(self).eps_bits,
            final(self).rank_f == old(self).rank_f,
            final(self).j >= old(self).j,
            old(self).j >= 1 ==> final(self).f == old(self).f && final(self).j == old(self).j,
            match r {
                FwdStep::Ask(req) => {
                    &&& req.consistent()
                    &&& forall|rep: MatReply| req.answers(rep) ==> final(self).awaits(Some(rep))
                    &&& final(self).asks(req)
                    &&& Self::progressed(*old(self), *final(self))
                },
                FwdStep::Done(f) => {
                    &&& f.wf()
                    &&& f.shape(old(self).nn(), old(self).nn())
                    &&& f.same_bits(final(self).f)
                    &&& final(self).i > final(self).j
                    &&& !final(self).active
                },
            },
    {
        loop
            invariant
                self.wf(),
                self.pending is Idle,
                self.n == old(self).n,
                self.syms == old(self).syms,
                self.mats == old(self).mats,
                self.eps_bits == old(self).eps_bits,
                self.rank_f == old(self).rank_f,
                self.j >= old(self).j,
                old(self).j >= 1 ==> self.f == old(self).f && self.j == old(self).j,
                *self == *old(self) || Self::progressed(*old(self), *self),
            decreases self.j + 1 - self.i, self.syms@.len() - self.sym, (if self.active {
                0int
            } else {
                1int
            }),
        {
            if !self.active {
                if self.i > self.j {
                    return FwdStep::Done(self.f.duplicate());
                }
                let sl = self.syms.len();
                if self.sym == sl {
                    self.sym = 0;
                    self.i = self.i + 1;
                    continue ;
                }
                if self.j >= self.n {
                    self.sym = self.sym + 1;
                    continue ;
                }
                let rank = self.syms[self.sym].1;
                if rank == 0 && self.j == 0 {
                    // The first nullary symbol seeds row 0 outright; the rank
                    // is then re-measured before any candidate is judged.
                    let mu = self.mats[self.sym].duplicate();
                    proof {
                        assert(spow(self.nn(), 0) == 1);
                    }
                    let ghost f0 = self.f;
                    self.f = self.f.with_row(0, &mu);
                    proof {
                        assert forall|r: int| 1 <= r < self.nn() implies self.f.row_zero(r) by {
                            assert(f0.row_zero(r));
                            assert forall|c: int|
                                0 <= c < self.nn() implies crate::matrix::zero_bits(
                                self.f.ent(r, c),
                            ) by {
                                assert(self.f.ent(r, c) == f0.ent(r, c));
                            }
                        }
                    }
                    self.j = 1;
                    self.tuple = Vec::new();
                    self.active = true;
                    self.pending = FwdPending::SeedRank;
                    return FwdStep::Ask(MatRequest::Rank(self.f.duplicate(), self.eps_bits));
                }
                if self.i == 0 && rank != 0 {
                    self.sym = self.sym + 1;
                    continue ;
                }
                // The first tuple of this symbol at this depth: all ones, or
                // its first successor mentioning the depth when i > 1.
                let mut x: Vec<usize> = Vec::new();
                let mut c: usize = 0;
                while c < rank
                    invariant
                        0 <= c <= rank,
                        x@.len() == c,
                        forall|d: int| 0 <= d < c ==> x@[d] == 1,
                    decreases rank - c,
                {
                    x.push(1);
                    c = c + 1;
                }
                if self.i > 1 && rank > 0 {
                    let ghost xv = x@;
                    x = match next_tuple(x, self.i, true) {
                        Some(y) => y,
                        None => {
                            proof {
                                assert(xv.len() == rank);
                                assert(xv[0] == 1);
                                assert(xv[0] == self.i);
                                assert(false);
                            }
                            unreached()
                        },
                    };
                    proof {
                        assert forall|d: int| 0 <= d < x@.len() implies 1 <= #[trigger] x@[d]
                            <= self.i by {
                            assert(1 <= x@[d] <= self.i || x@[d] == 1);
                        }
                    }
                }
                self.tuple = x;
                self.active = true;
                // fall through to the emission below
            }
            // A tuple is active: offer its candidate for row j.
            let _sl = self.syms.len();
            if self.j >= self.n {
                self.active = false;
                self.sym = self.sym + 1;
                continue ;
            }
            let rank = self.syms[self.sym].1;
            let mu = self.mats[self.sym].duplicate();
            if rank == 0 {
                // The candidate is the symbol's one-row matrix itself.
                proof {
                    assert(spow(self.nn(), 0) == 1);
                }
                let tent = self.f.with_row(self.j, &mu);
                let req = MatRequest::Rank(tent.duplicate(), self.eps_bits);
                proof {
                    assert forall|c: int|
                        0 <= c < self.nn() implies tent.ent(self.j as int, c) == self.mats@[
                        self.sym as int
                    ].ent(0, c) by {
                        assert(tent.ent(self.j as int, c) == mu.ent(0, c));
                    }
                }
                self.pending = FwdPending::TentRank { tent };
                proof {
                    assert(self.asks(req));
                }
                return FwdStep::Ask(req);
            }
            // Kronecker the selected rows together, in tuple order, and
            // multiply by the symbol's transition matrix.
            let mut factors: Vec<WMatrix> = Vec::new();
            let mut p: usize = 0;
            while p < self.tuple.len()
                invariant
                    self.wf(),
                    self.active,
                    self.pending is Idle,
                    rank == self.syms@[self.sym as int].1,
                    self.tuple@.len() == rank,
                    0 <= p <= rank,
                    factors@.len() == p,
                    forall|d: int|
                        0 <= d < p ==> (#[trigger] factors@[d]).wf() && factors@[d].shape(
                            1,
                            self.nn(),
                        ),
                    forall|d: int, c: int|
                        0 <= d < p && 0 <= c < self.nn() ==> #[trigger] factors@[d].ent(0, c)
                            == self.f.ent(self.tuple@[d] - 1, c),
                    fold_rows(factors@) == 1,
                    fold_cols(factors@) == spow(self.nn(), p as nat),
                decreases rank - p,
            {
                let d = self.tuple[p];
                let row = self.f.row(d - 1);
                let ghost before = factors@;
                factors.push(row);
                proof {
                    assert(factors@.drop_last() =~= before);
                    assert(factors@.last() == row);
                    assert(fold_rows(factors@) == fold_rows(before) * 1);
                    assert(fold_cols(factors@) == fold_cols(before) * self.nn());
                    assert(spow(self.nn(), (p + 1) as nat) == self.nn() * spow(self.nn(), p as nat));
                    assert(fold_cols(before) * self.nn() == self.nn() * fold_cols(before))
                        by (nonlinear_arith);
                }
                p = p + 1;
            }
            proof {
                assert(fold_cols(factors@) == mu.nrows());
                assert(fold_rows(factors@) * mu.ncols() == self.nn()) by (nonlinear_arith)
                    requires
                        fold_rows(factors@) == 1,
                        mu.ncols() == self.nn(),
                ;
            }
            let req = MatRequest::FoldMul(factors, mu);
            self.pending = FwdPending::Candidate;
            proof {
                assert(self.asks(req));
            }
            return FwdStep::Ask(req);
        }
    }

    /// Feed the previous request's answer and get the next job, or the
    /// forward basis.
    pub fn step(&mut self, reply: Option<MatReply>) -> (r: FwdStep)
        requires
            old(self).wf(),
            old(self).awaits(reply),
        ensures
            final(self).wf(),
            final(self).n == old(self).n,
            final(self).syms == old(self).syms,
            final(self).mats == old(self).mats,
            final(self).eps_bits == old(self).eps_bits,
            // How the reply is digested, case by case.
            match (old(self).pending, reply) {
                (FwdPending::Idle, None) => {
                    &&& final(self).rank_f == old(self).rank_f
                    &&& final(self).j >= old(self).j
                    &&& (old(self).j >= 1 ==> final(self).f == old(self).f && final(self).j == old(
                        self,
                    ).j)
                },
                (FwdPending::SeedRank, Some(MatReply::Rank(k))) => {
                    &&& final(self).rank_f == k
                    &&& final(self).f == old(self).f
                    &&& final(self).j == old(self).j
                },
                (FwdPending::Candidate, Some(MatReply::Mat(v))) => {
                    &&& final(self).f == old(self).f
                    &&& final(self).j == old(self).j
                    &&& final(self).rank_f == old(self).rank_f
                    &&& match final(self).pending {
                        FwdPending::TentRank { tent } => row_written(
                            old(self).f,
                            old(self).j as int,
                            v,
                            tent,
                        ),
                        _ => false,
                    }
                },
                (FwdPending::TentRank { tent }, Some(MatReply::Rank(k))) => {
                    if k > old(self).rank_f {
                        // Independent: the candidate row stays.
                        &&& final(self).f.same_bits(tent)
                        &&& final(self).rank_f == k
                        &&& final(self).j == old(self).j + 1
                    } else {
                        // Dependent: the candidate row is dropped.
                        &&& final(self).f == old(self).f
                        &&& final(self).rank_f == old(self).rank_f
                        &&& final(self).j == old(self).j
                    }
                },
                _ => false,
            },
            match r {
                FwdStep::Ask(req) => {
                    &&& req.consistent()
                    &&& forall|rep: MatReply| req.answers(rep) ==> final(self).awaits(Some(rep))
                    &&& final(self).asks(req)
                    &&& Self::progressed(*old(self), *final(self))
                },
                FwdStep::Done(f) => {
                    // The search only ends once the depth index has passed the
                    // row count, and hands out exactly the basis it built;
                    // rows never filled hold the zero weight.
                    &&& f.wf()
                    &&& f.shape(old(self).nn(), old(self).nn())
                    &&& f.same_bits(final(self).f)
                    &&& final(self).i > final(self).j
                    &&& !final(self).active
                    &&& forall|r2: int|
                        final(self).j <= r2 < final(self).nn() ==> final(self).f.row_zero(r2)
                },
            },
    {
        match reply {
            None => {
                proof {
                    assert(self.pending is Idle);
                }
                self.advance()
            },
            Some(MatReply::Rank(k)) => {
                let was_seed = match &self.pending {
                    FwdPending::SeedRank => true,
                    FwdPending::TentRank { tent } => false,
                    _ => unreached(),
                };
                if was_seed {
                    // Refreshed rank after the unchecked seed row; the same
                    // symbol's empty tuple now offers its candidate normally.
                    self.rank_f = k;
                    self.pending = FwdPending::Idle;
                    let ghost mid = *self;
                    let r = self.advance();
                    proof {
                        assert(mid.measures() == old(self).measures());
                    }
                    r
                } else {
                    let ghost tent0 = match old(self).pending {
                        FwdPending::TentRank { tent } => tent,
                        _ => arbitrary(),
                    };
                    let tent = match &self.pending {
                        FwdPending::TentRank { tent } => tent.duplicate(),
                        _ => unreached(),
                    };
                    self.pending = FwdPending::Idle;
                    let accepted = k > self.rank_f;
                    if accepted {
                        // Independent: the candidate row stays.
                        let ghost f0 = self.f;
                        let ghost j0 = self.j as int;
                        self.f = tent;
                        self.rank_f = k;
                        self.j = self.j + 1;
                        proof {
                            assert forall|r: int|
                                self.j <= r < self.nn() implies self.f.row_zero(r) by {
                                assert(f0.row_zero(r));
                                assert forall|c: int|
                                    0 <= c < self.nn() implies crate::matrix::zero_bits(
                                    self.f.ent(r, c),
                                ) by {
                                    assert(self.f.ent(r, c) == tent0.ent(r, c));
                                    assert(tent0.ent(r, c) == f0.ent(r, c));
                                }
                            }
                        }
                    }
                    proof {
                        crate::tuples::lemma_tuple_val_bound(self.tuple@, self.i);
                    }
                    self.next_tuple_or_symbol();
                    let ghost mid = *self;
                    proof {
                        if accepted {
                            assert(mid.measures().0 < old(self).measures().0);
                        } else {
                            assert(Self::progressed(*old(self), mid));
                        }
                    }
                    let r = self.advance();
                    proof {
                        if accepted {
                            assert(self.measures().0 <= mid.measures().0);
                            assert(Self::progressed(*old(self), *self));
                        } else {
                            if *self == mid {
                            } else {
                                assert(Self::progressed(mid, *self) || match r {
                                    FwdStep::Ask(_) => false,
                                    FwdStep::Done(_) => true,
                                });
                            }
                            assert(match r {
                                FwdStep::Ask(_) => Self::progressed(*old(self), *self),
                                FwdStep::Done(_) => true,
                            });
                        }
                    }
                    r
                }
            },
            Some(MatReply::Mat(v)) => {
                proof {
                    assert(self.pending is Candidate);
                }
                let tent = self.f.with_row(self.j, &v);
                let req = MatRequest::Rank(tent.duplicate(), self.eps_bits);
                self.pending = FwdPending::TentRank { tent };
                proof {
                    assert(self.asks(req));
                }
                FwdStep::Ask(req)
            },
            Some(MatReply::Solved(_)) => unreached(),
        }
    }

    /// Step the active tuple to its next value that mentions the current
    /// depth, or close the symbol.
    fn next_tuple_or_symbol(&mut self)
        requires
            old(self).wf(),
            old(self).pending is Idle,
            old(self).active,
        ensures
            final(self).wf(),
            final(self).pending is Idle,
            final(self).n == old(self).n,
            final(self).syms == old(self).syms,
            final(self).mats == old(self).mats,
            final(self).eps_bits == old(self).eps_bits,
            final(self).f == old(self).f,
            final(self).i == old(self).i,
            final(self).j == old(self).j,
            final(self).rank_f == old(self).rank_f,
            final(self).active ==> {
                &&& final(self).sym == old(self).sym
                &&& final(self).tuple@.len() == old(self).tuple@.len()
                &&& tuple_val(final(self).tuple@, final(self).i) > tuple_val(
                    old(self).tuple@,
                    old(self).i,
                )
            },
            !final(self).active ==> final(self).sym == old(self).sym + 1,
    {
        let mut x: Vec<usize> = Vec::new();
        let mut c: usize = 0;
        let len = self.tuple.len();
        while c < len
            invariant
                0 <= c <= len,
                len == old(self).tuple@.len(),
                self == old(self),
                x@.len() == c,
                forall|d: int| 0 <= d < c ==> x@[d] == old(self).tuple@[d],
            decreases len - c,
        {
            let v = self.tuple[c];
            x.push(v);
            c = c + 1;
        }
        proof {
            assert(x@ =~= self.tuple@);
        }
        match next_tuple(x, self.i, true) {
            Some(y) => {
                proof {
                    assert forall|d: int| 0 <= d < y@.len() implies 1 <= #[trigger] y@[d]
                        <= self.i by {
                        assert(1 <= y@[d] <= self.i || y@[d] == self.tuple@[d]);
                    }
                    lemma_lex_lt_val(self.tuple@, y@, self.i);
                }
                self.tuple = y;
            },
            None => {
                let _sl = self.syms.len();
                self.active = false;
                self.tuple = Vec::new();
                self.sym = self.sym + 1;
            },
        }
    }
}

/// Set up the forward-space computation for a well-formed automaton: the
/// symbols and transition matrices are taken over, the reserved final-weight
/// entry is left out, and `f` starts as the zero matrix.
#[verifier::loop_isolation(false)]
pub fn step_i_forward(automaton_matrix: &WeightedTreeAutomatonMatrix) -> (r: ForwardRun)
    requires
        automaton_matrix.wf(),
        automaton_matrix.num_states >= 1,
        automaton_matrix.num_states * automaton_matrix.num_states <= usize::MAX,
    ensures
        r.wf(),
        r.awaits(None),
        r.nn() == automaton_matrix.num_states as nat,
        // The machine starts on exactly the automaton's proper symbols and
        // their matrices, in alphabet order, over an all-zero basis.
        r.syms@.len() == nonfinal_positions(automaton_matrix.ranked_alphabet@).len(),
        r.mats@.len() == r.syms@.len(),
        forall|k: int|
            0 <= k < r.syms@.len() ==> {
                let p = #[trigger] nonfinal_positions(automaton_matrix.ranked_alphabet@)[k];
                &&& r.syms@[k].0@ == automaton_matrix.ranked_alphabet@[p].0@
                &&& r.syms@[k].1 == automaton_matrix.ranked_alphabet@[p].1
                &&& r.mats@[k].same_bits(automaton_matrix.transition_matrices@[p].1)
            },
        forall|i: int, j: int|
            0 <= i < r.nn() && 0 <= j < r.nn() ==> r.f.ent(i, j) == crate::matrix::ZERO_BITS,
        r.i == 0,
        r.j == 0,
        r.sym == 0,
        r.rank_f == 0,
        !r.active,
        r.pending is Idle,
        r.eps_bits == EPS_BITS,
{
    let n = automaton_matrix.num_states;
    let bang = final_symbol();
    let mut syms: Vec<(String, usize)> = Vec::new();
    let mut mats: Vec<WMatrix> = Vec::new();
    let alpha = &automaton_matrix.ranked_alphabet;
    let tm = &automaton_matrix.transition_matrices;
    let mut a: usize = 0;
    while a < alpha.len()
        invariant
            automaton_matrix.wf(),
            automaton_matrix.num_states == n,
            bang@ == crate::data_structures::final_sym(),
            0 <= a <= alpha@.len(),
            syms@.len() == mats@.len(),
            syms@.len() == nonfinal_positions(alpha@.subrange(0, a as int)).len(),
            forall|k: int|
                0 <= k < syms@.len() ==> {
                    let p = #[trigger] nonfinal_positions(alpha@.subrange(0, a as int))[k];
                    &&& 0 <= p < a
                    &&& syms@[k].0@ == alpha@[p].0@
                    &&& syms@[k].1 == alpha@[p].1
                    &&& mats@[k].same_bits(tm@[p].1)
                },
            forall|k: int|
                0 <= k < mats@.len() ==> (#[trigger] mats@[k]).wf() && mats@[k].shape(
                    spow(n as nat, syms@[k].1 as nat),
                    n as nat,
                ),
        decreases alpha@.len() - a,
    {
        let ghost pre = alpha@.subrange(0, a as int);
        let ghost cur = alpha@.subrange(0, a as int + 1);
        proof {
            assert(cur.drop_last() =~= pre);
            assert(cur.last() == alpha@[a as int]);
        }
        if !alpha[a].0.eq(&bang) {
            let sym = alpha[a].0.clone();
            let rank = alpha[a].1;
            let m = tm[a].1.duplicate();
            proof {
                assert(automaton_matrix.transition_matrices@[a as int].1.shape(
                    spow(n as nat, alpha@[a as int].1 as nat),
                    n as nat,
                ));
                assert(nonfinal_positions(cur) == nonfinal_positions(pre).push(a as int));
            }
            syms.push((sym, rank));
            mats.push(m);
        } else {
            proof {
                assert(nonfinal_positions(cur) == nonfinal_positions(pre));
            }
        }
        a = a + 1;
    }
    proof {
        assert(alpha@.subrange(0, alpha@.len() as int) =~= alpha@);
    }
    proof {
        assert(n < usize::MAX) by {
            if n >= 2 {
                assert(n * n >= 2 * n) by (nonlinear_arith)
                    requires
                        n >= 2usize,
                ;
            }
        }
    }
    let f = match WMatrix::zeros(n, n) {
        Some(f) => f,
        None => unreached(),
    };
    ForwardRun {
        n,
        syms,
        mats,
        f,
        rank_f: 0,
        i: 0,
        j: 0,
        sym: 0,
        tuple: Vec::new(),
        active: false,
        pending: FwdPending::Idle,
        eps_bits: EPS_BITS,
    }
}

} // verus!
