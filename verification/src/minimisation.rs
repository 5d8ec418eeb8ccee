use vstd::prelude::*;
use vstd::pervasive::unreached;
use crate::data_structures::AutomatonError;
use crate::data_structures::WeightedTreeAutomatonMatrix;
use crate::matrix::WMatrix;

verus! {

/// Bit pattern of the IEEE-754 double 1e-5: the single numeric tolerance that
/// every rank and singular-value comparison of the minimization reads. It
/// travels inside each request so that all components decide consistently.
pub const EPS_BITS: u64 = 0x3EE4_F8B5_88E3_68F1;

/// A numeric job the minimization asks its calculator for: a Kronecker
/// product, a matrix product, a numerical rank at the given tolerance (as
/// IEEE-754 double bits), or a least-squares solve of `a * x = rhs` column by
/// column at the given tolerance.
pub enum MatRequest {
    Kron(WMatrix, WMatrix),
    Mul(WMatrix, WMatrix),
    Rank(WMatrix, u64),
    Solve(WMatrix, WMatrix, u64),
    FoldMul(Vec<WMatrix>, WMatrix),
}

/// Row count of the Kronecker product of the factors, in order.
pub open spec fn fold_rows(factors: Seq<WMatrix>) -> nat
    decreases factors.len(),
{
    if factors.len() == 0 {
        1
    } else {
        fold_rows(factors.drop_last()) * factors.last().nrows()
    }
}

/// Column count of the Kronecker product of the factors, in order.
pub open spec fn fold_cols(factors: Seq<WMatrix>) -> nat
    decreases factors.len(),
{
    if factors.len() == 0 {
        1
    } else {
        fold_cols(factors.drop_last()) * factors.last().ncols()
    }
}

/// A calculator's answer to a request of the matching kind.
pub enum MatReply {
    Mat(WMatrix),
    Rank(usize),
    Solved(Option<WMatrix>),
}

impl MatRequest {
    /// The request's operands agree in shape and the result fits memory.
    pub open spec fn consistent(self) -> bool {
        match self {
            MatRequest::Kron(a, b) => {
                &&& a.wf()
                &&& b.wf()
                &&& a.nrows() * b.nrows() <= usize::MAX
                &&& a.ncols() * b.ncols() <= usize::MAX
            },
            MatRequest::Mul(a, b) => {
                &&& a.wf()
                &&& b.wf()
                &&& a.ncols() == b.nrows()
                &&& a.nrows() * b.ncols() <= usize::MAX
            },
            MatRequest::Rank(m, _) => m.wf() && m.nrows() >= 1 && m.ncols() >= 1,
            MatRequest::Solve(a, rhs, _) => {
                &&& a.wf()
                &&& rhs.wf()
                &&& a.nrows() == rhs.nrows()
                &&& a.ncols() * rhs.ncols() <= usize::MAX
            },
            MatRequest::FoldMul(factors, tail) => {
                &&& factors@.len() >= 1
                &&& forall|i: int|
                    0 <= i < factors@.len() ==> (#[trigger] factors@[i]).wf()
                        && factors@[i].nrows() >= 1 && factors@[i].ncols() >= 1
                &&& tail.wf()
                &&& fold_cols(factors@) == tail.nrows()
                &&& fold_rows(factors@) <= usize::MAX
                &&& fold_cols(factors@) <= usize::MAX
                &&& fold_rows(factors@) * tail.ncols() <= usize::MAX
            },
        }
    }

    /// What a faithful calculator may answer: the product of the right shape,
    /// or a rank that cannot exceed either dimension, or a solution matrix
    /// with one column per right-hand side.
    pub open spec fn answers(self, reply: MatReply) -> bool {
        match (self, reply) {
            (MatRequest::Kron(a, b), MatReply::Mat(m)) => m.wf() && m.shape(
                a.nrows() * b.nrows(),
                a.ncols() * b.ncols(),
            ),
            (MatRequest::Mul(a, b), MatReply::Mat(m)) => m.wf() && m.shape(a.nrows(), b.ncols()),
            (MatRequest::Rank(mm, _), MatReply::Rank(k)) => k <= mm.nrows() && k <= mm.ncols(),
            (MatRequest::Solve(a, rhs, _), MatReply::Solved(x)) => match x {
                Some(m) => m.wf() && m.shape(a.ncols(), rhs.ncols()),
                None => true,
            },
            (MatRequest::FoldMul(factors, tail), MatReply::Mat(m)) => m.wf() && m.shape(
                fold_rows(factors@),
                tail.ncols(),
            ),
            _ => false,
        }
    }
}

/// `tent` is `f` with the single row of `v` written into row `j` and every
/// other cell kept.
pub open spec fn row_written(f: WMatrix, j: int, v: WMatrix, tent: WMatrix) -> bool {
    &&& tent.nrows() == f.nrows()
    &&& tent.ncols() == f.ncols()
    &&& forall|c: int| 0 <= c < f.ncols() ==> tent.ent(j, c) == v.ent(0, c)
    &&& forall|r: int, c: int|
        0 <= r < f.nrows() && 0 <= c < f.ncols() && r != j ==> tent.ent(r, c) == f.ent(r, c)
}

/// `tent` is `b` with the single column of `cand` written into column `j` and
/// every other cell kept.
pub open spec fn col_written(b: WMatrix, j: int, cand: WMatrix, tent: WMatrix) -> bool {
    &&& tent.nrows() == b.nrows()
    &&& tent.ncols() == b.ncols()
    &&& forall|r: int| 0 <= r < b.nrows() ==> tent.ent(r, j) == cand.ent(r, 0)
    &&& forall|r: int, c: int|
        0 <= r < b.nrows() && 0 <= c < b.ncols() && c != j ==> tent.ent(r, c) == b.ent(r, c)
}

/// Where a rank-saturation run stands: which request is out, if any.
pub enum TzengPending {
    /// Nothing asked yet; the rank of the starting matrix comes first.
    Start,
    /// The rank of the starting matrix is out.
    RankInit,
    /// The rank of the tentative matrix, with the candidate written into the
    /// next free column, is out.
    RankCandidate { cand: WMatrix, tent: WMatrix },
    /// The transforms are being applied to the newly accepted column; the
    /// product with transform `idx` is out.
    Push { cand: WMatrix, idx: usize },
}

/// What a saturation step hands back: the next numeric job, or the saturated
/// matrix.
pub enum TzengStep {
    Ask(MatRequest),
    Done(WMatrix),
}

/// One run of the rank-saturation search: a first-in-first-out frontier of
/// candidate columns, tried in order against the next free column of `b`; a
/// candidate stays only when it raises the numerical rank, and then every
/// transform applied to it joins the back of the frontier. The run ends when
/// the rank reaches the column count or the frontier is exhausted. The popping,
/// writing and bookkeeping is verified; ranks and products come from the
/// caller's calculator, and whatever it answers, the run keeps its shape
/// invariants, never writes outside `b`, and owes strictly less work after
/// every step, so it terminates whatever the frontier order — which basis is
/// found may depend on that order, its size may not exceed the column count.
pub struct TzengRun {
    pub b: WMatrix,
    pub queue: Vec<WMatrix>,
    pub head: usize,
    pub transforms: Vec<WMatrix>,
    pub filled: usize,
    pub rank_b: usize,
    pub measured: bool,
    pub pending: TzengPending,
    pub eps_bits: u64,
}

impl TzengRun {
    pub open spec fn rows(self) -> nat {
        self.b.nrows()
    }

    pub open spec fn max_rank(self) -> nat {
        self.b.ncols()
    }

    pub open spec fn wf(self) -> bool {
        &&& self.b.wf()
        &&& self.rows() >= 1
        &&& self.max_rank() >= 1
        &&& self.head <= self.queue@.len()
        &&& forall|i: int|
            0 <= i < self.queue@.len() ==> (#[trigger] self.queue@[i]).wf()
                && self.queue@[i].shape(self.rows(), 1)
        &&& forall|i: int|
            0 <= i < self.transforms@.len() ==> (#[trigger] self.transforms@[i]).wf()
                && self.transforms@[i].shape(self.rows(), self.rows())
        &&& self.measured ==> self.filled <= self.rank_b && self.rank_b <= self.max_rank()
            && self.rank_b <= self.rows()
        &&& self.filled <= self.max_rank()
        &&& match self.pending {
            TzengPending::Start => !self.measured ==> self.filled == 0,
            TzengPending::RankInit => !self.measured && self.filled == 0,
            TzengPending::RankCandidate { cand, tent } => {
                &&& self.measured
                &&& self.rank_b < self.max_rank()
                &&& cand.wf()
                &&& cand.shape(self.rows(), 1)
                &&& tent.wf()
                &&& tent.shape(self.rows(), self.max_rank())
                &&& self.head >= 1
                &&& cand.same_bits(self.queue@[self.head - 1])
                &&& col_written(self.b, self.filled as int, cand, tent)
            },
            TzengPending::Push { cand, idx } => {
                &&& self.measured
                &&& cand.wf()
                &&& cand.shape(self.rows(), 1)
                &&& idx < self.transforms@.len()
                &&& self.filled >= 1
                &&& forall|r: int|
                    0 <= r < self.rows() ==> self.b.ent(r, self.filled - 1) == cand.ent(r, 0)
            },
        }
    }

    /// The reply the run is waiting for, if a request is out.
    pub open spec fn awaits(self, reply: Option<MatReply>) -> bool {
        match self.pending {
            TzengPending::Start => reply is None && !self.measured,
            TzengPending::RankInit => match reply {
                Some(MatReply::Rank(k)) => k <= self.rows() && k <= self.max_rank(),
                _ => false,
            },
            TzengPending::RankCandidate { cand, tent } => match reply {
                Some(MatReply::Rank(k)) => k <= self.rows() && k <= self.max_rank(),
                _ => false,
            },
            TzengPending::Push { cand, idx } => match reply {
                Some(MatReply::Mat(m)) => m.wf() && m.shape(self.rows(), 1),
                _ => false,
            },
        }
    }

    /// The request the state calls for: the rank of the starting matrix, the
    /// rank of the tentative matrix, or the next transform applied to the
    /// accepted column.
    pub open spec fn asks(self, req: MatRequest) -> bool {
        match self.pending {
            TzengPending::Start => false,
            TzengPending::RankInit => req matches MatRequest::Rank(mm, eb) && mm.same_bits(self.b)
                && eb == self.eps_bits,
            TzengPending::RankCandidate { cand, tent } => req matches MatRequest::Rank(mm, eb)
                && mm.same_bits(tent) && eb == self.eps_bits,
            TzengPending::Push { cand, idx } => req matches MatRequest::Mul(t, c) && t.same_bits(
                self.transforms@[idx as int],
            ) && c.same_bits(cand),
        }
    }

    /// Coarse progress: how far the rank may still rise.
    pub open spec fn measure1(self) -> int {
        if self.measured {
            self.max_rank() - self.rank_b
        } else {
            self.max_rank() + 1int
        }
    }

    /// Fine progress at a fixed rank: frontier entries left, weighted, plus
    /// the pending request's own steps.
    pub open spec fn measure2(self) -> int {
        (self.queue@.len() - self.head) + (match self.pending {
            TzengPending::Start => 2int,
            TzengPending::RankInit => 1int,
            TzengPending::RankCandidate { cand, tent } => 1int,
            TzengPending::Push { cand, idx } => 2 * (self.transforms@.len() - idx),
        })
    }

    /// Pop the frontier's head and ask for the rank of `b` with it written
    /// into the next free column — or finish, when the rank is saturated or
    /// the frontier is exhausted.
    fn dispatch(&mut self) -> (r: TzengStep)
        requires
            old(self).wf(),
            old(self).measured,
            old(self).pending is Start,
        ensures
            final(self).wf(),
            final(self).b == old(self).b,
            final(self).rows() == old(self).rows(),
            final(self).max_rank() == old(self).max_rank(),
            final(self).measured,
            final(self).rank_b == old(self).rank_b,
            final(self).filled == old(self).filled,
            final(self).queue == old(self).queue,
            final(self).transforms == old(self).transforms,
            final(self).eps_bits == old(self).eps_bits,
            match r {
                TzengStep::Ask(req) => {
                    &&& req.consistent()
                    &&& forall|rep: MatReply| req.answers(rep) ==> final(self).awaits(Some(rep))
                    &&& final(self).measure1() == old(self).measure1()
                    &&& final(self).measure2() + 2 <= old(self).measure2()
                    &&& final(self).pending is RankCandidate
                    &&& final(self).asks(req)
                },
                TzengStep::Done(b) => {
                    &&& *final(self) == *old(self)
                    &&& b.wf()
                    &&& b.shape(old(self).rows(), old(self).max_rank())
                    &&& b.same_bits(final(self).b)
                    &&& (final(self).rank_b == final(self).max_rank() || final(self).head
                        == final(self).queue@.len())
                },
            },
    {
        let max_rank = self.b.cols();
        if self.rank_b == max_rank {
            return TzengStep::Done(self.b.duplicate());
        }
        if self.head == self.queue.len() {
            return TzengStep::Done(self.b.duplicate());
        }
        let cand = self.queue[self.head].duplicate();
        self.head = self.head + 1;
        let tent = self.b.with_col(self.filled, &cand);
        let req = MatRequest::Rank(tent.duplicate(), self.eps_bits);
        self.pending = TzengPending::RankCandidate { cand, tent };
        TzengStep::Ask(req)
    }

    /// Feed the previous request's answer and get the next job, or the
    /// saturated matrix.
    #[verifier::rlimit(50)]
    pub fn step(&mut self, reply: Option<MatReply>) -> (r: TzengStep)
        requires
            old(self).wf(),
            old(self).awaits(reply),
        ensures
            final(self).wf(),
            final(self).rows() == old(self).rows(),
            final(self).max_rank() == old(self).max_rank(),
            final(self).transforms == old(self).transforms,
            final(self).eps_bits == old(self).eps_bits,
            // How the reply is digested, case by case.
            match (old(self).pending, reply) {
                (TzengPending::Start, _) => {
                    &&& final(self).b == old(self).b
                    &&& final(self).queue == old(self).queue
                    &&& final(self).filled == old(self).filled
                },
                (TzengPending::RankInit, Some(MatReply::Rank(k))) => {
                    &&& final(self).measured
                    &&& final(self).rank_b == k
                    &&& final(self).b == old(self).b
                    &&& final(self).queue == old(self).queue
                    &&& final(self).filled == old(self).filled
                },
                (TzengPending::RankCandidate { cand, tent }, Some(MatReply::Rank(k))) => {
                    &&& final(self).queue == old(self).queue
                    &&& if k > old(self).rank_b {
                        // Independent: the tentative column write stays.
                        &&& final(self).b.same_bits(tent)
                        &&& final(self).rank_b == k
                        &&& final(self).filled == old(self).filled + 1
                    } else {
                        // Dependent: the candidate is dropped without a trace.
                        &&& final(self).b == old(self).b
                        &&& final(self).rank_b == old(self).rank_b
                        &&& final(self).filled == old(self).filled
                    }
                },
                (TzengPending::Push { cand, idx }, Some(MatReply::Mat(m))) => {
                    &&& final(self).b == old(self).b
                    &&& final(self).rank_b == old(self).rank_b
                    &&& final(self).filled == old(self).filled
                    &&& final(self).queue@ == old(self).queue@.push(m)
                },
                _ => false,
            },
            match r {
                TzengStep::Ask(req) => {
                    &&& req.consistent()
                    &&& forall|rep: MatReply| req.answers(rep) ==> final(self).awaits(Some(rep))
                    &&& (final(self).measure1() < old(self).measure1() || (final(self).measure1()
                        == old(self).measure1() && final(self).measure2() < old(
                        self,
                    ).measure2()))
                    // The request's contents are the state's: the rank of the
                    // pending tentative matrix (or of `b` itself at the start),
                    // or the next transform applied to the accepted column.
                    &&& final(self).asks(req)
                },
                TzengStep::Done(b) => {
                    // The search only ends saturated or exhausted, and hands
                    // out exactly the matrix it built.
                    &&& b.wf()
                    &&& b.nrows() == old(self).rows()
                    &&& b.ncols() == old(self).max_rank()
                    &&& b.same_bits(final(self).b)
                    &&& final(self).measured
                    &&& (final(self).rank_b == final(self).max_rank() || final(self).head
                        == final(self).queue@.len())
                },
            },
    {
        match reply {
            None => {
                // First call: the starting matrix's own rank comes first.
                proof {
                    assert(self.pending is Start);
                }
                let req = MatRequest::Rank(self.b.duplicate(), self.eps_bits);
                self.pending = TzengPending::RankInit;
                return TzengStep::Ask(req);
            },
            Some(MatReply::Rank(k)) => {
                let is_init = match &self.pending {
                    TzengPending::RankInit => true,
                    TzengPending::RankCandidate { cand, tent } => false,
                    _ => unreached(),
                };
                if is_init {
                    self.pending = TzengPending::Start;
                    self.rank_b = k;
                    self.measured = true;
                    self.dispatch()
                } else {
                    let (cand, tent) = match &self.pending {
                        TzengPending::RankCandidate { cand, tent } => (
                            cand.duplicate(),
                            tent.duplicate(),
                        ),
                        _ => unreached(),
                    };
                    self.pending = TzengPending::Start;
                    if k > self.rank_b {
                        // Independent: keep the tentative write, and queue the
                        // transforms applied to the accepted column.
                        self.b = tent;
                        self.rank_b = k;
                        self.filled = self.filled + 1;
                        if self.transforms.len() > 0 {
                            let t = &self.transforms[0];
                            let req = MatRequest::Mul(t.duplicate(), cand.duplicate());
                            self.pending = TzengPending::Push { cand, idx: 0 };
                            proof {
                                assert(self.measure1() < old(self).measure1());
                                match req {
                                    MatRequest::Mul(ref a, ref bb) => {
                                        assert(a.wf());
                                        assert(bb.wf());
                                        assert(a.ncols() == bb.nrows());
                                        assert(bb.ncols() == 1);
                                        assert(a.nrows() <= usize::MAX);
                                        assert(a.nrows() * bb.ncols() <= usize::MAX)
                                            by (nonlinear_arith)
                                            requires
                                                bb.ncols() == 1,
                                                a.nrows() <= usize::MAX,
                                        ;
                                    },
                                    _ => {
                                        assert(false);
                                    },
                                }
                                assert(req.consistent());
                                assert(forall|rep: MatReply|
                                    req.answers(rep) ==> self.awaits(Some(rep)));
                            }
                            return TzengStep::Ask(req);
                        }
                        self.dispatch()
                    } else {
                        // Dependent: the candidate is dropped.
                        self.dispatch()
                    }
                }
            },
            Some(MatReply::Mat(m)) => {
                let (cand, idx) = match &self.pending {
                    TzengPending::Push { cand, idx } => (cand.duplicate(), *idx),
                    _ => unreached(),
                };
                self.pending = TzengPending::Start;
                self.queue.push(m);
                let tl = self.transforms.len();
                if idx + 1 < tl {
                    let t = &self.transforms[idx + 1];
                    let req = MatRequest::Mul(t.duplicate(), cand.duplicate());
                    self.pending = TzengPending::Push { cand, idx: idx + 1 };
                    proof {
                        assert(self.measure1() == old(self).measure1());
                        assert(self.measure2() < old(self).measure2());
                        match req {
                            MatRequest::Mul(ref a, ref bb) => {
                                assert(a.wf());
                                assert(bb.wf());
                                assert(a.ncols() == bb.nrows());
                                assert(bb.ncols() == 1);
                                assert(a.nrows() <= usize::MAX);
                                assert(a.nrows() * bb.ncols() <= usize::MAX) by (nonlinear_arith)
                                    requires
                                        bb.ncols() == 1,
                                        a.nrows() <= usize::MAX,
                                ;
                            },
                            _ => {
                                assert(false);
                            },
                        }
                        assert(req.consistent());
                        assert(forall|rep: MatReply| req.answers(rep) ==> self.awaits(Some(rep)));
                    }
                    return TzengStep::Ask(req);
                }
                self.dispatch()
            },
            Some(MatReply::Solved(_)) => unreached(),
        }
    }
}

/// Set up the rank-saturation search: the frontier starts with the seed
/// `column`, and `b`'s columns are filled from the first one on.
pub fn tzeng(column: WMatrix, b: WMatrix, m: Vec<WMatrix>) -> (r: TzengRun)
    requires
        b.wf(),
        b.nrows() >= 1,
        b.ncols() >= 1,
        column.wf(),
        column.shape(b.nrows(), 1),
        forall|i: int|
            0 <= i < m@.len() ==> (#[trigger] m@[i]).wf() && m@[i].shape(b.nrows(), b.nrows()),
    ensures
        r.wf(),
        r.pending is Start,
        !r.measured,
        r.b == b,
        r.transforms == m,
        r.queue@ == seq![column],
        r.head == 0,
        r.filled == 0,
        r.eps_bits == EPS_BITS,
        r.awaits(None),
{
    let mut queue: Vec<WMatrix> = Vec::new();
    queue.push(column);
    proof {
        assert(queue@ =~= seq![column]);
    }
    TzengRun {
        b,
        queue,
        head: 0,
        transforms: m,
        filled: 0,
        rank_b: 0,
        measured: false,
        pending: TzengPending::Start,
        eps_bits: EPS_BITS,
    }
}


/// Where a minimization stands: the three steps run in strict sequence, each
/// consuming the previous one's output.
pub enum MinPhase {
    Forward(crate::step_i::ForwardRun),
    Backward(crate::step_ii::BwdRun, WMatrix),
    Projection(crate::step_iii::ProjRun),
}

/// What a minimization step hands back: the next numeric job, the minimized
/// automaton, or the failure that ends the run.
pub enum MinStep {
    Ask(MatRequest),
    Done(WeightedTreeAutomatonMatrix),
    Fail(AutomatonError),
}

/// One minimization of a weighted tree automaton: the forward space, then the
/// backward space, then the projection, exactly in that order. The caller
/// answers each numeric request and feeds the reply to the next step. Whatever
/// the calculator answers, the minimized automaton keeps the alphabet and has
/// at most as many states as the original.
pub struct MinimizationRun {
    pub automaton: WeightedTreeAutomatonMatrix,
    pub phase: MinPhase,
}

impl MinimizationRun {
    pub open spec fn nn(self) -> nat {
        self.automaton.num_states as nat
    }

    /// How far the run has come: the three steps run in this order and never
    /// go back.
    pub open spec fn phase_idx(self) -> int {
        match self.phase {
            MinPhase::Forward(fr) => 0,
            MinPhase::Backward(br, f) => 1,
            MinPhase::Projection(pr) => 2,
        }
    }

    pub open spec fn wf(self) -> bool {
        &&& self.automaton.wf()
        &&& self.automaton.num_states >= 1
        &&& self.automaton.num_states * self.automaton.num_states <= usize::MAX
        &&& match self.phase {
            MinPhase::Forward(fr) => {
                &&& fr.wf()
                &&& fr.nn() == self.nn()
                &&& fr.syms@.len() == crate::data_structures::nonfinal_positions(
                    self.automaton.ranked_alphabet@,
                ).len()
                &&& forall|k: int|
                    0 <= k < fr.syms@.len() ==> {
                        let p = #[trigger] crate::data_structures::nonfinal_positions(
                            self.automaton.ranked_alphabet@,
                        )[k];
                        &&& fr.syms@[k].0@ == self.automaton.ranked_alphabet@[p].0@
                        &&& fr.syms@[k].1 == self.automaton.ranked_alphabet@[p].1
                        &&& fr.mats@[k].same_bits(self.automaton.transition_matrices@[p].1)
                    }
            },
            MinPhase::Backward(br, f) => {
                &&& br.wf()
                &&& br.nn() == self.nn()
                &&& f.wf()
                &&& f.shape(self.nn(), self.nn())
                // Step two consumes step one's basis through its nonzero rows.
                &&& br.f_clean.nrows() == crate::matrix::nonzero_row_positions(f).len()
                &&& forall|k: int, c: int|
                    0 <= k < br.f_clean.nrows() && 0 <= c < br.nn()
                        ==> #[trigger] br.f_clean.ent(k, c) == f.ent(
                        crate::matrix::nonzero_row_positions(f)[k],
                        c,
                    )
                &&& br.gamma.same_bits(
                    crate::data_structures::sym_value(
                        self.automaton.transition_matrices@,
                        crate::data_structures::final_sym(),
                    ),
                )
            },
            MinPhase::Projection(pr) => {
                &&& pr.wf()
                &&& pr.n == self.automaton.num_states
                &&& pr.grammar_type == self.automaton.grammar_type
                &&& pr.alpha@.len() == self.automaton.ranked_alphabet@.len()
                &&& forall|k: int|
                    0 <= k < pr.alpha@.len() ==> (#[trigger] pr.alpha@[k]).0@
                        == self.automaton.ranked_alphabet@[k].0@ && pr.alpha@[k].1
                        == self.automaton.ranked_alphabet@[k].1
            },
        }
    }

    /// The reply the run is waiting for, if a request is out.
    pub open spec fn awaits(self, reply: Option<MatReply>) -> bool {
        match self.phase {
            MinPhase::Forward(fr) => fr.awaits(reply),
            MinPhase::Backward(br, f) => br.awaits(reply),
            MinPhase::Projection(pr) => pr.awaits(reply),
        }
    }

    /// Progress, coarsest first: the phases left, then the running phase's own
    /// measures. Every step that asks again is lexicographically below its
    /// predecessor, so a whole minimization always finishes.
    pub open spec fn measures(self) -> (int, int, int, int, int, int) {
        match self.phase {
            MinPhase::Forward(fr) => {
                let m = fr.measures();
                (2int, m.0, m.1, m.2, m.3, 0int)
            },
            MinPhase::Backward(br, f) => {
                let m = br.measures();
                (1int, m.0, m.1, m.2, m.3, 0int)
            },
            MinPhase::Projection(pr) => {
                let m = pr.measures();
                (0int, m.0, m.1, m.2, m.3, m.4)
            },
        }
    }

    /// Lexicographic decrease of the progress measures.
    pub open spec fn progressed(pre: Self, post: Self) -> bool {
        let a = pre.measures();
        let b = post.measures();
        ||| b.0 < a.0
        ||| (b.0 == a.0 && b.1 < a.1)
        ||| (b.0 == a.0 && b.1 == a.1 && b.2 < a.2)
        ||| (b.0 == a.0 && b.1 == a.1 && b.2 == a.2 && b.3 < a.3)
        ||| (b.0 == a.0 && b.1 == a.1 && b.2 == a.2 && b.3 == a.3 && b.4 < a.4)
        ||| (b.0 == a.0 && b.1 == a.1 && b.2 == a.2 && b.3 == a.3 && b.4 == a.4 && b.5 < a.5)
    }

    /// The request the current phase calls for.
    pub open spec fn asks(self, req: MatRequest) -> bool {
        match self.phase {
            MinPhase::Forward(fr) => fr.asks(req),
            MinPhase::Backward(br, f) => br.asks(req),
            MinPhase::Projection(pr) => pr.asks(req),
        }
    }

    /// Feed the previous request's answer and get the next job, the minimized
    /// automaton, or the failure that ends the run. The minimized automaton is
    /// well-formed, keeps the alphabet, and never has more states than the
    /// original.
    pub fn step(&mut self, reply: Option<MatReply>) -> (r: MinStep)
        requires
            old(self).wf(),
            old(self).awaits(reply),
        ensures
            final(self).wf(),
            final(self).automaton == old(self).automaton,
            // The three steps run in strict sequence: the phase never goes
            // back, and the run only finishes or fails in the projection.
            final(self).phase_idx() >= old(self).phase_idx(),
            match r {
                MinStep::Ask(req) => {
                    &&& req.consistent()
                    &&& forall|rep: MatReply| req.answers(rep) ==> final(self).awaits(Some(rep))
                    &&& final(self).asks(req)
                    &&& Self::progressed(*old(self), *final(self))
                },
                MinStep::Done(out) => {
                    &&& final(self).phase_idx() == 2
                    &&& out.wf()
                    &&& out.num_states <= old(self).automaton.num_states
                    &&& out.grammar_type == old(self).automaton.grammar_type
                    &&& out.ranked_alphabet@.len() == old(self).automaton.ranked_alphabet@.len()
                    &&& out.transition_matrices@.len() == old(
                        self,
                    ).automaton.ranked_alphabet@.len()
                    &&& forall|k: int|
                        0 <= k < out.ranked_alphabet@.len() ==> {
                            &&& (#[trigger] out.ranked_alphabet@[k]).0@ == old(
                                self,
                            ).automaton.ranked_alphabet@[k].0@
                            &&& (old(self).automaton.ranked_alphabet@[k].0@
                                != crate::data_structures::final_sym()
                                ==> out.ranked_alphabet@[k].1 == old(
                                self,
                            ).automaton.ranked_alphabet@[k].1)
                            &&& (old(self).automaton.ranked_alphabet@[k].0@
                                == crate::data_structures::final_sym()
                                ==> out.ranked_alphabet@[k].1 == out.num_states)
                            &&& out.transition_matrices@[k].0@ == old(
                                self,
                            ).automaton.ranked_alphabet@[k].0@
                        }
                },
                MinStep::Fail(e) => {
                    &&& final(self).phase_idx() == 2
                    &&& match final(self).phase {
                        MinPhase::Projection(pr) => (e == AutomatonError::UnsolvableProjection
                            && reply matches Some(MatReply::Solved(None))) || (e
                            == AutomatonError::DimensionMismatch && pr.dim_stuck()),
                        _ => false,
                    }
                },
            },
    {
        let kind: usize = match &self.phase {
            MinPhase::Forward(_) => 0,
            MinPhase::Backward(_, _) => 1,
            MinPhase::Projection(_) => 2,
        };
        if kind == 0 {
            let r = match &mut self.phase {
                MinPhase::Forward(fr) => fr.step(reply),
                _ => unreached(),
            };
            match r {
                crate::step_i::FwdStep::Ask(req) => {
                    return MinStep::Ask(req);
                },
                crate::step_i::FwdStep::Done(f) => {
                    // Step one is saturated: its basis feeds step two.
                    let mut br = crate::step_ii::step_ii_backward(&self.automaton, &f);
                    let r2 = br.step(None);
                    self.phase = MinPhase::Backward(br, f);
                    match r2 {
                        crate::step_ii::BwdStep::Ask(req) => {
                            return MinStep::Ask(req);
                        },
                        crate::step_ii::BwdStep::Done(b) => {
                            return self.to_projection(b, None);
                        },
                    }
                },
            }
        }
        if kind == 1 {
            let r = match &mut self.phase {
                MinPhase::Backward(br, _) => br.step(reply),
                _ => unreached(),
            };
            match r {
                crate::step_ii::BwdStep::Ask(req) => {
                    return MinStep::Ask(req);
                },
                crate::step_ii::BwdStep::Done(b) => {
                    return self.to_projection(b, None);
                },
            }
        }
        let r = match &mut self.phase {
            MinPhase::Projection(pr) => pr.step(reply),
            _ => unreached(),
        };
        match r {
            crate::step_iii::ProjStep::Ask(req) => MinStep::Ask(req),
            crate::step_iii::ProjStep::Done(out) => MinStep::Done(out),
            crate::step_iii::ProjStep::Fail(e) => MinStep::Fail(e),
        }
    }

    /// Step two is saturated: its basis and step one's feed step three.
    fn to_projection(&mut self, b: WMatrix, reply: Option<MatReply>) -> (r: MinStep)
        requires
            old(self).wf(),
            reply is None,
            b.wf(),
            b.shape(old(self).nn(), old(self).nn()),
            match old(self).phase {
                MinPhase::Backward(_, f) => true,
                _ => false,
            },
        ensures
            final(self).wf(),
            final(self).automaton == old(self).automaton,
            final(self).phase_idx() == 2,
            // The three steps run in strict sequence: the phase never goes
            // back, and the run only finishes or fails in the projection.
            final(self).phase_idx() >= old(self).phase_idx(),
            match r {
                MinStep::Ask(req) => {
                    &&& req.consistent()
                    &&& forall|rep: MatReply| req.answers(rep) ==> final(self).awaits(Some(rep))
                    &&& final(self).asks(req)
                    &&& Self::progressed(*old(self), *final(self))
                },
                MinStep::Done(out) => {
                    &&& final(self).phase_idx() == 2
                    &&& out.wf()
                    &&& out.num_states <= old(self).automaton.num_states
                    &&& out.grammar_type == old(self).automaton.grammar_type
                    &&& out.ranked_alphabet@.len() == old(self).automaton.ranked_alphabet@.len()
                    &&& out.transition_matrices@.len() == old(
                        self,
                    ).automaton.ranked_alphabet@.len()
                    &&& forall|k: int|
                        0 <= k < out.ranked_alphabet@.len() ==> {
                            &&& (#[trigger] out.ranked_alphabet@[k]).0@ == old(
                                self,
                            ).automaton.ranked_alphabet@[k].0@
                            &&& (old(self).automaton.ranked_alphabet@[k].0@
                                != crate::data_structures::final_sym()
                                ==> out.ranked_alphabet@[k].1 == old(
                                self,
                            ).automaton.ranked_alphabet@[k].1)
                            &&& (old(self).automaton.ranked_alphabet@[k].0@
                                == crate::data_structures::final_sym()
                                ==> out.ranked_alphabet@[k].1 == out.num_states)
                            &&& out.transition_matrices@[k].0@ == old(
                                self,
                            ).automaton.ranked_alphabet@[k].0@
                        }
                },
                MinStep::Fail(e) => {
                    &&& final(self).phase_idx() == 2
                    &&& match final(self).phase {
                        MinPhase::Projection(pr) => (e == AutomatonError::UnsolvableProjection
                            && reply matches Some(MatReply::Solved(None))) || (e
                            == AutomatonError::DimensionMismatch && pr.dim_stuck()),
                        _ => false,
                    }
                },
            },
    {
        let f = match &self.phase {
            MinPhase::Backward(_, f) => f.duplicate(),
            _ => unreached(),
        };
        let mut pr = crate::step_iii::step_iii_solve(&self.automaton, &f, &b);
        let r = pr.step(None);
        self.phase = MinPhase::Projection(pr);
        match r {
            crate::step_iii::ProjStep::Ask(req) => MinStep::Ask(req),
            crate::step_iii::ProjStep::Done(out) => MinStep::Done(out),
            crate::step_iii::ProjStep::Fail(e) => MinStep::Fail(e),
        }
    }
}

/// Set up the minimization of a well-formed automaton: step one starts at once.
pub fn minimize_automaton(automaton_matrix: WeightedTreeAutomatonMatrix) -> (r: MinimizationRun)
    requires
        automaton_matrix.wf(),
        automaton_matrix.num_states >= 1,
        automaton_matrix.num_states * automaton_matrix.num_states <= usize::MAX,
    ensures
        r.wf(),
        r.awaits(None),
        r.automaton == automaton_matrix,
        r.phase_idx() == 0,
        // Step one starts untouched: an all-zero basis, all counters at the
        // beginning.
        match r.phase {
            MinPhase::Forward(fr) => {
                &&& fr.i == 0
                &&& fr.j == 0
                &&& fr.sym == 0
                &&& fr.rank_f == 0
                &&& !fr.active
                &&& forall|i: int, j: int|
                    0 <= i < fr.nn() && 0 <= j < fr.nn() ==> fr.f.ent(i, j)
                        == crate::matrix::ZERO_BITS
            },
            _ => false,
        },
{
    let fr = crate::step_i::step_i_forward(&automaton_matrix);
    MinimizationRun { automaton: automaton_matrix, phase: MinPhase::Forward(fr) }
}

} // verus!
