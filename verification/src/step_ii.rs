use vstd::prelude::*;
use vstd::pervasive::unreached;
use crate::data_structures::final_sym;
use crate::data_structures::final_symbol;
use crate::data_structures::first_pos;
use crate::data_structures::lemma_first_pos;
use crate::data_structures::lemma_first_pos_same_keys;
use crate::data_structures::lookup_first;
use crate::data_structures::nonfinal_positions;
use crate::data_structures::spow;
use crate::data_structures::WeightedTreeAutomatonMatrix;
use crate::matrix::nonzero_rows_upto;
use crate::matrix::nonzero_row_positions;
use crate::matrix::WMatrix;
use crate::minimisation::fold_cols;
use crate::minimisation::fold_rows;
use crate::minimisation::tzeng;
use crate::minimisation::TzengRun;
use crate::minimisation::TzengStep;
use crate::minimisation::EPS_BITS;
use crate::minimisation::MatReply;
use crate::minimisation::MatRequest;
use crate::tuples::lemma_lex_lt_val;
use crate::tuples::lemma_tuple_val_bound;
use crate::tuples::next_tuple;
use crate::tuples::tuple_val;

verus! {

/// Which request of the backward-space computation is out.
pub enum BwdPending {
    Idle,
    /// The candidate transformation for the current tuple and identity
    /// position is out.
    MCand,
}

/// What a backward step hands back: the next numeric job, or the finished
/// backward basis matrix.
pub enum BwdStep {
    Ask(MatRequest),
    Done(WMatrix),
}

/// The backward-space computation: compact the forward basis by dropping its
/// zero rows, build the set of context transformation matrices — for every
/// symbol of positive rank, every identity position and every tuple of
/// compacted rows, the Kronecker chain with the identity spliced in, times the
/// symbol's transition matrix — and hand the final-weight vector as seed
/// column to the rank-saturation search against that set. Compaction,
/// enumeration, duplicate and zero screening are verified over the stored bit
/// patterns; products and ranks come from the caller's calculator.
pub struct BwdRun {
    pub n: usize,
    pub syms: Vec<(String, usize)>,
    pub mats: Vec<WMatrix>,
    pub gamma: WMatrix,
    pub ident: WMatrix,
    pub f_clean: WMatrix,
    pub m: Vec<WMatrix>,
    pub sym: usize,
    pub ipos: usize,
    pub tuple: Vec<usize>,
    pub active: bool,
    pub sat: Option<TzengRun>,
    pub pending: BwdPending,
    pub eps_bits: u64,
}

impl BwdRun {
    pub open spec fn nn(self) -> nat {
        self.n as nat
    }

    pub open spec fn tt(self) -> nat {
        self.f_clean.nrows()
    }

    pub open spec fn wf(self) -> bool {
        &&& self.n >= 1
        &&& self.n * self.n <= usize::MAX
        &&& self.syms@.len() == self.mats@.len()
        &&& forall|k: int|
            0 <= k < self.mats@.len() ==> (#[trigger] self.mats@[k]).wf() && self.mats@[k].shape(
                spow(self.nn(), self.syms@[k].1 as nat),
                self.nn(),
            )
        &&& self.gamma.wf()
        &&& self.gamma.shape(self.nn(), 1)
        &&& self.ident.wf()
        &&& self.ident.shape(self.nn(), self.nn())
        &&& self.f_clean.wf()
        &&& self.f_clean.ncols() == self.nn()
        &&& forall|k: int| 0 <= k < self.f_clean.nrows() ==> !self.f_clean.row_zero(k)
        &&& forall|k: int|
            0 <= k < self.m@.len() ==> (#[trigger] self.m@[k]).wf() && self.m@[k].shape(
                self.nn(),
                self.nn(),
            )
        &&& self.sym <= self.syms@.len()
        &&& self.active ==> {
            &&& self.sym < self.syms@.len()
            &&& self.syms@[self.sym as int].1 >= 1
            &&& self.ipos < self.syms@[self.sym as int].1
            &&& self.tuple@.len() == self.syms@[self.sym as int].1
            &&& self.tt() >= 1
            &&& forall|d: int| 0 <= d < self.tuple@.len() ==> #[trigger] self.tuple@[d] < self.tt()
        }
        &&& match self.sat {
            Some(tz) => {
                &&& tz.wf()
                &&& tz.rows() == self.nn()
                &&& tz.max_rank() == self.nn()
                &&& self.pending is Idle
                &&& !self.active
            },
            None => true,
        }
        &&& self.pending is MCand ==> self.active && self.sat is None
    }

    /// The request the state calls for: the saturation phase's own request,
    /// or the candidate transformation of the active tuple — the compacted
    /// rows it selects, Kronecker-chained with the identity spliced in at the
    /// current position, times the current symbol's transition matrix.
    pub open spec fn asks(self, req: MatRequest) -> bool {
        match self.sat {
            Some(tz) => tz.asks(req),
            None => match self.pending {
                BwdPending::MCand => req matches MatRequest::FoldMul(factors, tail)
                    && tail.same_bits(self.mats@[self.sym as int]) && factors@.len()
                    == self.tuple@.len() && (forall|p: int, c: int|
                    0 <= p < factors@.len() && p != self.ipos && 0 <= c < self.nn()
                        ==> #[trigger] factors@[p].ent(0, c) == self.f_clean.ent(
                        self.tuple@[p] as int,
                        c,
                    )) && (forall|r: int, c: int|
                    0 <= r < self.nn() && 0 <= c < self.nn()
                        ==> #[trigger] factors@[self.ipos as int].ent(r, c) == self.ident.ent(
                        r,
                        c,
                    )),
                BwdPending::Idle => false,
            },
        }
    }

    /// A candidate transformation joins the set unless it is zero, it is the
    /// identity, or a stored transform already equals it (the signed zeros
    /// taken as one value, as the zero screen takes them).
    pub open spec fn keeps(self, c: WMatrix) -> bool {
        &&& !c.all_zero()
        &&& !c.same_weights(self.ident)
        &&& forall|k: int| 0 <= k < self.m@.len() ==> !c.same_weights(#[trigger] self.m@[k])
    }

    /// Progress, coarsest first: the building phase before the saturation
    /// phase; within the building, the walk through symbols, identity
    /// positions and tuples with the request stage; within the saturation, the
    /// saturation's own measures. Every step that asks again is
    /// lexicographically below its predecessor, so a run always finishes.
    pub open spec fn measures(self) -> (int, int, int, int) {
        match self.sat {
            Some(tz) => (0int, tz.measure1(), tz.measure2(), 0int),
            None => (
                1int,
                2 * (self.syms@.len() - self.sym) + (if self.active {
                    0int
                } else {
                    1int
                }),
                if self.active {
                    self.syms@[self.sym as int].1 - self.ipos
                } else {
                    0int
                },
                3 * (if self.active {
                    spow(self.tt(), self.tuple@.len() as nat) - tuple_val(
                        self.tuple@,
                        (self.tt() - 1) as usize,
                    )
                } else {
                    0int
                }) + (match self.pending {
                    BwdPending::Idle => 3int,
                    BwdPending::MCand => 2,
                }),
            ),
        }
    }

    /// Lexicographic decrease of the progress measures.
    pub open spec fn progressed(pre: Self, post: Self) -> bool {
        let a = pre.measures();
        let b = post.measures();
        ||| b.0 < a.0
        ||| (b.0 == a.0 && b.1 < a.1)
        ||| (b.0 == a.0 && b.1 == a.1 && b.2 < a.2)
        ||| (b.0 == a.0 && b.1 == a.1 && b.2 == a.2 && b.3 < a.3)
    }

    /// The reply the run is waiting for, if a request is out.
    pub open spec fn awaits(self, reply: Option<MatReply>) -> bool {
        match self.sat {
            Some(tz) => tz.awaits(reply),
            None => match self.pending {
                BwdPending::Idle => reply is None,
                BwdPending::MCand => match reply {
                    Some(MatReply::Mat(c)) => c.wf() && c.shape(self.nn(), self.nn()),
                    _ => false,
                },
            },
        }
    }

    /// Hand the final-weight vector and the collected transforms to the
    /// rank-saturation search and forward its first request.
    fn start_saturation(&mut self) -> (r: BwdStep)
        requires
            old(self).wf(),
            old(self).pending is Idle,
            old(self).sat is None,
            !old(self).active,
        ensures
            final(self).wf(),
            final(self).n == old(self).n,
            final(self).syms == old(self).syms,
            final(self).mats == old(self).mats,
            final(self).gamma == old(self).gamma,
            final(self).ident == old(self).ident,
            final(self).f_clean == old(self).f_clean,
            final(self).m == old(self).m,
            final(self).eps_bits == old(self).eps_bits,
            // The saturation run starts from the zero matrix, seeded with the
            // final-weight vector, against exactly the collected transforms.
            match final(self).sat {
                Some(tz) => {
                    &&& tz.queue@.len() == 1
                    &&& tz.queue@[0].same_bits(final(self).gamma)
                    &&& tz.filled == 0
                    &&& forall|i: int, j: int|
                        0 <= i < final(self).nn() && 0 <= j < final(self).nn() ==> tz.b.ent(i, j)
                            == crate::matrix::ZERO_BITS
                    &&& tz.transforms@.len() == final(self).m@.len()
                    &&& forall|k: int|
                        0 <= k < tz.transforms@.len() ==> (#[trigger] tz.transforms@[k]).same_bits(
                            final(self).m@[k],
                        )
                    &&& tz.eps_bits == EPS_BITS
                },
                None => false,
            },
            match r {
                BwdStep::Ask(req) => {
                    &&& req.consistent()
                    &&& forall|rep: MatReply| req.answers(rep) ==> final(self).awaits(Some(rep))
                    &&& final(self).asks(req)
                    &&& Self::progressed(*old(self), *final(self))
                },
                BwdStep::Done(b) => {
                    &&& b.wf()
                    &&& b.shape(old(self).nn(), old(self).nn())
                    &&& match final(self).sat {
                        Some(tz) => b.same_bits(tz.b) && tz.measured && (tz.rank_b
                            == tz.max_rank() || tz.head == tz.queue@.len()),
                        None => false,
                    }
                },
            },
    {
        let b = match WMatrix::zeros(self.n, self.n) {
            Some(b) => b,
            None => unreached(),
        };
        let mut transforms: Vec<WMatrix> = Vec::new();
        let mut k: usize = 0;
        while k < self.m.len()
            invariant
                self == old(self),
                old(self).wf(),
                0 <= k <= self.m@.len(),
                transforms@.len() == k,
                forall|d: int|
                    0 <= d < k ==> (#[trigger] transforms@[d]).wf() && transforms@[d].shape(
                        self.nn(),
                        self.nn(),
                    ) && transforms@[d].same_bits(self.m@[d]),
            decreases self.m@.len() - k,
        {
            let c = self.m[k].duplicate();
            transforms.push(c);
            k = k + 1;
        }
        let mut tz = tzeng(self.gamma.duplicate(), b, transforms);
        let r = tz.step(None);
        self.sat = Some(tz);
        match r {
            TzengStep::Ask(req) => BwdStep::Ask(req),
            TzengStep::Done(b) => BwdStep::Done(b),
        }
    }

    /// Walk symbols, identity positions and tuples until the next candidate
    /// transformation is needed, or start the saturation phase.
    #[verifier::loop_isolation(false)]
    fn advance(&mut self) -> (r: BwdStep)
        requires
            old(self).wf(),
            old(self).pending is Idle,
            old(self).sat is None,
        ensures
            final(self).wf(),
            final(self).n == old(self).n,
            final(self).syms == old(self).syms,
            final(self).mats == old(self).mats,
            final(self).gamma == old(self).gamma,
            final(self).ident == old(self).ident,
            final(self).f_clean == old(self).f_clean,
            final(self).m == old(self).m,
            final(self).eps_bits == old(self).eps_bits,
            match r {
                BwdStep::Ask(req) => {
                    &&& req.consistent()
                    &&& forall|rep: MatReply| req.answers(rep) ==> final(self).awaits(Some(rep))
                    &&& final(self).asks(req)
                    &&& Self::progressed(*old(self), *final(self))
                },
                BwdStep::Done(b) => {
                    &&& b.wf()
                    &&& b.shape(old(self).nn(), old(self).nn())
                    &&& match final(self).sat {
                        Some(tz) => b.same_bits(tz.b) && tz.measured && (tz.rank_b
                            == tz.max_rank() || tz.head == tz.queue@.len()),
                        None => false,
                    }
                },
            },
    {
        loop
            invariant
                self.wf(),
                self.pending is Idle,
                self.sat is None,
                self.n == old(self).n,
                self.syms == old(self).syms,
                self.mats == old(self).mats,
                self.gamma == old(self).gamma,
                self.ident == old(self).ident,
                self.f_clean == old(self).f_clean,
                self.m == old(self).m,
                self.eps_bits == old(self).eps_bits,
                *self == *old(self) || Self::progressed(*old(self), *self),
            decreases self.syms@.len() - self.sym, (if self.active {
                self.syms@[self.sym as int].1 - self.ipos
            } else {
                0int
            }), (if self.active {
                0int
            } else {
                1int
            }),
        {
            let t = self.f_clean.rows();
            if !self.active {
                let sl = self.syms.len();
                if t == 0 || self.sym == sl {
                    self.sym = sl;
                    return self.start_saturation();
                }
                let rank = self.syms[self.sym].1;
                if rank == 0 {
                    self.sym = self.sym + 1;
                    continue ;
                }
                // A fresh symbol: identity position 0, all-zero tuple.
                self.ipos = 0;
                let mut x: Vec<usize> = Vec::new();
                let mut c: usize = 0;
                while c < rank
                    invariant
                        0 <= c <= rank,
                        x@.len() == c,
                        forall|d: int| 0 <= d < c ==> x@[d] == 0,
                    decreases rank - c,
                {
                    x.push(0);
                    c = c + 1;
                }
                self.tuple = x;
                self.active = true;
            }
            // A candidate referencing an all-zero row would be skipped; after
            // compaction no such row is left, so the screen never fires.
            let rank = self.syms[self.sym].1;
            let mut zero_row = false;
            let mut p: usize = 0;
            while p < self.tuple.len()
                invariant
                    self.wf(),
                    self.active,
                    0 <= p <= self.tuple@.len(),
                    !zero_row,
                decreases self.tuple@.len() - p,
            {
                let d = self.tuple[p];
                if self.f_clean.row_is_zero(d) {
                    proof {
                        assert(!self.f_clean.row_zero(d as int));
                    }
                    zero_row = true;
                }
                p = p + 1;
            }
            if zero_row {
                // Compaction removed every zero row, so the sentinel cannot
                // fire.
                return unreached();
            }
            // The candidate: Kronecker the selected rows, with the identity
            // spliced in at the current position, then multiply by the
            // symbol's transition matrix.
            let mu = self.mats[self.sym].duplicate();
            let mut factors: Vec<WMatrix> = Vec::new();
            let mut p2: usize = 0;
            while p2 < self.tuple.len()
                invariant
                    self.wf(),
                    self.active,
                    rank == self.syms@[self.sym as int].1,
                    self.tuple@.len() == rank,
                    0 <= p2 <= rank,
                    factors@.len() == p2,
                    forall|d: int|
                        0 <= d < p2 ==> (#[trigger] factors@[d]).wf() && factors@[d].nrows() >= 1
                            && factors@[d].ncols() >= 1,
                    forall|d: int, c2: int|
                        0 <= d < p2 && d != self.ipos && 0 <= c2 < self.nn()
                            ==> #[trigger] factors@[d].ent(0, c2) == self.f_clean.ent(
                            self.tuple@[d] as int,
                            c2,
                        ),
                    self.ipos < p2 ==> forall|r2: int, c2: int|
                        0 <= r2 < self.nn() && 0 <= c2 < self.nn()
                            ==> #[trigger] factors@[self.ipos as int].ent(r2, c2) == self.ident.ent(
                            r2,
                            c2,
                        ),
                    fold_rows(factors@) == (if p2 > self.ipos {
                        self.nn()
                    } else {
                        1nat
                    }),
                    fold_cols(factors@) == spow(self.nn(), p2 as nat),
                decreases rank - p2,
            {
                let ghost before = factors@;
                let ghost old_rows = fold_rows(before);
                let is_ident = p2 == self.ipos;
                let fac = if is_ident {
                    self.ident.duplicate()
                } else {
                    let d = self.tuple[p2];
                    self.f_clean.row(d)
                };
                let ghost fv = fac;
                factors.push(fac);
                proof {
                    assert(factors@.drop_last() =~= before);
                    assert(factors@.last() == fv);
                    assert(fold_rows(factors@) == old_rows * fv.nrows());
                    assert(fold_cols(factors@) == fold_cols(before) * fv.ncols());
                    assert(spow(self.nn(), (p2 + 1) as nat) == self.nn() * spow(
                        self.nn(),
                        p2 as nat,
                    ));
                    assert(fold_cols(before) * self.nn() == self.nn() * fold_cols(before))
                        by (nonlinear_arith);
                    if is_ident {
                        assert(old_rows * fv.nrows() == self.nn()) by (nonlinear_arith)
                            requires
                                old_rows == 1nat,
                                fv.nrows() == self.nn(),
                        ;
                    } else {
                        assert(old_rows * fv.nrows() == old_rows) by (nonlinear_arith)
                            requires
                                fv.nrows() == 1nat,
                        ;
                    }
                }
                p2 = p2 + 1;
            }
            proof {
                assert(fold_cols(factors@) == mu.nrows());
                assert(fold_rows(factors@) == self.nn());
                assert(fold_rows(factors@) * mu.ncols() == self.nn() * self.nn())
                    by (nonlinear_arith)
                    requires
                        fold_rows(factors@) == self.nn(),
                        mu.ncols() == self.nn(),
                ;
            }
            let req = MatRequest::FoldMul(factors, mu);
            self.pending = BwdPending::MCand;
            proof {
                assert(self.asks(req));
            }
            return BwdStep::Ask(req);
        }
    }

    /// Move to the next tuple, the next identity position, or the next
    /// symbol. True when a tuple is still in play.
    fn step_tuple(&mut self) -> (more: bool)
        requires
            old(self).wf(),
            old(self).pending is Idle,
            old(self).sat is None,
            old(self).active,
        ensures
            final(self).wf(),
            final(self).pending is Idle,
            final(self).sat is None,
            final(self).n == old(self).n,
            final(self).syms == old(self).syms,
            final(self).mats == old(self).mats,
            final(self).gamma == old(self).gamma,
            final(self).ident == old(self).ident,
            final(self).f_clean == old(self).f_clean,
            final(self).m == old(self).m,
            final(self).eps_bits == old(self).eps_bits,
            more ==> final(self).active && final(self).sym == old(self).sym && final(self).ipos
                == old(self).ipos && final(self).tuple@.len() == old(self).tuple@.len()
                && final(self).f_clean == old(self).f_clean && tuple_val(
                final(self).tuple@,
                (final(self).tt() - 1) as usize,
            ) > tuple_val(old(self).tuple@, (old(self).tt() - 1) as usize),
            !more ==> (final(self).active && final(self).sym == old(self).sym && final(self).ipos
                > old(self).ipos) || (!final(self).active && final(self).sym > old(self).sym),
    {
        let t = self.f_clean.rows();
        proof {
            assert(self.tt() >= 1);
        }
        let mut x: Vec<usize> = Vec::new();
        let mut c: usize = 0;
        let len = self.tuple.len();
        while c < len
            invariant
                0 <= c <= len,
                len == old(self).tuple@.len(),
                self == old(self),
                x@.len() == c,
                forall|d: int| 0 <= d < c ==> x@[d] == old(self).tuple@[d],
            decreases len - c,
        {
            let v = self.tuple[c];
            x.push(v);
            c = c + 1;
        }
        proof {
            assert(x@ =~= self.tuple@);
        }
        match next_tuple(x, t - 1, false) {
            Some(y) => {
                proof {
                    assert forall|d: int| 0 <= d < y@.len() implies #[trigger] y@[d] < self.tt() by {
                        assert(1 <= y@[d] <= t - 1 || y@[d] == self.tuple@[d]);
                    }
                    lemma_lex_lt_val(self.tuple@, y@, (t - 1) as usize);
                }
                self.tuple = y;
                true
            },
            None => {
                let rank = self.syms[self.sym].1;
                if self.ipos + 1 < rank {
                    // Same symbol, next identity position, tuples start over.
                    self.ipos = self.ipos + 1;
                    let mut x2: Vec<usize> = Vec::new();
                    let mut c2: usize = 0;
                    while c2 < rank
                        invariant
                            0 <= c2 <= rank,
                            x2@.len() == c2,
                            forall|d: int| 0 <= d < c2 ==> x2@[d] == 0,
                        decreases rank - c2,
                    {
                        x2.push(0);
                        c2 = c2 + 1;
                    }
                    self.tuple = x2;
                } else {
                    let sl = self.syms.len();
                    self.active = false;
                    self.tuple = Vec::new();
                    self.sym = self.sym + 1;
                }
                false
            },
        }
    }

    /// Feed the previous request's answer and get the next job, or the
    /// backward basis.
    pub fn step(&mut self, reply: Option<MatReply>) -> (r: BwdStep)
        requires
            old(self).wf(),
            old(self).awaits(reply),
        ensures
            final(self).wf(),
            final(self).n == old(self).n,
            final(self).syms == old(self).syms,
            final(self).mats == old(self).mats,
            final(self).gamma == old(self).gamma,
            final(self).ident == old(self).ident,
            final(self).f_clean == old(self).f_clean,
            final(self).eps_bits == old(self).eps_bits,
            // The transform set grows exactly by the candidates that pass the
            // zero, identity and duplicate screens; the saturation phase never
            // touches it.
            match (old(self).sat, reply) {
                (None, Some(MatReply::Mat(c))) => final(self).m@ == if old(self).keeps(c) {
                    old(self).m@.push(c)
                } else {
                    old(self).m@
                },
                (None, None) => final(self).m == old(self).m,
                (Some(tz0), _) => final(self).m == old(self).m && final(self).sat is Some,
                _ => false,
            },
            match r {
                BwdStep::Ask(req) => {
                    &&& req.consistent()
                    &&& forall|rep: MatReply| req.answers(rep) ==> final(self).awaits(Some(rep))
                    &&& final(self).asks(req)
                    &&& Self::progressed(*old(self), *final(self))
                },
                BwdStep::Done(b) => {
                    // The result is the saturation's matrix, ended saturated or
                    // with its frontier exhausted.
                    &&& b.wf()
                    &&& b.shape(old(self).nn(), old(self).nn())
                    &&& match final(self).sat {
                        Some(tz) => b.same_bits(tz.b) && tz.measured && (tz.rank_b
                            == tz.max_rank() || tz.head == tz.queue@.len()),
                        None => false,
                    }
                },
            },
    {
        let has_sat = match &self.sat {
            Some(_) => true,
            None => false,
        };
        if has_sat {
            // The saturation phase owns every remaining request.
            let r = match &mut self.sat {
                Some(tz) => tz.step(reply),
                None => unreached(),
            };
            return match r {
                TzengStep::Ask(req) => BwdStep::Ask(req),
                TzengStep::Done(b) => BwdStep::Done(b),
            };
        }
        match reply {
            None => {
                proof {
                    assert(self.pending is Idle);
                }
                self.advance()
            },
            Some(MatReply::Mat(c)) => {
                proof {
                    assert(self.pending is MCand);
                }
                self.pending = BwdPending::Idle;
                // A candidate joins the transform set unless it is zero, a
                // duplicate, or the identity — the two signed zeros screened
                // as one value throughout.
                let mut keep = !c.is_zero();
                if keep && c.weights_eq(&self.ident) {
                    keep = false;
                }
                if keep {
                    let mut k: usize = 0;
                    while k < self.m.len()
                        invariant
                            self.wf(),
                            c.wf(),
                            0 <= k <= self.m@.len(),
                            self == old(self) || true,
                            keep == (!c.all_zero() && !c.same_weights(self.ident) && (forall|
                                j: int,
                            |
                                0 <= j < k ==> !c.same_weights(#[trigger] self.m@[j]))),
                        decreases self.m@.len() - k,
                    {
                        if c.weights_eq(&self.m[k]) {
                            keep = false;
                        }
                        k = k + 1;
                    }
                }
                let ghost kept = self.keeps(c);
                proof {
                    assert(keep == kept);
                }
                if keep {
                    self.m.push(c);
                }
                proof {
                    if kept {
                        assert(self.m@ == old(self).m@.push(c));
                    } else {
                        assert(self.m@ == old(self).m@);
                    }
                    lemma_tuple_val_bound(self.tuple@, (self.tt() - 1) as usize);
                }
                let more = self.step_tuple();
                let ghost mid = *self;
                proof {
                    assert(Self::progressed(*old(self), mid));
                }
                let r = self.advance();
                proof {
                    assert(match r {
                        BwdStep::Ask(_) => Self::progressed(*old(self), *self),
                        BwdStep::Done(_) => true,
                    });
                }
                r
            },
            _ => unreached(),
        }
    }
}

/// Set up the backward-space computation: compact the forward basis `f` by
/// dropping its all-zero rows, then enumerate the context transformations and
/// saturate from the final-weight vector.
#[verifier::loop_isolation(false)]
pub fn step_ii_backward(automaton_matrix: &WeightedTreeAutomatonMatrix, f: &WMatrix) -> (r: BwdRun)
    requires
        automaton_matrix.wf(),
        automaton_matrix.num_states >= 1,
        automaton_matrix.num_states * automaton_matrix.num_states <= usize::MAX,
        f.wf(),
        f.shape(automaton_matrix.num_states as nat, automaton_matrix.num_states as nat),
    ensures
        r.wf(),
        r.awaits(None),
        r.nn() == automaton_matrix.num_states as nat,
        // The machine starts on the automaton's proper symbols and matrices in
        // alphabet order, the final-weight vector as seed, the identity in
        // bits, and the forward basis compacted to its nonzero rows in order.
        r.syms@.len() == nonfinal_positions(automaton_matrix.ranked_alphabet@).len(),
        r.mats@.len() == r.syms@.len(),
        forall|k: int|
            0 <= k < r.syms@.len() ==> {
                let p = #[trigger] nonfinal_positions(automaton_matrix.ranked_alphabet@)[k];
                &&& r.syms@[k].0@ == automaton_matrix.ranked_alphabet@[p].0@
                &&& r.syms@[k].1 == automaton_matrix.ranked_alphabet@[p].1
                &&& r.mats@[k].same_bits(automaton_matrix.transition_matrices@[p].1)
            },
        r.gamma.same_bits(
            crate::data_structures::sym_value(
                automaton_matrix.transition_matrices@,
                final_sym(),
            ),
        ),
        forall|i: int, j: int|
            0 <= i < r.nn() && 0 <= j < r.nn() ==> r.ident.ent(i, j) == (if i == j {
                crate::matrix::ONE_BITS
            } else {
                crate::matrix::ZERO_BITS
            }),
        r.f_clean.nrows() == nonzero_row_positions(*f).len(),
        forall|k: int, c: int|
            0 <= k < r.f_clean.nrows() && 0 <= c < r.nn() ==> #[trigger] r.f_clean.ent(k, c)
                == f.ent(nonzero_row_positions(*f)[k], c),
        r.m@.len() == 0,
        r.sym == 0,
        !r.active,
        r.sat is None,
        r.pending is Idle,
        r.eps_bits == EPS_BITS,
{
    let n = automaton_matrix.num_states;
    let bang = final_symbol();
    let mut syms: Vec<(String, usize)> = Vec::new();
    let mut mats: Vec<WMatrix> = Vec::new();
    let alpha = &automaton_matrix.ranked_alphabet;
    let tm = &automaton_matrix.transition_matrices;
    let mut a: usize = 0;
    while a < alpha.len()
        invariant
            automaton_matrix.wf(),
            automaton_matrix.num_states == n,
            bang@ == final_sym(),
            0 <= a <= alpha@.len(),
            syms@.len() == mats@.len(),
            syms@.len() == nonfinal_positions(alpha@.subrange(0, a as int)).len(),
            forall|k: int|
                0 <= k < syms@.len() ==> {
                    let p = #[trigger] nonfinal_positions(alpha@.subrange(0, a as int))[k];
                    &&& 0 <= p < a
                    &&& syms@[k].0@ == alpha@[p].0@
                    &&& syms@[k].1 == alpha@[p].1
                    &&& mats@[k].same_bits(tm@[p].1)
                },
            forall|k: int|
                0 <= k < mats@.len() ==> (#[trigger] mats@[k]).wf() && mats@[k].shape(
                    spow(n as nat, syms@[k].1 as nat),
                    n as nat,
                ),
        decreases alpha@.len() - a,
    {
        let ghost pre = alpha@.subrange(0, a as int);
        let ghost cur = alpha@.subrange(0, a as int + 1);
        proof {
            assert(cur.drop_last() =~= pre);
            assert(cur.last() == alpha@[a as int]);
        }
        if !alpha[a].0.eq(&bang) {
            let sym = alpha[a].0.clone();
            let rank = alpha[a].1;
            let m = tm[a].1.duplicate();
            proof {
                assert(automaton_matrix.transition_matrices@[a as int].1.shape(
                    spow(n as nat, alpha@[a as int].1 as nat),
                    n as nat,
                ));
                assert(nonfinal_positions(cur) == nonfinal_positions(pre).push(a as int));
            }
            syms.push((sym, rank));
            mats.push(m);
        } else {
            proof {
                assert(nonfinal_positions(cur) == nonfinal_positions(pre));
            }
        }
        a = a + 1;
    }
    proof {
        assert(alpha@.subrange(0, alpha@.len() as int) =~= alpha@);
    }
    // The final-weight vector is the saturation seed.
    proof {
        lemma_first_pos_same_keys(
            automaton_matrix.ranked_alphabet@,
            automaton_matrix.transition_matrices@,
            final_sym(),
        );
        lemma_first_pos(automaton_matrix.ranked_alphabet@, final_sym());
    }
    let gamma = match lookup_first(&automaton_matrix.transition_matrices, &bang) {
        Some(g) => {
            proof {
                let p = first_pos(automaton_matrix.ranked_alphabet@, final_sym());
                assert(automaton_matrix.ranked_alphabet@[p].0@ == final_sym());
                assert(automaton_matrix.transition_matrices@[p].1 == *g);
            }
            g.duplicate()
        },
        None => unreached(),
    };
    let ident = match WMatrix::identity_bits(n) {
        Some(i) => i,
        None => unreached(),
    };
    // Compact the forward basis: only its nonzero rows carry information.
    let mut f_clean = match WMatrix::zeros(0, n) {
        Some(m) => m,
        None => {
            proof {
                assert(0 * n == 0) by (nonlinear_arith);
            }
            unreached()
        },
    };
    let mut r0: usize = 0;
    while r0 < n
        invariant
            f.wf(),
            f.shape(n as nat, n as nat),
            n * n <= usize::MAX,
            0 <= r0 <= n,
            f_clean.wf(),
            f_clean.ncols() == n as nat,
            f_clean.nrows() <= r0,
            forall|k: int| 0 <= k < f_clean.nrows() ==> !f_clean.row_zero(k),
            f_clean.nrows() == nonzero_rows_upto(*f, r0 as int).len(),
            forall|k: int|
                0 <= k < f_clean.nrows() ==> 0 <= #[trigger] nonzero_rows_upto(*f, r0 as int)[k]
                    < r0,
            forall|k: int, c: int|
                0 <= k < f_clean.nrows() && 0 <= c < n ==> #[trigger] f_clean.ent(k, c) == f.ent(
                    nonzero_rows_upto(*f, r0 as int)[k],
                    c,
                ),
        decreases n - r0,
    {
        if !f.row_is_zero(r0) {
            let row = f.row(r0);
            proof {
                assert((f_clean.nrows() + 1) * f_clean.ncols() <= n * n) by (nonlinear_arith)
                    requires
                        f_clean.nrows() + 1 <= n,
                        f_clean.ncols() == n as nat,
                ;
            }
            let ghost old_clean = f_clean;
            f_clean = f_clean.append_row(&row);
            proof {
                assert forall|k: int| 0 <= k < f_clean.nrows() implies !f_clean.row_zero(k) by {
                    if k < old_clean.nrows() {
                        assert(!old_clean.row_zero(k));
                        let c = choose|c: int|
                            0 <= c < old_clean.ncols() && !crate::matrix::zero_bits(
                                old_clean.ent(k, c),
                            );
                        assert(f_clean.ent(k, c) == old_clean.ent(k, c));
                    } else {
                        assert(!f.row_zero(r0 as int));
                        let c = choose|c: int|
                            0 <= c < f.ncols() && !crate::matrix::zero_bits(f.ent(r0 as int, c));
                        assert(row.ent(0, c) == f.ent(r0 as int, c));
                        assert(f_clean.ent(k, c) == row.ent(0, c));
                    }
                }
            }
        }
        r0 = r0 + 1;
    }
    BwdRun {
        n,
        syms,
        mats,
        gamma,
        ident,
        f_clean,
        m: Vec::new(),
        sym: 0,
        ipos: 0,
        tuple: Vec::new(),
        active: false,
        sat: None,
        pending: BwdPending::Idle,
        eps_bits: EPS_BITS,
    }
}

} // verus!
