use vstd::prelude::*;
use vstd::pervasive::unreached;
use crate::data_structures::final_sym;
use crate::data_structures::final_symbol;
use crate::data_structures::has_sym;
use crate::data_structures::lookup_first;
use crate::data_structures::lemma_first_pos;
use crate::data_structures::lemma_first_pos_same_keys;
use crate::data_structures::first_pos;
use crate::data_structures::spow;
use crate::data_structures::lemma_spow_mono;
use crate::data_structures::sym_value;
use crate::data_structures::AutomatonError;
use crate::data_structures::WeightedTreeAutomatonMatrix;
use crate::matrix::WMatrix;

verus! {

/// A labeled ordered tree: the input of the evaluation engine. Every node
/// carries a symbol of the automaton's alphabet and as many children as that
/// symbol's rank.
pub struct TreeNode {
    pub label: String,
    pub children: Vec<TreeNode>,
}

/// Every label of the tree has an entry in the alphabet and is not the
/// reserved final-weight pseudo-symbol.
pub open spec fn labels_ok(alpha: Seq<(String, usize)>, t: TreeNode) -> bool
    decreases t,
{
    &&& t.label@ != final_sym()
    &&& has_sym(alpha, t.label@)
    &&& forall|i: int| 0 <= i < t.children@.len() ==> labels_ok(alpha, #[trigger] t.children@[i])
}

/// The tree fits the automaton: every label is a proper alphabet symbol and
/// every node branches exactly as its symbol's rank declares.
pub open spec fn tree_ok(alpha: Seq<(String, usize)>, t: TreeNode) -> bool
    decreases t,
{
    &&& t.label@ != final_sym()
    &&& has_sym(alpha, t.label@)
    &&& sym_value(alpha, t.label@) == t.children@.len()
    &&& forall|i: int| 0 <= i < t.children@.len() ==> tree_ok(alpha, #[trigger] t.children@[i])
}

fn check_labels(alpha: &Vec<(String, usize)>, t: &TreeNode, bang: &String) -> (r: bool)
    requires
        bang@ == final_sym(),
    ensures
        r == labels_ok(alpha@, *t),
    decreases *t,
{
    if t.label.eq(bang) {
        return false;
    }
    match lookup_first(alpha, &t.label) {
        None => false,
        Some(_) => {
            let mut i: usize = 0;
            while i < t.children.len()
                invariant
                    bang@ == final_sym(),
                    t.label@ != final_sym(),
                    has_sym(alpha@, t.label@),
                    0 <= i <= t.children@.len(),
                    forall|j: int| 0 <= j < i ==> labels_ok(alpha@, #[trigger] t.children@[j]),
                decreases t.children@.len() - i,
            {
                if !check_labels(alpha, &t.children[i], bang) {
                    return false;
                }
                i = i + 1;
            }
            true
        },
    }
}

fn check_tree(alpha: &Vec<(String, usize)>, t: &TreeNode, bang: &String) -> (r: bool)
    requires
        bang@ == final_sym(),
    ensures
        r == tree_ok(alpha@, *t),
    decreases *t,
{
    if t.label.eq(bang) {
        return false;
    }
    match lookup_first(alpha, &t.label) {
        None => false,
        Some(rk) => {
            if *rk != t.children.len() {
                return false;
            }
            let mut i: usize = 0;
            while i < t.children.len()
                invariant
                    bang@ == final_sym(),
                    t.label@ != final_sym(),
                    has_sym(alpha@, t.label@),
                    sym_value(alpha@, t.label@) == t.children@.len(),
                    0 <= i <= t.children@.len(),
                    forall|j: int| 0 <= j < i ==> tree_ok(alpha@, #[trigger] t.children@[j]),
                decreases t.children@.len() - i,
            {
                if !check_tree(alpha, &t.children[i], bang) {
                    return false;
                }
                i = i + 1;
            }
            true
        },
    }
}

/// One step of the bottom-up evaluation: the node's symbol and how many child
/// values it consumes from the value stack.
pub struct EvalOp {
    pub sym: String,
    pub arity: usize,
}

/// The operations of `t` in evaluation order: children left to right, then the
/// node itself.
pub open spec fn ops_of(t: TreeNode) -> Seq<EvalOp>
    decreases t, t.children@.len() + 1nat,
{
    ops_of_children(t, t.children@.len() as int) + seq![
        EvalOp { sym: t.label, arity: t.children@.len() as usize },
    ]
}

/// The operations of the first `k` children of `t`, in order.
pub open spec fn ops_of_children(t: TreeNode, k: int) -> Seq<EvalOp>
    decreases t, k,
{
    if k <= 0 {
        Seq::empty()
    } else if k <= t.children@.len() {
        ops_of_children(t, k - 1) + ops_of(t.children@[k - 1])
    } else {
        Seq::empty()
    }
}

/// Running the operations against a value stack of the given depth never pops
/// more values than the stack holds.
pub open spec fn consumes_ok(ops: Seq<EvalOp>, depth: int) -> bool
    decreases ops.len(),
{
    if ops.len() == 0 {
        true
    } else {
        depth >= ops[0].arity && consumes_ok(ops.drop_first(), depth - ops[0].arity + 1)
    }
}

/// The stack depth left after running the operations.
pub open spec fn stack_after(ops: Seq<EvalOp>, depth: int) -> int
    decreases ops.len(),
{
    if ops.len() == 0 {
        depth
    } else {
        stack_after(ops.drop_first(), depth - ops[0].arity + 1)
    }
}

/// Oracle requests still owed before the run finishes: one multiplication per
/// node, plus one Kronecker product for each child beyond the first.
pub open spec fn reqs_of(ops: Seq<EvalOp>) -> int
    decreases ops.len(),
{
    if ops.len() == 0 {
        0
    } else {
        (if ops[0].arity == 0 {
            0int
        } else {
            ops[0].arity as int
        }) + reqs_of(ops.drop_first())
    }
}

/// The symbol of every operation has an alphabet entry of matching rank and is
/// not the final-weight pseudo-symbol.
pub open spec fn ops_valid(alpha: Seq<(String, usize)>, ops: Seq<EvalOp>) -> bool {
    forall|i: int|
        0 <= i < ops.len() ==> {
            let op = #[trigger] ops[i];
            &&& op.sym@ != final_sym()
            &&& has_sym(alpha, op.sym@)
            &&& sym_value(alpha, op.sym@) == op.arity
        }
}

proof fn lemma_concat_runs(a: Seq<EvalOp>, b: Seq<EvalOp>, depth: int)
    ensures
        consumes_ok(a + b, depth) == (consumes_ok(a, depth) && consumes_ok(
            b,
            stack_after(a, depth),
        )),
        stack_after(a + b, depth) == stack_after(b, stack_after(a, depth)),
        reqs_of(a + b) == reqs_of(a) + reqs_of(b),
    decreases a.len(),
{
    if a.len() == 0 {
        assert(a + b =~= b);
    } else {
        assert((a + b).drop_first() =~= a.drop_first() + b);
        lemma_concat_runs(a.drop_first(), b, depth - a[0].arity + 1);
    }
}

/// A well-formed tree's operation list runs cleanly on any stack and leaves
/// exactly one more value on it.
proof fn lemma_tree_ops(alpha: Seq<(String, usize)>, t: TreeNode, depth: int)
    requires
        tree_ok(alpha, t),
        depth >= 0,
    ensures
        consumes_ok(ops_of(t), depth),
        stack_after(ops_of(t), depth) == depth + 1,
        ops_valid(alpha, ops_of(t)),
        reqs_of(ops_of(t)) >= 0,
    decreases t, t.children@.len() + 1nat,
{
    let k = t.children@.len() as int;
    lemma_tree_ops_children(alpha, t, k, depth);
    let cs = ops_of_children(t, k);
    let node = seq![EvalOp { sym: t.label, arity: t.children@.len() as usize }];
    lemma_concat_runs(cs, node, depth);
    assert(t.children@.len() <= usize::MAX) by {
        assert(sym_value(alpha, t.label@) == t.children@.len());
    }
    assert(node[0].arity as int == k);
    assert(node.drop_first() =~= Seq::<EvalOp>::empty());
    assert(consumes_ok(Seq::<EvalOp>::empty(), depth + 1));
    assert(stack_after(Seq::<EvalOp>::empty(), depth + 1) == depth + 1);
    assert(reqs_of(Seq::<EvalOp>::empty()) == 0);
    assert(consumes_ok(node, depth + k));
    assert(stack_after(node, depth + k) == depth + 1);
    assert(reqs_of(node) >= 0);
    assert(ops_valid(alpha, ops_of(t))) by {
        assert forall|i: int| 0 <= i < ops_of(t).len() implies {
            let op = #[trigger] ops_of(t)[i];
            &&& op.sym@ != final_sym()
            &&& has_sym(alpha, op.sym@)
            &&& sym_value(alpha, op.sym@) == op.arity
        } by {
            if i < cs.len() {
                assert(ops_of(t)[i] == cs[i]);
            } else {
                assert(ops_of(t)[i] == node[i - cs.len()]);
            }
        }
    }
}

/// The operation lists of the first `k` children, run one after the other,
/// push one value each.
proof fn lemma_tree_ops_children(alpha: Seq<(String, usize)>, t: TreeNode, k: int, depth: int)
    requires
        tree_ok(alpha, t),
        0 <= k <= t.children@.len(),
        depth >= 0,
    ensures
        consumes_ok(ops_of_children(t, k), depth),
        stack_after(ops_of_children(t, k), depth) == depth + k,
        ops_valid(alpha, ops_of_children(t, k)),
        reqs_of(ops_of_children(t, k)) >= 0,
    decreases t, k,
{
    if k > 0 {
        lemma_tree_ops_children(alpha, t, k - 1, depth);
        assert(tree_ok(alpha, t.children@[k - 1]));
        lemma_tree_ops(alpha, t.children@[k - 1], depth + k - 1);
        let a = ops_of_children(t, k - 1);
        let b = ops_of(t.children@[k - 1]);
        lemma_concat_runs(a, b, depth);
        assert(ops_valid(alpha, ops_of_children(t, k))) by {
            assert forall|i: int| 0 <= i < ops_of_children(t, k).len() implies {
                let op = #[trigger] ops_of_children(t, k)[i];
                &&& op.sym@ != final_sym()
                &&& has_sym(alpha, op.sym@)
                &&& sym_value(alpha, op.sym@) == op.arity
            } by {
                if i < a.len() {
                    assert(ops_of_children(t, k)[i] == a[i]);
                } else {
                    assert(ops_of_children(t, k)[i] == b[i - a.len()]);
                }
            }
        }
    }
}

/// Flatten a tree into its evaluation order.
fn flatten(t: &TreeNode, out: &mut Vec<EvalOp>)
    ensures
        final(out)@ == old(out)@ + ops_of(*t),
    decreases *t,
{
    let mut ci: usize = 0;
    while ci < t.children.len()
        invariant
            0 <= ci <= t.children@.len(),
            out@ == old(out)@ + ops_of_children(*t, ci as int),
        decreases t.children@.len() - ci,
    {
        flatten(&t.children[ci], out);
        proof {
            assert(ops_of_children(*t, ci + 1) == ops_of_children(*t, ci as int) + ops_of(
                t.children@[ci as int],
            ));
            assert(old(out)@ + ops_of_children(*t, ci + 1) =~= (old(out)@ + ops_of_children(
                *t,
                ci as int,
            )) + ops_of(t.children@[ci as int]));
        }
        ci = ci + 1;
    }
    let op = EvalOp { sym: t.label.clone(), arity: t.children.len() };
    out.push(op);
    proof {
        assert(final(out)@ =~= old(out)@ + ops_of(*t)) by {
            assert(ops_of(*t) == ops_of_children(*t, t.children@.len() as int) + seq![
                EvalOp { sym: t.label, arity: t.children@.len() as usize },
            ]);
        }
    }
}

/// A matrix product the evaluation asks its calculator for: the Kronecker
/// product of two row vectors, or an ordinary matrix product.
pub enum EvalRequest {
    Kron(WMatrix, WMatrix),
    Mul(WMatrix, WMatrix),
}

impl EvalRequest {
    /// The request's operands agree in shape, and the result fits memory.
    pub open spec fn consistent(self) -> bool {
        match self {
            EvalRequest::Kron(a, b) => {
                &&& a.wf()
                &&& b.wf()
                &&& a.nrows() * b.nrows() <= usize::MAX
                &&& a.ncols() * b.ncols() <= usize::MAX
            },
            EvalRequest::Mul(a, b) => {
                &&& a.wf()
                &&& b.wf()
                &&& a.ncols() == b.nrows()
                &&& a.nrows() * b.ncols() <= usize::MAX
            },
        }
    }

    /// The shape of the reply the request calls for.
    pub open spec fn reply_shape(self) -> (nat, nat) {
        match self {
            EvalRequest::Kron(a, b) => (a.nrows() * b.nrows(), a.ncols() * b.ncols()),
            EvalRequest::Mul(a, b) => (a.nrows(), b.ncols()),
        }
    }
}

/// What the evaluation hands back per step: the next product to compute, or
/// the finished scalar weight as its IEEE-754 double bit pattern.
pub enum EvalStep {
    Ask(EvalRequest),
    Done(u64),
}

/// The state of one tree evaluation. The run works through the tree's
/// operations bottom-up over a stack of row vectors; every product of encoded
/// reals is delegated to the caller's calculator, whose reply feeds the next
/// `step` call. The arranging, popping and pushing is all verified; the run
/// never asks for a product whose shapes disagree.
pub struct Evaluation {
    pub automaton: WeightedTreeAutomatonMatrix,
    pub schedule: Vec<EvalOp>,
    pub next: usize,
    pub stack: Vec<WMatrix>,
    pub folded: usize,
    pub acc: Option<WMatrix>,
    pub finishing: bool,
}

impl Evaluation {
    /// The machine's invariant: the remaining schedule runs cleanly on the
    /// value stack and finishes with the single root value; while a node is
    /// being folded, the accumulator holds the Kronecker product of its first
    /// `folded` children.
    pub open spec fn wf(self) -> bool {
        let n = self.automaton.num_states as nat;
        let rest = self.schedule@.skip(self.next as int);
        &&& self.automaton.wf()
        &&& self.next <= self.schedule@.len()
        &&& forall|i: int|
            0 <= i < self.stack@.len() ==> (#[trigger] self.stack@[i]).wf()
                && self.stack@[i].shape(1, n)
        &&& ops_valid(self.automaton.ranked_alphabet@, rest)
        &&& if self.finishing {
            &&& self.next == self.schedule@.len()
            &&& self.stack@.len() == 1
            &&& self.acc is None
        } else {
            &&& consumes_ok(rest, self.stack@.len() as int)
            &&& stack_after(rest, self.stack@.len() as int) == 1
            &&& match self.acc {
                Some(acc) => {
                    &&& self.next < self.schedule@.len()
                    &&& 1 <= self.folded <= self.schedule@[self.next as int].arity
                    &&& self.schedule@[self.next as int].arity >= 1
                    &&& acc.wf()
                    &&& acc.shape(1, spow(n, self.folded as nat))
                },
                None => self.folded == 0,
            }
        }
    }

    /// The shape of the reply the machine is waiting for, or `None` before the
    /// first step.
    pub open spec fn expects(self) -> Option<(nat, nat)> {
        let n = self.automaton.num_states as nat;
        if self.finishing {
            Some((1nat, 1nat))
        } else {
            match self.acc {
                Some(_) => {
                    if self.folded < self.schedule@[self.next as int].arity {
                        Some((1nat, spow(n, (self.folded + 1) as nat)))
                    } else {
                        Some((1nat, n))
                    }
                },
                None => None,
            }
        }
    }

    /// How many calculator replies the run still needs.
    pub open spec fn owed(self) -> int {
        let rest = self.schedule@.skip(self.next as int);
        if self.finishing {
            1
        } else {
            reqs_of(rest) + 2 - self.folded
        }
    }

    /// The request the state calls for: fold the next child row into the
    /// accumulator, apply the current symbol's transition matrix to the
    /// finished fold, or close the root value with the final-weight vector.
    pub open spec fn asks(self, req: EvalRequest) -> bool {
        if self.finishing {
            req matches EvalRequest::Mul(a, b) && a.same_bits(self.stack@[0]) && b.same_bits(
                sym_value(self.automaton.transition_matrices@, final_sym()),
            )
        } else {
            match self.acc {
                Some(acc) => {
                    let k = self.schedule@[self.next as int].arity;
                    if self.folded < k {
                        req matches EvalRequest::Kron(a, b) && a.same_bits(acc) && b.same_bits(
                            self.stack@[self.stack@.len() - k + self.folded],
                        )
                    } else {
                        req matches EvalRequest::Mul(a, b) && a.same_bits(acc) && b.same_bits(
                            sym_value(
                                self.automaton.transition_matrices@,
                                self.schedule@[self.next as int].sym@,
                            ),
                        )
                    }
                },
                None => false,
            }
        }
    }
}


proof fn lemma_ops_valid_drop(alpha: Seq<(String, usize)>, ops: Seq<EvalOp>)
    requires
        ops_valid(alpha, ops),
        ops.len() > 0,
    ensures
        ops_valid(alpha, ops.drop_first()),
{
    assert forall|i: int| 0 <= i < ops.drop_first().len() implies {
        let op = #[trigger] ops.drop_first()[i];
        &&& op.sym@ != final_sym()
        &&& has_sym(alpha, op.sym@)
        &&& sym_value(alpha, op.sym@) == op.arity
    } by {
        assert(ops.drop_first()[i] == ops[i + 1]);
    }
}

proof fn lemma_reqs_nonneg(ops: Seq<EvalOp>)
    ensures
        reqs_of(ops) >= 0,
    decreases ops.len(),
{
    if ops.len() > 0 {
        lemma_reqs_nonneg(ops.drop_first());
    }
}

/// Set up the evaluation of `tree` under the automaton: the scalar weight the
/// automaton assigns to the tree is what the run computes. Succeeds exactly on
/// trees whose labels are alphabet symbols used with their declared rank.
pub fn compute_val_for_tree(
    automaton_struct: WeightedTreeAutomatonMatrix,
    tree: &TreeNode,
) -> (r: Result<Evaluation, AutomatonError>)
    requires
        automaton_struct.wf(),
    ensures
        match r {
            Ok(run) => {
                &&& tree_ok(automaton_struct.ranked_alphabet@, *tree)
                &&& run.wf()
                &&& run.expects() is None
                &&& run.automaton == automaton_struct
                &&& run.schedule@ == ops_of(*tree)
                &&& run.next == 0
                &&& run.stack@.len() == 0
                &&& run.acc is None
                &&& run.folded == 0
                &&& !run.finishing
            },
            Err(e) => {
                ||| (e == AutomatonError::MissingTransitionEntry && !labels_ok(
                    automaton_struct.ranked_alphabet@,
                    *tree,
                ))
                ||| (e == AutomatonError::DimensionMismatch && labels_ok(
                    automaton_struct.ranked_alphabet@,
                    *tree,
                ) && !tree_ok(automaton_struct.ranked_alphabet@, *tree))
            },
        },
{
    let bang = final_symbol();
    if !check_labels(&automaton_struct.ranked_alphabet, tree, &bang) {
        return Err(AutomatonError::MissingTransitionEntry);
    }
    if !check_tree(&automaton_struct.ranked_alphabet, tree, &bang) {
        return Err(AutomatonError::DimensionMismatch);
    }
    let mut schedule: Vec<EvalOp> = Vec::new();
    flatten(tree, &mut schedule);
    let run = Evaluation {
        automaton: automaton_struct,
        schedule,
        next: 0,
        stack: Vec::new(),
        folded: 0,
        acc: None,
        finishing: false,
    };
    proof {
        lemma_tree_ops(run.automaton.ranked_alphabet@, *tree, 0);
        assert(run.schedule@ =~= ops_of(*tree));
        assert(run.schedule@ == ops_of(*tree));
        assert(run.schedule@.skip(0) =~= run.schedule@);
    }
    Ok(run)
}

impl Evaluation {
    /// The transition matrix recorded for `sym`.
    fn matrix_of(&self, sym: &String) -> (m: &WMatrix)
        requires
            self.automaton.wf(),
            has_sym(self.automaton.ranked_alphabet@, sym@),
        ensures
            m.wf(),
            *m == sym_value(self.automaton.transition_matrices@, sym@),
            sym@ != final_sym() ==> m.shape(
                spow(
                    self.automaton.num_states as nat,
                    sym_value(self.automaton.ranked_alphabet@, sym@) as nat,
                ),
                self.automaton.num_states as nat,
            ),
            sym@ == final_sym() ==> m.shape(self.automaton.num_states as nat, 1),
    {
        proof {
            lemma_first_pos_same_keys(
                self.automaton.ranked_alphabet@,
                self.automaton.transition_matrices@,
                sym@,
            );
            lemma_first_pos(self.automaton.ranked_alphabet@, sym@);
        }
        match lookup_first(&self.automaton.transition_matrices, sym) {
            Some(m) => {
                proof {
                    let p = first_pos(self.automaton.ranked_alphabet@, sym@);
                    assert(self.automaton.ranked_alphabet@[p].0@ == sym@);
                    assert(self.automaton.transition_matrices@[p].1 == *m);
                }
                m
            },
            None => unreached(),
        }
    }

    /// Run until the next product is needed or the scalar is finished. The
    /// reply must answer the previously returned request; the first call takes
    /// none. Every request handed out has agreeing shapes, and each step owes
    /// the calculator strictly fewer replies, so a run always finishes.
    #[verifier::loop_isolation(false)]
    pub fn step(&mut self, reply: Option<WMatrix>) -> (r: EvalStep)
        requires
            old(self).wf(),
            match (reply, old(self).expects()) {
                (Some(m), Some(shape)) => m.wf() && m.nrows() == shape.0 && m.ncols() == shape.1,
                (None, None) => true,
                _ => false,
            },
        ensures
            final(self).wf(),
            final(self).automaton == old(self).automaton,
            final(self).schedule == old(self).schedule,
            // The run closes exactly once, right after the final product.
            (r is Done) == old(self).finishing,
            match r {
                EvalStep::Ask(req) => {
                    &&& req.consistent()
                    &&& final(self).expects() == Some(req.reply_shape())
                    &&& final(self).owed() < old(self).owed()
                    &&& final(self).asks(req)
                },
                EvalStep::Done(v) => {
                    &&& *final(self) == *old(self)
                    &&& match reply {
                        Some(m) => v == m.ent(0, 0),
                        None => false,
                    }
                },
            },
            // How a reply is folded in: a Kronecker product becomes the new
            // accumulator; a finished node value replaces its children on the
            // stack, and everything later stacks above it.
            match (reply, old(self).acc) {
                (Some(m), Some(acc0)) => {
                    let k = old(self).schedule@[old(self).next as int].arity;
                    if old(self).folded < k {
                        &&& final(self).acc == Some(m)
                        &&& final(self).folded == old(self).folded + 1
                        &&& final(self).stack == old(self).stack
                        &&& final(self).next == old(self).next
                    } else {
                        &&& final(self).next > old(self).next
                        &&& final(self).stack@.len() >= old(self).stack@.len() - k + 1
                        &&& final(self).stack@.subrange(0, old(self).stack@.len() - k + 1)
                            == old(self).stack@.subrange(0, old(self).stack@.len() - k).push(m)
                    }
                },
                _ => true,
            },
    {
        let ghost nn = self.automaton.num_states as nat;
        proof {
            lemma_reqs_nonneg(self.schedule@.skip(self.next as int));
        }
        if self.finishing {
            let m = match reply {
                Some(m) => m,
                None => unreached(),
            };
            return EvalStep::Done(m.get(0, 0));
        }

        // Digest the reply of the request in flight, if one was out.
        match reply {
            None => {
                proof {
                    assert(self.acc is None);
                }
            },
            Some(m) => {
                let k = match &self.acc {
                    Some(_) => self.schedule[self.next].arity,
                    None => unreached(),
                };
                if self.folded < k {
                    // One more child folded into the Kronecker product.
                    self.acc = Some(m);
                    self.folded = self.folded + 1;
                } else {
                    // The node's value is finished: it replaces its children.
                    let ghost old_stack = self.stack@;
                    let ghost rest = self.schedule@.skip(self.next as int);
                    proof {
                        assert(self.next < self.schedule@.len());
                        assert(rest[0] == self.schedule@[self.next as int]);
                        assert(consumes_ok(rest, old_stack.len() as int));
                        assert(old_stack.len() >= k);
                        assert(consumes_ok(rest.drop_first(), old_stack.len() - k + 1));
                        assert(stack_after(rest.drop_first(), old_stack.len() - k + 1) == 1);
                        assert(reqs_of(rest) == k + reqs_of(rest.drop_first()));
                        lemma_ops_valid_drop(self.automaton.ranked_alphabet@, rest);
                    }
                    let mut j: usize = 0;
                    while j < k
                        invariant
                            0 <= j <= k,
                            k <= old_stack.len(),
                            self.stack@ =~= old_stack.subrange(0, old_stack.len() - j),
                            self.automaton == old(self).automaton,
                            self.schedule == old(self).schedule,
                            self.next == old(self).next,
                            self.acc == old(self).acc,
                            self.folded == old(self).folded,
                            self.finishing == old(self).finishing,
                        decreases k - j,
                    {
                        let _ = self.stack.pop();
                        j = j + 1;
                    }
                    self.stack.push(m);
                    self.acc = None;
                    self.folded = 0;
                    let _cap = self.schedule.len();
                    proof {
                        assert(self.next == old(self).next);
                        assert(old(self).next < old(self).schedule@.len());
                    }
                    self.next = self.next + 1;
                    proof {
                        assert(rest.drop_first() =~= self.schedule@.skip(self.next as int));
                        assert(self.stack@.len() == old_stack.len() - k + 1);
                        assert forall|i: int|
                            0 <= i < self.stack@.len() implies (#[trigger] self.stack@[i]).wf()
                            && self.stack@[i].shape(1, nn) by {
                            if i < self.stack@.len() - 1 {
                                assert(self.stack@[i] == old_stack[i]);
                            }
                        }
                    }
                }
            },
        }

        // Walk the schedule: leaves push their row directly; the first inner
        // node starts a fold and asks for its first product.
        loop
            invariant
                !self.finishing,
                self.acc is None ==> self.folded == 0,
                self.automaton.wf(),
                self.automaton == old(self).automaton,
                self.schedule == old(self).schedule,
                self.next <= self.schedule@.len(),
                forall|i: int|
                    0 <= i < self.stack@.len() ==> (#[trigger] self.stack@[i]).wf()
                        && self.stack@[i].shape(1, nn),
                ops_valid(
                    self.automaton.ranked_alphabet@,
                    self.schedule@.skip(self.next as int),
                ),
                consumes_ok(self.schedule@.skip(self.next as int), self.stack@.len() as int),
                stack_after(self.schedule@.skip(self.next as int), self.stack@.len() as int) == 1,
                match self.acc {
                    Some(acc) => {
                        &&& self.next < self.schedule@.len()
                        &&& 1 <= self.folded <= self.schedule@[self.next as int].arity
                        &&& self.schedule@[self.next as int].arity >= 1
                        &&& acc.wf()
                        &&& acc.shape(1, spow(nn, self.folded as nat))
                    },
                    None => self.folded == 0,
                },
                self.owed() + (if self.acc is Some {
                    1int
                } else {
                    0int
                }) <= old(self).owed(),
                match (reply, old(self).acc) {
                    (Some(m), Some(acc0)) => {
                        let k = old(self).schedule@[old(self).next as int].arity;
                        if old(self).folded < k {
                            &&& self.acc == Some(m)
                            &&& self.folded == old(self).folded + 1
                            &&& self.stack == old(self).stack
                            &&& self.next == old(self).next
                        } else {
                            &&& self.next > old(self).next
                            &&& self.stack@.len() >= old(self).stack@.len() - k + 1
                            &&& self.stack@.subrange(0, old(self).stack@.len() - k + 1)
                                == old(self).stack@.subrange(0, old(self).stack@.len() - k).push(m)
                        }
                    },
                    _ => true,
                },
            decreases self.schedule@.len() - self.next + (if self.acc is Some {
                0int
            } else {
                1int
            }),
    {
            let ghost rest = self.schedule@.skip(self.next as int);
            proof {
                lemma_reqs_nonneg(rest);
            }
            match &self.acc {
                Some(acc) => {
                    let k = self.schedule[self.next].arity;
                    let op_sym = &self.schedule[self.next].sym;
                    proof {
                        assert(rest[0] == self.schedule@[self.next as int]);
                    }
                    if self.folded < k {
                        // Fold the next child in from the left.
                        proof {
                            assert(consumes_ok(rest, self.stack@.len() as int));
                        }
                        let base = self.stack.len() - k;
                        let child = self.stack[base + self.folded].duplicate();
                        let a = acc.duplicate();
                        proof {
                            assert(spow(nn, (self.folded + 1) as nat) == nn * spow(
                                nn,
                                self.folded as nat,
                            ));
                            assert(spow(nn, self.folded as nat) * nn == nn * spow(
                                nn,
                                self.folded as nat,
                            )) by (nonlinear_arith);
                            assert(a.ncols() * child.ncols() == spow(nn, (self.folded + 1) as nat));
                            if nn >= 1 {
                                lemma_spow_mono(nn, (self.folded + 1) as nat, k as nat);
                                assert(spow(nn, k as nat) <= usize::MAX) by {
                                    lemma_first_pos_same_keys(
                                        self.automaton.ranked_alphabet@,
                                        self.automaton.transition_matrices@,
                                        op_sym@,
                                    );
                                    lemma_first_pos(self.automaton.ranked_alphabet@, op_sym@);
                                    let p = first_pos(self.automaton.ranked_alphabet@, op_sym@);
                                    assert(self.automaton.transition_matrices@[p].1.shape(
                                        spow(nn, k as nat),
                                        nn,
                                    ));
                                }
                            } else {
                                assert(spow(nn, (self.folded + 1) as nat) == 0) by {
                                    assert(nn * spow(nn, self.folded as nat) == 0)
                                        by (nonlinear_arith)
                                        requires
                                            nn == 0nat,
                                    ;
                                }
                            }
                            assert(a.nrows() * child.nrows() == 1);
                        }
                        let req = EvalRequest::Kron(a, child);
                        proof {
                            assert(self.asks(req));
                        }
                        return EvalStep::Ask(req);
                    } else {
                        // All children folded: apply the transition matrix.
                        let mu = self.matrix_of(op_sym).duplicate();
                        let a = acc.duplicate();
                        let req = EvalRequest::Mul(a, mu);
                        proof {
                            assert(self.asks(req));
                        }
                        return EvalStep::Ask(req);
                    }
                },
                None => {
                    if self.next < self.schedule.len() {
                        let arity = self.schedule[self.next].arity;
                        proof {
                            assert(rest[0] == self.schedule@[self.next as int]);
                            assert(rest.drop_first() =~= self.schedule@.skip(self.next + 1));
                        }
                        if arity == 0 {
                            // A leaf's value is its symbol's one-row matrix.
                            proof {
                                assert(consumes_ok(rest, self.stack@.len() as int));
                                assert(consumes_ok(rest.drop_first(), self.stack@.len() as int + 1));
                                assert(stack_after(rest.drop_first(), self.stack@.len() as int + 1) == 1);
                                assert(reqs_of(rest) == reqs_of(rest.drop_first()));
                                assert(spow(nn, 0) == 1);
                                lemma_ops_valid_drop(self.automaton.ranked_alphabet@, rest);
                            }
                            let mu = {
                                let op_sym = &self.schedule[self.next].sym;
                                self.matrix_of(op_sym).duplicate()
                            };
                            self.stack.push(mu);
                            self.next = self.next + 1;
                        } else {
                            // Start folding this node's children.
                            proof {
                                assert(consumes_ok(rest, self.stack@.len() as int));
                                assert(spow(nn, 1) == nn * spow(nn, 0));
                                assert(nn * 1 == nn) by (nonlinear_arith);
                            }
                            let base = self.stack.len() - arity;
                            let first = self.stack[base].duplicate();
                            self.acc = Some(first);
                            self.folded = 1;
                        }
                    } else {
                        // Only the root's value is left: close with the final
                        // weight vector.
                        proof {
                            assert(self.schedule@.skip(self.next as int)
                                =~= Seq::<EvalOp>::empty());
                            assert(self.stack@.len() == 1);
                        }
                        self.finishing = true;
                        let bang = final_symbol();
                        proof {
                            assert(has_sym(self.automaton.ranked_alphabet@, final_sym()));
                        }
                        let gamma = self.matrix_of(&bang).duplicate();
                        let root = self.stack[0].duplicate();
                        let req = EvalRequest::Mul(root, gamma);
                        proof {
                            assert(self.asks(req));
                        }
                        return EvalStep::Ask(req);
                    }
                },
            }
        }
    }
}

} // verus!
