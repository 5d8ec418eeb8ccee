use vstd::prelude::*;
use vstd::pervasive::unreached;
use vstd::string::StringExecFns;
use crate::matrix::WMatrix;
use crate::matrix::ZERO_BITS;
use crate::states::has_name;
use crate::states::state_index;
use crate::states::strictly_sorted;
use crate::states::insert_state;
use crate::states::find_name;
use crate::states::lemma_state_index;

verus! {

/// The direction in which the productions of an automaton read a tree. Only
/// bottom-up automata are converted and minimized; top-down ones are parsed
/// into the same shapes for a later extension.
#[derive(Clone, Copy, Debug, PartialEq, Eq, Structural)]
pub enum GrammarType {
    BottomUp,
    TopDown,
}

/// One production rule. For a bottom-up rule the left states are the ordered
/// child states (as many as the root symbol's rank) and the right states hold
/// the single resulting state; the final-weight pseudo-rule instead stores its
/// one state as the only left entry and nothing on the right. The cost is the
/// rule's real-valued weight, held as its IEEE-754 double bit pattern.
#[derive(Clone, Debug)]
pub struct Production {
    pub root_symbol: String,
    pub left_states: Vec<String>,
    pub right_states: Vec<String>,
    pub cost: u64,
}

/// A weighted tree automaton in rule-list form: the output of a grammar
/// reader and the sole input of the matrix conversion.
#[derive(Clone, Debug)]
pub struct WeightedTreeAutomatonStruct {
    pub num_states: usize,
    pub grammar_type: GrammarType,
    pub ranked_alphabet: Vec<(String, usize)>,
    pub transition_structs: Vec<(String, Vec<Production>)>,
}

/// A weighted tree automaton in matrix form: one transition matrix per symbol
/// of the ranked alphabet, each of shape `n^rank x n` over `n` states, and the
/// final-weight column vector of shape `n x 1` under the reserved symbol `!`.
#[derive(Clone, Debug)]
pub struct WeightedTreeAutomatonMatrix {
    pub num_states: usize,
    pub grammar_type: GrammarType,
    pub ranked_alphabet: Vec<(String, usize)>,
    pub transition_matrices: Vec<(String, WMatrix)>,
}

/// What can go wrong while converting, evaluating or minimizing an automaton.
#[derive(Clone, Copy, Debug, PartialEq, Eq, Structural)]
pub enum AutomatonError {
    /// A symbol in use has no transition matrix or production list.
    MissingTransitionEntry,
    /// A production or tree node disagrees with its symbol's declared rank, or
    /// a matrix shape cannot be represented.
    DimensionMismatch,
    /// The rule list contradicts itself or its own state count.
    MalformedProduction,
    /// The least-squares solve of the projection step found no solution.
    UnsolvableProjection,
}

/// The name of the reserved final-weight pseudo-symbol.
pub open spec fn final_sym() -> Seq<char> {
    seq!['!']
}

/// The reserved final-weight pseudo-symbol as a string.
pub fn final_symbol() -> (s: String)
    ensures
        s@ == final_sym(),
{
    let s = String::from_str("!");
    proof {
        reveal_strlit("!");
        assert(s@ =~= seq!['!']);
    }
    s
}

/// Position of the first entry keyed by `sym`, or -1 when there is none.
pub open spec fn first_pos<T>(entries: Seq<(String, T)>, sym: Seq<char>) -> int
    decreases entries.len(),
{
    if entries.len() == 0 {
        -1
    } else if entries[0].0@ == sym {
        0
    } else {
        let r = first_pos(entries.drop_first(), sym);
        if r == -1 {
            -1
        } else {
            r + 1
        }
    }
}

pub open spec fn has_sym<T>(entries: Seq<(String, T)>, sym: Seq<char>) -> bool {
    first_pos(entries, sym) >= 0
}

/// Value of the first entry keyed by `sym`.
pub open spec fn sym_value<T>(entries: Seq<(String, T)>, sym: Seq<char>) -> T {
    entries[first_pos(entries, sym)].1
}

pub proof fn lemma_first_pos<T>(entries: Seq<(String, T)>, sym: Seq<char>)
    ensures
        has_sym(entries, sym) ==> {
            let p = first_pos(entries, sym);
            &&& 0 <= p < entries.len()
            &&& entries[p].0@ == sym
            &&& forall|i: int| 0 <= i < p ==> entries[i].0@ != sym
        },
        !has_sym(entries, sym) ==> forall|i: int|
            0 <= i < entries.len() ==> entries[i].0@ != sym,
    decreases entries.len(),
{
    if entries.len() == 0 {
    } else if entries[0].0@ == sym {
    } else {
        lemma_first_pos(entries.drop_first(), sym);
        assert forall|i: int| 1 <= i < entries.len() implies entries.drop_first()[i - 1]
            == entries[i] by {}
    }
}

/// `n` raised to the `k`-th power.
pub open spec fn spow(n: nat, k: nat) -> nat
    decreases k,
{
    if k == 0 {
        1
    } else {
        n * spow(n, (k - 1) as nat)
    }
}

pub proof fn lemma_spow_mono(n: nat, i: nat, j: nat)
    requires
        n >= 1,
        i <= j,
    ensures
        spow(n, i) <= spow(n, j),
    decreases j - i,
{
    if i < j {
        lemma_spow_mono(n, i, (j - 1) as nat);
        assert(spow(n, j) == n * spow(n, (j - 1) as nat));
        assert(n * spow(n, (j - 1) as nat) >= spow(n, (j - 1) as nat)) by (nonlinear_arith)
            requires
                n >= 1,
        ;
    }
}

/// `n^k` as a machine integer, or `None` when it does not fit.
pub fn pow_usize(n: usize, k: usize) -> (r: Option<usize>)
    ensures
        match r {
            Some(v) => v == spow(n as nat, k as nat),
            None => spow(n as nat, k as nat) > usize::MAX,
        },
{
    let mut acc: usize = 1;
    let mut i: usize = 0;
    while i < k
        invariant
            0 <= i <= k,
            acc == spow(n as nat, i as nat),
        decreases k - i,
    {
        match acc.checked_mul(n) {
            Some(next) => {
                proof {
                    assert(spow(n as nat, (i + 1) as nat) == n * spow(n as nat, i as nat));
                    assert(n * acc == acc * n) by (nonlinear_arith);
                }
                acc = next;
                i = i + 1;
            },
            None => {
                proof {
                    assert(acc * n == n * acc) by (nonlinear_arith);
                    assert(spow(n as nat, (i + 1) as nat) > usize::MAX);
                    assert(n >= 1) by {
                        if n == 0 {
                            assert(acc * n == 0) by (nonlinear_arith)
                                requires
                                    n == 0usize,
                            ;
                        }
                    }
                    lemma_spow_mono(n as nat, (i + 1) as nat, k as nat);
                }
                return None;
            },
        }
    }
    Some(acc)
}

/// First entry of the association list keyed by `sym`, scanning from the
/// front.
#[verifier::loop_isolation(false)]
pub fn lookup_first<'a, T>(entries: &'a Vec<(String, T)>, sym: &String) -> (r: Option<&'a T>)
    ensures
        match r {
            Some(v) => has_sym(entries@, sym@) && *v == sym_value(entries@, sym@),
            None => !has_sym(entries@, sym@),
        },
{
    proof {
        lemma_first_pos(entries@, sym@);
    }
    let mut i: usize = 0;
    while i < entries.len()
        invariant
            0 <= i <= entries@.len(),
            forall|j: int| 0 <= j < i ==> entries@[j].0@ != sym@,
        decreases entries@.len() - i,
    {
        if entries[i].0.eq(sym) {
            proof {
                let p = first_pos(entries@, sym@);
                assert(has_sym(entries@, sym@)) by {
                    if p == -1 {
                        assert(entries@[i as int].0@ != sym@);
                    }
                }
                assert(p == i) by {
                    if p < i {
                        assert(entries@[p].0@ != sym@);
                    }
                    if p > i {
                        assert(entries@[i as int].0@ != sym@);
                    }
                }
            }
            return Some(&entries[i].1);
        }
        i = i + 1;
    }
    proof {
        if has_sym(entries@, sym@) {
            let p = first_pos(entries@, sym@);
            assert(entries@[p].0@ != sym@);
        }
    }
    None
}

/// Some production of the list mentions the state `nm`, on either side.
pub open spec fn prod_has_state(p: Production, nm: Seq<char>) -> bool {
    has_name(p.left_states@, nm) || has_name(p.right_states@, nm)
}

pub open spec fn list_has_state(ps: Seq<Production>, nm: Seq<char>) -> bool {
    exists|j: int| 0 <= j < ps.len() && prod_has_state(ps[j], nm)
}

/// Some production anywhere in the rule list mentions the state `nm`.
pub open spec fn struct_has_state(ts: Seq<(String, Vec<Production>)>, nm: Seq<char>) -> bool {
    exists|i: int| 0 <= i < ts.len() && list_has_state(ts[i].1@, nm)
}

/// The row selected by a production's left states: their indices in the state
/// order read as one number with the leftmost state most significant, base
/// `n`. The final-weight pseudo-rule is indexed directly by its single state.
pub open spec fn row_index(order: Seq<String>, n: nat, states: Seq<String>) -> int
    decreases states.len(),
{
    if states.len() == 0 {
        0
    } else {
        row_index(order, n, states.drop_last()) * n + state_index(order, states.last()@)
    }
}

pub open spec fn prod_row(order: Seq<String>, n: nat, is_final: bool, p: Production) -> int {
    if is_final {
        state_index(order, p.left_states@[0]@)
    } else {
        row_index(order, n, p.left_states@)
    }
}

pub open spec fn prod_col(order: Seq<String>, is_final: bool, p: Production) -> int {
    if is_final {
        0
    } else {
        state_index(order, p.right_states@[0]@)
    }
}

/// The bit pattern that the cell `(r, c)` holds after the productions have
/// written their costs in order: the last production selecting the cell wins,
/// and an untouched cell keeps the zero weight.
pub open spec fn written_cell(
    order: Seq<String>,
    n: nat,
    is_final: bool,
    prods: Seq<Production>,
    r: int,
    c: int,
) -> u64
    decreases prods.len(),
{
    if prods.len() == 0 {
        ZERO_BITS
    } else if prod_row(order, n, is_final, prods.last()) == r && prod_col(order, is_final, prods.last()) == c {
        prods.last().cost
    } else {
        written_cell(order, n, is_final, prods.drop_last(), r, c)
    }
}

/// A production's shape agrees with its symbol's declared rank.
pub open spec fn prod_ok(p: Production, rank: nat, is_final: bool) -> bool {
    if is_final {
        p.left_states@.len() == 1 && p.right_states@.len() == 0
    } else {
        p.left_states@.len() == rank && p.right_states@.len() == 1
    }
}

/// The productions recorded for `sym`, or none.
pub open spec fn prods_of(ts: Seq<(String, Vec<Production>)>, sym: Seq<char>) -> Seq<Production> {
    if has_sym(ts, sym) {
        sym_value(ts, sym)@
    } else {
        Seq::empty()
    }
}

/// Whether `n^rank` cells per column and `n` columns fit the address space.
pub open spec fn dims_ok(n: nat, rank: nat) -> bool {
    spow(n, rank) <= usize::MAX && spow(n, rank) * n <= usize::MAX
}

impl WeightedTreeAutomatonMatrix {
    /// Shape discipline of the matrix form: one matrix per alphabet entry, in
    /// alphabet order; a symbol of rank `k` owns an `n^k x n` matrix; the
    /// reserved `!` entry owns the `n x 1` final-weight vector and its
    /// recorded rank is the state count.
    pub open spec fn wf(self) -> bool {
        let n = self.num_states as nat;
        let alpha = self.ranked_alphabet@;
        let mats = self.transition_matrices@;
        &&& mats.len() == alpha.len()
        &&& forall|i: int| 0 <= i < alpha.len() ==> (#[trigger] mats[i].0)@ == alpha[i].0@
        &&& forall|i: int|
            0 <= i < alpha.len() ==> {
                let m = (#[trigger] mats[i]).1;
                &&& m.wf()
                &&& (alpha[i].0@ == final_sym() ==> m.shape(n, 1))
                &&& (alpha[i].0@ != final_sym() ==> m.shape(spow(n, alpha[i].1 as nat), n))
            }
        &&& has_sym(alpha, final_sym())
        &&& sym_value(alpha, final_sym()) == self.num_states
    }
}

/// One alphabet entry of the matrix form, fully determined by the rule list
/// and the state order: the key is kept, the recorded rank is kept (the
/// final-weight entry records the state count instead), and every cell of the
/// transition matrix holds exactly what the symbol's productions wrote.
pub open spec fn entry_built(
    input: WeightedTreeAutomatonStruct,
    order: Seq<String>,
    alpha_in: (String, usize),
    alpha_out: (String, usize),
    mat: (String, WMatrix),
) -> bool {
    let n = input.num_states as nat;
    let sym = alpha_in.0@;
    let is_final = sym == final_sym();
    let ps = prods_of(input.transition_structs@, sym);
    &&& alpha_out.0@ == sym
    &&& (is_final ==> alpha_out.1 == input.num_states)
    &&& (!is_final ==> alpha_out.1 == alpha_in.1)
    &&& mat.0@ == sym
    &&& mat.1.wf()
    &&& (is_final ==> mat.1.shape(n, 1))
    &&& (!is_final ==> mat.1.shape(spow(n, alpha_in.1 as nat), n))
    &&& forall|r: int, c: int|
        0 <= r < mat.1.nrows() && 0 <= c < mat.1.ncols() ==> #[trigger] mat.1.ent(r, c)
            == written_cell(order, n, is_final, ps, r, c)
}

/// The matrix form that the rule list converts into, given the sorted list of
/// its state names.
pub open spec fn converts_to(
    input: WeightedTreeAutomatonStruct,
    order: Seq<String>,
    output: WeightedTreeAutomatonMatrix,
) -> bool {
    &&& strictly_sorted(order)
    &&& order.len() == input.num_states as nat
    &&& forall|nm: Seq<char>|
        #[trigger] has_name(order, nm) == struct_has_state(input.transition_structs@, nm)
    &&& output.num_states == input.num_states
    &&& output.grammar_type == input.grammar_type
    &&& output.ranked_alphabet@.len() == input.ranked_alphabet@.len()
    &&& output.transition_matrices@.len() == input.ranked_alphabet@.len()
    &&& forall|i: int|
        0 <= i < input.ranked_alphabet@.len() ==> entry_built(
            input,
            order,
            #[trigger] input.ranked_alphabet@[i],
            output.ranked_alphabet@[i],
            output.transition_matrices@[i],
        )
}

/// One alphabet entry's productions all match its declared rank, and the
/// entry's matrix fits the address space.
pub open spec fn entry_convertible(input: WeightedTreeAutomatonStruct, e: (String, usize)) -> bool {
    let n = input.num_states as nat;
    let is_final = e.0@ == final_sym();
    let ps = prods_of(input.transition_structs@, e.0@);
    &&& forall|k: int| 0 <= k < ps.len() ==> prod_ok(#[trigger] ps[k], e.1 as nat, is_final)
    &&& (!is_final ==> dims_ok(n, e.1 as nat))
}

/// Every alphabet entry can be converted.
pub open spec fn convertible(input: WeightedTreeAutomatonStruct) -> bool {
    forall|i: int|
        0 <= i < input.ranked_alphabet@.len() ==> entry_convertible(
            input,
            #[trigger] input.ranked_alphabet@[i],
        )
}

/// Two association lists with the same keys in the same places put any key's
/// first occurrence at the same position.
pub proof fn lemma_first_pos_same_keys<T, U>(a: Seq<(String, T)>, b: Seq<(String, U)>, sym: Seq<char>)
    requires
        a.len() == b.len(),
        forall|i: int| 0 <= i < a.len() ==> a[i].0@ == b[i].0@,
    ensures
        first_pos(a, sym) == first_pos(b, sym),
    decreases a.len(),
{
    if a.len() == 0 {
    } else if a[0].0@ == sym {
    } else {
        assert(b[0].0@ != sym);
        lemma_first_pos_same_keys(a.drop_first(), b.drop_first(), sym);
        assert forall|i: int| 0 <= i < a.len() - 1 implies a.drop_first()[i].0@
            == b.drop_first()[i].0@ by {
            assert(a.drop_first()[i] == a[i + 1]);
            assert(b.drop_first()[i] == b[i + 1]);
        }
    }
}

/// Turn a rule-list automaton into its matrix form. The distinct state names
/// of all productions are sorted once; every production then writes its cost
/// into the cell addressed by its states' positions in that order, later
/// writes winning over earlier ones. Fails when the reserved final-weight
/// symbol is missing from the alphabet, when the recorded state count is not
/// the number of distinct state names, or when a production disagrees with its
/// symbol's rank (or a matrix would overflow the address space).
#[verifier::loop_isolation(false)]
pub fn prod_vec_to_automaton(automaton_struct: WeightedTreeAutomatonStruct) -> (r: Result<
    WeightedTreeAutomatonMatrix,
    AutomatonError,
>)
    ensures
        match r {
            Ok(out) => {
                &&& out.wf()
                &&& has_sym(automaton_struct.ranked_alphabet@, final_sym())
                &&& convertible(automaton_struct)
                &&& exists|order: Seq<String>| converts_to(automaton_struct, order, out)
            },
            Err(e) => {
                ||| (e == AutomatonError::MissingTransitionEntry && !has_sym(
                    automaton_struct.ranked_alphabet@,
                    final_sym(),
                ))
                ||| (e == AutomatonError::MalformedProduction && (exists|order: Seq<String>|
                    {
                        &&& strictly_sorted(order)
                        &&& forall|nm: Seq<char>|
                            #[trigger] has_name(order, nm) == struct_has_state(
                                automaton_struct.transition_structs@,
                                nm,
                            )
                        &&& order.len() != automaton_struct.num_states as nat
                    }))
                ||| (e == AutomatonError::DimensionMismatch && !convertible(automaton_struct))
            },
        },
{
    let ts = &automaton_struct.transition_structs;
    let n = automaton_struct.num_states;

    // The fixed bijection between state names and matrix indices: collect
    // every state mentioned by any production and sort the names once.
    let mut order: Vec<String> = Vec::new();
    let mut ti: usize = 0;
    while ti < ts.len()
        invariant
            0 <= ti <= ts@.len(),
            strictly_sorted(order@),
            forall|nm: Seq<char>|
                #[trigger] has_name(order@, nm) == exists|i: int|
                    0 <= i < ti && list_has_state(ts@[i].1@, nm),
        decreases ts@.len() - ti,
    {
        let prods = &ts[ti].1;
        let mut pi: usize = 0;
        while pi < prods.len()
            invariant
                0 <= ti < ts@.len(),
                0 <= pi <= prods@.len(),
                prods == &ts@[ti as int].1,
                strictly_sorted(order@),
                forall|nm: Seq<char>|
                    #[trigger] has_name(order@, nm) == ((exists|i: int|
                        0 <= i < ti && list_has_state(ts@[i].1@, nm)) || (exists|j: int|
                        0 <= j < pi && prod_has_state(prods@[j], nm))),
            decreases prods@.len() - pi,
        {
            let p = &prods[pi];
            let mut li: usize = 0;
            while li < p.left_states.len()
                invariant
                    0 <= ti < ts@.len(),
                    prods == &ts@[ti as int].1,
                    0 <= pi < prods@.len(),
                    0 <= li <= p.left_states@.len(),
                    p == &prods@[pi as int],
                    strictly_sorted(order@),
                    forall|nm: Seq<char>|
                        #[trigger] has_name(order@, nm) == ((exists|i: int|
                            0 <= i < ti && list_has_state(ts@[i].1@, nm)) || (exists|j: int|
                            0 <= j < pi && prod_has_state(prods@[j], nm)) || has_name(
                            p.left_states@.subrange(0, li as int),
                            nm,
                        )),
                decreases p.left_states@.len() - li,
            {
                insert_state(&mut order, p.left_states[li].clone());
                proof {
                    assert forall|nm: Seq<char>|
                        #[trigger] has_name(p.left_states@.subrange(0, li + 1), nm) == (has_name(
                            p.left_states@.subrange(0, li as int),
                            nm,
                        ) || nm == p.left_states@[li as int]@) by {
                        let pre = p.left_states@.subrange(0, li as int);
                        let cur = p.left_states@.subrange(0, li + 1);
                        if has_name(cur, nm) {
                            let i = choose|i: int| 0 <= i < cur.len() && cur[i]@ == nm;
                            if i < li {
                                assert(pre[i]@ == nm);
                            }
                        }
                        if has_name(pre, nm) {
                            let i = choose|i: int| 0 <= i < pre.len() && pre[i]@ == nm;
                            assert(cur[i]@ == nm);
                        }
                        if nm == p.left_states@[li as int]@ {
                            assert(cur[li as int]@ == nm);
                        }
                    }
                }
                li = li + 1;
            }
            let mut ri: usize = 0;
            proof {
                assert(p.left_states@.subrange(0, p.left_states@.len() as int) =~= p.left_states@);
                assert(p.right_states@.subrange(0, 0).len() == 0);
                assert forall|nm: Seq<char>|
                    #[trigger] has_name(order@, nm) == ((exists|i: int|
                        0 <= i < ti && list_has_state(ts@[i].1@, nm)) || (exists|j: int|
                        0 <= j < pi && prod_has_state(prods@[j], nm)) || has_name(
                        p.left_states@,
                        nm,
                    ) || has_name(p.right_states@.subrange(0, 0), nm)) by {
                    assert(li == p.left_states@.len());
                    assert(has_name(order@, nm) == ((exists|i: int|
                        0 <= i < ti && list_has_state(ts@[i].1@, nm)) || (exists|j: int|
                        0 <= j < pi && prod_has_state(prods@[j], nm)) || has_name(
                        p.left_states@.subrange(0, li as int),
                        nm,
                    )));
                    assert(!has_name(p.right_states@.subrange(0, 0), nm));
                    assert(has_name(p.left_states@.subrange(0, p.left_states@.len() as int), nm)
                        == has_name(p.left_states@, nm));
                }
            }
            while ri < p.right_states.len()
                invariant
                    0 <= ti < ts@.len(),
                    prods == &ts@[ti as int].1,
                    0 <= pi < prods@.len(),
                    0 <= ri <= p.right_states@.len(),
                    p == &prods@[pi as int],
                    strictly_sorted(order@),
                    forall|nm: Seq<char>|
                        #[trigger] has_name(order@, nm) == ((exists|i: int|
                            0 <= i < ti && list_has_state(ts@[i].1@, nm)) || (exists|j: int|
                            0 <= j < pi && prod_has_state(prods@[j], nm)) || has_name(
                            p.left_states@,
                            nm,
                        ) || has_name(p.right_states@.subrange(0, ri as int), nm)),
                decreases p.right_states@.len() - ri,
            {
                insert_state(&mut order, p.right_states[ri].clone());
                proof {
                    assert forall|nm: Seq<char>|
                        #[trigger] has_name(p.right_states@.subrange(0, ri + 1), nm) == (has_name(
                            p.right_states@.subrange(0, ri as int),
                            nm,
                        ) || nm == p.right_states@[ri as int]@) by {
                        let pre = p.right_states@.subrange(0, ri as int);
                        let cur = p.right_states@.subrange(0, ri + 1);
                        if has_name(cur, nm) {
                            let i = choose|i: int| 0 <= i < cur.len() && cur[i]@ == nm;
                            if i < ri {
                                assert(pre[i]@ == nm);
                            }
                        }
                        if has_name(pre, nm) {
                            let i = choose|i: int| 0 <= i < pre.len() && pre[i]@ == nm;
                            assert(cur[i]@ == nm);
                        }
                        if nm == p.right_states@[ri as int]@ {
                            assert(cur[ri as int]@ == nm);
                        }
                    }
                }
                ri = ri + 1;
            }
            proof {
                assert(p.right_states@.subrange(0, p.right_states@.len() as int)
                    =~= p.right_states@);
                assert forall|nm: Seq<char>|
                    #[trigger] has_name(order@, nm) == ((exists|i: int|
                        0 <= i < ti && list_has_state(ts@[i].1@, nm)) || (exists|j: int|
                        0 <= j < pi + 1 && prod_has_state(prods@[j], nm))) by {
                    if has_name(order@, nm) {
                        if !(exists|i: int| 0 <= i < ti && list_has_state(ts@[i].1@, nm)) && !(
                        exists|j: int| 0 <= j < pi && prod_has_state(prods@[j], nm)) {
                            assert(prod_has_state(prods@[pi as int], nm));
                        }
                    }
                    if exists|j: int| 0 <= j < pi + 1 && prod_has_state(prods@[j], nm) {
                        let j = choose|j: int| 0 <= j < pi + 1 && prod_has_state(prods@[j], nm);
                        if j == pi {
                            assert(has_name(order@, nm));
                        } else {
                            assert(exists|j2: int|
                                0 <= j2 < pi && prod_has_state(prods@[j2], nm));
                        }
                    }
                }
            }
            pi = pi + 1;
        }
        proof {
            assert forall|nm: Seq<char>|
                #[trigger] has_name(order@, nm) == exists|i: int|
                    0 <= i < ti + 1 && list_has_state(ts@[i].1@, nm) by {
                if has_name(order@, nm) {
                    if !(exists|i: int| 0 <= i < ti && list_has_state(ts@[i].1@, nm)) {
                        let j = choose|j: int| 0 <= j < pi && prod_has_state(prods@[j], nm);
                        assert(0 <= j < prods@.len() && prod_has_state(prods@[j], nm));
                        assert(list_has_state(ts@[ti as int].1@, nm));
                    }
                }
                if exists|i: int| 0 <= i < ti + 1 && list_has_state(ts@[i].1@, nm) {
                    let i = choose|i: int| 0 <= i < ti + 1 && list_has_state(ts@[i].1@, nm);
                    if i == ti {
                        assert(has_name(order@, nm));
                    } else {
                        assert(exists|i2: int| 0 <= i2 < ti && list_has_state(ts@[i2].1@, nm));
                    }
                }
            }
        }
        ti = ti + 1;
    }

    // The final-weight vector must have a slot in the alphabet.
    let bang = final_symbol();
    match lookup_first(&automaton_struct.ranked_alphabet, &bang) {
        Some(_) => {},
        None => {
            return Err(AutomatonError::MissingTransitionEntry);
        },
    }

    proof {
        assert forall|nm: Seq<char>|
            #[trigger] has_name(order@, nm) == struct_has_state(ts@, nm) by {
            if has_name(order@, nm) {
                let i = choose|i: int| 0 <= i < ts@.len() && list_has_state(ts@[i].1@, nm);
                assert(struct_has_state(ts@, nm));
            }
            if struct_has_state(ts@, nm) {
                let i = choose|i: int| 0 <= i < ts@.len() && list_has_state(ts@[i].1@, nm);
                assert(exists|i2: int| 0 <= i2 < ts@.len() && list_has_state(ts@[i2].1@, nm));
            }
        }
    }

    // The recorded state count must be the number of distinct state names.
    if order.len() != n {
        proof {
            let ghost w = order@;
            assert(strictly_sorted(w) && (forall|nm: Seq<char>|
                #[trigger] has_name(w, nm) == struct_has_state(
                    automaton_struct.transition_structs@,
                    nm,
                )) && w.len() != automaton_struct.num_states as nat);
        }
        return Err(AutomatonError::MalformedProduction);
    }

    // Build one matrix per alphabet entry and refresh the final-weight rank.
    let alpha = &automaton_struct.ranked_alphabet;
    let mut new_alpha: Vec<(String, usize)> = Vec::new();
    let mut mats: Vec<(String, WMatrix)> = Vec::new();
    let mut ai: usize = 0;
    while ai < alpha.len()
        invariant
            new_alpha@.len() == ai,
            mats@.len() == ai,
            0 <= ai <= alpha@.len(),
            forall|i: int|
                0 <= i < ai ==> entry_built(
                    automaton_struct,
                    order@,
                    #[trigger] alpha@[i],
                    new_alpha@[i],
                    mats@[i],
                ),
            forall|i: int|
                0 <= i < ai ==> entry_convertible(automaton_struct, #[trigger] alpha@[i]),
        decreases alpha@.len() - ai,
    {
        let sym = &alpha[ai].0;
        let rank = alpha[ai].1;
        let is_final = sym.eq(&bang);
        let ghost symv = sym@;
        let ghost nn = n as nat;

        let (rows, cols): (usize, usize) = if is_final {
            (n, 1)
        } else {
            match pow_usize(n, rank) {
                Some(rows) => (rows, n),
                None => {
                    proof {
                        assert(!entry_convertible(automaton_struct, alpha@[ai as int]));
                    }
                    return Err(AutomatonError::DimensionMismatch);
                },
            }
        };
        let mut mat = match WMatrix::zeros(rows, cols) {
            Some(m) => m,
            None => {
                if is_final {
                    proof {
                        assert(rows * cols == n) by (nonlinear_arith)
                            requires
                                rows == n,
                                cols == 1usize,
                        ;
                    }
                    return unreached();
                }
                proof {
                    assert(!dims_ok(nn, rank as nat)) by {
                        assert(rows * cols == spow(nn, rank as nat) * nn);
                    }
                    assert(!entry_convertible(automaton_struct, alpha@[ai as int]));
                }
                return Err(AutomatonError::DimensionMismatch);
            },
        };

        let prods_opt = lookup_first(ts, sym);
        let ghost ps = prods_of(ts@, symv);
        match prods_opt {
            None => {
                proof {
                    assert(ps =~= Seq::<Production>::empty());
                }
            },
            Some(prods) => {
                proof {
                    assert(ps == prods@);
                }
                let ghost fp = first_pos(ts@, symv);
                proof {
                    lemma_first_pos(ts@, symv);
                }
                let mut pi: usize = 0;
                while pi < prods.len()
                    invariant
                        mat.wf(),
                        mat.shape(rows as nat, cols as nat),
                        0 <= pi <= prods@.len(),
                        forall|k: int|
                            0 <= k < pi ==> prod_ok(#[trigger] ps[k], rank as nat, is_final),
                        forall|r: int, c: int|
                            0 <= r < mat.nrows() && 0 <= c < mat.ncols() ==> #[trigger] mat.ent(
                                r,
                                c,
                            ) == written_cell(
                                order@,
                                nn,
                                is_final,
                                ps.subrange(0, pi as int),
                                r,
                                c,
                            ),
                    decreases prods@.len() - pi,
                {
                    let p = &prods[pi];
                    let (row, col): (usize, usize) = if is_final {
                        if p.left_states.len() != 1 || p.right_states.len() != 0 {
                            proof {
                                assert(!prod_ok(ps[pi as int], rank as nat, is_final));
                                assert(!entry_convertible(automaton_struct, alpha@[ai as int]));
                            }
                            return Err(AutomatonError::DimensionMismatch);
                        }
                        proof {
                            assert(prod_has_state(prods@[pi as int], p.left_states@[0]@)) by {
                                assert(has_name(p.left_states@, p.left_states@[0]@));
                            }
                            assert(struct_has_state(ts@, p.left_states@[0]@)) by {
                                assert(list_has_state(ts@[fp].1@, p.left_states@[0]@));
                            }
                            lemma_state_index(order@, p.left_states@[0]@);
                        }
                        let row = match find_name(&order, &p.left_states[0]) {
                            Some(i) => i,
                            None => {
                                return unreached();
                            },
                        };
                        proof {
                            lemma_state_index(order@, p.left_states@[0]@);
                            assert(row as int == state_index(order@, p.left_states@[0]@));
                        }
                        (row, 0)
                    } else {
                        if p.left_states.len() != rank || p.right_states.len() != 1 {
                            proof {
                                assert(!prod_ok(ps[pi as int], rank as nat, is_final));
                                assert(!entry_convertible(automaton_struct, alpha@[ai as int]));
                            }
                            return Err(AutomatonError::DimensionMismatch);
                        }
                        proof {
                            assert(prod_has_state(prods@[pi as int], p.right_states@[0]@)) by {
                                assert(has_name(p.right_states@, p.right_states@[0]@));
                            }
                            assert(struct_has_state(ts@, p.right_states@[0]@)) by {
                                assert(list_has_state(ts@[fp].1@, p.right_states@[0]@));
                            }
                            lemma_state_index(order@, p.right_states@[0]@);
                        }
                        let col = match find_name(&order, &p.right_states[0]) {
                            Some(i) => i,
                            None => {
                                return unreached();
                            },
                        };
                        proof {
                            lemma_state_index(order@, p.right_states@[0]@);
                            assert(col as int == state_index(order@, p.right_states@[0]@));
                        }
                        // Read the left states as one base-n number, leftmost
                        // most significant.
                        let mut x: usize = 0;
                        let mut li: usize = 0;
                        while li < p.left_states.len()
                            invariant
                                p == &prods@[pi as int],
                                p.left_states@.len() == rank,
                                0 <= li <= rank,
                                x == row_index(order@, nn, p.left_states@.subrange(0, li as int)),
                                x < spow(nn, li as nat),
                                li > 0 ==> nn >= 1,
                            decreases p.left_states@.len() - li,
                        {
                            proof {
                                assert(prod_has_state(
                                    prods@[pi as int],
                                    p.left_states@[li as int]@,
                                )) by {
                                    assert(has_name(p.left_states@, p.left_states@[li as int]@));
                                }
                                assert(struct_has_state(ts@, p.left_states@[li as int]@)) by {
                                    assert(list_has_state(ts@[fp].1@, p.left_states@[li as int]@));
                                }
                                lemma_state_index(order@, p.left_states@[li as int]@);
                            }
                            let qi = match find_name(&order, &p.left_states[li]) {
                                Some(i) => i,
                                None => {
                                    return unreached();
                                },
                            };
                            proof {
                                lemma_state_index(order@, p.left_states@[li as int]@);
                                assert(qi as int == state_index(
                                    order@,
                                    p.left_states@[li as int]@,
                                ));
                                assert(qi < nn);
                                let s = spow(nn, li as nat);
                                assert(spow(nn, (li + 1) as nat) == nn * s);
                                assert(x * nn + qi < nn * s) by (nonlinear_arith)
                                    requires
                                        (x as nat) < s,
                                        (qi as nat) < nn,
                                ;
                                lemma_spow_mono(nn, (li + 1) as nat, rank as nat);
                                assert(spow(nn, rank as nat) == rows);
                                let pre1 = p.left_states@.subrange(0, li + 1);
                                assert(pre1.drop_last() =~= p.left_states@.subrange(0, li as int));
                                assert(pre1.last() == p.left_states@[li as int]);
                                assert(row_index(order@, nn, pre1) == x * nn + qi);
                            }
                            x = x * n + qi;
                            li = li + 1;
                        }
                        proof {
                            assert(p.left_states@.subrange(0, p.left_states@.len() as int)
                                =~= p.left_states@);
                        }
                        (x, col)
                    };
                    proof {
                        assert(row < mat.nrows() && col < mat.ncols());
                    }
                    mat.set(row, col, p.cost);
                    proof {
                        let pre1 = ps.subrange(0, pi + 1);
                        assert(pre1.drop_last() =~= ps.subrange(0, pi as int));
                        assert(pre1.last() == ps[pi as int]);
                        assert(prod_row(order@, nn, is_final, ps[pi as int]) == row as int);
                        assert(prod_col(order@, is_final, ps[pi as int]) == col as int);
                    }
                    pi = pi + 1;
                }
                proof {
                    assert(ps.subrange(0, ps.len() as int) =~= ps);
                    assert(forall|k: int|
                        0 <= k < ps.len() ==> prod_ok(#[trigger] ps[k], rank as nat, is_final));
                    assert(forall|r: int, c: int|
                        0 <= r < mat.nrows() && 0 <= c < mat.ncols() ==> #[trigger] mat.ent(r, c)
                            == written_cell(order@, nn, is_final, ps, r, c));
                }
            },
        }
        proof {
            assert(entry_convertible(automaton_struct, alpha@[ai as int])) by {
                if !is_final {
                    assert(dims_ok(nn, rank as nat)) by {
                        assert(rows == spow(nn, rank as nat));
                        assert(rows * cols <= usize::MAX);
                    }
                }
            }
        }
        let new_rank = if is_final {
            n
        } else {
            rank
        };
        new_alpha.push((sym.clone(), new_rank));
        mats.push((sym.clone(), mat));
        proof {
            assert(entry_built(
                automaton_struct,
                order@,
                alpha@[ai as int],
                new_alpha@[ai as int],
                mats@[ai as int],
            ));
        }
        ai = ai + 1;
    }

    let out = WeightedTreeAutomatonMatrix {
        num_states: automaton_struct.num_states,
        grammar_type: automaton_struct.grammar_type,
        ranked_alphabet: new_alpha,
        transition_matrices: mats,
    };
    proof {
        assert(converts_to(automaton_struct, order@, out));
        assert(out.wf()) by {
            let n = out.num_states as nat;
            let oalpha = out.ranked_alphabet@;
            let omats = out.transition_matrices@;
            assert forall|i: int| 0 <= i < oalpha.len() implies (#[trigger] omats[i].0)@
                == oalpha[i].0@ by {
                assert(entry_built(automaton_struct, order@, alpha@[i], oalpha[i], omats[i]));
            }
            assert forall|i: int|
                0 <= i < oalpha.len() implies {
                let m = (#[trigger] omats[i]).1;
                &&& m.wf()
                &&& (oalpha[i].0@ == final_sym() ==> m.shape(n, 1))
                &&& (oalpha[i].0@ != final_sym() ==> m.shape(spow(n, oalpha[i].1 as nat), n))
            } by {
                assert(entry_built(automaton_struct, order@, alpha@[i], oalpha[i], omats[i]));
            }
            assert forall|i: int| 0 <= i < alpha@.len() implies alpha@[i].0@ == oalpha[i].0@ by {
                assert(entry_built(automaton_struct, order@, alpha@[i], oalpha[i], omats[i]));
            }
            lemma_first_pos_same_keys(alpha@, oalpha, final_sym());
            lemma_first_pos(alpha@, final_sym());
            lemma_first_pos(oalpha, final_sym());
            let fpos = first_pos(alpha@, final_sym());
            assert(alpha@[fpos].0@ == final_sym());
            assert(entry_built(
                automaton_struct,
                order@,
                alpha@[fpos],
                oalpha[fpos],
                omats[fpos],
            ));
            assert(oalpha[fpos].1 == out.num_states);
            assert(sym_value(oalpha, final_sym()) == out.num_states);
        }
    }
    Ok(out)
}


/// Conversion round trip: a production whose cell no later production of the
/// same symbol overwrites reads back exactly its own cost from the cell that
/// the mixed-radix index of its states selects.
pub proof fn lemma_conversion_round_trip(
    order: Seq<String>,
    n: nat,
    is_final: bool,
    prods: Seq<Production>,
    i: int,
)
    requires
        0 <= i < prods.len(),
        forall|j: int|
            i < j < prods.len() ==> !(prod_row(order, n, is_final, #[trigger] prods[j]) == prod_row(
                order,
                n,
                is_final,
                prods[i],
            ) && prod_col(order, is_final, prods[j]) == prod_col(order, is_final, prods[i])),
    ensures
        written_cell(
            order,
            n,
            is_final,
            prods,
            prod_row(order, n, is_final, prods[i]),
            prod_col(order, is_final, prods[i]),
        ) == prods[i].cost,
    decreases prods.len(),
{
    if i == prods.len() - 1 {
    } else {
        let shorter = prods.drop_last();
        assert(shorter[i] == prods[i]);
        assert forall|j: int|
            i < j < shorter.len() implies !(prod_row(order, n, is_final, #[trigger] shorter[j])
            == prod_row(order, n, is_final, shorter[i]) && prod_col(order, is_final, shorter[j])
            == prod_col(order, is_final, shorter[i])) by {
            assert(shorter[j] == prods[j]);
        }
        lemma_conversion_round_trip(order, n, is_final, shorter, i);
    }
}


/// The positions of the alphabet entries other than the reserved final-weight
/// pseudo-symbol, in order.
pub open spec fn nonfinal_positions(alpha: Seq<(String, usize)>) -> Seq<int>
    decreases alpha.len(),
{
    if alpha.len() == 0 {
        Seq::empty()
    } else {
        let rest = nonfinal_positions(alpha.drop_last());
        if alpha.last().0@ == final_sym() {
            rest
        } else {
            rest.push(alpha.len() - 1)
        }
    }
}

} // verus!
