//! Minimization of weighted tree automata over the reals.
//!
//! A bottom-up weighted tree automaton assigns a real weight to every labeled
//! ordered tree, through one transition matrix per symbol and a final-weight
//! vector. This crate holds the verified side of computing a size-minimal
//! equivalent automaton: the rule-list and matrix representations and the
//! conversion between them, the tree-evaluation engine that defines the
//! semantics, the combinatorial tuple enumerator, and the three-step
//! minimization — forward space, backward space with a rank-saturation
//! search, and least-squares projection.
//!
//! Matrices are held as IEEE-754 double bit patterns, which the verified code
//! arranges, copies and compares but never does arithmetic on. Every numeric
//! step — a product, a Kronecker product, a numerical rank, a least-squares
//! solve — is delegated to the caller: the long-running computations are state
//! machines that hand out one request at a time and take the answer back with
//! the next step. The machines are verified to keep every matrix shape
//! consistent, to stay in bounds, and to make progress, whatever the answers
//! are; the numeric answers themselves are the caller's unverified concern.

pub mod computation;
pub mod data_structures;
pub mod matrix;
pub mod minimisation;
pub mod states;
pub mod step_i;
pub mod step_ii;
pub mod step_iii;
pub mod tuples;
