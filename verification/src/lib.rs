//! A relational logic core: unification over typed logic variables, and
//! constraint propagation over finite domains of integers.
//!
//! * [`finitedomain`] holds the domains themselves: a single value or a
//!   strictly increasing enumeration, with intersection and removal.
//! * [`engine`] holds the store of variables with its union-find structure,
//!   the scratch state in which a constraint runs, unification with its
//!   occurs check, and the loop that runs the live constraints until nothing
//!   changes any more.
//! * [`constraints`], [`alldiff`] and [`engine::disequal`] hold the built-in
//!   constraints: sums, the order and the difference of finite domains, the
//!   bridge between a finite domain and a plain integer, and disequality of
//!   arbitrary terms.
//! * [`list`] holds lists of variables.
//!
//! Every operation is specified on a mathematical model of the store,
//! [`engine::bindings::Bindings`], and proved against it. The laws that the
//! model obeys are proof functions next to the definitions they speak of:
//! following merges ends, unification is symmetric and only narrows, the
//! constraints lose no solution and are idempotent, and propagation ends at
//! a fixpoint.

pub mod alldiff;
pub mod constraints;
pub mod engine;
pub mod finitedomain;
pub mod list;
