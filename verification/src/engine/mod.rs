//! The variable store and what lives in it.

pub mod bindings;
pub mod constraint;
pub mod depth;
pub mod disequal;
pub mod narrowing;
pub mod propagate;
pub mod propagator;
pub mod proxy;
pub mod rest;
pub mod schedule;
pub mod shallow;
pub mod state;
pub mod store;
pub mod toconstraint;
pub mod tovar;
pub mod unifier;
pub mod unify;
pub mod varmap;
pub mod vars;
pub mod wrapper;
