//! An in-memory environment for a multi-sorted first-order term algebra:
//! sorts and function symbols are declared into a symbol table, textual
//! s-expression terms are parsed against those declarations into a
//! content-addressed term pool, and equational axioms (ordered pairs of
//! terms) accumulate for later use by an external reasoning process.

pub mod env;
pub mod laws;
pub mod model;
