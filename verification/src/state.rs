//! The pool state that the engine prices: a passive value, created once and
//! changed only by a successful operation.
pub mod pool;
