//! Lowering, dependency ordering and type checking.

pub mod ast;
pub mod calls;
pub mod context;
pub mod context_laws;
pub mod diagnostic;
pub mod groups;
pub mod lower;
pub mod lower_laws;
pub mod order;
pub mod order_laws;
pub mod rules;

pub mod typeck;
