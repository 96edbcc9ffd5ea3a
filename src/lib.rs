//! Runtime support for sandboxed constrained-decoding controllers: the regular
//! expression store used by controllers, the host/controller protocol values,
//! the module registry's own logic, the step scheduler and the bias arena.
use vstd::prelude::*;

pub mod ast;
pub mod protocol;
pub mod api;
pub mod registry;
pub mod stepper;
pub mod dispatch;
pub mod arena;

verus! {

} // verus!
