//! Cooperative tasks.  A task's future is outside work owned by the
//! surrounding runtime; the scheduling decisions over task handles are
//! verified here.

pub mod simple_executor;
