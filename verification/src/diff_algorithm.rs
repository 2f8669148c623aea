//! The diff engines: the shared edit-operation model, the from-scratch
//! shortest-edit-script engine, the adapter over the similar crate, and the
//! factory that picks one.

pub mod common;
pub mod factory;
pub mod myers;
pub mod script;
pub mod similar;

pub use common::Algorithm;
pub use common::Change;
pub use common::ChangeTag;
pub use common::DiffAlgorithm;
pub use common::DiffOp;
pub use factory::DiffAlgorithmFactory;
pub use myers::MyersDiff;
pub use similar::SimilarDiff;
