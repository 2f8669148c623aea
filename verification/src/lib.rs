//! A verified library for rendering line-level diffs on the terminal.
//!
//! Two texts are decomposed into lines, a diff engine turns them into a
//! sequence of edit operations whose spans tile both texts, and the
//! rendering engine writes one themed block per operation through a
//! caller-supplied sink.  The from-scratch shortest-edit-script engine is
//! proved to emit an edit script of minimal insert-plus-delete cost.

pub mod cmd;
pub mod diff_algorithm;
pub mod draw_diff;
pub mod text;
pub mod themes;

pub use cmd::diff;
pub use cmd::diff_with_algorithm;
pub use diff_algorithm::Algorithm;
pub use diff_algorithm::Change;
pub use diff_algorithm::ChangeTag;
pub use diff_algorithm::DiffAlgorithm;
pub use diff_algorithm::DiffAlgorithmFactory;
pub use diff_algorithm::DiffOp;
pub use diff_algorithm::MyersDiff;
pub use diff_algorithm::SimilarDiff;
pub use draw_diff::DrawDiff;
pub use themes::ArrowsColorTheme;
pub use themes::ArrowsTheme;
pub use themes::SignsColorTheme;
pub use themes::SignsTheme;
pub use themes::Theme;
