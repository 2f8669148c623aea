//! The theme capability and the built-in themes.

pub mod arrows;
pub mod arrows_color;
pub mod signs;
pub mod signs_color;
pub mod style;
pub mod theme;

pub use arrows::ArrowsTheme;
pub use arrows_color::ArrowsColorTheme;
pub use signs::SignsTheme;
pub use signs_color::SignsColorTheme;
pub use theme::Theme;
