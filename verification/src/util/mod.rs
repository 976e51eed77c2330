pub mod path_display;
pub mod text;
