pub mod bisect;
pub mod budoux;
pub mod evaluate_chars;
pub mod layout;
pub mod lending;
pub mod lua_handle;
pub mod segment;
pub mod text;
