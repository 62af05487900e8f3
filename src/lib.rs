pub mod chars;
pub mod gtext;
pub mod text;
