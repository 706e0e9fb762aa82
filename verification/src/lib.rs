//! Core of a language server that shows program output inside the source text.

pub mod backend;
pub mod buffers;
pub mod call_laws;
pub mod comment_laws;
pub mod comments;
pub mod config;
pub mod config_laws;
pub mod diagnostics;
pub mod folding;
pub mod frames;
pub mod gather_laws;
pub mod line_laws;
pub mod output_laws;
pub mod protocol;
pub mod repeat_laws;
pub mod rope;
pub mod runner;
pub mod server_laws;
pub mod settled_laws;
pub mod shown_laws;
pub mod text;
pub mod text_laws;
pub mod util;
pub mod view_laws;
