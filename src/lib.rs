//! Loading of `.env` style files and emission of shell code that applies them.
//!
//! The parser turns file text into an ordered list of resolved bindings; the
//! emitter turns bindings into lines of PowerShell or cmd.exe code; the listing
//! shows an environment sorted and aligned.
mod emit;
mod parser;
mod show;
mod text;

pub use emit::{
    decimal_string, detect_shell, emit, emit_load, emit_unload, escape_single_quotes,
    missing_file_line, run_overlay, Mode, ShellType,
};
pub use parser::{interpolate, parse_env, parse_line, strip_quotes, EnvVar, LineOutcome, ParsedEnv};
pub use show::{show_listing, sort_by_key};
pub use text::{is_whitespace, trim};
