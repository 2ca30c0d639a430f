//! Backend of a terminal emulator: an incremental escape-sequence parser
//! and the screen state that its output drives.

pub mod parser;
pub mod span;
pub mod terminal;

pub use parser::{AnsiBuilder, CsiParser, CsiState, IsTerminator, OutputParser, TerminalOutput};
pub use span::{Bytes, Span};
pub use terminal::{CursorPos, Terminal, Transfer, write_progress};
