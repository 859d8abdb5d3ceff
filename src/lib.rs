/// Instructions, the tokenizer that compresses them, and the bracket matcher.
pub mod program;

/// The tape machine that executes a parsed program.
pub mod machine;

/// Laws that relate the parser and the machine.
pub mod laws;
