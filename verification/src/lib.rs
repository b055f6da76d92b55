//! A small POSIX command shell, verified: byte-level lexer, recursive
//! descent parser, word expansion, environment and working-directory
//! state, and the evaluator that decides what the surrounding process
//! plumbing must do next.

/// The syntax tree: statements, blocks, and assignment pairs.
pub mod ast;
/// Commands before and after word expansion, and the exec request they
/// make.
pub mod command;
/// The working-directory tracker behind the `cd` builtin.
pub mod cwd;
/// The shell's variables and their exported view.
pub mod environment;
/// Tilde and `$` expansion of words against the environment.
pub mod expand;
/// The evaluator: a machine that walks the program and trades actions for
/// events with the process plumbing around it.
pub mod interpreter;
/// The byte-level tokenizer, with its terminator-coalescing rules.
pub mod lexer;
/// Recursive descent from tokens to the syntax tree.
pub mod parser;
/// The parent's bookkeeping while a pipeline's children are reaped.
pub mod reaper;
/// The redirection forms a command may carry.
pub mod redirect;
/// Success or failure of one command.
pub mod status;
/// Words: raw bytes with a quote tag, and valid variable names.
pub mod word;
