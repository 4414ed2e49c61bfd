//! A scanner for a small scripting language: it turns a byte buffer into a
//! stream of tokens and reports lexical errors through a caller's reporter.
pub mod diagnostic;
pub mod scanner;
pub mod token;

pub use diagnostic::{CaptureReporter, Diagnostic, Lax, Report, Reporter, StderrReporter};
pub use scanner::Scanner;
pub use token::{Token, TokenType};
