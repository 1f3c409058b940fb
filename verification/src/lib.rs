//! A token-pattern linter: a priority-ordered tokenizer that turns source
//! text into a stream of positioned tokens, a loader for named rules made of
//! token patterns, and a matcher that reports every place where a run of
//! input tokens satisfies one of the patterns.

pub mod lexer;
pub mod matcher;
pub mod rules;
