//! Indentation for trace messages, derived from how deeply the current call is
//! nested.
//!
//! A traced call site reports the address of its stack frame. [`depth::DepthStack`]
//! keeps the frames reported so far by the enclosing calls and answers with the
//! nesting depth of the reporting call; [`indent::format`] prefixes every line of
//! a message with the matching run of spaces.
pub mod depth;
pub mod indent;
pub mod trace;
