//! Arithmetic expression evaluation, split into a lexical scanner and a
//! recursive-descent solver.
//!
//! The scanner ([`tokenizer`]) turns raw bytes into a sequence of typed tokens
//! with exact byte offsets.  The solver ([`solver`]) parses that token stream
//! with the usual two-tier precedence grammar and compiles it, in a single
//! left-to-right pass, into a postfix instruction list, or else reports the
//! first defect it meets together with the offending offset.  Running the
//! instruction list over machine floating-point numbers is left to the caller,
//! since that arithmetic is outside what this crate states and proves.

pub mod solver;
pub mod tokenizer;
