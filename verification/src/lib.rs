//! A small ahead-of-time compiler for a toy imperative language with
//! integer variables, arrays, `if` and `while` blocks and `print`. It emits
//! assembly text for 32-bit x86 with raw system calls.
//!
//! The pipeline, leaves first:
//!
//! - [`tokenizer`] cuts the source text into [`token`]s;
//! - [`fsm`] is the automaton that cuts the tokens into statements;
//!   [`grammar`] says which statements there are and proves that the
//!   automaton finds each of them;
//! - [`parser`] turns each statement into a node of the syntax tree, as
//!   [`statement`] and [`expression`] say; [`rpn`] is the
//!   operator-precedence pass, and [`infix`] proves that expressions are
//!   read by the usual rules of precedence;
//! - [`symbol_table`] holds the declared names;
//! - [`ast`] is the syntax tree and the pass that nests blocks;
//! - [`assembler`] generates the code that [`emit`] prescribes, out of the
//!   instructions of [`instr`]; [`layout`] spells out the lines of a block;
//! - [`compiler`] is the whole pipeline, and [`bounds`] proves that it
//!   never runs out of labels.
//!
//! [`machine`] is a model of the target machine with the proof that the
//! generated code does on it what the syntax tree means; [`routine`] does
//! the same for the print routine. [`text`] holds the helpers for strings
//! and numerals.

pub mod assembler;
pub mod ast;
pub mod bounds;
pub mod compiler;
pub mod emit;
pub mod expression;
pub mod fsm;
pub mod grammar;
pub mod infix;
pub mod instr;
pub mod layout;
pub mod machine;
pub mod parser;
pub mod routine;
pub mod rpn;
pub mod statement;
pub mod symbol_table;
pub mod text;
pub mod token;
pub mod tokenizer;
