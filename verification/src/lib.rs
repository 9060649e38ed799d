//! The front end of minic, a small imperative language with procedures,
//! local variables of one integer type, loops with `break` and `continue`,
//! and two-armed conditionals.
//!
//! A source text is cut into tokens ([`lexer`]), the tokens are parsed into
//! a syntax tree ([`parser`], after the grammar in [`grammar`]), and each
//! procedure of the tree is lowered to a flat list of instructions over
//! virtual registers, with labels for its branches ([`lower`], after the
//! account of lowering in [`model`]).
//!
//! What holds of every lowered body is proved in [`laws`], from the
//! invariants in [`shape`], [`targets`] and [`regs`]. [`boundaries`] and
//! [`complete`] do the same for tokens and for the grammar. [`render`] and
//! [`diagnostics`] turn bodies and errors into text.

pub mod ast;
pub mod boundaries;
pub mod complete;
pub mod diagnostics;
pub mod fixups;
pub mod grammar;
pub mod laws;
pub mod lexer;
pub mod lower;
pub mod mir;
pub mod model;
pub mod parser;
pub mod regs;
pub mod render;
pub mod shape;
pub mod targets;
