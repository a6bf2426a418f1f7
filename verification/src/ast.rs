//! The shape of a parsed document that the analysis reads: nested blocks
//! holding comments, declared parameters, named value bindings and
//! instructions, each carrying its source span.

use crate::span::Span;
use vstd::prelude::*;

verus! {

/// One block of the parsed source.
pub struct Block {
    /// Spans of the comments in this block.
    pub comments: Vec<Span<()>>,
    /// Spans of the parameters this block declares.
    pub args: Vec<Span<()>>,
    /// Named value bindings, in the order the walk visits them.
    pub symbols: Vec<Symbol>,
    /// Instructions of the block body, in source order.
    pub instrs: Vec<Span<Instruction>>,
}

/// A named value binding inside a block.
pub struct Symbol {
    /// Span of the binding's name.
    pub name_span: Span<()>,
    /// The bound value, spanning its source text.
    pub value: Span<SymbolValue>,
}

/// What a named binding is bound to, as far as the analysis reads it.
pub enum SymbolValue {
    /// A literal number.
    Number,
    /// A reference to a built-in literal.
    Builtin,
    /// A nested block.
    Block(Box<Block>),
}

/// One instruction of a block body.
pub enum Instruction {
    /// A command (operator) instruction.
    Command,
    /// An instruction that pushes a value.
    Push(InstrValue),
}

/// The value an instruction pushes, as far as the analysis reads it.
pub enum InstrValue {
    /// A literal number.
    Number,
    /// A reference to a built-in literal.
    Builtin,
    /// An identifier reference.
    Ident,
    /// A nested block.
    Block(Box<Block>),
}

} // verus!
