//! An arithmetic-expression calculator: a tokenizer turning text into lexical
//! tokens, a shunting-yard parser turning tokens into an expression tree, and
//! an evaluator computing the exact rational value of a tree.

pub mod tokenizer;
pub mod parser;
pub mod eval;
