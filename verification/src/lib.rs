//! A small compile pipeline from categorical descriptions to hardware
//! netlists: textual statements are parsed into an AST, turned into a
//! directed graph of object and morphism nodes, scheduled by topological
//! order, and emitted as a deterministic textual netlist.

pub mod ast;
pub mod dag;
pub mod netlist;
pub mod parser;
