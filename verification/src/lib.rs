//! Version control for S-expression trees: snapshots are stored as the
//! sequence of tree edits that leads from one to the next.

pub mod apply;
pub mod ast;
pub mod diff;
pub mod history;
pub mod instruction;
pub mod parser;
pub mod reading;
pub mod repository;
pub mod text;
pub mod theorems;
pub mod vc;
