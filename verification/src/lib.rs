pub mod core_types;
pub mod ir;
pub mod lexer;
pub mod parser;
pub mod parserlearnmaterial;
pub mod text;
