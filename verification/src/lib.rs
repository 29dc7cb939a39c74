//! Semantic reconstruction of PDF pages: the decisions that turn positioned
//! text fragments into lines, classified blocks, tables and page results.
pub mod api;
pub mod blocks;
pub mod lines;
pub mod pages;
pub mod text;
pub mod table;
pub mod diagram;
pub mod imaging;
pub mod parser;
