//! Graph analysis toolkit: sparse graphs given as adjacency lists, community
//! partitions, and readers for the Matrix Market, Wikispeedia and MICrONS
//! text formats.

pub mod graph;
pub mod matrix;
pub mod text;
pub mod parser;
