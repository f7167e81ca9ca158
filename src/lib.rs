pub mod cfg;
pub mod circuit;
pub mod ir;
pub mod manifest;
