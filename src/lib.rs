pub mod bucket;
pub mod expr;
pub mod flatten;
pub mod geometry;
pub mod number;
pub mod order;
pub mod plan;
pub mod table;
pub mod temporal;
pub mod text;
pub mod value;
