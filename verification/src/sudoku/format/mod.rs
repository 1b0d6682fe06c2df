pub mod notation;
pub mod parser;
pub mod pattern;
pub mod serializer;
