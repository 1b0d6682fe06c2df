pub mod aliases;
pub mod iterable;
