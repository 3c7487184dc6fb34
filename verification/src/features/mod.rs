pub mod extract;
pub mod flatten;
