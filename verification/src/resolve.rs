pub mod filter;
pub mod located;
pub mod order;
pub mod path;
pub mod replace;
pub mod resolver;
pub mod visitor;
pub mod walk;
