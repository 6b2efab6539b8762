pub mod tokens;
