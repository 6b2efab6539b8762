pub mod expander;
