pub mod availability;
pub mod builder;
pub mod factory;
