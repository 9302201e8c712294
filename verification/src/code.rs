pub mod formatter;
pub mod list;
pub mod remover;
pub mod utils;
