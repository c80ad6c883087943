pub mod suggest;
pub mod utils;
