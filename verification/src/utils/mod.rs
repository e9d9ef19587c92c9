pub mod configuration;
pub mod constants;

pub use configuration::Config;
pub use constants::algorithm;
