pub mod algorithm;
pub mod health_check;
