//! A load balancer's decision core: the table of upstream hosts, the
//! host-selection strategies, overload detection and the handling of the
//! requests that the proxy receives.

pub mod services;
pub mod utils;
pub mod worker;
