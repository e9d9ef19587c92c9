pub mod hosts;
pub mod load_balancer;
pub mod load_balancer_state;
pub mod load_balancer_strategy;
pub mod statistics;
pub mod strategies;

pub use hosts::{HostAddr, HostEntry, HostIp, HostStatus, HostTable};
pub use load_balancer_state::LoadBalancerState;
pub use strategies::{Algorithm, LeastConnections, RoundRobin, Strategy};
