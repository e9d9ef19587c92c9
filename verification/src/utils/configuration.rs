use vstd::prelude::*;

use crate::services::hosts::HostAddr;

verus! {

/// The load balancer's configuration: the upstream hosts, in the order in
/// which the configuration file lists them.
pub struct Config {
    pub hosts: Vec<HostAddr>,
}

} // verus!
