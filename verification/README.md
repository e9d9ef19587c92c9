# load_balancer

The decision core of an HTTP load balancer, written in Verus and verified.

- `src/services/hosts.rs`: upstream addresses, their status, and the host
  table (one row per address).
- `src/services/strategies/`: the host-selection strategies (round robin,
  least connections), their names, and the laws of round robin.
- `src/services/statistics.rs`: median-based overload detection, exact in
  integers (medians are kept doubled).
- `src/services/load_balancer_state.rs`: the shared state, its operations and
  their laws.
- `src/services/load_balancer.rs`: what the proxy decides per request (switch
  strategy, forward, answer 503), the URI a request is forwarded with, and
  what the adaptive engine decides per tick.
- `src/services/load_balancer_strategy.rs`: the plain-list round robin.
- `src/worker.rs`: the worker service's choice of work duration.
- `app/`: the program around it: command line, configuration file, HTTP
  server and client, health probes, timers, the worker service (started with
  `worker` as first argument), and the
  floating-point EWMA scoring.
