//! What the proxy decides for each request it receives, and what the
//! adaptive engine decides on each tick. The network side (reading requests,
//! forwarding them, writing responses, timers) stays with the caller, which
//! hands in plain values and acts on the decision returned.

use vstd::prelude::*;

use crate::services::hosts::{is_healthy, HostAddr};
use crate::services::load_balancer_state::{
    add_connection, after_set_algorithm, connection_counts, cursor_after_pick, next_pick,
    pick_fits, LoadBalancerState, LoadBalancerView,
};
use crate::services::statistics::overloaded;
use crate::services::strategies::least_connections::any_healthy;
use crate::services::strategies::{strategy_named, Strategy};
use crate::utils::constants::algorithm::{STRATEGY_QUERY_PARAM, SWITCH_ALGORITHM_ENDPOINT};

verus! {

/// The answers the load balancer gives itself, rather than an upstream host.
#[derive(Clone, Copy, Debug, PartialEq, Eq, Structural)]
pub enum Reply {
    /// No host is healthy.
    NoAvailableWorkers,
    /// A strategy switch named no known strategy.
    InvalidStrategy,
    /// A strategy switch was applied.
    StrategyUpdated,
    /// The request's URI could not be pointed at the chosen host.
    InvalidUri,
    /// The chosen host did not answer.
    UpstreamFailed,
}

pub open spec fn reply_status(r: Reply) -> u16 {
    match r {
        Reply::NoAvailableWorkers => 503,
        Reply::InvalidStrategy => 400,
        Reply::StrategyUpdated => 200,
        Reply::InvalidUri => 500,
        Reply::UpstreamFailed => 502,
    }
}

pub open spec fn reply_message(r: Reply) -> Seq<char> {
    match r {
        Reply::NoAvailableWorkers => "No available workers"@,
        Reply::InvalidStrategy => "Invalid or missing strategy"@,
        Reply::StrategyUpdated => "Strategy updated"@,
        Reply::InvalidUri => "Invalid URI"@,
        Reply::UpstreamFailed => "Upstream request failed"@,
    }
}

impl Reply {
    /// The HTTP status code of the reply.
    pub fn status(&self) -> (code: u16)
        ensures
            code == reply_status(*self),
    {
        match self {
            Reply::NoAvailableWorkers => 503,
            Reply::InvalidStrategy => 400,
            Reply::StrategyUpdated => 200,
            Reply::InvalidUri => 500,
            Reply::UpstreamFailed => 502,
        }
    }

    /// The body of the reply.
    pub fn message(&self) -> (msg: &'static str)
        ensures
            msg@ == reply_message(*self),
    {
        match self {
            Reply::NoAvailableWorkers => "No available workers",
            Reply::InvalidStrategy => "Invalid or missing strategy",
            Reply::StrategyUpdated => "Strategy updated",
            Reply::InvalidUri => "Invalid URI",
            Reply::UpstreamFailed => "Upstream request failed",
        }
    }
}

/// What to do with a request: answer it directly, or forward it to a host.
#[derive(Clone, Copy, Debug, PartialEq, Eq, Structural)]
pub enum Dispatch {
    Respond(Reply),
    Forward(HostAddr),
}

/// Where a forwarded request goes: a scheme, the chosen host as authority,
/// and the request's path and query.
pub struct UpstreamUri {
    pub scheme: String,
    pub authority: HostAddr,
    pub path_and_query: String,
}

/// The URI a request is forwarded with: its scheme (`http` when it has none),
/// the chosen host as authority, and its path and query. Such a URI with a
/// scheme and an authority needs a path and query, as `http::Uri::from_parts`
/// demands; without one the request is answered `500 Invalid URI` and nothing
/// is sent.
pub fn upstream_uri(scheme: Option<&str>, path_and_query: Option<&str>, host: HostAddr) -> (r:
    Result<UpstreamUri, Reply>)
    ensures
        path_and_query is None ==> r == Err::<UpstreamUri, Reply>(Reply::InvalidUri),
        path_and_query matches Some(pq) ==> (r matches Ok(u) && u.scheme@ == (match scheme {
            Some(s) => s@,
            None => "http"@,
        }) && u.authority == host && u.path_and_query@ == pq@),
{
    match path_and_query {
        None => Err(Reply::InvalidUri),
        Some(pq) => {
            let scheme: String = match scheme {
                Some(s) => s.to_owned(),
                None => "http".to_owned(),
            };
            Ok(UpstreamUri { scheme, authority: host, path_and_query: pq.to_owned() })
        },
    }
}

/// The name/value pairs that `url::form_urlencoded::parse` reads from a
/// query string, in order.
pub uninterp spec fn form_urlencoded_pairs(query: Seq<char>) -> Seq<(Seq<char>, Seq<char>)>;

/// Calls `url::form_urlencoded::parse` on the query's bytes and collects the
/// decoded pairs, in the order the parser yields them. What the parser
/// yields (splitting on `&` and `=`, `+` as space, percent-decoding, lossy
/// UTF-8) is named, not stated.
#[verifier::external_body]
fn parse_query_pairs(query: &str) -> (pairs: Vec<(String, String)>)
    ensures
        pairs_view(pairs@) == form_urlencoded_pairs(query@),
{
    url::form_urlencoded::parse(query.as_bytes()).into_owned().collect()
}

pub open spec fn pairs_view(pairs: Seq<(String, String)>) -> Seq<(Seq<char>, Seq<char>)> {
    pairs.map_values(|p: (String, String)| (p.0@, p.1@))
}

/// The value of the last `strategy` parameter, as a map built from the pairs
/// in order would hold it.
pub open spec fn strategy_param(pairs: Seq<(Seq<char>, Seq<char>)>) -> Option<Seq<char>>
    decreases pairs.len(),
{
    if pairs.len() == 0 {
        None
    } else if pairs.last().0 == STRATEGY_QUERY_PARAM@ {
        Some(pairs.last().1)
    } else {
        strategy_param(pairs.drop_last())
    }
}

/// The strategy a query's pairs ask for, if they name a known one.
pub open spec fn requested_strategy(pairs: Seq<(Seq<char>, Seq<char>)>) -> Option<Strategy> {
    match strategy_param(pairs) {
        Some(v) => strategy_named(v),
        None => None,
    }
}

/// The query text, empty when the request has none.
pub open spec fn query_text(query: Option<&str>) -> Seq<char> {
    match query {
        Some(q) => q@,
        None => Seq::empty(),
    }
}

/// The reply to a strategy switch, and the state after it: an empty or
/// absent query names no strategy and is refused.
pub open spec fn switch_outcome(v: LoadBalancerView, query: Seq<char>) -> (Reply, LoadBalancerView) {
    if query.len() == 0 {
        (Reply::InvalidStrategy, v)
    } else {
        match requested_strategy(form_urlencoded_pairs(query)) {
            Some(s) => (Reply::StrategyUpdated, after_set_algorithm(v, s)),
            None => (Reply::InvalidStrategy, v),
        }
    }
}

/// A strategy switch, applied or refused, leaves the host table (health and
/// open connections) as it was; a refused one changes nothing at all.
pub proof fn lemma_switch_keeps_hosts(v: LoadBalancerView, query: Seq<char>)
    ensures
        switch_outcome(v, query).1.hosts == v.hosts,
        switch_outcome(v, query).0 == Reply::InvalidStrategy ==> switch_outcome(v, query).1 == v,
        switch_outcome(v, query).0 == Reply::StrategyUpdated ==> switch_outcome(v, query).1.strategy
            == requested_strategy(form_urlencoded_pairs(query))->0,
        query.len() == 0 ==> switch_outcome(v, query) == (Reply::InvalidStrategy, v),
{
}

/// The strategy that the query's pairs ask for: the last `strategy`
/// parameter, when it names a known strategy.
pub fn strategy_from_pairs(pairs: &Vec<(String, String)>) -> (r: Option<Strategy>)
    ensures
        r == requested_strategy(pairs_view(pairs@)),
{
    let key: String = STRATEGY_QUERY_PARAM.to_owned();
    let mut i: usize = pairs.len();
    assert(pairs_view(pairs@).take(i as int) == pairs_view(pairs@));
    while i > 0
        invariant
            i <= pairs@.len(),
            key@ == STRATEGY_QUERY_PARAM@,
            strategy_param(pairs_view(pairs@)) == strategy_param(pairs_view(pairs@).take(i as int)),
        decreases i,
    {
        let ghost before = pairs_view(pairs@).take(i as int);
        assert(before.drop_last() == pairs_view(pairs@).take(i - 1));
        i = i - 1;
        if pairs[i].0 == key {
            return Strategy::from_name(pairs[i].1.as_str());
        }
    }
    assert(pairs_view(pairs@).take(0) == Seq::<(Seq<char>, Seq<char>)>::empty());
    None
}

/// A `GET` of the switch endpoint asks to change strategy; every other
/// request is proxied.
pub fn is_switch_request(method: &str, path: &str) -> (r: bool)
    ensures
        r == (method@ == "GET"@ && path@ == SWITCH_ALGORITHM_ENDPOINT@),
{
    method.to_owned() == "GET".to_owned() && path.to_owned() == SWITCH_ALGORITHM_ENDPOINT.to_owned()
}

/// Applies the strategy that the request's query asks for; a query that names
/// no known strategy is refused and changes nothing.
pub fn switch_algorithm(state: &mut LoadBalancerState, query: Option<&str>) -> (reply: Reply)
    requires
        old(state).wf(),
    ensures
        final(state).wf(),
        (reply, final(state)@) == switch_outcome(old(state)@, query_text(query)),
{
    let q: &str = match query {
        Some(q) => q,
        None => "",
    };
    proof {
        reveal_strlit("");
        assert(q@ == query_text(query));
    }
    if q.is_empty() {
        return Reply::InvalidStrategy;
    }
    let pairs: Vec<(String, String)> = parse_query_pairs(q);
    match strategy_from_pairs(&pairs) {
        Some(strategy) => {
            state.set_algorithm(strategy);
            Reply::StrategyUpdated
        },
        None => Reply::InvalidStrategy,
    }
}

/// Decides a request: a strategy switch is answered here; any other request
/// goes to a host picked by the strategy in charge, which counts one more
/// open connection, or is answered `503` when no host is healthy.
pub fn handle_request(
    state: &mut LoadBalancerState,
    method: &str,
    path: &str,
    query: Option<&str>,
) -> (d: Dispatch)
    requires
        old(state).wf(),
        !(method@ == "GET"@ && path@ == SWITCH_ALGORITHM_ENDPOINT@) ==> pick_fits(old(state)@),
    ensures
        final(state).wf(),
        method@ == "GET"@ && path@ == SWITCH_ALGORITHM_ENDPOINT@ ==> d == Dispatch::Respond(
            switch_outcome(old(state)@, query_text(query)).0,
        ) && final(state)@ == switch_outcome(old(state)@, query_text(query)).1,
        !(method@ == "GET"@ && path@ == SWITCH_ALGORITHM_ENDPOINT@) ==> {
            &&& (d == Dispatch::Respond(Reply::NoAvailableWorkers) <==> !any_healthy(
                old(state)@.hosts,
            ))
            &&& (d is Forward <==> any_healthy(old(state)@.hosts))
            &&& (d is Respond ==> d == Dispatch::Respond(Reply::NoAvailableWorkers))
            &&& d matches Dispatch::Forward(a) ==> next_pick(old(state)@, a) && is_healthy(
                old(state)@.hosts,
                a,
            )
            &&& final(state)@ == (LoadBalancerView {
                hosts: match d {
                    Dispatch::Forward(a) => add_connection(old(state)@.hosts, a),
                    Dispatch::Respond(_) => old(state)@.hosts,
                },
                cursor: cursor_after_pick(old(state)@),
                ..old(state)@
            })
        },
{
    if is_switch_request(method, path) {
        Dispatch::Respond(switch_algorithm(state, query))
    } else {
        match state.get_host() {
            Some(host) => Dispatch::Forward(host),
            None => Dispatch::Respond(Reply::NoAvailableWorkers),
        }
    }
}

/// The strategy the adaptive engine wants: least connections while some host
/// is overloaded, round robin otherwise.
pub fn next_strategy(overloaded: bool) -> (s: Strategy)
    ensures
        s == (if overloaded {
            Strategy::LeastConnections
        } else {
            Strategy::RoundRobin
        }),
{
    if overloaded {
        Strategy::LeastConnections
    } else {
        Strategy::RoundRobin
    }
}

/// One tick of the adaptive engine: puts in charge the strategy that the
/// current load calls for, and says whether that was a switch (after which
/// the engine waits `ALGORITHM_SWITCH_TIMEOUT_SEC`).
pub fn adaptive_step(state: &mut LoadBalancerState) -> (switched: bool)
    requires
        old(state).wf(),
    ensures
        final(state).wf(),
        switched == (old(state)@.strategy != (if overloaded(connection_counts(old(state)@.hosts)) {
            Strategy::LeastConnections
        } else {
            Strategy::RoundRobin
        })),
        final(state)@ == after_set_algorithm(
            old(state)@,
            if overloaded(connection_counts(old(state)@.hosts)) {
                Strategy::LeastConnections
            } else {
                Strategy::RoundRobin
            },
        ),
{
    let strategy: Strategy = next_strategy(state.is_worker_overloaded());
    state.set_algorithm(strategy)
}

} // verus!
