use vstd::prelude::*;
use vstd::arithmetic::div_mod::{lemma_fundamental_div_mod, lemma_fundamental_div_mod_converse_mod, lemma_mod_bound, lemma_mod_mod};
use vstd::relations::injective_on;
use vstd::set_lib::{lemma_int_range, lemma_len_subset, lemma_map_size, set_int_range};

use std::sync::Arc;
use std::sync::atomic::AtomicUsize;

use crate::config::{ProxyConfig, ProxyRouteConfig};
use crate::domain_map::{entries_map, has_key, index_of, lemma_index_of, DomainMap};

verus! {

/// The sum of a sequence of weights.
pub open spec fn weight_sum(ws: Seq<u32>) -> nat
    decreases ws.len(),
{
    if ws.len() == 0 {
        0
    } else {
        weight_sum(ws.drop_last()) + ws.last() as nat
    }
}

/// The sum of the first `k` weights.
pub open spec fn prefix_weight(ws: Seq<u32>, k: int) -> nat {
    weight_sum(ws.take(k))
}

/// Upstream `i` is the one chosen for `target`: `target` falls within the
/// slice `[prefix_weight(i), prefix_weight(i + 1))` that weight `i` occupies.
pub open spec fn picks(ws: Seq<u32>, target: int, i: int) -> bool {
    0 <= i < ws.len() && prefix_weight(ws, i) <= target < prefix_weight(ws, i + 1)
}

/// The position within the total weight that a ticket stands for: the ticket
/// cut to 32 bits, modulo the total.
pub open spec fn ticket_target(ticket: usize, total: nat) -> int {
    (ticket as u32) as int % (total as int)
}

/// Adding one weight to the end adds it to the sum.
pub proof fn lemma_prefix_step(ws: Seq<u32>, k: int)
    requires
        0 <= k < ws.len(),
    ensures
        prefix_weight(ws, k + 1) == prefix_weight(ws, k) + ws[k],
{
    assert(ws.take(k + 1).drop_last() =~= ws.take(k));
}

/// Prefix sums never decrease.
pub proof fn lemma_prefix_le(ws: Seq<u32>, a: int, b: int)
    requires
        0 <= a <= b <= ws.len(),
    ensures
        prefix_weight(ws, a) <= prefix_weight(ws, b),
    decreases b - a,
{
    if a < b {
        lemma_prefix_step(ws, b - 1);
        lemma_prefix_le(ws, a, b - 1);
    }
}

/// The prefix of all the weights is their sum, and no prefix exceeds it.
pub proof fn lemma_prefix_monotone(ws: Seq<u32>, a: int, b: int)
    requires
        0 <= a <= b <= ws.len(),
    ensures
        prefix_weight(ws, a) <= prefix_weight(ws, b),
        prefix_weight(ws, b) <= weight_sum(ws),
        prefix_weight(ws, ws.len() as int) == weight_sum(ws),
{
    lemma_prefix_le(ws, a, b);
    lemma_prefix_le(ws, b, ws.len() as int);
    assert(ws.take(ws.len() as int) =~= ws);
}

/// At most one upstream is chosen for a target.
pub proof fn law_pick_unique(ws: Seq<u32>, target: int, i: int, j: int)
    requires
        picks(ws, target, i),
        picks(ws, target, j),
    ensures
        i == j,
{
    if i < j {
        lemma_prefix_monotone(ws, i + 1, j);
    } else if j < i {
        lemma_prefix_monotone(ws, j + 1, i);
    }
}

/// Every target below the total weight is picked by some upstream.
pub proof fn law_pick_exists(ws: Seq<u32>, target: int)
    requires
        0 <= target < weight_sum(ws),
    ensures
        exists|i: int| picks(ws, target, i),
    decreases ws.len(),
{
    let n = ws.len() as int;
    lemma_prefix_monotone(ws, n, n);
    let init = ws.drop_last();
    assert(prefix_weight(ws, n - 1) == weight_sum(init)) by {
        assert(ws.take(n - 1) =~= init);
    }
    if target < weight_sum(init) {
        law_pick_exists(init, target);
        let i = choose|i: int| picks(init, target, i);
        assert(init.take(i) =~= ws.take(i));
        assert(init.take(i + 1) =~= ws.take(i + 1));
        assert(picks(ws, target, i));
    } else {
        assert(picks(ws, target, n - 1));
    }
}

/// The targets for which upstream `i` is picked are exactly the
/// `ws[i]` consecutive targets of its slice: out of every full round of
/// `weight_sum(ws)` targets, upstream `i` is picked `ws[i]` times.
pub proof fn law_weight_share(ws: Seq<u32>, i: int)
    requires
        0 <= i < ws.len(),
    ensures
        Set::new(|t: int| 0 <= t < weight_sum(ws) && picks(ws, t, i))
            == set_int_range(prefix_weight(ws, i) as int, prefix_weight(ws, i + 1) as int),
        Set::new(|t: int| 0 <= t < weight_sum(ws) && picks(ws, t, i)).finite(),
        Set::new(|t: int| 0 <= t < weight_sum(ws) && picks(ws, t, i)).len() == ws[i] as nat,
{
    lemma_prefix_step(ws, i);
    lemma_prefix_monotone(ws, i, i + 1);
    assert(Set::new(|t: int| 0 <= t < weight_sum(ws) && picks(ws, t, i))
        =~= set_int_range(prefix_weight(ws, i) as int, prefix_weight(ws, i + 1) as int));
    lemma_int_range(prefix_weight(ws, i) as int, prefix_weight(ws, i + 1) as int);
}

/// Adding `k < m` to `x` moves its remainder modulo `m` forward by `k`, wrapping once.
pub proof fn lemma_mod_shift(x: int, k: int, m: int)
    requires
        0 <= x,
        0 < m,
        0 <= k < m,
    ensures
        (x + k) % m == (if x % m + k < m { x % m + k } else { x % m + k - m }),
{
    let q = x / m;
    let r = x % m;
    lemma_fundamental_div_mod(x, m);
    lemma_mod_bound(x, m);
    assert(m * q == q * m) by (nonlinear_arith);
    if r + k < m {
        lemma_fundamental_div_mod_converse_mod(x + k, m, q, r + k);
    } else {
        assert((q + 1) * m == q * m + m) by (nonlinear_arith);
        lemma_fundamental_div_mod_converse_mod(x + k, m, q + 1, r + k - m);
    }
}

/// The ticket handed out `k` tickets after `start`: the counter wraps around
/// at the width of `usize`.
pub open spec fn ticket_after(start: usize, k: int) -> usize {
    (start + k) as usize
}

/// A ticket that is `k` after `start` is cut to the same 32 bits as `start`
/// moved forward by `k`.
pub proof fn lemma_ticket_bits(start: usize, k: u32)
    ensures
        (ticket_after(start, k as int) as u32) == ((start as u32) + k) as u32,
{
    assert((((start + k) as usize) as u32) == ((start as u32) + k) as u32) by (bit_vector);
}

/// Adding two 32-bit numbers and cutting to 32 bits takes the sum modulo 2^32.
pub proof fn lemma_u32_wrap(a: u32, b: u32)
    ensures
        ((a + b) as u32) as int == (a as int + b as int) % (u32::MAX as int + 1),
{
    assert(((a + b) as u32) as int == (a as int + b as int) % 0x1_0000_0000) by (bit_vector);
}

/// Weighted round robin: over any `weight_sum(ws)` consecutive tickets,
/// upstream `i` is selected exactly `ws[i]` times, provided the window does
/// not cross the 32-bit wrap of the ticket or the total weight divides 2^32.
pub proof fn law_round_robin_window(ws: Seq<u32>, start: usize, i: int)
    requires
        0 <= i < ws.len(),
        0 < weight_sum(ws) <= u32::MAX as nat,
        (start as u32) as int + weight_sum(ws) <= u32::MAX as int + 1
            || (u32::MAX as int + 1) % (weight_sum(ws) as int) == 0,
    ensures
        Set::new(|k: int| 0 <= k < weight_sum(ws) && picks(ws, ticket_target(ticket_after(start, k), weight_sum(ws)), i)).finite(),
        Set::new(|k: int| 0 <= k < weight_sum(ws) && picks(ws, ticket_target(ticket_after(start, k), weight_sum(ws)), i)).len()
            == ws[i] as nat,
{
    let total = weight_sum(ws) as int;
    let s = (start as u32) as int;
    let r = s % total;
    let window = Set::new(|k: int| 0 <= k < total && picks(ws, ticket_target(ticket_after(start, k), weight_sum(ws)), i));
    let targets = Set::new(|t: int| 0 <= t < weight_sum(ws) && picks(ws, t, i));
    let f = |k: int| if r + k < total { r + k } else { r + k - total };
    lemma_mod_bound(s, total);
    assert forall|k: int| 0 <= k < total implies #[trigger] ticket_target(ticket_after(start, k), weight_sum(ws)) == f(k) by {
        lemma_ticket_bits(start, k as u32);
        lemma_u32_wrap((start as u32), k as u32);
        if s + k <= u32::MAX as int {
            assert(ticket_after(start, k) as u32 == s + k);
        } else {
            let m = u32::MAX as int + 1;
            let q = m / total;
            lemma_fundamental_div_mod(m, total);
            assert(0 < q) by (nonlinear_arith)
                requires m == total * q, total > 0, m > 0;
            lemma_mod_mod(s + k, total, q);
            assert(total * q == m);
            assert((ticket_after(start, k) as u32) as int % total == (s + k) % total);
        }
        lemma_mod_shift(s, k, total);
    }
    assert(window.map(f) =~= targets) by {
        assert forall|t: int| #[trigger] targets.contains(t) implies window.map(f).contains(t) by {
            let k = if t >= r { t - r } else { t - r + total };
            assert(f(k) == t);
            assert(window.contains(k));
        }
    }
    assert(injective_on(f, window));
    lemma_int_range(0, total);
    assert(window.subset_of(set_int_range(0, total)));
    lemma_len_subset(window, set_int_range(0, total));
    lemma_map_size(window, targets, f);
    law_weight_share(ws, i);
}

/// One upstream of the route: its address and its weight.
#[derive(Debug, Clone)]
pub struct WeightedUpstream {
    pub address: String,
    pub weight: u32,
}

/// A route at run time: its upstreams and the counter that hands out tickets.
#[derive(Debug)]
pub struct RouteState {
    pub upstreams: Vec<WeightedUpstream>,
    pub counter: AtomicUsize,
}

/// The proxy's routing state: one route per domain, and the metrics sink
/// the request handler reports to.
pub struct ProxyState<M = ()> {
    pub routes: DomainMap<RouteState>,
    pub metrics: Option<Arc<M>>,
}

/// The weights of a list of upstreams, in order.
pub open spec fn weights_of(us: Seq<WeightedUpstream>) -> Seq<u32> {
    us.map_values(|u: WeightedUpstream| u.weight)
}

/// A route holds the configured upstreams: same addresses and weights, same order.
pub open spec fn route_matches(rs: RouteState, rc: ProxyRouteConfig) -> bool {
    &&& rs.upstreams@.len() == rc.upstreams@.len()
    &&& forall|j: int| 0 <= j < rs.upstreams@.len() ==> {
        &&& (#[trigger] rs.upstreams@[j]).address@ == rc.upstreams@[j].address@
        &&& rs.upstreams@[j].weight == rc.upstreams@[j].weight
    }
}

/// The routing state holds one route for each configured domain, and no
/// other, each with that domain's configured upstreams.
pub open spec fn built_from<M>(s: ProxyState<M>, config: ProxyConfig) -> bool {
    &&& s.routes@.dom() == config.routes@.dom()
    &&& forall|d: Seq<char>| #[trigger] config.routes@.contains_key(d)
        ==> route_matches(s.routes@[d], config.routes@[d])
}

impl RouteState {
    /// The weights of the route's upstreams, in order.
    pub open spec fn weights(&self) -> Seq<u32> {
        weights_of(self.upstreams@)
    }

    /// The route's total weight.
    pub open spec fn total(&self) -> nat {
        weight_sum(self.weights())
    }

    /// The route's total weight, or `None` where it does not fit in a `u32`.
    pub fn total_weight(&self) -> (res: Option<u32>)
        ensures
            res == (if self.total() <= u32::MAX as nat {
                Some(self.total() as u32)
            } else {
                None::<u32>
            }),
    {
        let ghost ws = self.weights();
        let n = self.upstreams.len();
        let mut sum: u32 = 0;
        let mut i: usize = 0;
        while i < n
            invariant
                n == self.upstreams@.len(),
                ws == self.weights(),
                i <= n,
                sum == prefix_weight(ws, i as int),
            decreases n - i,
        {
            proof { lemma_prefix_step(ws, i as int); }
            match sum.checked_add(self.upstreams[i].weight) {
                Some(s) => { sum = s; },
                None => {
                    proof { lemma_prefix_monotone(ws, i + 1, n as int); }
                    return None;
                },
            }
            i = i + 1;
        }
        proof { lemma_prefix_monotone(ws, n as int, n as int); }
        Some(sum)
    }

    /// The upstream that `ticket` selects: the one whose slice of the total
    /// weight holds the ticket's target.
    pub fn pick_upstream(&self, ticket: usize) -> (i: usize)
        requires
            0 < self.total() <= u32::MAX as nat,
        ensures
            picks(self.weights(), ticket_target(ticket, self.total()), i as int),
    {
        let ghost ws = self.weights();
        let total = match self.total_weight() {
            Some(t) => t,
            None => 1,
        };
        let start: u32 = (ticket as u32) % total;
        let mut target: u32 = start;
        let n = self.upstreams.len();
        let mut i: usize = 0;
        while i < n
            invariant
                n == self.upstreams@.len(),
                ws == self.weights(),
                total as nat == weight_sum(ws),
                start as int == ticket_target(ticket, weight_sum(ws)),
                i <= n,
                start == target + prefix_weight(ws, i as int),
            decreases n - i,
        {
            proof { lemma_prefix_step(ws, i as int); }
            let w = self.upstreams[i].weight;
            if target < w {
                return i;
            }
            target = target - w;
            i = i + 1;
        }
        proof {
            lemma_prefix_monotone(ws, n as int, n as int);
            assert(false);
        }
        0
    }

    /// Hands out the next ticket of the route's counter.
    fn next_ticket(&self) -> usize {
        self.counter.fetch_add(1, std::sync::atomic::Ordering::Relaxed)
    }
}

/// Builds a route's run-time state from its configuration: the same
/// upstreams, in the same order, with a fresh counter.
fn route_from_config(rc: &ProxyRouteConfig) -> (rs: RouteState)
    ensures
        route_matches(rs, *rc),
{
    let n = rc.upstreams.len();
    let mut upstreams: Vec<WeightedUpstream> = Vec::new();
    let mut i: usize = 0;
    while i < n
        invariant
            n == rc.upstreams@.len(),
            i <= n,
            upstreams@.len() == i,
            forall|j: int| 0 <= j < i ==> {
                &&& (#[trigger] upstreams@[j]).address@ == rc.upstreams@[j].address@
                &&& upstreams@[j].weight == rc.upstreams@[j].weight
            },
        decreases n - i,
    {
        let entry = &rc.upstreams[i];
        upstreams.push(WeightedUpstream { address: entry.address.clone(), weight: entry.weight });
        i = i + 1;
    }
    RouteState { upstreams, counter: AtomicUsize::new(0) }
}

impl<M> ProxyState<M> {
    /// Builds the routing state from the configuration: one route for each
    /// configured domain, holding that domain's upstreams.
    pub fn from_config(config: &ProxyConfig, metrics: Option<Arc<M>>) -> (s: Self)
        ensures
            built_from(s, *config),
            s.metrics == metrics,
    {
        let entries = config.routes.entries();
        let ghost es = entries@;
        let n = entries.len();
        let mut routes: DomainMap<RouteState> = DomainMap::new();
        let mut i: usize = 0;
        while i < n
            invariant
                n == es.len(),
                es == entries@,
                config.routes@ == entries_map(es),
                crate::domain_map::keys_distinct(es),
                i <= n,
                forall|d: Seq<char>| #[trigger] routes@.contains_key(d)
                    <==> exists|j: int| 0 <= j < i && #[trigger] es[j].0@ == d,
                forall|d: Seq<char>| #[trigger] routes@.contains_key(d)
                    ==> route_matches(routes@[d], config.routes@[d]),
            decreases n - i,
        {
            let key = entries[i].0.clone();
            let route = route_from_config(&entries[i].1);
            proof { lemma_index_of(es, i as int); }
            let _ = routes.insert(key, route);
            proof {
                assert forall|d: Seq<char>| #[trigger] routes@.contains_key(d)
                    <==> exists|j: int| 0 <= j < i + 1 && #[trigger] es[j].0@ == d by {
                    if d == es[i as int].0@ {
                        assert(es[i as int].0@ == d);
                    }
                }
            }
            i = i + 1;
        }
        proof {
            assert forall|d: Seq<char>| #[trigger] routes@.contains_key(d)
                <==> config.routes@.contains_key(d) by {
                if has_key(es, d) {
                    let j = index_of(es, d);
                    assert(es[j].0@ == d);
                }
            }
            assert(routes@.dom() =~= config.routes@.dom());
        }
        ProxyState { routes, metrics }
    }

    /// Picks the upstream that serves the next request for `domain`: `None`
    /// where the domain has no route or its route has no weight; otherwise
    /// the upstream that the route's next ticket selects.
    pub fn select_upstream(&self, domain: &str) -> (res: Option<&str>)
        requires
            self.routes@.contains_key(domain@) ==> self.routes@[domain@].total() <= u32::MAX as nat,
        ensures
            res is None <==> (!self.routes@.contains_key(domain@) || self.routes@[domain@].total() == 0),
            res matches Some(addr) ==> exists|ticket: usize, i: int|
                #![trigger ticket_target(ticket, self.routes@[domain@].total()), self.routes@[domain@].upstreams@[i]]
                picks(self.routes@[domain@].weights(), ticket_target(ticket, self.routes@[domain@].total()), i)
                && self.routes@[domain@].upstreams@[i].weight > 0
                && addr@ == self.routes@[domain@].upstreams@[i].address@,
    {
        let route = match self.routes.get(domain) {
            Some(r) => r,
            None => return None,
        };
        if route.upstreams.len() == 0 {
            proof { assert(route.weights() =~= Seq::<u32>::empty()); }
            return None;
        }
        let total = match route.total_weight() {
            Some(t) => t,
            None => return None,
        };
        if total == 0 {
            return None;
        }
        let ticket = route.next_ticket();
        let i = route.pick_upstream(ticket);
        proof { lemma_prefix_step(route.weights(), i as int); }
        Some(route.upstreams[i].address.as_str())
    }
}

impl ProxyState {
    /// Builds the routing state from the configuration alone, with no
    /// metrics sink attached.
    pub fn from_config_without_metrics(config: &ProxyConfig) -> (s: Self)
        ensures
            built_from(s, *config),
            s.metrics is None,
    {
        ProxyState::from_config(config, None)
    }
}

/// Routing follows the configuration: a domain that the configuration does
/// not name has no route, and an upstream picked for a configured domain is
/// one of that domain's configured upstreams, with a positive weight.
pub proof fn law_routing_follows_config<M>(config: ProxyConfig, s: ProxyState<M>, domain: Seq<char>, target: int, i: int)
    requires
        built_from(s, config),
    ensures
        !config.routes@.contains_key(domain) ==> !s.routes@.contains_key(domain),
        config.routes@.contains_key(domain) && picks(s.routes@[domain].weights(), target, i) ==> {
            &&& 0 <= i < config.routes@[domain].upstreams@.len()
            &&& config.routes@[domain].upstreams@[i].address@ == s.routes@[domain].upstreams@[i].address@
            &&& config.routes@[domain].upstreams@[i].weight > 0
        },
{
    if config.routes@.contains_key(domain) && picks(s.routes@[domain].weights(), target, i) {
        let ws = s.routes@[domain].weights();
        lemma_prefix_step(ws, i);
    }
}

} // verus!
