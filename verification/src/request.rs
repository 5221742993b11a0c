use vstd::prelude::*;
use vstd::std_specs::iter::IteratorSpec;
use vstd::string::*;

use crate::proxy::{picks, ticket_target, ProxyState};

verus! {

broadcast use vstd::string::group_string_axioms;

/// The path under which the proxy serves its own metrics.
pub const METRICS_PATH: &'static str = "/metrics";

/// The content type of the metrics text.
pub const METRICS_CONTENT_TYPE: &'static str = "text/plain; version=0.0.4";

/// The metrics body when no metrics sink is attached.
pub const METRICS_DISABLED_BODY: &'static str = "# metrics not enabled\n";

/// The body of the answer to a request for a domain without upstream.
pub const NO_UPSTREAM_BODY: &'static str = "no upstream configured for this domain";

/// The beginning of the body of the answer when the upstream failed; the
/// failure's description follows it.
pub const UPSTREAM_ERROR_PREFIX: &'static str = "upstream error: ";

/// The error type counted when a domain has no upstream.
pub const ERROR_NO_UPSTREAM: &'static str = "no_upstream";

/// The error type counted when the upstream request failed.
pub const ERROR_UPSTREAM: &'static str = "upstream_error";

/// HTTP status `200 OK`.
pub const STATUS_OK: u16 = 200;

/// HTTP status `502 Bad Gateway`.
pub const STATUS_BAD_GATEWAY: u16 = 502;

/// `host` is the header's value up to its first `:` (all of it where it has none).
pub open spec fn is_host_of(header: Seq<char>, host: Seq<char>) -> bool {
    &&& host.len() <= header.len()
    &&& host == header.take(host.len() as int)
    &&& forall|j: int| 0 <= j < host.len() ==> header[j] != ':'
    &&& (host.len() == header.len() || header[host.len() as int] == ':')
}

/// The host named by a `Host` header value: the part before the port.
pub open spec fn host_part(header: Seq<char>) -> Seq<char> {
    choose|host: Seq<char>| is_host_of(header, host)
}

/// A header value has exactly one host part.
pub proof fn lemma_host_unique(header: Seq<char>, a: Seq<char>, b: Seq<char>)
    requires
        is_host_of(header, a),
        is_host_of(header, b),
    ensures
        a == b,
{
    if a.len() < b.len() {
        assert(b[a.len() as int] == header[a.len() as int]);
    } else if b.len() < a.len() {
        assert(a[b.len() as int] == header[b.len() as int]);
    }
    assert(a =~= b);
}

/// The host that a `Host` header value names: the text before the first `:`.
pub fn host_of(header: &str) -> (host: &str)
    ensures
        is_host_of(header@, host@),
        host@ == host_part(header@),
{
    let len = header.unicode_len();
    let mut it = header.chars();
    let mut n: usize = 0;
    loop
        invariant_except_break
            it.obeys_prophetic_iter_laws(),
            it.remaining() == header@.skip(n as int),
        invariant
            len == header@.len(),
            n <= len,
            forall|j: int| 0 <= j < n ==> header@[j] != ':',
        ensures
            n <= len,
            forall|j: int| 0 <= j < n ==> header@[j] != ':',
            n == len || header@[n as int] == ':',
        decreases len - n,
    {
        match it.next() {
            Some(c) => {
                assert(header@.skip(n as int)[0] == header@[n as int]);
                if c == ':' {
                    break;
                }
                assert(header@.skip(n as int).drop_first() =~= header@.skip(n + 1));
                n = n + 1;
            },
            None => {
                break;
            },
        }
    }
    let host = header.substring_char(0, n);
    proof {
        assert(host@ =~= header@.take(n as int));
        lemma_host_unique(header@, host@, host_part(header@));
    }
    host
}

/// The code of a character with ASCII capitals taken to lower case.
pub open spec fn lower_code(c: char) -> u32 {
    if 'A' <= c && c <= 'Z' {
        (c as u32 + 32) as u32
    } else {
        c as u32
    }
}

/// Two texts are equal once ASCII capitals are taken to lower case.
pub open spec fn same_ignoring_ascii_case(a: Seq<char>, b: Seq<char>) -> bool {
    a.len() == b.len() && forall|i: int| 0 <= i < a.len() ==> lower_code(#[trigger] a[i]) == lower_code(b[i])
}

fn char_lower_code(c: char) -> (r: u32)
    ensures
        r == lower_code(c),
{
    if 'A' <= c && c <= 'Z' {
        (c as u32) + 32
    } else {
        c as u32
    }
}

/// Whether two texts are equal once ASCII capitals are taken to lower case.
pub fn eq_ignore_ascii_case(a: &str, b: &str) -> (res: bool)
    ensures
        res == same_ignoring_ascii_case(a@, b@),
{
    let len = a.unicode_len();
    if len != b.unicode_len() {
        return false;
    }
    let mut ia = a.chars();
    let mut ib = b.chars();
    let mut n: usize = 0;
    while n < len
        invariant
            len == a@.len(),
            len == b@.len(),
            n <= len,
            ia.obeys_prophetic_iter_laws(),
            ib.obeys_prophetic_iter_laws(),
            ia.remaining() == a@.skip(n as int),
            ib.remaining() == b@.skip(n as int),
            forall|j: int| 0 <= j < n ==> lower_code(#[trigger] a@[j]) == lower_code(b@[j]),
        decreases len - n,
    {
        let ca = ia.next();
        let cb = ib.next();
        assert(a@.skip(n as int)[0] == a@[n as int]);
        assert(b@.skip(n as int)[0] == b@[n as int]);
        assert(a@.skip(n as int).drop_first() =~= a@.skip(n + 1));
        assert(b@.skip(n as int).drop_first() =~= b@.skip(n + 1));
        match (ca, cb) {
            (Some(x), Some(y)) => {
                if char_lower_code(x) != char_lower_code(y) {
                    return false;
                }
            },
            _ => {
                return false;
            },
        }
        n = n + 1;
    }
    true
}

/// A header that is not forwarded: `host` or `connection`, in any ASCII case.
pub open spec fn is_hop_header(name: Seq<char>) -> bool {
    same_ignoring_ascii_case(name, "host"@) || same_ignoring_ascii_case(name, "connection"@)
}

/// Whether a header stays behind instead of being forwarded.
pub fn is_hop_header_name(name: &str) -> (res: bool)
    ensures
        res == is_hop_header(name@),
{
    eq_ignore_ascii_case(name, "host") || eq_ignore_ascii_case(name, "connection")
}

/// A header as received: its name and the bytes of its value.
pub open spec fn header_view(h: (String, Vec<u8>)) -> (Seq<char>, Seq<u8>) {
    (h.0@, h.1@)
}

/// The headers that go to the upstream, in order: all those received,
/// except `host` and `connection`.
pub open spec fn forwarded(hs: Seq<(Seq<char>, Seq<u8>)>) -> Seq<(Seq<char>, Seq<u8>)>
    decreases hs.len(),
{
    if hs.len() == 0 {
        Seq::empty()
    } else {
        let rest = forwarded(hs.drop_last());
        if !is_hop_header(hs.last().0) {
            rest.push(hs.last())
        } else {
            rest
        }
    }
}

/// A copy of a byte string.
fn copy_bytes(b: &Vec<u8>) -> (c: Vec<u8>)
    ensures
        c@ == b@,
{
    let c = b.clone();
    assert(c@ =~= b@) by {
        assert forall|i: int| 0 <= i < b@.len() implies c@[i] == b@[i] by {
            assert(cloned::<u8>(b[i], c[i]));
        }
    }
    c
}

/// The headers of a request that go to the upstream.
pub fn forward_headers(headers: &Vec<(String, Vec<u8>)>) -> (out: Vec<(String, Vec<u8>)>)
    ensures
        out@.map_values(|h: (String, Vec<u8>)| header_view(h))
            == forwarded(headers@.map_values(|h: (String, Vec<u8>)| header_view(h))),
{
    let ghost hs = headers@.map_values(|h: (String, Vec<u8>)| header_view(h));
    let n = headers.len();
    let mut out: Vec<(String, Vec<u8>)> = Vec::new();
    let mut i: usize = 0;
    while i < n
        invariant
            n == headers@.len(),
            hs == headers@.map_values(|h: (String, Vec<u8>)| header_view(h)),
            i <= n,
            out@.map_values(|h: (String, Vec<u8>)| header_view(h)) == forwarded(hs.take(i as int)),
        decreases n - i,
    {
        let ghost before = out@;
        assert(hs.take(i + 1).drop_last() =~= hs.take(i as int));
        assert(hs.take(i + 1).last() == header_view(headers@[i as int]));
        if !is_hop_header_name(headers[i].0.as_str()) {
            out.push((headers[i].0.clone(), copy_bytes(&headers[i].1)));
            assert(out@.map_values(|h: (String, Vec<u8>)| header_view(h))
                =~= before.map_values(|h: (String, Vec<u8>)| header_view(h)).push(
                    header_view(out@[out@.len() - 1])));
        }
        i = i + 1;
    }
    assert(hs.take(n as int) =~= hs);
    out
}

/// The address a request is forwarded to: `http://`, the upstream, then the
/// path and query (`/` where there is none).
pub open spec fn uri_for(upstream: Seq<char>, path_and_query: Option<Seq<char>>) -> Seq<char> {
    "http://"@ + upstream + match path_and_query {
        Some(pq) => pq,
        None => "/"@,
    }
}

/// The address to forward a request to.
pub fn forward_uri(upstream: &str, path_and_query: Option<&str>) -> (uri: String)
    ensures
        uri@ == uri_for(upstream@, match path_and_query {
            Some(pq) => Some(pq@),
            None => None,
        }),
{
    let mut uri = String::from_str("http://");
    uri.append(upstream);
    match path_and_query {
        Some(pq) => uri.append(pq),
        None => uri.append("/"),
    }
    uri
}

/// `hyper::StatusCode::from_u16` (the `http` crate's): it accepts exactly the
/// codes from 100 to 999 and refuses every other; the status it builds holds
/// the code it was given, which `StatusCode::as_u16` reads back to a `u16`.
#[verifier::external_body]
fn status_code_from_u16(code: u16) -> (res: Option<u16>)
    ensures
        res == (if 100 <= code && code <= 999 { Some(code) } else { None::<u16> }),
{
    match hyper::StatusCode::from_u16(code) {
        Ok(status) => Some(status.as_u16()),
        Err(_) => None,
    }
}

/// The status relayed to the client for an upstream's status: the same
/// where it is a valid status code (100 to 999), `502` otherwise.
pub fn relay_status(upstream_status: u16) -> (status: u16)
    ensures
        status == relayed_status(upstream_status),
{
    match status_code_from_u16(upstream_status) {
        Some(code) => code,
        None => STATUS_BAD_GATEWAY,
    }
}

/// What the proxy reads of an incoming request.
#[derive(Debug, Clone)]
pub struct IncomingRequest {
    /// The `Host` header's value, where there is one and it is text.
    pub host_header: Option<String>,
    /// The path of the request's URI.
    pub path: String,
    /// The path and query of the request's URI, where it has them.
    pub path_and_query: Option<String>,
    /// The request's method.
    pub method: String,
    /// The request's headers in order: name and value.
    pub headers: Vec<(String, Vec<u8>)>,
    /// The request's body.
    pub body: Vec<u8>,
}

/// The text of the `Host` header, empty where there is none.
pub open spec fn host_header_text(req: IncomingRequest) -> Seq<char> {
    match req.host_header {
        Some(h) => h@,
        None => Seq::empty(),
    }
}

/// The domain a request is for: the host part of its `Host` header.
pub open spec fn request_domain(req: IncomingRequest) -> Seq<char> {
    host_part(host_header_text(req))
}

/// The path and query of a request, as text.
pub open spec fn request_path_and_query(req: IncomingRequest) -> Option<Seq<char>> {
    match req.path_and_query {
        Some(pq) => Some(pq@),
        None => None,
    }
}

/// A status code that HTTP accepts: three digits, from 100 to 999.
pub open spec fn valid_status(status: u16) -> bool {
    100 <= status && status <= 999
}

/// What to do with a request.
#[derive(Debug)]
pub enum RequestPlan {
    /// Answer `status` with the metrics text of the attached sink, or with
    /// `METRICS_DISABLED_BODY` where none is attached (`enabled` false).
    Metrics { status: u16, content_type: &'static str, enabled: bool },
    /// Count an error of `error_type` for `domain`, and answer `status` with `body`.
    Reject { domain: String, status: u16, error_type: &'static str, body: &'static str },
    /// Send the request to `uri` at `upstream`, with the received `method`,
    /// the forwarded `headers` and the received `body`.
    Forward {
        domain: String,
        upstream: String,
        uri: String,
        method: String,
        headers: Vec<(String, Vec<u8>)>,
        body: Vec<u8>,
    },
}

/// Decides what to do with a request: metrics requests are answered by the
/// proxy itself; a request whose domain has no weighted upstream is refused
/// with `502`; any other is forwarded as received (method, headers but
/// `host` and `connection`, body) to the upstream that the domain's next
/// ticket selects.
pub fn plan_request<M>(state: &ProxyState<M>, req: IncomingRequest) -> (plan: RequestPlan)
    requires
        req.path@ != METRICS_PATH@ && state.routes@.contains_key(request_domain(req))
            ==> state.routes@[request_domain(req)].total() <= u32::MAX as nat,
    ensures
        req.path@ == METRICS_PATH@ ==> plan == (RequestPlan::Metrics {
            status: STATUS_OK,
            content_type: METRICS_CONTENT_TYPE,
            enabled: state.metrics is Some,
        }),
        req.path@ != METRICS_PATH@ && (!state.routes@.contains_key(request_domain(req))
            || state.routes@[request_domain(req)].total() == 0) ==> (plan matches RequestPlan::Reject {
                domain, status, error_type, body }
            && domain@ == request_domain(req) && status == STATUS_BAD_GATEWAY
            && error_type == ERROR_NO_UPSTREAM && body == NO_UPSTREAM_BODY),
        req.path@ != METRICS_PATH@ && state.routes@.contains_key(request_domain(req))
            && state.routes@[request_domain(req)].total() > 0 ==> (plan matches RequestPlan::Forward {
                domain, upstream, uri, method, headers, body }
            && domain@ == request_domain(req)
            && method@ == req.method@
            && body@ == req.body@
            && headers@.map_values(|h: (String, Vec<u8>)| header_view(h))
                == forwarded(req.headers@.map_values(|h: (String, Vec<u8>)| header_view(h)))
            && uri@ == uri_for(upstream@, request_path_and_query(req))
            && exists|ticket: usize, i: int|
                #![trigger ticket_target(ticket, state.routes@[request_domain(req)].total()), state.routes@[request_domain(req)].upstreams@[i]]
                picks(state.routes@[request_domain(req)].weights(),
                    ticket_target(ticket, state.routes@[request_domain(req)].total()), i)
                && state.routes@[request_domain(req)].upstreams@[i].weight > 0
                && upstream@ == state.routes@[request_domain(req)].upstreams@[i].address@),
        plan matches RequestPlan::Metrics { status, .. } ==> valid_status(status),
        plan matches RequestPlan::Reject { status, .. } ==> valid_status(status),
{
    let ghost req0 = req;
    let IncomingRequest { host_header, path, path_and_query, method, headers, body } = req;
    let header: &str = match &host_header {
        Some(h) => h.as_str(),
        None => "",
    };
    proof {
        reveal_strlit("");
        assert(header@ == host_header_text(req0));
    }
    let host = host_of(header);
    let domain = host.to_owned();
    if path.as_str().eq(METRICS_PATH) {
        return RequestPlan::Metrics {
            status: STATUS_OK,
            content_type: METRICS_CONTENT_TYPE,
            enabled: state.metrics.is_some(),
        };
    }
    match state.select_upstream(host) {
        None => RequestPlan::Reject {
            domain,
            status: STATUS_BAD_GATEWAY,
            error_type: ERROR_NO_UPSTREAM,
            body: NO_UPSTREAM_BODY,
        },
        Some(addr) => {
            let pq: Option<&str> = match &path_and_query {
                Some(p) => Some(p.as_str()),
                None => None,
            };
            let uri = forward_uri(addr, pq);
            let upstream = addr.to_owned();
            let headers = forward_headers(&headers);
            RequestPlan::Forward { domain, upstream, uri, method, headers, body }
        },
    }
}

/// What the upstream answered: its status, headers and body.
#[derive(Debug, Clone)]
pub struct UpstreamReply {
    pub status: u16,
    pub headers: Vec<(String, Vec<u8>)>,
    pub body: Vec<u8>,
}

/// What to answer once the upstream has replied, or failed to.
#[derive(Debug)]
pub enum ReplyPlan {
    /// Answer `status` with the upstream's `headers` and `body`, and count
    /// the request with that status.
    Relay { status: u16, headers: Vec<(String, Vec<u8>)>, body: Vec<u8> },
    /// Count an error of `error_type`, and answer `status` with
    /// `UPSTREAM_ERROR_PREFIX` followed by the failure's description.
    Fail { status: u16, error_type: &'static str },
}

/// The status relayed for an upstream status.
pub open spec fn relayed_status(upstream_status: u16) -> u16 {
    if valid_status(upstream_status) { upstream_status } else { STATUS_BAD_GATEWAY }
}

/// Decides the answer from the upstream's reply, or `None` where the
/// upstream request failed: a reply is relayed as received (its status
/// where valid, `502` otherwise); a failure is answered `502`.
pub fn plan_reply(reply: Option<UpstreamReply>) -> (plan: ReplyPlan)
    ensures
        match reply {
            Some(r) => plan matches ReplyPlan::Relay { status, headers, body }
                && status == relayed_status(r.status)
                && headers@ == r.headers@
                && body@ == r.body@,
            None => plan == (ReplyPlan::Fail { status: STATUS_BAD_GATEWAY, error_type: ERROR_UPSTREAM }),
        },
        plan matches ReplyPlan::Relay { status, .. } ==> valid_status(status),
        plan matches ReplyPlan::Fail { status, .. } ==> valid_status(status),
{
    match reply {
        Some(r) => {
            let UpstreamReply { status, headers, body } = r;
            ReplyPlan::Relay { status: relay_status(status), headers, body }
        },
        None => ReplyPlan::Fail { status: STATUS_BAD_GATEWAY, error_type: ERROR_UPSTREAM },
    }
}

/// A header is withheld from the upstream exactly when its name is `host`
/// or `connection`, in any ASCII case: the forwarded headers are the received
/// ones with just those removed, every other header kept, in order.
pub proof fn law_forwarded_headers(hs: Seq<(Seq<char>, Seq<u8>)>)
    ensures
        forwarded(hs) == hs.filter(|h: (Seq<char>, Seq<u8>)|
            !same_ignoring_ascii_case(h.0, "host"@) && !same_ignoring_ascii_case(h.0, "connection"@)),
    decreases hs.len(),
{
    reveal_with_fuel(Seq::filter, 1);
    if hs.len() > 0 {
        law_forwarded_headers(hs.drop_last());
    }
}

/// Comparing names while ignoring ASCII case: every text matches itself,
/// a capital matches its small letter, and texts of different lengths never
/// match.
pub proof fn law_case_folding(a: Seq<char>, b: Seq<char>)
    ensures
        same_ignoring_ascii_case(a, a),
        a.len() != b.len() ==> !same_ignoring_ascii_case(a, b),
        same_ignoring_ascii_case(seq!['H', 'o', 'S', 'T'], seq!['h', 'o', 's', 't']),
{
}

/// The status relayed to the client: every code that HTTP's status type
/// accepts (100 to 999, redirects and errors included) passes unchanged;
/// only a code outside that range becomes `502`.
pub proof fn law_relayed_status(code: u16)
    ensures
        100 <= code <= 999 ==> relayed_status(code) == code,
        (code < 100 || code > 999) ==> relayed_status(code) == 502,
{
}

} // verus!
