//! The HTTP transport.
//!
//! Each location runs an HTTP server. A message from `from` to `to` is the
//! body of a POST request to `to`'s address that names `from` in the
//! `X-CHORUS-SOURCE` header; the receiving server puts the body in the queue
//! of `from`, where `receive` takes it.

use std::collections::VecDeque;

use crate::location_map::LocationMap;
use crate::queues::{
    apply_op, lemma_sends_append, pop_message, push_message, queues_after, sent_on,
};
use crate::transport::{
    lemma_take_push_contains, names_of, ChannelQueues, TransportChannel, TransportConfig,
};
use vstd::prelude::*;
use vstd::string::*;
use vstd::utf8::is_ascii_chars;

verus! {

/// The queues of the HTTP transport: for each sending location, the
/// messages received from it and not yet taken, oldest first.
pub type HttpQueueMap = LocationMap<VecDeque<String>>;

impl ChannelQueues for LocationMap<VecDeque<String>> {
    /// Exactly the named locations have a queue.
    open spec fn serves(&self, names: Seq<Seq<char>>) -> bool {
        forall|a: Seq<char>| #[trigger] self@.dom().contains(a) <==> names.contains(a)
    }
}

/// The pending messages of each sending location.
pub open spec fn http_queues(q: HttpQueueMap) -> Map<Seq<char>, Seq<String>> {
    q@.map_values(|d: VecDeque<String>| d@)
}

/// The header name for the source location.
pub const HEADER_SRC: &'static str = "X-CHORUS-SOURCE";

/// The characters of `HEADER_SRC`.
pub open spec fn header_src_name() -> Seq<char> {
    seq!['X', '-', 'C', 'H', 'O', 'R', 'U', 'S', '-', 'S', 'O', 'U', 'R', 'C', 'E']
}

/// The lower-case form of an ASCII upper-case letter; any other character
/// unchanged.
pub open spec fn ascii_lower(c: char) -> char {
    if 'A' <= c && c <= 'Z' {
        ((c as u32) + 32) as char
    } else {
        c
    }
}

/// Two strings that differ at most in the case of ASCII letters.
pub open spec fn eq_ignore_ascii_case(a: Seq<char>, b: Seq<char>) -> bool {
    &&& a.len() == b.len()
    &&& forall|i: int| 0 <= i < a.len() ==> #[trigger] ascii_lower(a[i]) == ascii_lower(b[i])
}

/// A header of an incoming request.
pub struct RequestHeader {
    /// The header's name.
    pub field: String,
    /// The header's value.
    pub value: String,
}

/// Whether a header names the source location: its name is ASCII and is
/// `X-CHORUS-SOURCE` in any case.
pub open spec fn is_source_header(h: RequestHeader) -> bool {
    is_ascii_chars(h.field@) && eq_ignore_ascii_case(h.field@, header_src_name())
}

/// The value of the first header that names the source location, if any.
pub open spec fn request_source(headers: Seq<RequestHeader>) -> Option<Seq<char>>
    decreases headers.len(),
{
    if headers.len() == 0 {
        None
    } else if is_source_header(headers[0]) {
        Some(headers[0].value@)
    } else {
        request_source(headers.drop_first())
    }
}

/// The reply of the server to a request.
pub struct HttpReply {
    /// The status code.
    pub status: u16,
    /// The body.
    pub body: String,
}

/// The characters of `OK`.
pub open spec fn ok_text() -> Seq<char> {
    seq!['O', 'K']
}

/// The characters of `Bad Request`.
pub open spec fn bad_request_text() -> Seq<char> {
    seq!['B', 'a', 'd', ' ', 'R', 'e', 'q', 'u', 'e', 's', 't']
}

/// A request that the sending location makes: a POST of `body` to `url`
/// with the `X-CHORUS-SOURCE` header set to `source`.
pub struct OutgoingRequest {
    /// Where the request goes.
    pub url: String,
    /// The value of the `X-CHORUS-SOURCE` header.
    pub source: String,
    /// The body.
    pub body: String,
}

/// The character of a decimal digit.
pub open spec fn digit_char(d: nat) -> char {
    (d + 48) as char
}

/// The decimal form of a number, without leading zeros.
pub open spec fn decimal(n: nat) -> Seq<char>
    decreases n,
{
    if n < 10 {
        seq![digit_char(n)]
    } else {
        decimal(n / 10).push(digit_char(n % 10))
    }
}

/// Every character is a decimal digit.
pub open spec fn is_digits(s: Seq<char>) -> bool {
    forall|i: int| 0 <= i < s.len() ==> '0' <= #[trigger] s[i] <= '9'
}

/// The number that a string of decimal digits stands for, read most
/// significant digit first.
pub open spec fn digits_value(s: Seq<char>) -> int
    decreases s.len(),
{
    if s.len() == 0 {
        0
    } else {
        digits_value(s.drop_last()) * 10 + (s.last() as int - 48)
    }
}

/// The decimal form of `n` is a non-empty string of digits that reads back
/// as `n`, and it starts with `0` only for `n == 0`.
pub proof fn lemma_decimal_reads_back(n: nat)
    ensures
        decimal(n).len() > 0,
        is_digits(decimal(n)),
        digits_value(decimal(n)) == n,
        decimal(n)[0] == '0' ==> n == 0,
    decreases n,
{
    let d = n % 10;
    assert(digit_char(d) as int == d + 48);
    if n < 10 {
        assert(decimal(n).drop_last() =~= Seq::<char>::empty());
        assert(decimal(n).last() == digit_char(d));
        assert(digits_value(decimal(n)) == digits_value(Seq::<char>::empty()) * 10 + (
        digit_char(d) as int - 48));
    } else {
        lemma_decimal_reads_back(n / 10);
        let s = decimal(n / 10);
        assert(decimal(n).drop_last() =~= s);
        assert(decimal(n)[0] == s[0]);
        assert(n == (n / 10) * 10 + d);
        assert(decimal(n).last() == digit_char(d));
        assert(digits_value(decimal(n)) == digits_value(s) * 10 + (digit_char(d) as int - 48));
    }
}

/// `host:port`, the port in decimal.
pub open spec fn socket_address(host: Seq<char>, port: u16) -> Seq<char> {
    host + seq![':'] + decimal(port as nat)
}

/// `http://host:port`.
pub open spec fn http_url(host: Seq<char>, port: u16) -> Seq<char> {
    seq!['h', 't', 't', 'p', ':', '/', '/'] + socket_address(host, port)
}

/// The queues after `body` arrives from `source`: it joins the back of
/// that source's queue.
pub open spec fn deliver(q: Map<Seq<char>, Seq<String>>, source: Seq<char>, body: String) -> Map<
    Seq<char>,
    Seq<String>,
> {
    push_message(q, source, body)
}

/// The oldest message from `from` that is pending, and the queues after it
/// is taken; nothing where none is pending.
pub open spec fn take_from(q: Map<Seq<char>, Seq<String>>, from: Seq<char>) -> (
    Option<String>,
    Map<Seq<char>, Seq<String>>,
) {
    pop_message(q, from)
}

/// `X-CHORUS-SOURCE` is ASCII.
pub proof fn lemma_header_src_is_ascii()
    ensures
        is_ascii_chars(header_src_name()),
{
    let h = header_src_name();
    assert forall|i: int| 0 <= i < h.len() implies '\0' <= #[trigger] h[i] <= '\u{7f}' by {
        assert(h[0] == 'X' && h[1] == '-' && h[2] == 'C' && h[3] == 'H' && h[4] == 'O');
        assert(h[5] == 'R' && h[6] == 'U' && h[7] == 'S' && h[8] == '-' && h[9] == 'S');
        assert(h[10] == 'O' && h[11] == 'U' && h[12] == 'R' && h[13] == 'C' && h[14] == 'E');
    }
}

/// A request whose first header is the source header that a sender
/// attaches, `X-CHORUS-SOURCE` written in any case, is routed to the
/// location that header names, whatever headers follow.
pub proof fn lemma_source_header_routes(h: RequestHeader, rest: Seq<RequestHeader>)
    requires
        eq_ignore_ascii_case(h.field@, header_src_name()),
    ensures
        request_source(seq![h] + rest) == Some(h.value@),
{
    lemma_header_src_is_ascii();
    let f = h.field@;
    assert forall|i: int| 0 <= i < f.len() implies '\0' <= #[trigger] f[i] <= '\u{7f}' by {
        let c = header_src_name()[i];
        assert(ascii_lower(f[i]) == ascii_lower(c));
        assert('\0' <= c <= '\u{7f}');
    }
    assert((seq![h] + rest)[0] == h);
}

/// What a run of accepted requests, each a list of headers and a body, does
/// to the queues: each delivers its body to the location it names.
pub open spec fn request_ops(requests: Seq<(Seq<RequestHeader>, String)>) -> Seq<
    (Seq<char>, Option<String>),
> {
    Seq::new(
        requests.len(),
        |i: int| (request_source(requests[i].0).unwrap(), Some(requests[i].1)),
    )
}

/// Requests handled one after another, each naming a location that has a
/// queue, leave every queue holding what it held followed by the bodies of
/// the requests that named its location, in the order they arrived; no
/// queue appears or disappears.
pub proof fn lemma_requests_queued_in_arrival_order(
    q: Map<Seq<char>, Seq<String>>,
    requests: Seq<(Seq<RequestHeader>, String)>,
)
    requires
        forall|i: int|
            0 <= i < requests.len() ==> match request_source(#[trigger] requests[i].0) {
                Some(s) => q.dom().contains(s),
                None => false,
            },
    ensures
        queues_after(q, request_ops(requests)).dom() == q.dom(),
        forall|k: Seq<char>|
            q.dom().contains(k) ==> #[trigger] queues_after(q, request_ops(requests))[k] == q[k]
                + sent_on(request_ops(requests), k),
{
    let ops = request_ops(requests);
    assert forall|i: int| 0 <= i < ops.len() implies q.dom().contains(#[trigger] ops[i].0) by {
        assert(ops[i].0 == request_source(requests[i].0).unwrap());
        assert(request_source(requests[i].0) is Some);
    }
    assert forall|i: int| 0 <= i < ops.len() implies (#[trigger] ops[i].1) is Some by {
        assert(ops[i].1 == Some(requests[i].1));
    }
    lemma_sends_append(q, ops);
}

/// A request from `source` adds exactly one message, at the back of that
/// source's queue: the queue grows by one, keeps what it held in front, and
/// ends with `body`; every other queue, and the set of sources, stay as they
/// were.
pub proof fn lemma_delivery_appends_one(
    q: Map<Seq<char>, Seq<String>>,
    source: Seq<char>,
    body: String,
)
    requires
        q.dom().contains(source),
    ensures
        deliver(q, source, body).dom() == q.dom(),
        deliver(q, source, body)[source].len() == q[source].len() + 1,
        deliver(q, source, body)[source][q[source].len() as int] == body,
        forall|i: int|
            0 <= i < q[source].len() ==> #[trigger] deliver(q, source, body)[source][i]
                == q[source][i],
        forall|k: Seq<char>|
            q.dom().contains(k) && k != source ==> #[trigger] deliver(q, source, body)[k] == q[k],
{
    assert(deliver(q, source, body).dom() =~= q.dom());
}

/// Taking from an empty queue gives nothing and changes nothing; taking from
/// any other gives its oldest message and leaves exactly the messages behind
/// it, one fewer. No other queue changes.
pub proof fn lemma_take_gives_oldest(q: Map<Seq<char>, Seq<String>>, from: Seq<char>)
    requires
        q.dom().contains(from),
    ensures
        take_from(q, from).1.dom() == q.dom(),
        q[from].len() == 0 ==> take_from(q, from) == (None::<String>, q),
        q[from].len() > 0 ==> {
            &&& take_from(q, from).0 == Some(q[from][0])
            &&& take_from(q, from).1[from].len() == q[from].len() - 1
            &&& forall|i: int|
                0 <= i < q[from].len() - 1 ==> #[trigger] take_from(q, from).1[from][i] == q[from][i
                    + 1]
        },
        forall|k: Seq<char>| q.dom().contains(k) && k != from ==> #[trigger] take_from(q, from).1[k] == q[k],
{
    assert(take_from(q, from).1.dom() =~= q.dom());
}

/// Handling a request and receiving are the operations of `crate::queues` on
/// the source's queue, so every law there holds of any run of them.
pub proof fn lemma_http_steps_are_queue_ops(
    q: Map<Seq<char>, Seq<String>>,
    source: Seq<char>,
    body: String,
)
    ensures
        deliver(q, source, body) == apply_op(q, (source, Some(body))).1,
        take_from(q, source) == apply_op(q, (source, None::<String>)),
{
}

/// A request made by `outgoing_request`, whose source is sent in the
/// `X-CHORUS-SOURCE` header, is routed by the receiving location to the
/// queue of its source; taken from an empty queue, its body is what
/// `receive` returns next.
pub proof fn lemma_sent_message_is_received(
    q: Map<Seq<char>, Seq<String>>,
    field: String,
    req: OutgoingRequest,
)
    requires
        field@ == header_src_name(),
        q.dom().contains(req.source@),
        q[req.source@].len() == 0,
    ensures
        ({
            let headers = seq![RequestHeader { field, value: req.source }];
            &&& request_source(headers) == Some(req.source@)
            &&& take_from(deliver(q, req.source@, req.body), req.source@) == (Some(req.body), q)
        }),
{
    let h = RequestHeader { field, value: req.source };
    lemma_source_header_routes(h, Seq::empty());
    assert(seq![h] + Seq::<RequestHeader>::empty() =~= seq![h]);
    let q1 = deliver(q, req.source@, req.body);
    assert(q1[req.source@] =~= seq![req.body]);
    assert(q1[req.source@].drop_first() =~= q[req.source@]);
    assert(q1.insert(req.source@, q1[req.source@].drop_first()) =~= q);
}

/// Tells whether `field` is the header name `name`, as the HTTP server
/// compares header names.
///
/// Calls `tiny_http::HeaderField::from_bytes` and `HeaderField::equiv`. The
/// contract claims what their source shows: a header name holds ASCII only
/// (`from_bytes` refuses any other byte), and `equiv` compares it with
/// `name` by `str::eq_ignore_ascii_case`, which ignores the case of ASCII
/// letters and nothing else.
#[verifier::external_body]
fn header_field_equiv(field: &String, name: &'static str) -> (b: bool)
    ensures
        b == (is_ascii_chars(field@) && eq_ignore_ascii_case(field@, name@)),
{
    match tiny_http::HeaderField::from_bytes(field.as_bytes()) {
        Ok(f) => f.equiv(name),
        Err(_) => false,
    }
}

/// The value of the first header that names the source location, if any.
pub fn source_of_request(headers: &Vec<RequestHeader>) -> (r: Option<String>)
    ensures
        match r {
            Some(s) => request_source(headers@) == Some(s@),
            None => request_source(headers@) is None,
        },
{
    proof {
        reveal_strlit("X-CHORUS-SOURCE");
        assert(HEADER_SRC@ =~= header_src_name());
        assert(headers@.skip(0) =~= headers@);
    }
    let mut i: usize = 0;
    while i < headers.len()
        invariant
            i <= headers.len(),
            HEADER_SRC@ == header_src_name(),
            request_source(headers@) == request_source(headers@.skip(i as int)),
        decreases headers.len() - i,
    {
        proof {
            assert(headers@.skip(i as int)[0] == headers@[i as int]);
            assert(headers@.skip(i as int).drop_first() =~= headers@.skip(i + 1));
        }
        if header_field_equiv(&headers[i].field, HEADER_SRC) {
            return Some(headers[i].value.clone());
        }
        i = i + 1;
    }
    assert(headers@.skip(i as int).len() == 0);
    None
}

/// The character of digit `d` as a string.
fn digit_str(d: u16) -> (s: &'static str)
    requires
        d < 10,
    ensures
        s@ == seq![digit_char(d as nat)],
{
    proof {
        reveal_strlit("0");
        reveal_strlit("1");
        reveal_strlit("2");
        reveal_strlit("3");
        reveal_strlit("4");
        reveal_strlit("5");
        reveal_strlit("6");
        reveal_strlit("7");
        reveal_strlit("8");
        reveal_strlit("9");
    }
    let s = match d {
        0 => "0",
        1 => "1",
        2 => "2",
        3 => "3",
        4 => "4",
        5 => "5",
        6 => "6",
        7 => "7",
        8 => "8",
        _ => "9",
    };
    assert(s@ =~= seq![digit_char(d as nat)]);
    s
}

/// The decimal form of `n`.
pub fn decimal_string(n: u16) -> (s: String)
    ensures
        s@ == decimal(n as nat),
        is_digits(s@),
        digits_value(s@) == n,
        s@.len() > 0,
        s@[0] == '0' ==> n == 0,
    decreases n,
{
    proof {
        lemma_decimal_reads_back(n as nat);
    }
    if n < 10 {
        String::from_str(digit_str(n))
    } else {
        let mut s = decimal_string(n / 10);
        s.append(digit_str(n % 10));
        s
    }
}

/// `host:port`, the address that a server binds and a client reaches.
pub fn socket_address_string(host: &String, port: u16) -> (s: String)
    ensures
        s@ == socket_address(host@, port),
{
    proof {
        reveal_strlit(":");
    }
    let mut s = host.clone();
    s.append(":");
    let p = decimal_string(port);
    s.append(p.as_str());
    assert(s@ =~= socket_address(host@, port));
    s
}

/// The HTTP transport of one location.
///
/// It knows the address of every other location, the address that its own
/// server binds, and the queues that its server delivers into.
pub struct HttpTransport {
    config: LocationMap<(String, u16)>,
    listen_address: String,
    transport_channel: TransportChannel<HttpQueueMap>,
}

/// The address of each location, by view.
pub open spec fn addresses_of(m: LocationMap<(String, u16)>) -> Map<Seq<char>, (Seq<char>, u16)> {
    m@.map_values(|a: (String, u16)| (a.0@, a.1))
}

impl HttpTransport {
    /// The host and port of each other location.
    pub closed spec fn addresses(&self) -> Map<Seq<char>, (Seq<char>, u16)> {
        addresses_of(self.config)
    }

    /// The address that this location's server binds.
    pub closed spec fn listen_addr(&self) -> Seq<char> {
        self.listen_address@
    }

    /// The pending messages of each sending location.
    pub closed spec fn queues(&self) -> Map<Seq<char>, Seq<String>> {
        http_queues(self.transport_channel.queue_map)
    }

    /// Creates an empty queue for each of the given locations.
    pub fn transport_channel(locations: &Vec<String>) -> (channel: TransportChannel<HttpQueueMap>)
        ensures
            channel.location_list() == locations@,
            channel.queue_contents().serves(names_of(locations@)),
            http_queues(channel.queue_contents()) == Map::new(
                |k: Seq<char>| names_of(locations@).contains(k),
                |k: Seq<char>| Seq::<String>::empty(),
            ),
    {
        let ghost names = names_of(locations@);
        let mut m: HttpQueueMap = LocationMap::new();
        let mut i: usize = 0;
        while i < locations.len()
            invariant
                i <= locations.len(),
                names == names_of(locations@),
                forall|a: Seq<char>| #[trigger] m@.dom().contains(a) <==> names.take(i as int).contains(a),
                forall|a: Seq<char>| #[trigger] m@.dom().contains(a) ==> m@[a]@.len() == 0,
            decreases locations.len() - i,
        {
            m.insert(locations[i].clone(), VecDeque::new());
            proof {
                assert(names[i as int] == locations@[i as int]@);
                lemma_take_push_contains(names, i as int);
            }
            i = i + 1;
        }
        proof {
            assert(names.take(locations@.len() as int) =~= names);
            assert forall|k: Seq<char>| #[trigger]
                http_queues(m).dom().contains(k) implies http_queues(m)[k] =~= Seq::<String>::empty() by {
                assert(m@[k]@.len() == 0);
            }
            assert(http_queues(m) =~= Map::new(
                |k: Seq<char>| names.contains(k),
                |k: Seq<char>| Seq::<String>::empty(),
            ));
        }
        TransportChannel { locations: locations.clone(), queue_map: m }
    }

    /// Creates the transport of the location that `http_config` is for: it
    /// keeps the addresses of the other locations, binds its own, and
    /// delivers into the given queues.
    pub fn new(
        http_config: &TransportConfig<(String, u16), (String, u16)>,
        transport_channel: TransportChannel<HttpQueueMap>,
    ) -> (t: Self)
        ensures
            t.addresses() == addresses_of(http_config.info),
            t.listen_addr() == socket_address(
                http_config.target_info.1.0@,
                http_config.target_info.1.1,
            ),
            t.queues() == http_queues(transport_channel.queue_contents()),
            forall|k: Seq<char>| #[trigger]
                t.queues().dom().contains(k) <==> names_of(
                    transport_channel.location_list(),
                ).contains(k),
    {
        proof {
            use_type_invariant(&transport_channel);
        }
        let info = &http_config.info;
        let (_, (hostname, port)) = &http_config.target_info;
        let listen_address = socket_address_string(hostname, *port);
        let names = info.keys();
        let mut config: LocationMap<(String, u16)> = LocationMap::new();
        let mut i: usize = 0;
        while i < names.len()
            invariant
                i <= names.len(),
                forall|k: Seq<char>| #[trigger]
                    info@.dom().contains(k) <==> exists|j: int| 0 <= j < names@.len() && names@[j]@ == k,
                forall|k: Seq<char>| #[trigger]
                    config@.dom().contains(k) <==> exists|j: int| 0 <= j < i && names@[j]@ == k,
                forall|k: Seq<char>| #[trigger]
                    config@.dom().contains(k) ==> addresses_of(config)[k] == addresses_of(*info)[k],
            decreases names.len() - i,
        {
            let name = &names[i];
            proof {
                assert(info@.dom().contains(name@));
            }
            let (host, p) = info.get(name).unwrap();
            config.insert(name.clone(), (host.clone(), *p));
            proof {
                assert forall|k: Seq<char>| #[trigger]
                    config@.dom().contains(k) <==> exists|j: int| 0 <= j < i + 1 && names@[j]@ == k by {
                    if config@.dom().contains(k) && k != name@ {
                        let j = choose|j: int| 0 <= j < i && names@[j]@ == k;
                    }
                    if k == name@ {
                        assert(names@[i as int]@ == k);
                    }
                }
            }
            i = i + 1;
        }
        proof {
            assert(addresses_of(config) =~= addresses_of(*info));
        }
        HttpTransport { config, listen_address, transport_channel }
    }

    /// The address that this location's server binds, `host:port`.
    pub fn listen_address(&self) -> (s: String)
        ensures
            s@ == self.listen_addr(),
    {
        self.listen_address.clone()
    }

    /// The other locations, each once, in no promised order.
    pub fn locations(&self) -> (locs: Vec<String>)
        ensures
            forall|i: int, j: int|
                0 <= i < locs@.len() && 0 <= j < locs@.len() && i != j ==> #[trigger] locs@[i]@
                    != #[trigger] locs@[j]@,
            forall|k: Seq<char>| #[trigger]
                self.addresses().dom().contains(k) <==> exists|i: int|
                    0 <= i < locs@.len() && locs@[i]@ == k,
    {
        self.config.keys()
    }

    /// The request that carries the serialized `data` from `from` to `to`.
    pub fn outgoing_request(&self, from: &str, to: &str, data: String) -> (req: OutgoingRequest)
        requires
            self.addresses().dom().contains(to@),
        ensures
            req.url@ == http_url(self.addresses()[to@].0, self.addresses()[to@].1),
            req.source@ == from@,
            req.body == data,
    {
        proof {
            reveal_strlit("http://");
        }
        let to = String::from_str(to);
        let (hostname, port) = self.config.get(&to).unwrap();
        let mut url = String::from_str("http://");
        let address = socket_address_string(hostname, *port);
        url.append(address.as_str());
        assert(url@ =~= http_url(self.addresses()[to@].0, self.addresses()[to@].1));
        OutgoingRequest { url, source: String::from_str(from), body: data }
    }

    /// Whether messages from `from` have a queue here.
    pub fn has_queue(&self, from: &str) -> (b: bool)
        ensures
            b == self.queues().dom().contains(from@),
    {
        let from = String::from_str(from);
        self.transport_channel.queue_map.contains_key(&from)
    }

    /// Takes the channel's parts out, leaving an empty channel in their place.
    fn take_channel(&mut self) -> (parts: (Vec<String>, HttpQueueMap))
        ensures
            parts.0@ == old(self).transport_channel.locations@,
            parts.1 == old(self).transport_channel.queue_map,
            parts.1.serves(names_of(parts.0@)),
            final(self).config == old(self).config,
            final(self).listen_address == old(self).listen_address,
    {
        let empty: HttpQueueMap = LocationMap::new();
        let no_locations: Vec<String> = Vec::new();
        proof {
            assert(names_of(no_locations@) =~= Seq::<Seq<char>>::empty());
        }
        let mut channel = TransportChannel { locations: no_locations, queue_map: empty };
        std::mem::swap(&mut channel, &mut self.transport_channel);
        proof {
            use_type_invariant(&channel);
        }
        let TransportChannel { locations, queue_map } = channel;
        (locations, queue_map)
    }

    /// Handles a request that this location's server received: a request
    /// that names its source has its body queued for that source and is
    /// answered `200 OK`; any other is answered `400 Bad Request`.
    pub fn handle_request(&mut self, headers: &Vec<RequestHeader>, body: String) -> (reply:
        HttpReply)
        requires
            match request_source(headers@) {
                Some(s) => old(self).queues().dom().contains(s),
                None => true,
            },
        ensures
            match request_source(headers@) {
                Some(s) => {
                    &&& reply.status == 200
                    &&& reply.body@ == ok_text()
                    &&& final(self).queues() == deliver(old(self).queues(), s, body)
                    &&& final(self).queues()[s] == old(self).queues()[s].push(body)
                    &&& forall|k: Seq<char>|
                        old(self).queues().dom().contains(k) && k != s ==> #[trigger] final(self).queues()[k] == old(self).queues()[k]
                },
                None => {
                    &&& reply.status == 400
                    &&& reply.body@ == bad_request_text()
                    &&& final(self).queues() == old(self).queues()
                },
            },
            final(self).queues().dom() == old(self).queues().dom(),
            final(self).addresses() == old(self).addresses(),
            final(self).listen_addr() == old(self).listen_addr(),
    {
        proof {
            reveal_strlit("OK");
            reveal_strlit("Bad Request");
        }
        match source_of_request(headers) {
            Some(src) => {
                let (locations, mut queue_map) = self.take_channel();
                let ghost q0 = queue_map;
                let mut queue = queue_map.remove(&src).unwrap();
                queue.push_back(body);
                queue_map.insert(src, queue);
                proof {
                    assert(queue_map@.dom() =~= q0@.dom());
                }
                self.transport_channel = TransportChannel { locations, queue_map };
                proof {
                    let q1 = self.transport_channel.queue_map;
                    assert(http_queues(q1) =~= deliver(http_queues(q0), src@, body));
                }
                let reply = HttpReply { status: 200, body: String::from_str("OK") };
                assert(reply.body@ =~= ok_text());
                reply
            },
            None => {
                let reply = HttpReply { status: 400, body: String::from_str("Bad Request") };
                assert(reply.body@ =~= bad_request_text());
                reply
            },
        }
    }

    /// Takes the oldest message received from `from`, or nothing where none
    /// is pending.
    pub fn receive(&mut self, from: &str) -> (r: Option<String>)
        requires
            old(self).queues().dom().contains(from@),
        ensures
            (r, final(self).queues()) == take_from(old(self).queues(), from@),
            final(self).queues().dom() == old(self).queues().dom(),
            match r {
                Some(m) => {
                    &&& old(self).queues()[from@].len() > 0
                    &&& m == old(self).queues()[from@][0]
                    &&& final(self).queues()[from@] == old(self).queues()[from@].drop_first()
                },
                None => {
                    &&& old(self).queues()[from@].len() == 0
                    &&& final(self).queues()[from@] == old(self).queues()[from@]
                },
            },
            forall|k: Seq<char>|
                old(self).queues().dom().contains(k) && k != from@ ==> #[trigger] final(self).queues()[k] == old(self).queues()[k],
            final(self).addresses() == old(self).addresses(),
            final(self).listen_addr() == old(self).listen_addr(),
    {
        let from = String::from_str(from);
        let (locations, mut queue_map) = self.take_channel();
        let ghost q0 = queue_map;
        let mut queue = queue_map.remove(&from).unwrap();
        let ghost pending = queue@;
        let r = queue.pop_front();
        queue_map.insert(from, queue);
        proof {
            assert(queue_map@.dom() =~= q0@.dom());
        }
        self.transport_channel = TransportChannel { locations, queue_map };
        proof {
            let q1 = self.transport_channel.queue_map;
            if pending.len() == 0 {
                assert(http_queues(q1) =~= http_queues(q0));
            } else {
                assert(queue@ =~= pending.drop_first());
                assert(http_queues(q1) =~= http_queues(q0).insert(from@, pending.drop_first()));
            }
        }
        r
    }
}

} // verus!
