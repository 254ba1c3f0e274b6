//! Discovery of devices by a multicast search.
//!
//! The caller sends the search request to the multicast group and hands each
//! datagram that comes back to this module, which reads the device address
//! out of it and keeps the set of addresses found.

use crate::foreign::{parse_url, text_of_bytes, url_parts, utf8_lossy, UrlParts};
use crate::text::{
    ascending, chars_of, decimal, decimal_string, lemma_ascending_distinct,
    lemma_precedes_transitive, precedes, rank, same_ignoring_ascii_case, starts_at_ignoring_case,
    trim, trimmed, views, Rank,
};
use vstd::prelude::*;
use vstd::string::*;

verus! {

/// How a search is carried out: where the request goes, what it asks for,
/// and how long answers are awaited.
pub struct SearchConfig {
    /// The multicast group that the request is sent to.
    pub group: (u8, u8, u8, u8),
    /// The port of the multicast group.
    pub port: u16,
    /// The service type that the request asks for.
    pub service: String,
    /// The number of seconds within which devices are asked to answer.
    pub max_wait: u8,
    /// The number of seconds to wait for one more datagram.
    pub read_timeout_secs: u64,
    /// The multicast time-to-live of the request.
    pub multicast_ttl: u32,
    /// Whether the request is looped back to the sending host.
    pub multicast_loop: bool,
    /// The number of searches to send.
    pub rounds: usize,
}

/// The four numbers of an IPv4 address in decimal, with dots between them.
pub open spec fn dotted(group: (u8, u8, u8, u8)) -> Seq<char> {
    decimal(group.0 as nat) + seq!['.'] + decimal(group.1 as nat) + seq!['.'] + decimal(
        group.2 as nat,
    ) + seq!['.'] + decimal(group.3 as nat)
}

/// The text of the search request: the request line, the `HOST` header with
/// group and port, the `MAN` header, the service type and the maximum wait,
/// each line ended by CR LF, and an empty line at the end.
pub open spec fn request_text(
    group: (u8, u8, u8, u8),
    port: u16,
    service: Seq<char>,
    max_wait: u8,
) -> Seq<char> {
    "M-SEARCH * HTTP/1.1\r\nHOST: "@ + dotted(group) + seq![':'] + decimal(port as nat)
        + "\r\nMAN: \"ssdp:discover\"\r\nST: "@ + service + "\r\nMX: "@ + decimal(max_wait as nat)
        + "\r\n\r\n"@
}

impl Default for SearchConfig {
    /// The customary values: group 239.255.255.250, port 1900, service type
    /// `roku:ecp`, three seconds for devices to answer, a read timeout of
    /// two seconds, a time-to-live of four, loopback on, one search.
    fn default() -> (c: SearchConfig)
        ensures
            c.group == (239u8, 255u8, 255u8, 250u8),
            c.port == 1900,
            c.service@ == "roku:ecp"@,
            c.max_wait == 3,
            c.read_timeout_secs == 2,
            c.multicast_ttl == 4,
            c.multicast_loop,
            c.rounds == 1,
    {
        SearchConfig {
            group: (239, 255, 255, 250),
            port: 1900,
            service: String::from_str("roku:ecp"),
            max_wait: 3,
            read_timeout_secs: 2,
            multicast_ttl: 4,
            multicast_loop: true,
            rounds: 1,
        }
    }
}

impl SearchConfig {
    /// The search request to send to the group.
    pub fn request(&self) -> (r: String)
        ensures
            r@ == request_text(self.group, self.port, self.service@, self.max_wait),
    {
        proof {
            reveal_strlit(".");
            reveal_strlit(":");
        }
        let mut r = String::from_str("M-SEARCH * HTTP/1.1\r\nHOST: ");
        r.append(decimal_string(self.group.0 as u32).as_str());
        r.append(".");
        r.append(decimal_string(self.group.1 as u32).as_str());
        r.append(".");
        r.append(decimal_string(self.group.2 as u32).as_str());
        r.append(".");
        r.append(decimal_string(self.group.3 as u32).as_str());
        assert(r@ =~= "M-SEARCH * HTTP/1.1\r\nHOST: "@ + dotted(self.group));
        r.append(":");
        r.append(decimal_string(self.port as u32).as_str());
        r.append("\r\nMAN: \"ssdp:discover\"\r\nST: ");
        r.append(self.service.as_str());
        r.append("\r\nMX: ");
        r.append(decimal_string(self.max_wait as u32).as_str());
        r.append("\r\n\r\n");
        assert(r@ =~= request_text(self.group, self.port, self.service@, self.max_wait));
        r
    }
}

/// `at` is where a line of `t` begins.
pub open spec fn line_start(t: Seq<char>, at: int) -> bool {
    0 <= at <= t.len() && (at == 0 || t[at - 1] == '\n')
}

/// Where the line that holds position `from` ends: the position of the next
/// line feed, or the end of `t`.
pub open spec fn line_end(t: Seq<char>, from: int) -> int
    decreases t.len() - from,
{
    if from < t.len() && t[from] != '\n' {
        line_end(t, from + 1)
    } else {
        from
    }
}

/// The header name that is looked for, with its colon.
pub open spec fn location_name() -> Seq<char> {
    "location:"@
}

/// `line` begins with the header name `LOCATION:`, in any case.
pub open spec fn names_location(line: Seq<char>) -> bool {
    line.len() >= 9 && same_ignoring_ascii_case(line.take(9), location_name())
}

/// The line of `t` that begins at `at` is a `LOCATION` header.
pub open spec fn location_at(t: Seq<char>, at: int) -> bool {
    line_start(t, at) && names_location(t.subrange(at, line_end(t, at)))
}

/// The value of the first `LOCATION` header that begins at `from` or later:
/// what follows the colon on that line, without the white space around it.
pub open spec fn location_from(t: Seq<char>, from: int) -> Option<Seq<char>>
    decreases t.len() - from,
{
    if from < 0 || from >= t.len() {
        None
    } else if location_at(t, from) {
        Some(trimmed(t.subrange(from + 9, line_end(t, from))))
    } else {
        location_from(t, from + 1)
    }
}

/// The value of the first `LOCATION` header of `t`, if it has one.
pub open spec fn location_header(t: Seq<char>) -> Option<Seq<char>> {
    location_from(t, 0)
}

/// A line ends at or after the position it is asked from, at a line feed or
/// at the end of the text, and holds no line feed before its end.
pub proof fn lemma_line_end_bounds(t: Seq<char>, from: int)
    requires
        0 <= from <= t.len(),
    ensures
        from <= line_end(t, from) <= t.len(),
        line_end(t, from) < t.len() ==> t[line_end(t, from)] == '\n',
        forall|i: int| from <= i < line_end(t, from) ==> t[i] != '\n',
    decreases t.len() - from,
{
    if from < t.len() && t[from] != '\n' {
        lemma_line_end_bounds(t, from + 1);
    }
}

/// Positions that begin no `LOCATION` header can be skipped.
proof fn lemma_location_skip(t: Seq<char>, from: int, to: int)
    requires
        0 <= from <= to <= t.len(),
        forall|i: int| from <= i < to ==> !location_at(t, i),
    ensures
        location_from(t, from) == location_from(t, to),
    decreases to - from,
{
    if from < to {
        lemma_location_skip(t, from + 1, to);
    }
}

/// Finds the first `LOCATION` header among the lines of `text` and returns
/// its value.
pub fn find_location(text: &str) -> (r: Option<String>)
    ensures
        match r {
            Some(v) => location_header(text@) == Some(v@),
            None => location_header(text@) is None,
        },
{
    let t = chars_of(text);
    let name = chars_of("location:");
    proof {
        reveal_strlit("location:");
    }
    let n = t.len();
    let mut pos: usize = 0;
    while pos < n
        invariant
            pos <= n,
            n == t@.len(),
            t@ == text@,
            name@ == location_name(),
            name@.len() == 9,
            line_start(t@, pos as int),
            location_from(t@, pos as int) == location_header(t@),
        decreases n - pos,
    {
        let mut end: usize = pos;
        while end < n && t[end] != '\n'
            invariant
                pos <= end <= n,
                n == t@.len(),
                line_end(t@, end as int) == line_end(t@, pos as int),
            decreases n - end,
        {
            end += 1;
        }
        proof {
            lemma_line_end_bounds(t@, pos as int);
            if end - pos >= 9 {
                assert(t@.subrange(pos as int, end as int).take(9) =~= t@.subrange(
                    pos as int,
                    pos + 9,
                ));
            }
        }
        if starts_at_ignoring_case(&t, pos, end, &name) {
            let value = trim(text.substring_char(pos + 9, end));
            return Some(String::from_str(value));
        }
        if end == n {
            proof {
                assert forall|i: int| pos <= i < n implies !location_at(t@, i) by {
                    if i > pos {
                        assert(t@[i - 1] != '\n');
                    }
                }
                lemma_location_skip(t@, pos as int, n as int);
            }
            return None;
        }
        proof {
            assert forall|i: int| pos <= i < end + 1 implies !location_at(t@, i) by {
                if i > pos {
                    assert(t@[i - 1] != '\n');
                }
            }
            lemma_location_skip(t@, pos as int, end + 1);
        }
        pos = end + 1;
    }
    None
}

/// The address that the parts of a location URL give: the host, a colon and
/// the port in decimal. There is none where the URL has no host or names no
/// port.
pub open spec fn endpoint(parts: (Option<Seq<char>>, Option<u16>)) -> Option<Seq<char>> {
    match parts {
        (Some(host), Some(port)) => Some(host + seq![':'] + decimal(port as nat)),
        _ => None,
    }
}

/// The address that the location `loc` names, if it parses as a URL with a
/// host and a port.
pub open spec fn location_address(loc: Seq<char>) -> Option<Seq<char>> {
    match url_parts(loc) {
        Some(parts) => endpoint(parts),
        None => None,
    }
}

/// The address that the datagram `bytes` announces, if it announces one.
pub open spec fn response_address(bytes: Seq<u8>) -> Option<Seq<char>> {
    match location_header(utf8_lossy(bytes)) {
        Some(loc) => location_address(loc),
        None => None,
    }
}

/// Forms the device address from the parts of a location URL.
pub fn address_of(parts: &UrlParts) -> (r: Option<String>)
    ensures
        match r {
            Some(a) => endpoint(parts@) == Some(a@),
            None => endpoint(parts@) is None,
        },
{
    match (&parts.host, parts.port) {
        (Some(host), Some(port)) => {
            proof {
                reveal_strlit(":");
            }
            let mut a = host.clone();
            a.append(":");
            a.append(decimal_string(port as u32).as_str());
            assert(a@ =~= host@ + seq![':'] + decimal(port as nat));
            Some(a)
        },
        _ => None,
    }
}

/// Reads the device address out of one datagram received in answer to the
/// search.
pub fn read_response(bytes: &[u8]) -> (r: Option<String>)
    ensures
        match r {
            Some(a) => response_address(bytes@) == Some(a@),
            None => response_address(bytes@) is None,
        },
{
    let text = text_of_bytes(bytes);
    match find_location(text.as_str()) {
        Some(loc) => match parse_url(loc.as_str()) {
            Some(parts) => address_of(&parts),
            None => None,
        },
        None => None,
    }
}

/// What the caller reports to a running discovery.
pub enum Event {
    /// No socket could be opened for the search.
    BindFailed,
    /// A socket was opened and the search request was sent from it.
    SearchSent,
    /// A datagram arrived.
    Datagram(Vec<u8>),
    /// Nothing arrived within the read timeout, or the read failed.
    Silence,
}

/// What the caller is to do next.
#[derive(Clone, Copy, Debug, PartialEq, Eq, Structural)]
pub enum Action {
    /// Open a socket, send the search request, report `SearchSent`.
    Search,
    /// Wait for the next datagram, report it or `Silence`.
    Listen,
    /// Stop: the result is ready.
    Finish,
    /// Give up: the search could not be carried out.
    Abort,
}

/// The state of a discovery, as contracts see it.
pub struct DiscoveryView {
    /// The addresses found so far.
    pub addresses: Set<Seq<char>>,
    /// How many more searches may be sent.
    pub rounds_left: nat,
    /// A search is out and answers are being awaited.
    pub listening: bool,
    /// The search could not be carried out.
    pub broken: bool,
}

/// The state that follows `s` when `e` is reported.
pub open spec fn after(s: DiscoveryView, e: Event) -> DiscoveryView {
    match e {
        Event::BindFailed => DiscoveryView { listening: false, broken: true, ..s },
        Event::SearchSent => if !s.listening && s.rounds_left > 0 {
            DiscoveryView { rounds_left: (s.rounds_left - 1) as nat, listening: true, ..s }
        } else {
            s
        },
        Event::Datagram(bytes) => match response_address(bytes@) {
            Some(a) => DiscoveryView { addresses: s.addresses.insert(a), ..s },
            None => s,
        },
        Event::Silence => DiscoveryView { listening: false, ..s },
    }
}

/// What is to be done in state `s`.
pub open spec fn due(s: DiscoveryView) -> Action {
    if s.broken {
        Action::Abort
    } else if s.listening {
        Action::Listen
    } else if s.rounds_left > 0 {
        Action::Search
    } else {
        Action::Finish
    }
}

/// The addresses that a sequence of datagrams announces.
pub open spec fn announced(responses: Seq<Seq<u8>>) -> Set<Seq<char>> {
    Set::new(
        |a: Seq<char>|
            exists|i: int|
                0 <= i < responses.len() && response_address(#[trigger] responses[i]) == Some(a),
    )
}

/// A discovery in progress: the addresses found so far, each kept once and
/// in dictionary order, and how far the search has come.
pub struct Discovery {
    found: Vec<String>,
    rounds_left: usize,
    listening: bool,
    broken: bool,
}

impl Discovery {
    #[verifier::type_invariant]
    spec fn ordered(self) -> bool {
        ascending(views(self.found@))
    }

    pub closed spec fn view(&self) -> DiscoveryView {
        DiscoveryView {
            addresses: views(self.found@).to_set(),
            rounds_left: self.rounds_left as nat,
            listening: self.listening,
            broken: self.broken,
        }
    }

    /// A discovery that has found nothing yet and may send `rounds`
    /// searches.
    pub fn new(rounds: usize) -> (d: Discovery)
        ensures
            d@ == (DiscoveryView {
                addresses: Set::empty(),
                rounds_left: rounds as nat,
                listening: false,
                broken: false,
            }),
    {
        let d = Discovery {
            found: Vec::new(),
            rounds_left: rounds,
            listening: false,
            broken: false,
        };
        assert(views(d.found@).to_set() =~= Set::empty());
        d
    }

    /// What the caller is to do now.
    pub fn action(&self) -> (a: Action)
        ensures
            a == due(self@),
    {
        if self.broken {
            Action::Abort
        } else if self.listening {
            Action::Listen
        } else if self.rounds_left > 0 {
            Action::Search
        } else {
            Action::Finish
        }
    }

    /// Adds `addr` to the addresses found, unless it is among them.
    pub fn remember(&mut self, addr: String)
        ensures
            final(self)@ == (DiscoveryView {
                addresses: old(self)@.addresses.insert(addr@),
                ..old(self)@
            }),
    {
        proof {
            use_type_invariant(&*self);
        }
        let mut found: Vec<String> = Vec::new();
        std::mem::swap(&mut self.found, &mut found);
        let ghost before = views(found@);
        let n = found.len();
        let mut i: usize = 0;
        while i < n
            invariant
                i <= n,
                n == found@.len(),
                before == views(found@),
                before == views(old(self).found@),
                ascending(before),
                self.rounds_left == old(self).rounds_left,
                self.listening == old(self).listening,
                self.broken == old(self).broken,
                forall|j: int| 0 <= j < i ==> precedes(#[trigger] before[j], addr@),
            ensures
                i <= n,
                i < n ==> precedes(addr@, before[i as int]),
            decreases n - i,
        {
            match rank(found[i].as_str(), addr.as_str()) {
                Rank::Before => {
                    i += 1;
                },
                Rank::Same => {
                    assert(before[i as int] == addr@);
                    assert(before.to_set().insert(addr@) =~= before.to_set());
                    self.found = found;
                    return ;
                },
                Rank::After => {
                    break ;
                },
            }
        }
        found.insert(i, addr);
        proof {
            let now = views(found@);
            assert(now =~= before.insert(i as int, addr@));
            assert forall|x: int, y: int| 0 <= x < y < now.len() implies precedes(
                #[trigger] now[x],
                #[trigger] now[y],
            ) by {
                if y < i {
                    assert(precedes(before[x], before[y]));
                } else if y == i {
                } else if x == i {
                    if y - 1 > i {
                        assert(precedes(before[i as int], before[y - 1]));
                        lemma_precedes_transitive(addr@, before[i as int], before[y - 1]);
                    }
                } else if x < i {
                    assert(precedes(before[x], before[y - 1]));
                } else {
                    assert(precedes(before[x - 1], before[y - 1]));
                }
            }
            assert(now.to_set() =~= before.to_set().insert(addr@)) by {
                assert forall|a: Seq<char>| before.to_set().insert(addr@).contains(a) implies now.contains(
                    a,
                ) by {
                    if a == addr@ {
                        assert(now[i as int] == a);
                    } else {
                        let k = choose|k: int| 0 <= k < before.len() && before[k] == a;
                        if k < i {
                            assert(now[k] == a);
                        } else {
                            assert(now[k + 1] == a);
                        }
                    }
                }
                assert forall|a: Seq<char>| now.contains(a) implies before.to_set().insert(
                    addr@,
                ).contains(a) by {
                    let k = choose|k: int| 0 <= k < now.len() && now[k] == a;
                    if k < i {
                        assert(before[k] == a);
                    } else if k > i {
                        assert(before[k - 1] == a);
                    }
                }
            }
        }
        self.found = found;
    }

    /// Takes the report of what happened and says what is to be done next.
    pub fn advance(&mut self, event: Event) -> (next: Action)
        ensures
            final(self)@ == after(old(self)@, event),
            next == due(final(self)@),
    {
        proof {
            use_type_invariant(&*self);
        }
        match event {
            Event::BindFailed => {
                self.listening = false;
                self.broken = true;
            },
            Event::SearchSent => {
                if !self.listening && self.rounds_left > 0 {
                    self.rounds_left = self.rounds_left - 1;
                    self.listening = true;
                }
            },
            Event::Datagram(bytes) => {
                match read_response(bytes.as_slice()) {
                    Some(a) => {
                        self.remember(a);
                    },
                    None => {},
                }
            },
            Event::Silence => {
                self.listening = false;
            },
        }
        self.action()
    }

    /// The addresses found, each once, in dictionary order.
    pub fn addresses(&self) -> (v: Vec<String>)
        ensures
            views(v@).to_set() == self@.addresses,
            ascending(views(v@)),
            views(v@).no_duplicates(),
            v@.len() == self@.addresses.len(),
    {
        proof {
            use_type_invariant(self);
        }
        let mut v: Vec<String> = Vec::new();
        let n = self.found.len();
        let mut i: usize = 0;
        while i < n
            invariant
                i <= n,
                n == self.found@.len(),
                v@.len() == i,
                views(v@) == views(self.found@).take(i as int),
            decreases n - i,
        {
            let ghost head = v@;
            let a = self.found[i].clone();
            v.push(a);
            assert forall|k: int| 0 <= k <= i implies views(v@)[k] == views(self.found@)[k] by {
                if k < i {
                    assert(views(head)[k] == views(self.found@).take(i as int)[k]);
                    assert(v@[k] == head[k]);
                } else {
                    assert(v@[k] == a);
                }
            }
            assert(views(v@) =~= views(self.found@).take(i + 1));
            i += 1;
        }
        proof {
            assert(views(v@) =~= views(self.found@));
            lemma_ascending_distinct(views(v@));
            views(v@).unique_seq_to_set();
        }
        v
    }
}

/// The addresses that the datagrams of one search announce: each address
/// once, however often it was announced, in dictionary order.
pub fn discover(responses: &Vec<Vec<u8>>) -> (v: Vec<String>)
    ensures
        views(v@).to_set() == announced(responses.deep_view()),
        ascending(views(v@)),
        views(v@).no_duplicates(),
        v@.len() == announced(responses.deep_view()).len(),
{
    let mut d = Discovery::new(0);
    let n = responses.len();
    let mut i: usize = 0;
    while i < n
        invariant
            i <= n,
            n == responses@.len(),
            d@.addresses == announced(responses.deep_view().take(i as int)),
        decreases n - i,
    {
        let ghost all = responses.deep_view();
        match read_response(responses[i].as_slice()) {
            Some(a) => {
                d.remember(a);
            },
            None => {},
        }
        proof {
            let head = all.take(i as int);
            let more = all.take(i + 1);
            assert(all[i as int] == responses@[i as int]@);
            assert(d@.addresses =~= announced(more)) by {
                assert forall|x: Seq<char>| announced(more).contains(x) implies d@.addresses.contains(
                    x,
                ) by {
                    let k = choose|k: int|
                        0 <= k < more.len() && response_address(#[trigger] more[k]) == Some(x);
                    if k < i {
                        assert(head[k] == more[k]);
                    }
                }
                assert forall|x: Seq<char>| d@.addresses.contains(x) implies announced(more).contains(
                    x,
                ) by {
                    if announced(head).contains(x) {
                        let k = choose|k: int|
                            0 <= k < head.len() && response_address(#[trigger] head[k]) == Some(x);
                        assert(more[k] == head[k]);
                    } else {
                        assert(response_address(more[i as int]) == Some(x));
                    }
                }
            }
        }
        i += 1;
    }
    assert(responses.deep_view().take(n as int) =~= responses.deep_view());
    d.addresses()
}

/// A datagram without a `LOCATION` header, or with a location that does not
/// parse as a URL, or whose URL lacks a host or a port, announces no
/// address: reporting it leaves the state of a discovery as it was, and it
/// adds nothing to what a sequence of datagrams announces.
pub proof fn lemma_silent_response(s: DiscoveryView, datagram: Vec<u8>, earlier: Seq<Seq<u8>>)
    requires
        match location_header(utf8_lossy(datagram@)) {
            None => true,
            Some(loc) => match url_parts(loc) {
                None => true,
                Some(parts) => parts.0 is None || parts.1 is None,
            },
        },
    ensures
        response_address(datagram@) is None,
        after(s, Event::Datagram(datagram)) == s,
        announced(earlier.push(datagram@)) == announced(earlier),
{
    lemma_repeated_response(earlier, datagram@);
}

/// An address that is announced again adds nothing: a datagram that
/// announces what an earlier one announced, or nothing at all, leaves the set
/// of announced addresses as it was.
pub proof fn lemma_repeated_response(earlier: Seq<Seq<u8>>, datagram: Seq<u8>)
    requires
        match response_address(datagram) {
            Some(a) => announced(earlier).contains(a),
            None => true,
        },
    ensures
        announced(earlier.push(datagram)) == announced(earlier),
{
    let all = earlier.push(datagram);
    assert(announced(all) =~= announced(earlier)) by {
        assert forall|a: Seq<char>| announced(all).contains(a) implies announced(earlier).contains(
            a,
        ) by {
            let k = choose|k: int|
                0 <= k < all.len() && response_address(#[trigger] all[k]) == Some(a);
            if k < earlier.len() {
                assert(earlier[k] == all[k]);
            }
        }
        assert forall|a: Seq<char>| announced(earlier).contains(a) implies announced(all).contains(
            a,
        ) by {
            let k = choose|k: int|
                0 <= k < earlier.len() && response_address(#[trigger] earlier[k]) == Some(a);
            assert(all[k] == earlier[k]);
        }
    }
}

} // verus!
