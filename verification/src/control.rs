//! Control of a device: key presses, literal text and the launch of an
//! application.
//!
//! Every operation is a plan of requests for the caller to carry out, one
//! after the other. A `Delivery` walks through such a plan: it hands out one
//! request at a time and takes the report of how that request went before it
//! hands out the next.

use crate::text::{chars_of, same_text};
use vstd::prelude::*;
use vstd::string::*;

verus! {

/// The keys of the remote control.
#[derive(Clone, Copy, Debug, PartialEq, Eq, Structural)]
pub enum Command {
    Power,
    PowerOn,
    PowerOff,
    Home,
    Info,
    Back,
    Up,
    Left,
    Select,
    Right,
    Down,
    Play,
    VolumeUp,
    VolumeDown,
    VolumeMute,
    ChannelUp,
    ChannelDown,
    Search,
    Enter,
    Backspace,
    FindRemote,
    Replay,
    Reverse,
    Forward,
}

impl Command {
    /// The word by which the device knows the key.
    pub open spec fn token(self) -> Seq<char> {
        match self {
            Command::Power => "Power"@,
            Command::PowerOn => "Poweron"@,
            Command::PowerOff => "Poweroff"@,
            Command::Home => "Home"@,
            Command::Info => "Info"@,
            Command::Back => "Back"@,
            Command::Up => "Up"@,
            Command::Left => "Left"@,
            Command::Select => "Select"@,
            Command::Right => "Right"@,
            Command::Down => "Down"@,
            Command::Play => "Play"@,
            Command::VolumeUp => "VolumeUp"@,
            Command::VolumeDown => "VolumeDown"@,
            Command::VolumeMute => "VolumeMute"@,
            Command::ChannelUp => "Channel_up"@,
            Command::ChannelDown => "Channel_down"@,
            Command::Search => "Search"@,
            Command::Enter => "Enter"@,
            Command::Backspace => "Backspace"@,
            Command::FindRemote => "Find_remote"@,
            Command::Replay => "Replay"@,
            Command::Reverse => "Reverse"@,
            Command::Forward => "Forward"@,
        }
    }

    /// The word by which the device knows the key.
    pub fn as_str(self) -> (s: &'static str)
        ensures
            s@ == self.token(),
    {
        match self {
            Command::Power => "Power",
            Command::PowerOn => "Poweron",
            Command::PowerOff => "Poweroff",
            Command::Home => "Home",
            Command::Info => "Info",
            Command::Back => "Back",
            Command::Up => "Up",
            Command::Left => "Left",
            Command::Select => "Select",
            Command::Right => "Right",
            Command::Down => "Down",
            Command::Play => "Play",
            Command::VolumeUp => "VolumeUp",
            Command::VolumeDown => "VolumeDown",
            Command::VolumeMute => "VolumeMute",
            Command::ChannelUp => "Channel_up",
            Command::ChannelDown => "Channel_down",
            Command::Search => "Search",
            Command::Enter => "Enter",
            Command::Backspace => "Backspace",
            Command::FindRemote => "Find_remote",
            Command::Replay => "Replay",
            Command::Reverse => "Reverse",
            Command::Forward => "Forward",
        }
    }

    /// The key that `token` names. Words outside the vocabulary name none.
    pub fn parse(token: &str) -> (r: Option<Command>)
        ensures
            match r {
                Some(c) => c.token() == token@,
                None => forall|c: Command| c.token() != token@,
            },
    {
        let all = [
            Command::Power,
            Command::PowerOn,
            Command::PowerOff,
            Command::Home,
            Command::Info,
            Command::Back,
            Command::Up,
            Command::Left,
            Command::Select,
            Command::Right,
            Command::Down,
            Command::Play,
            Command::VolumeUp,
            Command::VolumeDown,
            Command::VolumeMute,
            Command::ChannelUp,
            Command::ChannelDown,
            Command::Search,
            Command::Enter,
            Command::Backspace,
            Command::FindRemote,
            Command::Replay,
            Command::Reverse,
            Command::Forward,
        ];
        let mut i: usize = 0;
        while i < 24
            invariant
                i <= 24,
                all@.len() == 24,
                forall|c: Command| all@.contains(c),
                forall|k: int| 0 <= k < i ==> (#[trigger] all@[k]).token() != token@,
            decreases 24 - i,
        {
            if same_text(token, all[i].as_str()) {
                return Some(all[i]);
            }
            i += 1;
        }
        assert forall|c: Command| c.token() != token@ by {
            let k = choose|k: int| 0 <= k < all@.len() && all@[k] == c;
            assert(all@[k].token() != token@);
        }
        None
    }
}

/// The method of a request.
#[derive(Clone, Copy, Debug, PartialEq, Eq, Structural)]
pub enum Method {
    Get,
    Post,
}

/// A request for the caller to send. The protocol has no request with a
/// body, so method and URL are all there is.
#[derive(Debug)]
pub struct Request {
    pub method: Method,
    pub url: String,
}

/// A request, as contracts see it.
pub struct RequestView {
    pub method: Method,
    pub url: Seq<char>,
}

impl Request {
    pub open spec fn view(&self) -> RequestView {
        RequestView { method: self.method, url: self.url@ }
    }
}

/// The requests of a vector, as contracts see them.
pub open spec fn request_views(v: Seq<Request>) -> Seq<RequestView> {
    Seq::new(v.len(), |i: int| v[i]@)
}

/// The URL of `path` on the device at `addr`.
pub open spec fn device_url(addr: Seq<char>, path: Seq<char>) -> Seq<char> {
    "http://"@ + addr + path
}

/// The query for the catalog of applications: `GET /query/apps`.
pub open spec fn apps_query(addr: Seq<char>) -> RequestView {
    RequestView { method: Method::Get, url: device_url(addr, "/query/apps"@) }
}

/// The press of the key that `token` names: `POST /keypress/<token>`.
pub open spec fn keypress(addr: Seq<char>, token: Seq<char>) -> RequestView {
    RequestView { method: Method::Post, url: device_url(addr, "/keypress/"@ + token) }
}

/// The launch of the application `app_id`: `POST /launch/<app_id>`.
pub open spec fn launch(addr: Seq<char>, app_id: Seq<char>) -> RequestView {
    RequestView { method: Method::Post, url: device_url(addr, "/launch/"@ + app_id) }
}

/// The name of the key that types `c`: `Lit_` and the character itself,
/// a space written as `%20`.
pub open spec fn literal_token(c: char) -> Seq<char> {
    "Lit_"@ + if c == ' ' {
        "%20"@
    } else {
        seq![c]
    }
}

/// The requests that type `text`: one key press for each character, in the
/// order of the text.
pub open spec fn text_plan(addr: Seq<char>, text: Seq<char>) -> Seq<RequestView> {
    Seq::new(text.len(), |i: int| keypress(addr, literal_token(text[i])))
}

/// Builds the URL of a path that is written in two parts.
fn url_of(addr: &str, path: &str, last: &str) -> (url: String)
    ensures
        url@ == device_url(addr@, path@ + last@),
{
    let mut url = String::from_str("http://");
    url.append(addr);
    url.append(path);
    url.append(last);
    assert(url@ =~= device_url(addr@, path@ + last@));
    url
}

/// The request that asks the device at `addr` for its catalog.
pub fn apps_request(addr: &str) -> (r: Request)
    ensures
        r@ == apps_query(addr@),
{
    let url = url_of(addr, "/query/apps", "");
    proof {
        reveal_strlit("");
        assert("/query/apps"@ + ""@ =~= "/query/apps"@);
    }
    Request { method: Method::Get, url }
}

/// The request that presses the key `command` on the device at `addr`.
pub fn send_command(addr: &str, command: Command) -> (r: Request)
    ensures
        r@ == keypress(addr@, command.token()),
{
    Request { method: Method::Post, url: url_of(addr, "/keypress/", command.as_str()) }
}

/// The request that launches the application `app_id` on the device at
/// `addr`.
pub fn launch_app(addr: &str, app_id: &str) -> (r: Request)
    ensures
        r@ == launch(addr@, app_id@),
{
    Request { method: Method::Post, url: url_of(addr, "/launch/", app_id) }
}

/// The requests that type `text` on the device at `addr`, one for each
/// character, in the order in which they are to be sent.
pub fn send_key(addr: &str, text: &str) -> (v: Vec<Request>)
    ensures
        request_views(v@) == text_plan(addr@, text@),
        v@.len() == text@.len(),
{
    let chars = chars_of(text);
    let n = chars.len();
    let mut v: Vec<Request> = Vec::new();
    let mut i: usize = 0;
    while i < n
        invariant
            i <= n,
            n == text@.len(),
            chars@ == text@,
            v@.len() == i,
            forall|k: int| 0 <= k < i ==> (#[trigger] v@[k])@ == keypress(addr@, literal_token(text@[k])),
        decreases n - i,
    {
        let written: &str = if chars[i] == ' ' {
            "%20"
        } else {
            text.substring_char(i, i + 1)
        };
        let mut token = String::from_str("Lit_");
        token.append(written);
        proof {
            if chars@[i as int] != ' ' {
                assert(text@.subrange(i as int, i + 1) =~= seq![text@[i as int]]);
            }
            assert(token@ == literal_token(text@[i as int]));
        }
        let r = Request { method: Method::Post, url: url_of(addr, "/keypress/", token.as_str()) };
        v.push(r);
        i += 1;
    }
    assert(request_views(v@) =~= text_plan(addr@, text@));
    v
}

/// How a request went.
#[derive(Clone, Copy, Debug, PartialEq, Eq, Structural)]
pub enum Outcome {
    /// The device took the request.
    Delivered,
    /// The request did not get through.
    Failed,
}

/// What a failed request means for the requests after it.
#[derive(Clone, Copy, Debug, PartialEq, Eq, Structural)]
pub enum Policy {
    /// Go on with the next request. This is the customary way.
    Lenient,
    /// Send nothing more.
    Strict,
}

impl Default for Policy {
    /// Failures are passed over unless the caller asks otherwise.
    fn default() -> (p: Policy)
        ensures
            p == Policy::Lenient,
    {
        Policy::Lenient
    }
}

/// The state of a delivery, as contracts see it.
pub struct DeliveryView {
    /// The requests to send, in order.
    pub plan: Seq<RequestView>,
    /// How many of them have been handed out and reported on.
    pub done: nat,
    /// How many of those failed.
    pub failures: nat,
    /// What a failure means.
    pub policy: Policy,
    /// A failure has ended the delivery.
    pub halted: bool,
}

/// The state in which nothing of `plan` has been sent.
pub open spec fn fresh(plan: Seq<RequestView>, policy: Policy) -> DeliveryView {
    DeliveryView { plan, done: 0, failures: 0, policy, halted: false }
}

/// The request that is to be sent in state `s`: the next one of the plan,
/// unless the plan is finished or the delivery has been halted.
pub open spec fn pending(s: DeliveryView) -> Option<RequestView> {
    if !s.halted && s.done < s.plan.len() {
        Some(s.plan[s.done as int])
    } else {
        None
    }
}

/// The state that follows `s` when the pending request is reported to have
/// gone as `outcome` says. Where nothing is pending the state stays.
pub open spec fn reported(s: DeliveryView, outcome: Outcome) -> DeliveryView {
    if pending(s) is None {
        s
    } else {
        match outcome {
            Outcome::Delivered => DeliveryView { done: s.done + 1, ..s },
            Outcome::Failed => DeliveryView {
                done: s.done + 1,
                failures: s.failures + 1,
                halted: s.policy == Policy::Strict,
                ..s
            },
        }
    }
}

/// The state that follows `s` after the reports `outcomes`, in order.
pub open spec fn after_all(s: DeliveryView, outcomes: Seq<Outcome>) -> DeliveryView
    decreases outcomes.len(),
{
    if outcomes.len() == 0 {
        s
    } else {
        reported(after_all(s, outcomes.drop_last()), outcomes.last())
    }
}

/// A plan of requests in the course of being carried out.
pub struct Delivery {
    requests: Vec<Request>,
    done: usize,
    failures: usize,
    policy: Policy,
    halted: bool,
}

impl Delivery {
    #[verifier::type_invariant]
    spec fn bounded(self) -> bool {
        self.failures <= self.done <= self.requests@.len()
    }

    pub closed spec fn view(&self) -> DeliveryView {
        DeliveryView {
            plan: request_views(self.requests@),
            done: self.done as nat,
            failures: self.failures as nat,
            policy: self.policy,
            halted: self.halted,
        }
    }

    /// A delivery of `requests` of which nothing has been sent yet.
    pub fn new(requests: Vec<Request>, policy: Policy) -> (d: Delivery)
        ensures
            d@ == fresh(request_views(requests@), policy),
    {
        Delivery { requests, done: 0, failures: 0, policy, halted: false }
    }

    /// The request to send now, if there is one.
    pub fn current(&self) -> (r: Option<&Request>)
        ensures
            match r {
                Some(request) => pending(self@) == Some(request@),
                None => pending(self@) is None,
            },
    {
        proof {
            use_type_invariant(self);
        }
        if !self.halted && self.done < self.requests.len() {
            Some(&self.requests[self.done])
        } else {
            None
        }
    }

    /// Takes the report of how the pending request went.
    pub fn report(&mut self, outcome: Outcome)
        ensures
            final(self)@ == reported(old(self)@, outcome),
    {
        proof {
            use_type_invariant(&*self);
        }
        if !self.halted && self.done < self.requests.len() {
            match outcome {
                Outcome::Delivered => {
                    self.done = self.done + 1;
                },
                Outcome::Failed => {
                    let strict = match self.policy {
                        Policy::Strict => true,
                        Policy::Lenient => false,
                    };
                    self.done = self.done + 1;
                    self.failures = self.failures + 1;
                    self.halted = strict;
                },
            }
        }
    }

    /// How many requests have been sent and reported on.
    pub fn attempted(&self) -> (n: usize)
        ensures
            n == self@.done,
    {
        self.done
    }

    /// How many of the requests sent have failed.
    pub fn failures(&self) -> (n: usize)
        ensures
            n == self@.failures,
    {
        self.failures
    }

    /// Nothing is left to send.
    pub fn finished(&self) -> (b: bool)
        ensures
            b == (pending(self@) is None),
    {
        proof {
            use_type_invariant(self);
        }
        self.halted || self.done >= self.requests.len()
    }
}

/// A lenient delivery hands out every request of its plan, in the order of
/// the plan, whatever the reports say: after `k` reports the request to send
/// is the one at position `k`, and after as many reports as the plan is long
/// nothing is left.
pub proof fn lemma_lenient_sends_all(plan: Seq<RequestView>, outcomes: Seq<Outcome>)
    requires
        outcomes.len() <= plan.len(),
    ensures
        after_all(fresh(plan, Policy::Lenient), outcomes).done == outcomes.len(),
        !after_all(fresh(plan, Policy::Lenient), outcomes).halted,
        after_all(fresh(plan, Policy::Lenient), outcomes).policy == Policy::Lenient,
        after_all(fresh(plan, Policy::Lenient), outcomes).plan == plan,
        pending(after_all(fresh(plan, Policy::Lenient), outcomes)) == if outcomes.len() < plan.len() {
            Some(plan[outcomes.len() as int])
        } else {
            None
        },
    decreases outcomes.len(),
{
    if outcomes.len() > 0 {
        lemma_lenient_sends_all(plan, outcomes.drop_last());
    }
}

/// A strict delivery sends nothing after a request that failed.
pub proof fn lemma_strict_stops(s: DeliveryView, outcomes: Seq<Outcome>)
    requires
        s.policy == Policy::Strict,
        pending(s) is Some,
    ensures
        pending(after_all(reported(s, Outcome::Failed), outcomes)) is None,
    decreases outcomes.len(),
{
    if outcomes.len() > 0 {
        lemma_strict_stops(s, outcomes.drop_last());
    }
}

} // verus!
