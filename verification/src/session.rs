//! A session with the host: all that is asked of it goes on record.

use vstd::prelude::*;

use crate::host::{may_reply, may_store, HostBridge, HttpRequest, RequestView};
use crate::text::opt_string;

verus! {

/// One question to the host and its answer: a key and the stored value, or a
/// request and the reply.
pub enum Exchange {
    Stored { key: Seq<char>, value: Option<Seq<char>> },
    Sent { request: RequestView, reply: Option<Seq<char>> },
}

/// Whether an exchange is one that a host may have part in.
pub open spec fn may_happen<H: HostBridge>(host: &H, exchange: Exchange) -> bool {
    match exchange {
        Exchange::Stored { key, value } => may_store(host, key, value),
        Exchange::Sent { request, reply } => may_reply(host, request, reply),
    }
}

/// A host, and the record of all that has been asked of it.
///
/// The fields are private to this module, which asks the host in two places
/// only, `read_stored` and `send`. Elsewhere the host can be asked only through
/// them, and each question goes on record. The record is there for contracts to
/// speak of; it takes up no memory.
pub struct Session<'a, H: HostBridge> {
    host: &'a H,
    record: Ghost<Seq<Exchange>>,
}

impl<'a, H: HostBridge> View for Session<'a, H> {
    type V = Seq<Exchange>;

    closed spec fn view(&self) -> Seq<Exchange> {
        self.record@
    }
}

impl<'a, H: HostBridge> Session<'a, H> {
    /// The host that is asked.
    pub closed spec fn host(self) -> &'a H {
        self.host
    }

    /// The exchanges since an earlier state of the session.
    pub open spec fn since(self, earlier: Self) -> Seq<Exchange> {
        self@.skip(earlier@.len() as int)
    }

    /// Whether the session goes on from an earlier state: with the same host, with
    /// all that was on record, and with exchanges that the host may have part in.
    pub open spec fn continues(self, earlier: Self) -> bool {
        &&& self.host() == earlier.host()
        &&& earlier@.is_prefix_of(self@)
        &&& forall|i: int|
            0 <= i < self.since(earlier).len() ==> may_happen(
                self.host(),
                #[trigger] self.since(earlier)[i],
            )
    }

    /// Begins a session with a host of which nothing has been asked.
    pub fn new(host: &'a H) -> (session: Self)
        ensures
            session.host() == host,
            session@ == Seq::<Exchange>::empty(),
    {
        Session { host, record: Ghost(Seq::empty()) }
    }

    /// Asks the host for the value of a key.
    pub fn read_stored(&mut self, key: &str) -> (value: Option<String>)
        ensures
            final(self).continues(*old(self)),
            final(self).since(*old(self)) == seq![
                Exchange::Stored { key: key@, value: opt_string(value) },
            ],
    {
        let ghost before = self.record@;
        let value = self.host.kv_get(key);
        let ghost exchange = Exchange::Stored { key: key@, value: opt_string(value) };
        assert(call_ensures(H::kv_get, (self.host, key), value));
        assert(may_happen(self.host, exchange));
        self.record = Ghost(before.push(exchange));
        assert(self.since(*old(self)) =~= seq![exchange]);
        value
    }

    /// Sends a request to the host.
    pub fn send(&mut self, request: &HttpRequest<'_>) -> (reply: Option<String>)
        ensures
            final(self).continues(*old(self)),
            final(self).since(*old(self)) == seq![
                Exchange::Sent { request: request@, reply: opt_string(reply) },
            ],
    {
        let ghost before = self.record@;
        let reply = self.host.http_request(request);
        let ghost exchange = Exchange::Sent { request: request@, reply: opt_string(reply) };
        assert(call_ensures(H::http_request, (self.host, request), reply));
        assert(may_happen(self.host, exchange));
        self.record = Ghost(before.push(exchange));
        assert(self.since(*old(self)) =~= seq![exchange]);
        reply
    }
}

/// What happens in two parts of a session, one after the other, happens in both
/// together.
pub proof fn lemma_parts<'a, H: HostBridge>(
    start: Session<'a, H>,
    middle: Session<'a, H>,
    end: Session<'a, H>,
)
    requires
        middle.continues(start),
        end.continues(middle),
    ensures
        end.continues(start),
        end.since(start) == middle.since(start) + end.since(middle),
{
    let first = middle.since(start);
    let second = end.since(middle);
    assert(end.since(start) =~= first + second);
    assert forall|i: int| 0 <= i < end.since(start).len() implies may_happen(
        end.host(),
        #[trigger] end.since(start)[i],
    ) by {
        if i < first.len() {
            assert(end.since(start)[i] == first[i]);
        } else {
            assert(end.since(start)[i] == second[i - first.len()]);
        }
    }
}

/// A session in which nothing happens goes on from itself.
pub proof fn lemma_no_part<'a, H: HostBridge>(session: Session<'a, H>)
    ensures
        session.continues(session),
        session.since(session).len() == 0,
{
}

} // verus!
