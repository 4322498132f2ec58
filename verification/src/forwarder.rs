//! Queries on their way to an upstream, and the responses that come back.
use crate::addr::{same_socket, IpAddr, Ipv4Addr, SocketAddr};
use crate::wire::{be16, be16_bytes, u16_be};
use std::collections::HashMap;
use vstd::prelude::*;

verus! {

broadcast use vstd::std_specs::hash::group_hash_axioms;

/// The seconds after which an upstream's response is no longer waited for.
pub const FORWARD_TIMEOUT: u64 = 5;

/// The longest datagram that is taken from an upstream.
pub const DATAGRAM_LIMIT: usize = 4096;

/// Why a query has no response.
#[derive(Clone, Copy, Debug, PartialEq, Eq, Structural)]
pub enum ForwardError {
    /// The query has no room for an identifier.
    QueryTooShort,
    /// Nothing receives from the upstream any more.
    ReceiverClosed,
    /// The query could not be sent.
    SendFailed,
    /// The wait was given up for another query with the same identifier, or
    /// because nothing receives from the upstream any more.
    Cancelled,
    /// No response came in time.
    TimedOut,
}

/// A query under another identifier.
pub open spec fn stamped(query: Seq<u8>, query_id: u16) -> Seq<u8> {
    be16_bytes(query_id) + query.skip(2)
}

/// Puts an identifier on a query.
pub fn stamp(query: Vec<u8>, query_id: u16) -> (r: Result<Vec<u8>, ForwardError>)
    ensures
        if query@.len() < 2 {
            r == Err::<Vec<u8>, ForwardError>(ForwardError::QueryTooShort)
        } else {
            r matches Ok(v) && v@ == stamped(query@, query_id)
        },
{
    if query.len() < 2 {
        return Err(ForwardError::QueryTooShort);
    }
    let ghost old_bytes = query@;
    let mut query: Vec<u8> = query;
    query.set(0, (query_id / 256) as u8);
    query.set(1, (query_id % 256) as u8);
    assert(query@ =~= stamped(old_bytes, query_id));
    Ok(query)
}

/// The identifier of the query with a number, where the first one has number
/// one. The identifiers start again from zero behind the last one.
pub open spec fn identifier_of(number: nat) -> u16 {
    (number % 0x1_0000) as u16
}

/// How many queries have been sent after one more: a query that is too short is
/// not sent.
pub open spec fn sent_after(sent: nat, query: Seq<u8>) -> nat {
    if query.len() < 2 {
        sent
    } else {
        sent + 1
    }
}

/// How many of the first `count` queries are sent.
pub open spec fn sent_of(queries: Seq<Seq<u8>>, count: nat) -> nat
    decreases count,
{
    if count == 0 {
        0
    } else {
        sent_after(sent_of(queries, (count - 1) as nat), queries[count - 1])
    }
}

/// What is sent for a query after some others, and under which identifier.
pub open spec fn outgoing(sent: nat, query: Seq<u8>) -> Result<(u16, Seq<u8>), ForwardError> {
    if query.len() < 2 {
        Err(ForwardError::QueryTooShort)
    } else {
        let query_id = identifier_of(sent + 1);
        Ok((query_id, stamped(query, query_id)))
    }
}

/// The identifiers of the queries to one upstream.
pub struct Identifiers {
    next: u16,
    sent: Ghost<nat>,
}

impl View for Identifiers {
    type V = nat;

    /// How many queries have been sent.
    closed spec fn view(&self) -> nat {
        self.sent@
    }
}

impl Identifiers {
    #[verifier::type_invariant]
    spec fn inv(&self) -> bool {
        self.next == identifier_of(self.sent@ + 1)
    }

    /// No query has been sent.
    pub fn new() -> (r: Self)
        ensures
            r@ == 0,
    {
        Identifiers { next: 1, sent: Ghost(0) }
    }

    /// Puts the next identifier on a query. A query that is too short for it
    /// uses none up.
    pub fn stamp_next(&mut self, query: Vec<u8>) -> (r: Result<(u16, Vec<u8>), ForwardError>)
        ensures
            final(self)@ == sent_after(old(self)@, query@),
            match outgoing(old(self)@, query@) {
                Ok((query_id, bytes)) => r matches Ok((id, v)) && id == query_id && v@ == bytes,
                Err(e) => r == Err::<(u16, Vec<u8>), ForwardError>(e),
            },
    {
        proof {
            use_type_invariant(&*self);
        }
        let query_id: u16 = self.next;
        let ghost sent = self@;
        let stamped_query: Vec<u8> = match stamp(query, query_id) {
            Ok(v) => v,
            Err(e) => {
                return Err(e);
            },
        };
        let next: u16 = if query_id == 0xFFFF {
            0
        } else {
            query_id + 1
        };
        *self = Identifiers { next, sent: Ghost(sent + 1) };
        Ok((query_id, stamped_query))
    }
}

/// What became of a query.
pub enum Sent {
    /// The receiver did not take the waiter.
    NotRegistered,
    /// The socket did not take the query.
    NotSent,
    /// A response came.
    Answered(Vec<u8>),
    /// The waiter was dropped.
    Dropped,
    /// No response came in time.
    Late,
}

/// Whether the receiver still holds a waiter that has to be cancelled.
pub open spec fn leaves_waiter(sent: Sent) -> bool {
    sent is NotSent || sent is Late
}

/// What a query comes to.
pub open spec fn concluded(sent: Sent) -> Result<Vec<u8>, ForwardError> {
    match sent {
        Sent::NotRegistered => Err(ForwardError::ReceiverClosed),
        Sent::NotSent => Err(ForwardError::SendFailed),
        Sent::Answered(response) => Ok(response),
        Sent::Dropped => Err(ForwardError::Cancelled),
        Sent::Late => Err(ForwardError::TimedOut),
    }
}

/// Tells what a query comes to, and whether its waiter has to be cancelled.
pub fn conclude(sent: Sent) -> (r: (Result<Vec<u8>, ForwardError>, bool))
    ensures
        r.0 == concluded(sent),
        r.1 == leaves_waiter(sent),
        match sent {
            Sent::NotRegistered => r.0 == Err::<Vec<u8>, ForwardError>(
                ForwardError::ReceiverClosed,
            ),
            Sent::NotSent => r.0 == Err::<Vec<u8>, ForwardError>(ForwardError::SendFailed),
            Sent::Answered(response) => r.0 == Ok::<Vec<u8>, ForwardError>(response),
            Sent::Dropped => r.0 == Err::<Vec<u8>, ForwardError>(ForwardError::Cancelled),
            Sent::Late => r.0 == Err::<Vec<u8>, ForwardError>(ForwardError::TimedOut),
        },
{
    match sent {
        Sent::NotRegistered => (Err(ForwardError::ReceiverClosed), false),
        Sent::NotSent => (Err(ForwardError::SendFailed), true),
        Sent::Answered(response) => (Ok(response), false),
        Sent::Dropped => (Err(ForwardError::Cancelled), false),
        Sent::Late => (Err(ForwardError::TimedOut), true),
    }
}

/// What happens to the receiver of an upstream.
pub enum ReceiverEvent<T> {
    /// A query with an identifier waits for its response.
    Register(u16, T),
    /// The query with an identifier no longer waits.
    Cancel(u16),
    /// No query can come any more.
    Closed,
    /// The upstream sent a datagram.
    Datagram(Vec<u8>),
    /// The socket failed.
    SocketError,
}

/// What the receiver of an upstream does next.
pub enum ReceiverAction<T> {
    /// It goes on.
    Continue,
    /// It goes on without a waiter whose identifier was taken by another.
    Displace(T),
    /// It hands a response to its waiter.
    Deliver(T, Vec<u8>),
    /// It stops.
    Stop,
}

/// What the waiters are after an event.
pub open spec fn waiters_after<T>(m: Map<u16, T>, event: ReceiverEvent<T>) -> Map<u16, T> {
    match event {
        ReceiverEvent::Register(id, waiter) => m.insert(id, waiter),
        ReceiverEvent::Cancel(id) => m.remove(id),
        ReceiverEvent::Closed => Map::empty(),
        ReceiverEvent::Datagram(data) => if data@.len() < 2 {
            m
        } else {
            m.remove(be16(data@, 0))
        },
        ReceiverEvent::SocketError => Map::empty(),
    }
}

/// What the receiver does after an event.
pub open spec fn action_after<T>(m: Map<u16, T>, event: ReceiverEvent<T>) -> ReceiverAction<T> {
    match event {
        ReceiverEvent::Register(id, waiter) => if m.contains_key(id) {
            ReceiverAction::Displace(m[id])
        } else {
            ReceiverAction::Continue
        },
        ReceiverEvent::Cancel(id) => ReceiverAction::Continue,
        ReceiverEvent::Closed => ReceiverAction::Stop,
        ReceiverEvent::Datagram(data) => if data@.len() >= 2 && m.contains_key(be16(data@, 0)) {
            ReceiverAction::Deliver(m[be16(data@, 0)], data)
        } else {
            ReceiverAction::Continue
        },
        ReceiverEvent::SocketError => ReceiverAction::Stop,
    }
}

/// What the waiters are after the first `count` events.
pub open spec fn waiters_of<T>(events: Seq<ReceiverEvent<T>>, count: nat) -> Map<u16, T>
    decreases count,
{
    if count == 0 {
        Map::empty()
    } else {
        waiters_after(waiters_of(events, (count - 1) as nat), events[count - 1])
    }
}

/// The queries that wait for responses of an upstream, by their identifiers.
pub struct Waiters<T> {
    map: HashMap<u16, T>,
}

impl<T> View for Waiters<T> {
    type V = Map<u16, T>;

    closed spec fn view(&self) -> Map<u16, T> {
        self.map@
    }
}

impl<T> Waiters<T> {
    /// No query waits.
    pub fn new() -> (r: Self)
        ensures
            r@ == Map::<u16, T>::empty(),
    {
        Waiters { map: HashMap::new() }
    }

    /// Takes an event, and tells what to do next.
    pub fn step(&mut self, event: ReceiverEvent<T>) -> (r: ReceiverAction<T>)
        ensures
            final(self)@ == waiters_after(old(self)@, event),
            r == action_after(old(self)@, event),
    {
        match event {
            ReceiverEvent::Register(id, waiter) => match self.map.insert(id, waiter) {
                Some(previous) => ReceiverAction::Displace(previous),
                None => ReceiverAction::Continue,
            },
            ReceiverEvent::Cancel(id) => {
                self.map.remove(&id);
                ReceiverAction::Continue
            },
            ReceiverEvent::Closed => {
                self.map.clear();
                ReceiverAction::Stop
            },
            ReceiverEvent::Datagram(data) => {
                if data.len() < 2 {
                    return ReceiverAction::Continue;
                }
                let id: u16 = u16_be(data.as_slice(), 0);
                match self.map.remove(&id) {
                    Some(waiter) => ReceiverAction::Deliver(waiter, data),
                    None => ReceiverAction::Continue,
                }
            },
            ReceiverEvent::SocketError => {
                self.map.clear();
                ReceiverAction::Stop
            },
        }
    }
}

/// Whether an address leaves open which address of a family and which port are
/// used.
pub open spec fn is_any_of_family(bound: SocketAddr, remote: SocketAddr) -> bool {
    &&& bound.port == 0
    &&& bound.flowinfo == 0
    &&& bound.scope_id == 0
    &&& match (bound.ip, remote.ip) {
        (IpAddr::V4(ip), IpAddr::V4(_)) => ip.bits == 0,
        (IpAddr::V6(bytes), IpAddr::V6(_)) => forall|i: int| 0 <= i < 16 ==> bytes@[i] == 0,
        _ => false,
    }
}

/// Gives the address that a socket for an upstream is bound to: any address of
/// the upstream's family, and any port.
pub fn bind_address(remote: &SocketAddr) -> (r: SocketAddr)
    ensures
        is_any_of_family(r, *remote),
{
    let ip: IpAddr = match remote.ip {
        IpAddr::V4(_) => IpAddr::V4(Ipv4Addr { bits: 0 }),
        IpAddr::V6(_) => IpAddr::V6([0u8; 16]),
    };
    SocketAddr::new(ip, 0)
}

/// What is open to an upstream: the number of the socket, and what belongs to
/// it.
pub struct Opened<F> {
    pub upstream: SocketAddr,
    pub serial: u64,
    pub forwarder: F,
}

/// The sockets that are open, by their upstreams.
pub open spec fn opened_map<F>(entries: Seq<Opened<F>>) -> Map<SocketAddr, (u64, F)>
    decreases entries.len(),
{
    if entries.len() == 0 {
        Map::empty()
    } else {
        let last = entries.last();
        opened_map(entries.drop_last()).insert(last.upstream, (last.serial, last.forwarder))
    }
}

/// Whether no upstream has two sockets.
pub open spec fn upstreams_differ<F>(entries: Seq<Opened<F>>) -> bool {
    forall|i: int, j: int|
        0 <= i < j < entries.len() ==> (#[trigger] entries[i]).upstream != (
        #[trigger] entries[j]).upstream
}

/// An upstream has a socket just where one stands in the list, and it is that
/// one.
proof fn lemma_opened_map<F>(entries: Seq<Opened<F>>)
    requires
        upstreams_differ(entries),
    ensures
        forall|i: int|
            0 <= i < entries.len() ==> opened_map(entries).contains_key(
                (#[trigger] entries[i]).upstream,
            ) && opened_map(entries)[entries[i].upstream] == (
                entries[i].serial,
                entries[i].forwarder,
            ),
        forall|upstream: SocketAddr| #[trigger]
            opened_map(entries).contains_key(upstream) ==> exists|i: int|
                0 <= i < entries.len() && (#[trigger] entries[i]).upstream == upstream,
    decreases entries.len(),
{
    if entries.len() > 0 {
        let rest = entries.drop_last();
        let last = entries.last();
        assert forall|i: int, j: int| 0 <= i < j < rest.len() implies (
        #[trigger] rest[i]).upstream != (#[trigger] rest[j]).upstream by {
            assert(rest[i] == entries[i] && rest[j] == entries[j]);
        }
        lemma_opened_map(rest);
        assert forall|i: int| 0 <= i < entries.len() implies opened_map(entries).contains_key(
            (#[trigger] entries[i]).upstream,
        ) && opened_map(entries)[entries[i].upstream] == (
            entries[i].serial,
            entries[i].forwarder,
        ) by {
            if i < rest.len() {
                assert(rest[i] == entries[i]);
                assert(entries[i].upstream != entries[entries.len() - 1].upstream);
            }
        }
        assert forall|upstream: SocketAddr| #[trigger]
            opened_map(entries).contains_key(upstream) implies exists|i: int|
            0 <= i < entries.len() && (#[trigger] entries[i]).upstream == upstream by {
            if upstream == last.upstream {
                assert(entries[entries.len() - 1].upstream == upstream);
            } else {
                assert(opened_map(rest).contains_key(upstream));
                let i = choose|i: int|
                    0 <= i < rest.len() && (#[trigger] rest[i]).upstream == upstream;
                assert(entries[i].upstream == upstream);
            }
        }
    }
}

/// The sockets after one has been opened: an upstream that has one keeps it.
pub open spec fn with_opened<F>(
    m: Map<SocketAddr, (u64, F)>,
    upstream: SocketAddr,
    serial: u64,
    forwarder: F,
) -> Map<SocketAddr, (u64, F)> {
    if m.contains_key(upstream) {
        m
    } else {
        m.insert(upstream, (serial, forwarder))
    }
}

/// The sockets after one has been closed: an upstream that has another one in
/// the meantime keeps that.
pub open spec fn without_closed<F>(
    m: Map<SocketAddr, (u64, F)>,
    upstream: SocketAddr,
    serial: u64,
) -> Map<SocketAddr, (u64, F)> {
    if m.contains_key(upstream) && m[upstream].0 == serial {
        m.remove(upstream)
    } else {
        m
    }
}

/// The sockets that are open, one for each upstream.
pub struct Forwarders<F> {
    entries: Vec<Opened<F>>,
}

impl<F> View for Forwarders<F> {
    type V = Map<SocketAddr, (u64, F)>;

    closed spec fn view(&self) -> Map<SocketAddr, (u64, F)> {
        opened_map(self.entries@)
    }
}

impl<F> Forwarders<F> {
    #[verifier::type_invariant]
    spec fn inv(self) -> bool {
        upstreams_differ(self.entries@)
    }

    /// No socket is open.
    pub fn new() -> (r: Self)
        ensures
            r@ == Map::<SocketAddr, (u64, F)>::empty(),
    {
        Forwarders { entries: Vec::new() }
    }

    /// Finds where the socket of an upstream stands.
    fn place(&self, upstream: &SocketAddr) -> (r: Option<usize>)
        ensures
            match r {
                Some(i) => i < self.entries@.len() && self.entries@[i as int].upstream == *upstream
                    && self@.contains_key(*upstream) && self@[*upstream] == (
                    self.entries@[i as int].serial,
                    self.entries@[i as int].forwarder,
                ),
                None => !self@.contains_key(*upstream) && forall|i: int|
                    0 <= i < self.entries@.len() ==> (#[trigger] self.entries@[i]).upstream
                        != *upstream,
            },
    {
        proof {
            use_type_invariant(&*self);
            lemma_opened_map(self.entries@);
        }
        let mut i: usize = 0;
        while i < self.entries.len()
            invariant
                i <= self.entries@.len(),
                forall|k: int|
                    0 <= k < i ==> (#[trigger] self.entries@[k]).upstream != *upstream,
                forall|k: int|
                    0 <= k < self.entries@.len() ==> self@.contains_key(
                        (#[trigger] self.entries@[k]).upstream,
                    ) && self@[self.entries@[k].upstream] == (
                        self.entries@[k].serial,
                        self.entries@[k].forwarder,
                    ),
            decreases self.entries@.len() - i,
        {
            if same_socket(&self.entries[i].upstream, upstream) {
                return Some(i);
            }
            i += 1;
        }
        None
    }

    /// Gives what belongs to the socket of an upstream.
    pub fn get(&self, upstream: &SocketAddr) -> (r: Option<&F>)
        ensures
            match r {
                Some(f) => self@.contains_key(*upstream) && *f == self@[*upstream].1,
                None => !self@.contains_key(*upstream),
            },
    {
        match self.place(upstream) {
            Some(i) => Some(&self.entries[i].forwarder),
            None => None,
        }
    }

    /// Takes a socket that was opened, unless its upstream has one. Tells
    /// whether it was taken.
    pub fn open(&mut self, upstream: SocketAddr, serial: u64, forwarder: F) -> (r: bool)
        ensures
            r == !old(self)@.contains_key(upstream),
            final(self)@ == with_opened(old(self)@, upstream, serial, forwarder),
    {
        if self.place(&upstream).is_some() {
            return false;
        }
        proof {
            use_type_invariant(&*self);
        }
        let mut entries: Vec<Opened<F>> = Vec::new();
        std::mem::swap(&mut entries, &mut self.entries);
        let ghost before = entries@;
        entries.push(Opened { upstream, serial, forwarder });
        assert(entries@.drop_last() =~= before);
        self.entries = entries;
        true
    }

    /// Gives up a socket that was closed.
    pub fn close(&mut self, upstream: &SocketAddr, serial: u64)
        ensures
            final(self)@ == without_closed(old(self)@, *upstream, serial),
    {
        let at: usize = match self.place(upstream) {
            Some(i) => i,
            None => {
                return;
            },
        };
        if self.entries[at].serial != serial {
            return;
        }
        proof {
            use_type_invariant(&*self);
            lemma_opened_map(self.entries@);
        }
        let mut entries: Vec<Opened<F>> = Vec::new();
        std::mem::swap(&mut entries, &mut self.entries);
        let ghost before = entries@;
        entries.remove(at);
        proof {
            let after = entries@;
            assert(after =~= before.remove(at as int));
            assert forall|i: int, j: int| 0 <= i < j < after.len() implies (
            #[trigger] after[i]).upstream != (#[trigger] after[j]).upstream by {
                let a = if i < at {
                    i
                } else {
                    i + 1
                };
                let b = if j < at {
                    j
                } else {
                    j + 1
                };
                assert(after[i] == before[a] && after[j] == before[b]);
            }
            lemma_opened_map(after);
            let rest = opened_map(before).remove(*upstream);
            assert forall|u: SocketAddr| opened_map(after).contains_key(u) implies (
            #[trigger] rest.contains_key(u)) && opened_map(after)[u] == rest[u] by {
                let i = choose|i: int| 0 <= i < after.len() && (#[trigger] after[i]).upstream == u;
                let a = if i < at {
                    i
                } else {
                    i + 1
                };
                assert(after[i] == before[a]);
                assert(before[a].upstream != before[at as int].upstream);
            }
            assert forall|u: SocketAddr|
                opened_map(before).contains_key(u) && u != *upstream implies #[trigger] opened_map(
                after,
            ).contains_key(u) by {
                let a = choose|a: int|
                    0 <= a < before.len() && (#[trigger] before[a]).upstream == u;
                let i = if a < at {
                    a
                } else {
                    a - 1
                };
                assert(after[i] == before[a]);
            }
            assert(opened_map(after) =~= rest);
        }
        self.entries = entries;
    }
}

/// A socket that was closed does not take with it the one that was opened for
/// the same upstream since.
pub proof fn law_closing_spares_a_newer_socket<F>(
    m: Map<SocketAddr, (u64, F)>,
    upstream: SocketAddr,
    closed: u64,
    newer: u64,
    forwarder: F,
)
    requires
        closed != newer,
    ensures
        ({
            let reopened = without_closed(m, upstream, closed);
            let after = with_opened(reopened, upstream, newer, forwarder);
            &&& after.contains_key(upstream)
            &&& without_closed(after, upstream, closed) == after
        }),
{
}

/// The response to a query that waits reaches its waiter and no other, and the
/// other queries keep waiting.
pub proof fn law_response_reaches_its_waiter<T>(
    m: Map<u16, T>,
    query_id: u16,
    waiter: T,
    response: Vec<u8>,
    other: u16,
)
    requires
        response@.len() >= 2,
        be16(response@, 0) == query_id,
        other != query_id,
    ensures
        ({
            let waiting = waiters_after(m, ReceiverEvent::Register(query_id, waiter));
            let arrived = ReceiverEvent::Datagram(response);
            &&& action_after(waiting, arrived) == ReceiverAction::Deliver(waiter, response)
            &&& !waiters_after(waiting, arrived).contains_key(query_id)
            &&& waiters_after(waiting, arrived).contains_key(other) == m.contains_key(other)
            &&& m.contains_key(other) ==> waiters_after(waiting, arrived)[other] == m[other]
        }),
{
}

proof fn lemma_waiter_was_registered<T>(events: Seq<ReceiverEvent<T>>, count: nat, query_id: u16)
    requires
        count <= events.len(),
        waiters_of(events, count).contains_key(query_id),
    ensures
        exists|j: int|
            0 <= j < count && (#[trigger] events[j]) == ReceiverEvent::Register(
                query_id,
                waiters_of(events, count)[query_id],
            ),
    decreases count,
{
    if count > 0 {
        let last = (count - 1) as nat;
        let before = waiters_of(events, last);
        if before.contains_key(query_id) {
            lemma_waiter_was_registered(events, last, query_id);
            let j = choose|j: int|
                0 <= j < last && (#[trigger] events[j]) == ReceiverEvent::Register(
                    query_id,
                    before[query_id],
                );
            assert(events[j] == ReceiverEvent::Register(query_id, before[query_id]));
        }
        assert(events[count - 1] == events[last as int]);
    }
}

/// Whatever has happened to the receiver of an upstream, what it hands to a
/// waiter is a datagram that the upstream sent, and it carries the identifier
/// under which that waiter was registered.
pub proof fn law_waiter_gets_a_response_to_its_query<T>(
    events: Seq<ReceiverEvent<T>>,
    index: nat,
    waiter: T,
    response: Vec<u8>,
)
    requires
        index < events.len(),
        action_after(waiters_of(events, index), events[index as int]) == ReceiverAction::Deliver(
            waiter,
            response,
        ),
    ensures
        response@.len() >= 2,
        events[index as int] == ReceiverEvent::<T>::Datagram(response),
        exists|j: int|
            0 <= j < index && (#[trigger] events[j]) == ReceiverEvent::Register(
                be16(response@, 0),
                waiter,
            ),
{
    lemma_waiter_was_registered(events, index, be16(response@, 0));
}

/// A response to a query that no longer waits reaches nobody.
pub proof fn law_cancelled_query_gets_nothing<T>(m: Map<u16, T>, query_id: u16, response: Vec<u8>)
    requires
        response@.len() >= 2,
        be16(response@, 0) == query_id,
    ensures
        ({
            let waiting = waiters_after(m, ReceiverEvent::Cancel(query_id));
            let arrived = ReceiverEvent::Datagram(response);
            &&& action_after(waiting, arrived) is Continue
            &&& waiters_after(waiting, arrived) == waiting
        }),
{
    let waiting = waiters_after(m, ReceiverEvent::Cancel(query_id));
    assert(waiting.remove(query_id) =~= waiting);
}

/// Of the queries to an upstream, the one that is sent as number `k` goes out
/// under the identifier `k` modulo 65536 and is otherwise unchanged. One that is
/// too short is not sent and uses up no identifier.
pub proof fn law_queries_are_numbered(queries: Seq<Seq<u8>>, index: nat)
    requires
        index < queries.len(),
    ensures
        ({
            let query = queries[index as int];
            let sent = sent_of(queries, index);
            let k = sent_of(queries, index + 1);
            &&& query.len() < 2 ==> outgoing(sent, query) == Err::<(u16, Seq<u8>), ForwardError>(
                ForwardError::QueryTooShort,
            ) && k == sent
            &&& query.len() >= 2 ==> k == sent + 1 && (outgoing(sent, query) matches Ok((id, bytes))
                && id == k % 0x1_0000 && be16(bytes, 0) == id && bytes.len() == query.len()
                && bytes.skip(2) == query.skip(2))
        }),
{
    let query = queries[index as int];
    if query.len() >= 2 {
        law_stamp_sets_the_identifier(query, identifier_of(sent_of(queries, index) + 1));
    }
}

/// Two queries to an upstream go out under different identifiers, unless as many
/// lie between them as there are identifiers.
pub proof fn law_identifiers_differ(one: nat, other: nat)
    requires
        one < other < one + 0x1_0000,
    ensures
        identifier_of(one) != identifier_of(other),
{
}

/// A query under an identifier carries it, and is otherwise unchanged.
pub proof fn law_stamp_sets_the_identifier(query: Seq<u8>, query_id: u16)
    requires
        query.len() >= 2,
    ensures
        be16(stamped(query, query_id), 0) == query_id,
        stamped(query, query_id).len() == query.len(),
        stamped(query, query_id).skip(2) == query.skip(2),
{
    assert(stamped(query, query_id).skip(2) =~= query.skip(2));
}

/// A query comes to a response just where one came, and then to that one. A waiter
/// has to be cancelled where it was registered and nothing has taken it since: the
/// query was not sent, or it was and nothing came.
pub proof fn law_only_answered_queries_have_a_response(sent: Sent, response: Vec<u8>)
    ensures
        concluded(sent) == Ok::<Vec<u8>, ForwardError>(response) <==> sent == Sent::Answered(
            response,
        ),
        concluded(sent) == Err::<Vec<u8>, ForwardError>(ForwardError::TimedOut)
            <==> sent is Late,
        concluded(sent) == Err::<Vec<u8>, ForwardError>(ForwardError::SendFailed)
            <==> sent is NotSent,
        concluded(sent) == Err::<Vec<u8>, ForwardError>(ForwardError::ReceiverClosed)
            <==> sent is NotRegistered,
        concluded(sent) == Err::<Vec<u8>, ForwardError>(ForwardError::Cancelled)
            <==> sent is Dropped,
        leaves_waiter(sent) <==> (concluded(sent) matches Err(e) && (e is TimedOut
            || e is SendFailed)),
{
}

/// A query that is registered waits, in place of one that has its identifier, which
/// is handed back. One that is cancelled waits no longer. All others keep waiting,
/// each for the same.
pub proof fn law_others_keep_waiting<T>(m: Map<u16, T>, query_id: u16, waiter: T, other: u16)
    requires
        other != query_id,
    ensures
        ({
            let registered = ReceiverEvent::Register(query_id, waiter);
            let cancelled = ReceiverEvent::<T>::Cancel(query_id);
            let more = waiters_after(m, registered);
            let fewer = waiters_after(m, cancelled);
            &&& more.contains_key(query_id)
            &&& more[query_id] == waiter
            &&& m.contains_key(query_id) ==> action_after(m, registered)
                == ReceiverAction::Displace(m[query_id])
            &&& !m.contains_key(query_id) ==> action_after(m, registered) is Continue
            &&& !fewer.contains_key(query_id)
            &&& action_after(m, cancelled) is Continue
            &&& more.contains_key(other) == m.contains_key(other)
            &&& fewer.contains_key(other) == m.contains_key(other)
            &&& m.contains_key(other) ==> more[other] == m[other] && fewer[other] == m[other]
        }),
{
}

/// A datagram that is too short, or that carries an identifier under which no query
/// waits, changes nothing and reaches nobody.
pub proof fn law_strange_datagrams_change_nothing<T>(m: Map<u16, T>, data: Vec<u8>)
    requires
        data@.len() < 2 || !m.contains_key(be16(data@, 0)),
    ensures
        waiters_after(m, ReceiverEvent::Datagram(data)) == m,
        action_after(m, ReceiverEvent::Datagram(data)) is Continue,
{
    if data@.len() >= 2 {
        assert(m.remove(be16(data@, 0)) =~= m);
    }
}

/// When no query can come any more, or the socket has failed, the receiver stops and
/// no query waits. Nothing else stops it.
pub proof fn law_receiver_stops_with_its_socket<T>(m: Map<u16, T>, event: ReceiverEvent<T>)
    ensures
        action_after(m, event) is Stop <==> event is Closed || event is SocketError,
        event is Closed || event is SocketError ==> waiters_after(m, event) == Map::<
            u16,
            T,
        >::empty(),
{
}

/// A socket that is opened is there, unless the upstream had one, which then stays.
/// One that is closed is gone. The sockets of other upstreams stay as they are.
pub proof fn law_other_upstreams_keep_their_sockets<F>(
    m: Map<SocketAddr, (u64, F)>,
    upstream: SocketAddr,
    serial: u64,
    forwarder: F,
    other: SocketAddr,
)
    requires
        other != upstream,
    ensures
        ({
            let more = with_opened(m, upstream, serial, forwarder);
            let fewer = without_closed(m, upstream, serial);
            &&& more.contains_key(upstream)
            &&& m.contains_key(upstream) ==> more[upstream] == m[upstream]
            &&& !m.contains_key(upstream) ==> more[upstream] == (serial, forwarder)
            &&& fewer.contains_key(upstream) <==> m.contains_key(upstream) && m[upstream].0
                != serial
            &&& fewer.contains_key(upstream) ==> fewer[upstream] == m[upstream]
            &&& more.contains_key(other) == m.contains_key(other)
            &&& fewer.contains_key(other) == m.contains_key(other)
            &&& m.contains_key(other) ==> more[other] == m[other] && fewer[other] == m[other]
        }),
{
}

} // verus!
