//! The dispatcher: connection table, identity lifecycle, and the rules that
//! turn application responses into table updates and outbound deliveries.
//!
//! The connection table is a growable sequence of optional records indexed
//! by slot number. The dispatcher alone mutates it; the per-connection
//! reader and writer actors live with the I/O layer, which keeps each live
//! slot's pair of mailboxes keyed by the same slot index. What the
//! dispatcher would put on those mailboxes comes back from `handleResponse`
//! as a list of `Outbound` deliveries for the I/O layer to perform.

use crate::telnet;
use vstd::prelude::*;

verus! {

/// A per-connection identity: its lifecycle state and, once placed in the
/// table, its slot index. Two identities are equal only if both the state
/// and the slot match.
#[derive(Clone, Copy, PartialEq, Eq, Structural, Debug)]
pub enum ID {
    Unassigned,
    Unconnected(usize),
    Connected(usize),
}

impl ID {
    /// Whether this identity occupies slot `i` of the connection table.
    pub open spec fn has_slot(self, i: int) -> bool {
        ||| (self matches ID::Unconnected(n) && n == i)
        ||| (self matches ID::Connected(n) && n == i)
    }

    /// The slot index of a placed identity. Unwrapping an unassigned
    /// identity is a programming-contract violation, excluded up front.
    pub fn get(&self) -> (i: usize)
        requires
            !(*self is Unassigned),
        ensures
            self.has_slot(i as int),
    {
        match *self {
            ID::Unassigned => {
                assert(false);
                0
            }
            ID::Unconnected(x) => x,
            ID::Connected(x) => x,
        }
    }
}

/// One live client's record as the dispatcher sees it: its identity. The
/// record's two mailboxes (dispatcher to writer actor, reader actor to
/// dispatcher) belong to the I/O layer, keyed by the same slot index.
#[derive(Clone, Copy, PartialEq, Eq, Structural, Debug)]
pub struct Connection {
    pub id: ID,
}

impl Connection {
    /// A freshly accepted connection: not yet placed in the table, so its
    /// identity is still unassigned.
    pub fn new() -> (c: Connection)
        ensures
            c.id is Unassigned,
    {
        Connection { id: ID::Unassigned }
    }
}

/// A message from the core to the application.
pub enum Command {
    ShutDownComplete,
    TelnetCommand(telnet::Command),
    PlayerString(ID, String),
}

/// A message from the application back to the dispatcher.
pub enum Response {
    ShutDown,
    NewConnection(Connection),
    Disconnect(ID),
    BroadCast(String),
    MultiCast(Vec<ID>, String),
    UniCast(ID, String),
    Nothing,
}

/// What the dispatcher asks the I/O layer to put on a connection's
/// outbound mailbox: a text message for the writer actor, or the
/// close-sentinel that winds the actor pair down.
pub enum Outbound {
    Deliver(usize, String),
    Close(usize),
}

/// Whether slot `i` of the table holds a live connection.
pub open spec fn live(t: Seq<Option<Connection>>, i: int) -> bool {
    0 <= i < t.len() && t[i] is Some
}

/// The table's invariant: every live record's identity names the very slot
/// it occupies.
pub open spec fn table_wf(t: Seq<Option<Connection>>) -> bool {
    forall|i: int|
        #![trigger t[i]]
        0 <= i < t.len() ==> (t[i] matches Some(c) ==> c.id.has_slot(i))
}

/// The first free slot index at or after `i`; the table's length when none
/// is free.
pub open spec fn lowest_free_from(t: Seq<Option<Connection>>, i: int) -> int
    decreases t.len() - i,
{
    if i < 0 || i >= t.len() {
        t.len() as int
    } else if t[i] is None {
        i
    } else {
        lowest_free_from(t, i + 1)
    }
}

/// The lowest currently-free slot index; the table's length when every
/// slot is occupied.
pub open spec fn lowest_free(t: Seq<Option<Connection>>) -> int {
    lowest_free_from(t, 0)
}

/// The live slot indices, in ascending order.
pub open spec fn live_indices(t: Seq<Option<Connection>>) -> Seq<int>
    decreases t.len(),
{
    if t.len() == 0 {
        Seq::empty()
    } else {
        live_indices(t.drop_last()) + if t.last() is Some {
            seq![t.len() - 1]
        } else {
            Seq::empty()
        }
    }
}

/// The slots whose live record holds exactly the identity `id`, in
/// ascending order.
pub open spec fn matching_indices(t: Seq<Option<Connection>>, id: ID) -> Seq<int>
    decreases t.len(),
{
    if t.len() == 0 {
        Seq::empty()
    } else {
        matching_indices(t.drop_last(), id) + if t.last() matches Some(c) && c.id == id {
            seq![t.len() - 1]
        } else {
            Seq::empty()
        }
    }
}

/// The slots a multicast reaches: for each requested identity in order,
/// the slots whose live record holds it.
pub open spec fn multicast_targets(t: Seq<Option<Connection>>, ids: Seq<ID>) -> Seq<int>
    decreases ids.len(),
{
    if ids.len() == 0 {
        Seq::empty()
    } else {
        multicast_targets(t, ids.drop_last()) + matching_indices(t, ids.last())
    }
}

/// `out` is one text delivery per target slot, in target order, each
/// carrying the text `text`.
pub open spec fn deliveries_match(out: Seq<Outbound>, targets: Seq<int>, text: Seq<char>) -> bool {
    &&& out.len() == targets.len()
    &&& forall|k: int|
        #![trigger out[k]]
        0 <= k < out.len() ==> (out[k] matches Outbound::Deliver(i, s) && i == targets[k] && s@
            == text)
}

/// `out` is one close-sentinel per target slot, in target order.
pub open spec fn closes_match(out: Seq<Outbound>, targets: Seq<int>) -> bool {
    &&& out.len() == targets.len()
    &&& forall|k: int|
        #![trigger out[k]]
        0 <= k < out.len() ==> (out[k] matches Outbound::Close(i) && i == targets[k])
}

/// The table after `Disconnect(id)`: every live record holding exactly
/// `id` is cleared, every other slot is untouched.
pub open spec fn disconnect_table(t: Seq<Option<Connection>>, id: ID) -> Seq<Option<Connection>> {
    Seq::new(t.len(), |i: int| if t[i] matches Some(c) && c.id == id {
        None
    } else {
        t[i]
    })
}

proof fn lemma_live_indices_step(t: Seq<Option<Connection>>, i: int)
    requires
        0 <= i < t.len(),
    ensures
        live_indices(t.subrange(0, i + 1)) == live_indices(t.subrange(0, i)) + if t[i] is Some {
            seq![i]
        } else {
            Seq::<int>::empty()
        },
{
    let p = t.subrange(0, i + 1);
    assert(p.drop_last() =~= t.subrange(0, i));
    assert(p.last() == t[i]);
}

proof fn lemma_matching_indices_step(t: Seq<Option<Connection>>, id: ID, i: int)
    requires
        0 <= i < t.len(),
    ensures
        matching_indices(t.subrange(0, i + 1), id) == matching_indices(t.subrange(0, i), id)
            + if t[i] matches Some(c) && c.id == id {
            seq![i]
        } else {
            Seq::<int>::empty()
        },
{
    let p = t.subrange(0, i + 1);
    assert(p.drop_last() =~= t.subrange(0, i));
    assert(p.last() == t[i]);
}

proof fn lemma_multicast_targets_step(t: Seq<Option<Connection>>, ids: Seq<ID>, k: int)
    requires
        0 <= k < ids.len(),
    ensures
        multicast_targets(t, ids.subrange(0, k + 1)) == multicast_targets(t, ids.subrange(0, k))
            + matching_indices(t, ids[k]),
{
    let p = ids.subrange(0, k + 1);
    assert(p.drop_last() =~= ids.subrange(0, k));
    assert(p.last() == ids[k]);
}

/// No two simultaneously live connections hold the same slot index: in a
/// well-formed table, distinct live slots carry distinct identities.
pub proof fn lemma_no_shared_slot(t: Seq<Option<Connection>>, i: int, j: int)
    requires
        table_wf(t),
        live(t, i),
        live(t, j),
        i != j,
    ensures
        t[i]->Some_0.id != t[j]->Some_0.id,
{
    assert(t[i]->Some_0.id.has_slot(i));
    assert(t[j]->Some_0.id.has_slot(j));
}

/// `lowest_free` is what its name says: it is free (when below the table's
/// length), and every slot below it is occupied.
pub proof fn lemma_lowest_free_is_lowest(t: Seq<Option<Connection>>)
    ensures
        0 <= lowest_free(t) <= t.len(),
        lowest_free(t) < t.len() ==> t[lowest_free(t)] is None,
        forall|j: int| 0 <= j < lowest_free(t) ==> #[trigger] t[j] is Some,
{
    lemma_lowest_free_from(t, 0);
}

proof fn lemma_lowest_free_from(t: Seq<Option<Connection>>, i: int)
    requires
        0 <= i <= t.len(),
    ensures
        i <= lowest_free_from(t, i) <= t.len(),
        lowest_free_from(t, i) < t.len() ==> t[lowest_free_from(t, i)] is None,
        forall|j: int| i <= j < lowest_free_from(t, i) ==> #[trigger] t[j] is Some,
    decreases t.len() - i,
{
    if i < t.len() && !(t[i] is None) {
        lemma_lowest_free_from(t, i + 1);
    }
}

/// `live_indices` is exactly the set of live slots, each once, in strictly
/// ascending order: a broadcast while N connections are live makes exactly
/// N deliveries, one per live connection and none to a cleared slot.
pub proof fn lemma_live_indices_exact(t: Seq<Option<Connection>>)
    ensures
        forall|x: int| #[trigger] live_indices(t).contains(x) <==> live(t, x),
        forall|a: int, b: int|
            0 <= a < b < live_indices(t).len() ==> live_indices(t)[a] < live_indices(t)[b],
    decreases t.len(),
{
    if t.len() > 0 {
        let u = t.drop_last();
        lemma_live_indices_exact(u);
        let l = live_indices(t);
        let lu = live_indices(u);
        assert forall|x: int| #[trigger] l.contains(x) implies live(t, x) by {
            let k = choose|k: int| 0 <= k < l.len() && l[k] == x;
            if k < lu.len() {
                assert(lu[k] == x);
                assert(lu.contains(x));
                assert(u[x] == t[x]);
            } else {
                assert(x == t.len() - 1);
            }
        }
        assert forall|x: int| live(t, x) implies #[trigger] l.contains(x) by {
            if x < t.len() - 1 {
                assert(u[x] == t[x]);
                assert(live(u, x));
                assert(lu.contains(x));
                let k = choose|k: int| 0 <= k < lu.len() && lu[k] == x;
                assert(l[k] == x);
            } else {
                assert(l[lu.len() as int] == x);
            }
        }
        assert forall|a: int, b: int| 0 <= a < b < l.len() implies l[a] < l[b] by {
            if b < lu.len() {
                assert(l[a] == lu[a] && l[b] == lu[b]);
            } else {
                assert(l[b] == t.len() - 1);
                assert(lu[a] == l[a]);
                assert(lu.contains(lu[a]));
                assert(live(u, lu[a]));
            }
        }
    }
}

/// `matching_indices` is exactly the set of live slots holding `id`, each
/// once, in strictly ascending order.
pub proof fn lemma_matching_indices_exact(t: Seq<Option<Connection>>, id: ID)
    ensures
        forall|x: int| #[trigger]
            matching_indices(t, id).contains(x) <==> (live(t, x) && t[x]->Some_0.id == id),
        forall|a: int, b: int|
            0 <= a < b < matching_indices(t, id).len() ==> matching_indices(t, id)[a]
                < matching_indices(t, id)[b],
    decreases t.len(),
{
    if t.len() > 0 {
        let u = t.drop_last();
        lemma_matching_indices_exact(u, id);
        let l = matching_indices(t, id);
        let lu = matching_indices(u, id);
        assert forall|x: int| #[trigger] l.contains(x) implies live(t, x) && t[x]->Some_0.id
            == id by {
            let k = choose|k: int| 0 <= k < l.len() && l[k] == x;
            if k < lu.len() {
                assert(lu[k] == x);
                assert(lu.contains(x));
                assert(u[x] == t[x]);
            } else {
                assert(x == t.len() - 1);
            }
        }
        assert forall|x: int| live(t, x) && t[x]->Some_0.id == id implies #[trigger] l.contains(
            x,
        ) by {
            if x < t.len() - 1 {
                assert(u[x] == t[x]);
                assert(live(u, x) && u[x]->Some_0.id == id);
                assert(lu.contains(x));
                let k = choose|k: int| 0 <= k < lu.len() && lu[k] == x;
                assert(l[k] == x);
            } else {
                assert(l[lu.len() as int] == x);
            }
        }
        assert forall|a: int, b: int| 0 <= a < b < l.len() implies l[a] < l[b] by {
            if b < lu.len() {
                assert(l[a] == lu[a] && l[b] == lu[b]);
            } else {
                assert(l[b] == t.len() - 1);
                assert(lu[a] == l[a]);
                assert(lu.contains(lu[a]));
                assert(live(u, lu[a]));
            }
        }
    }
}

/// In a well-formed table a unicast reaches at most one connection: an
/// identity names its slot, so at most one live slot can hold it.
pub proof fn lemma_unicast_at_most_one(t: Seq<Option<Connection>>, id: ID)
    requires
        table_wf(t),
    ensures
        matching_indices(t, id).len() <= 1,
{
    lemma_matching_indices_exact(t, id);
    let l = matching_indices(t, id);
    if l.len() >= 2 {
        let a = l[0];
        let b = l[1];
        assert(a < b);
        assert(l.contains(a) && l.contains(b));
        assert(t[a]->Some_0.id.has_slot(a));
        assert(t[b]->Some_0.id.has_slot(b));
        assert(t[a]->Some_0.id == id && t[b]->Some_0.id == id);
        assert(false);
    }
}

proof fn lemma_matching_empty(t: Seq<Option<Connection>>, id: ID)
    requires
        forall|i: int| live(t, i) ==> (#[trigger] t[i])->Some_0.id != id,
    ensures
        matching_indices(t, id) == Seq::<int>::empty(),
    decreases t.len(),
{
    if t.len() > 0 {
        let u = t.drop_last();
        assert forall|i: int| live(u, i) implies (#[trigger] u[i])->Some_0.id != id by {
            assert(u[i] == t[i]);
            assert(live(t, i));
        }
        lemma_matching_empty(u, id);
        assert(live(t, t.len() - 1) ==> t.last()->Some_0.id != id);
        assert(matching_indices(t, id) =~= Seq::<int>::empty());
    }
}

/// A multicast to a list that names an identity with no matching live
/// connection is a no-op for that identity: the targets are those of the
/// list without it.
pub proof fn lemma_multicast_skips_dead(t: Seq<Option<Connection>>, ids: Seq<ID>, id: ID)
    requires
        forall|i: int| live(t, i) ==> (#[trigger] t[i])->Some_0.id != id,
    ensures
        matching_indices(t, id) == Seq::<int>::empty(),
        multicast_targets(t, ids.push(id)) == multicast_targets(t, ids),
{
    lemma_matching_empty(t, id);
    assert(ids.push(id).drop_last() =~= ids);
    assert(ids.push(id).last() == id);
    assert(multicast_targets(t, ids.push(id)) == multicast_targets(t, ids) + matching_indices(
        t,
        id,
    ));
    assert(multicast_targets(t, ids) + Seq::<int>::empty() =~= multicast_targets(t, ids));
}

/// A disconnect for an identity with no matching live connection is a
/// no-op: the table is unchanged and no close-sentinel goes out.
pub proof fn lemma_disconnect_noop(t: Seq<Option<Connection>>, id: ID)
    requires
        forall|i: int| live(t, i) ==> (#[trigger] t[i])->Some_0.id != id,
    ensures
        disconnect_table(t, id) == t,
        matching_indices(t, id) == Seq::<int>::empty(),
{
    lemma_matching_empty(t, id);
    assert forall|i: int| 0 <= i < t.len() implies #[trigger] disconnect_table(t, id)[i] == t[i] by {
        if t[i] is Some {
            assert(live(t, i));
        }
    }
    assert(disconnect_table(t, id) =~= t);
}

/// The one source the dispatcher's fair multi-wait woke up on, and what it
/// yielded: a response from the application, a newly accepted stream from
/// the listener, or one message from a live connection's inbound mailbox
/// (`None` being the close-sentinel its reader sends on peer close).
pub enum SelectEvent {
    FromMain(Response),
    FromListener,
    FromClient(usize, Option<String>),
}

/// Turn the one event the multi-wait yielded into the response to apply
/// to the table, and the command to forward to the application right away,
/// if any.
///
/// A newly accepted stream becomes a `NewConnection` carrying a fresh,
/// still-unassigned record; text from a live connection is forwarded as
/// `PlayerString` under that connection's identity, with nothing to apply;
/// its close-sentinel becomes a `Disconnect` of that identity.
pub fn doSelect(event: SelectEvent, connections: &Vec<Option<Connection>>) -> (r: (
    Response,
    Option<Command>,
))
    requires
        event matches SelectEvent::FromClient(slot, _) ==> live(connections@, slot as int),
    ensures
        match event {
            SelectEvent::FromMain(resp) => r.0 == resp && r.1 is None,
            SelectEvent::FromListener => {
                &&& r.0 matches Response::NewConnection(c) && c.id is Unassigned
                &&& r.1 is None
            },
            SelectEvent::FromClient(slot, msg) => match msg {
                Some(s) => {
                    &&& r.0 is Nothing
                    &&& r.1 matches Some(cmd) && cmd matches Command::PlayerString(pid, ps) && pid
                        == connections@[slot as int]->Some_0.id && ps@ == s@
                },
                None => {
                    &&& r.0 matches Response::Disconnect(pid) && pid == connections@[
                        slot as int
                    ]->Some_0.id
                    &&& r.1 is None
                },
            },
        },
{
    match event {
        SelectEvent::FromMain(resp) => (resp, None),
        SelectEvent::FromListener => (Response::NewConnection(Connection::new()), None),
        SelectEvent::FromClient(slot, msg) => {
            let id = match connections[slot] {
                Some(c) => c.id,
                None => {
                    assert(false);
                    ID::Unassigned
                }
            };
            match msg {
                Some(s) => (Response::Nothing, Some(Command::PlayerString(id, s))),
                None => (Response::Disconnect(id), None),
            }
        }
    }
}

/// How an I/O call ended, as the actors classify it: a graceful peer close
/// (end of stream), or anything else.
#[derive(Clone, Copy, PartialEq, Eq, Structural, Debug)]
pub enum IoErrorKind {
    EndOfFile,
    Other,
}

/// Classify an I/O outcome: success keeps its value, an error whose kind
/// the caller listed as recoverable becomes `None`. Any other error is
/// fatal by design (the process aborts, no retry), so it is excluded up
/// front: callers test the kind before calling.
pub fn checkIoResult<T>(result: Result<T, IoErrorKind>, kinds: &Vec<IoErrorKind>) -> (r: Option<T>)
    requires
        result matches Err(e) ==> kinds@.contains(e),
    ensures
        result matches Ok(x) ==> r == Some(x),
        result matches Err(_) ==> r is None,
{
    match result {
        Ok(x) => Some(x),
        Err(e) => {
            let mut j: usize = 0;
            while j < kinds.len()
                invariant
                    j <= kinds@.len(),
                    result matches Err(x) && x == e,
                    kinds@.contains(e),
                    forall|x: int| 0 <= x < j ==> #[trigger] kinds@[x] != e,
                decreases kinds@.len() - j,
            {
                if kinds[j] == e {
                    return None;
                }
                j = j + 1;
            }
            proof {
                let k = choose|k: int| 0 <= k < kinds@.len() && kinds@[k] == e;
                assert(kinds@[k] != e);
            }
            None
        }
    }
}

/// The reply a received command demands: every option negotiation is
/// refused (`Dont` answers `Will`, `Wont` answers `Do`); everything else
/// is observational only.
pub open spec fn reply_for(c: telnet::Command) -> Option<telnet::Command> {
    match c {
        telnet::Command::Will(option) => Some(telnet::Command::Dont(option)),
        telnet::Command::Do(option) => Some(telnet::Command::Wont(option)),
        _ => None,
    }
}

/// The replies a whole command sequence demands, in order.
pub open spec fn replies_for(cs: Seq<telnet::Command>) -> Seq<telnet::Command>
    decreases cs.len(),
{
    if cs.len() == 0 {
        Seq::empty()
    } else {
        replies_for(cs.drop_last()) + match reply_for(cs.last()) {
            Some(rep) => seq![rep],
            None => Seq::empty(),
        }
    }
}

/// Whether any command of the sequence is `Malformed`.
pub open spec fn has_malformed(cs: Seq<telnet::Command>) -> bool {
    exists|k: int| 0 <= k < cs.len() && #[trigger] cs[k] is Malformed
}

proof fn lemma_replies_for_step(cs: Seq<telnet::Command>, i: int)
    requires
        0 <= i < cs.len(),
    ensures
        replies_for(cs.subrange(0, i + 1)) == replies_for(cs.subrange(0, i)) + match reply_for(
            cs[i],
        ) {
            Some(rep) => seq![rep],
            None => Seq::<telnet::Command>::empty(),
        },
{
    let p = cs.subrange(0, i + 1);
    assert(p.drop_last() =~= cs.subrange(0, i));
    assert(p.last() == cs[i]);
}

/// The reader actor's reaction to the commands one parse pass found:
/// the replies to write back, in order, and whether to close the
/// connection. Every negotiation is refused; a `Malformed` command stops
/// the scan and closes (replies found before it are still written).
pub fn handleTelnetCommands(commands: &Vec<telnet::Command>) -> (r: (Vec<telnet::Command>, bool))
    ensures
        !has_malformed(commands@) ==> r.0@ == replies_for(commands@) && r.1 == false,
        has_malformed(commands@) ==> r.1 == true && exists|m: int|
            0 <= m < commands@.len() && #[trigger] commands@[m] is Malformed && (forall|j: int|
                0 <= j < m ==> !(#[trigger] commands@[j] is Malformed)) && r.0@ == replies_for(
                commands@.subrange(0, m),
            ),
{
    let ghost cs = commands@;
    let mut out: Vec<telnet::Command> = Vec::new();
    let mut i: usize = 0;
    proof {
        assert(cs.subrange(0, 0) =~= Seq::<telnet::Command>::empty());
    }
    while i < commands.len()
        invariant
            i <= cs.len(),
            commands@ == cs,
            forall|j: int| 0 <= j < i ==> !(#[trigger] cs[j] is Malformed),
            out@ == replies_for(cs.subrange(0, i as int)),
        decreases cs.len() - i,
    {
        proof {
            lemma_replies_for_step(cs, i as int);
        }
        let c = commands[i];
        match c {
            telnet::Command::Will(option) => {
                out.push(telnet::Command::Dont(option));
                assert(out@ =~= replies_for(cs.subrange(0, i as int)) + seq![
                    telnet::Command::Dont(option),
                ]);
            }
            telnet::Command::Do(option) => {
                out.push(telnet::Command::Wont(option));
                assert(out@ =~= replies_for(cs.subrange(0, i as int)) + seq![
                    telnet::Command::Wont(option),
                ]);
            }
            telnet::Command::Malformed => {
                assert(0 <= i < cs.len() && cs[i as int] is Malformed);
                return (out, true);
            }
            _ => {
                assert(out@ =~= replies_for(cs.subrange(0, i as int))
                    + Seq::<telnet::Command>::empty());
            }
        }
        i = i + 1;
    }
    proof {
        assert(cs.subrange(0, cs.len() as int) =~= cs);
    }
    (out, false)
}

/// Apply one application response to the connection table.
///
/// Returns the command to forward to the application, if any, and the
/// outbound deliveries the I/O layer must perform: a text message per
/// addressed live connection, and a close-sentinel per cleared slot.
///
/// - `ShutDown` clears every slot, closes every live connection, and asks
///   that exactly one shutdown-acknowledged command be forwarded.
/// - `NewConnection` stores the record in the lowest currently-free slot,
///   or appends a new slot when none is free, giving it the identity of
///   that very slot.
/// - `Disconnect(id)` clears the slot whose live record holds exactly
///   `id`, a no-op when none does.
/// - `BroadCast` addresses every live connection; `MultiCast` every live
///   connection whose identity is in the given list, in list order,
///   silently ignoring identities that are not live; `UniCast` the single
///   matching live connection, if any.
/// - `Nothing` does nothing.
pub fn handleResponse(response: Response, connections: &mut Vec<Option<Connection>>) -> (r: (
    Option<Command>,
    Vec<Outbound>,
))
    requires
        table_wf(old(connections)@),
    ensures
        table_wf(final(connections)@),
        match response {
            Response::ShutDown => {
                &&& final(connections)@.len() == old(connections)@.len()
                &&& forall|i: int|
                    0 <= i < final(connections)@.len() ==> #[trigger] final(connections)@[i] is None
                &&& r.0 == Some(Command::ShutDownComplete)
                &&& closes_match(r.1@, live_indices(old(connections)@))
            },
            Response::NewConnection(_) => {
                let f = lowest_free(old(connections)@);
                &&& (f < old(connections)@.len() ==> final(connections)@ == old(
                    connections,
                )@.update(f, Some(Connection { id: ID::Unconnected(f as usize) })))
                &&& (f == old(connections)@.len() ==> final(connections)@ == old(
                    connections,
                )@.push(Some(Connection { id: ID::Unconnected(f as usize) })))
                &&& r.0 is None
                &&& r.1@.len() == 0
            },
            Response::Disconnect(id) => {
                &&& final(connections)@ == disconnect_table(old(connections)@, id)
                &&& r.0 is None
                &&& closes_match(r.1@, matching_indices(old(connections)@, id))
            },
            Response::BroadCast(text) => {
                &&& final(connections)@ == old(connections)@
                &&& r.0 is None
                &&& deliveries_match(r.1@, live_indices(old(connections)@), text@)
            },
            Response::MultiCast(ids, text) => {
                &&& final(connections)@ == old(connections)@
                &&& r.0 is None
                &&& deliveries_match(r.1@, multicast_targets(old(connections)@, ids@), text@)
            },
            Response::UniCast(id, text) => {
                &&& final(connections)@ == old(connections)@
                &&& r.0 is None
                &&& deliveries_match(r.1@, matching_indices(old(connections)@, id), text@)
            },
            Response::Nothing => {
                &&& final(connections)@ == old(connections)@
                &&& r.0 is None
                &&& r.1@.len() == 0
            },
        },
{
    let ghost t0 = old(connections)@;
    match response {
        Response::ShutDown => {
            let mut out: Vec<Outbound> = Vec::new();
            let n = connections.len();
            let mut i: usize = 0;
            proof {
                assert(t0.subrange(0, 0) =~= Seq::<Option<Connection>>::empty());
            }
            while i < n
                invariant
                    i <= n,
                    n == t0.len(),
                    connections@.len() == n,
                    forall|j: int| 0 <= j < i ==> #[trigger] connections@[j] is None,
                    forall|j: int| i <= j < n ==> #[trigger] connections@[j] == t0[j],
                    closes_match(out@, live_indices(t0.subrange(0, i as int))),
                decreases n - i,
            {
                proof {
                    lemma_live_indices_step(t0, i as int);
                }
                let ghost out_before = out@;
                if connections[i].is_some() {
                    out.push(Outbound::Close(i));
                    assert(closes_match(
                        out@,
                        live_indices(t0.subrange(0, i as int)) + seq![i as int],
                    ));
                }
                connections.set(i, None);
                i = i + 1;
            }
            proof {
                assert(t0.subrange(0, n as int) =~= t0);
            }
            (Some(Command::ShutDownComplete), out)
        }
        Response::NewConnection(_) => {
            let mut i: usize = 0;
            while i < connections.len() && connections[i].is_some()
                invariant
                    i <= connections@.len(),
                    connections@ == t0,
                    forall|j: int| 0 <= j < i ==> #[trigger] connections@[j] is Some,
                decreases connections@.len() - i,
            {
                i = i + 1;
            }
            proof {
                lemma_lowest_free_is_lowest(t0);
                assert(lowest_free(t0) == i as int);
            }
            if i < connections.len() {
                connections.set(i, Some(Connection { id: ID::Unconnected(i) }));
            } else {
                connections.push(Some(Connection { id: ID::Unconnected(i) }));
            }
            (None, Vec::new())
        }
        Response::Disconnect(id) => {
            let mut out: Vec<Outbound> = Vec::new();
            let n = connections.len();
            let mut i: usize = 0;
            proof {
                assert(t0.subrange(0, 0) =~= Seq::<Option<Connection>>::empty());
            }
            while i < n
                invariant
                    i <= n,
                    n == t0.len(),
                    connections@.len() == n,
                    forall|j: int|
                        0 <= j < i ==> #[trigger] connections@[j] == disconnect_table(t0, id)[j],
                    forall|j: int| i <= j < n ==> #[trigger] connections@[j] == t0[j],
                    closes_match(out@, matching_indices(t0.subrange(0, i as int), id)),
                decreases n - i,
            {
                proof {
                    lemma_matching_indices_step(t0, id, i as int);
                }
                let here = connections[i];
                let matched = match here {
                    Some(c) => c.id == id,
                    None => false,
                };
                if matched {
                    connections.set(i, None);
                    out.push(Outbound::Close(i));
                    assert(closes_match(
                        out@,
                        matching_indices(t0.subrange(0, i as int), id) + seq![i as int],
                    ));
                }
                i = i + 1;
            }
            proof {
                assert(t0.subrange(0, n as int) =~= t0);
                assert(connections@ =~= disconnect_table(t0, id));
            }
            (None, out)
        }
        Response::BroadCast(text) => {
            let mut out: Vec<Outbound> = Vec::new();
            let n = connections.len();
            let mut i: usize = 0;
            proof {
                assert(t0.subrange(0, 0) =~= Seq::<Option<Connection>>::empty());
            }
            while i < n
                invariant
                    i <= n,
                    n == t0.len(),
                    connections@ == t0,
                    deliveries_match(out@, live_indices(t0.subrange(0, i as int)), text@),
                decreases n - i,
            {
                proof {
                    lemma_live_indices_step(t0, i as int);
                }
                if connections[i].is_some() {
                    out.push(Outbound::Deliver(i, text.clone()));
                    assert(deliveries_match(
                        out@,
                        live_indices(t0.subrange(0, i as int)) + seq![i as int],
                        text@,
                    ));
                }
                i = i + 1;
            }
            proof {
                assert(t0.subrange(0, n as int) =~= t0);
            }
            (None, out)
        }
        Response::MultiCast(ids, text) => {
            let mut out: Vec<Outbound> = Vec::new();
            let n = connections.len();
            let m = ids.len();
            let mut k: usize = 0;
            proof {
                assert(ids@.subrange(0, 0) =~= Seq::<ID>::empty());
            }
            while k < m
                invariant
                    k <= m,
                    m == ids@.len(),
                    n == t0.len(),
                    connections@ == t0,
                    deliveries_match(out@, multicast_targets(t0, ids@.subrange(0, k as int)), text@),
                decreases m - k,
            {
                let target = ids[k];
                let mut i: usize = 0;
                proof {
                    assert(t0.subrange(0, 0) =~= Seq::<Option<Connection>>::empty());
                }
                while i < n
                    invariant
                        i <= n,
                        k < m,
                        m == ids@.len(),
                        n == t0.len(),
                        connections@ == t0,
                        target == ids@[k as int],
                        deliveries_match(
                            out@,
                            multicast_targets(t0, ids@.subrange(0, k as int)) + matching_indices(
                                t0.subrange(0, i as int),
                                target,
                            ),
                            text@,
                        ),
                    decreases n - i,
                {
                    proof {
                        lemma_matching_indices_step(t0, target, i as int);
                    }
                    let here = connections[i];
                    let matched = match here {
                        Some(c) => c.id == target,
                        None => false,
                    };
                    if matched {
                        out.push(Outbound::Deliver(i, text.clone()));
                        assert(deliveries_match(
                            out@,
                            multicast_targets(t0, ids@.subrange(0, k as int)) + (matching_indices(
                                t0.subrange(0, i as int),
                                target,
                            ) + seq![i as int]),
                            text@,
                        ));
                    }
                    i = i + 1;
                }
                proof {
                    assert(t0.subrange(0, n as int) =~= t0);
                    lemma_multicast_targets_step(t0, ids@, k as int);
                }
                k = k + 1;
            }
            proof {
                assert(ids@.subrange(0, m as int) =~= ids@);
            }
            (None, out)
        }
        Response::UniCast(id, text) => {
            let mut out: Vec<Outbound> = Vec::new();
            let n = connections.len();
            let mut i: usize = 0;
            proof {
                assert(t0.subrange(0, 0) =~= Seq::<Option<Connection>>::empty());
            }
            while i < n
                invariant
                    i <= n,
                    n == t0.len(),
                    connections@ == t0,
                    deliveries_match(out@, matching_indices(t0.subrange(0, i as int), id), text@),
                decreases n - i,
            {
                proof {
                    lemma_matching_indices_step(t0, id, i as int);
                }
                let here = connections[i];
                let matched = match here {
                    Some(c) => c.id == id,
                    None => false,
                };
                if matched {
                    out.push(Outbound::Deliver(i, text.clone()));
                    assert(deliveries_match(
                        out@,
                        matching_indices(t0.subrange(0, i as int), id) + seq![i as int],
                        text@,
                    ));
                }
                i = i + 1;
            }
            proof {
                assert(t0.subrange(0, n as int) =~= t0);
            }
            (None, out)
        }
        Response::Nothing => (None, Vec::new()),
    }
}

} // verus!
