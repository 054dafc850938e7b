use vstd::prelude::*;

verus! {

use crate::framer::{decoded, frames, has_newline};
use crate::handler::{
    action_views, is_live, lemma_one_ack_per_line, transition, Action, ActionView, ConnectionHandler, Event, HandlerView, Phase,
};
use crate::protocol::{ack_line, broadcast_message, lemma_message_is_not_ack, login_line, message_line};
use crate::registry::{ClientId, ClientRegistry};

/// A line to write to one connection.
#[derive(Debug, PartialEq, Eq)]
pub struct Outgoing {
    pub to: ClientId,
    pub line: String,
}

impl View for Outgoing {
    type V = (ClientId, Seq<char>);

    open spec fn view(&self) -> (ClientId, Seq<char>) {
        (self.to, self.line@)
    }
}

/// The views of a list of outgoing lines.
pub open spec fn outgoing_views(out: Seq<Outgoing>) -> Seq<(ClientId, Seq<char>)> {
    out.map_values(|o: Outgoing| o@)
}

/// `line` addressed to each of `ids` but `sender`, in the order of `ids`.
pub open spec fn fan_out(ids: Seq<ClientId>, sender: ClientId, line: Seq<char>) -> Seq<
    (ClientId, Seq<char>),
>
    decreases ids.len(),
{
    if ids.len() == 0 {
        Seq::empty()
    } else {
        let earlier = fan_out(ids.drop_last(), sender, line);
        if ids.last() != sender {
            earlier.push((ids.last(), line))
        } else {
            earlier
        }
    }
}

/// How many of `out` are addressed to `to`.
pub open spec fn count_to(out: Seq<(ClientId, Seq<char>)>, to: ClientId) -> nat
    decreases out.len(),
{
    if out.len() == 0 {
        0
    } else {
        count_to(out.drop_last(), to) + if out.last().0 == to {
            1nat
        } else {
            0nat
        }
    }
}

/// The identifiers of a list of connections.
pub open spec fn ids(conns: Seq<HandlerView>) -> Seq<ClientId> {
    conns.map_values(|c: HandlerView| c.id)
}

pub struct HubView {
    /// The identifier that the next accepted connection gets.
    pub next: nat,
    /// The connected clients, in the order they were accepted.
    pub connections: Seq<HandlerView>,
}

impl HubView {
    pub open spec fn wf(self) -> bool {
        &&& self.next <= usize::MAX
        &&& ids(self.connections).no_duplicates()
        &&& forall|i: int|
            0 <= i < self.connections.len() ==> {
                &&& (#[trigger] self.connections[i]).id < self.next
                &&& is_live(self.connections[i].phase)
                &&& !has_newline(self.connections[i].pending)
            }
    }

    /// Whether `id` is connected.
    pub open spec fn is_connected(self, id: ClientId) -> bool {
        ids(self.connections).contains(id)
    }
}

/// The clients of a server that polls every socket in turn: it greets new
/// connections, answers what each one sends, and hands each published line
/// to every other connection at once.
pub struct PollingHub {
    registry: ClientRegistry,
    handlers: Vec<ConnectionHandler>,
}

impl View for PollingHub {
    type V = HubView;

    closed spec fn view(&self) -> HubView {
        HubView {
            next: self.registry@.next,
            connections: self.handlers@.map_values(|h: ConnectionHandler| h@),
        }
    }
}

impl PollingHub {
    pub open spec fn wf(&self) -> bool {
        self@.wf() && self.inner_wf()
    }

    pub closed spec fn inner_wf(&self) -> bool {
        &&& self.registry.wf()
        &&& self.registry@.active == ids(self@.connections)
        &&& forall|i: int| 0 <= i < self.handlers@.len() ==> (#[trigger] self.handlers@[i]).wf()
    }

    pub fn new() -> (r: Self)
        ensures
            r.wf(),
            r@.next == 0,
            r@.connections == Seq::<HandlerView>::empty(),
    {
        let r = PollingHub { registry: ClientRegistry::new(), handlers: Vec::new() };
        proof {
            assert(ids(r@.connections) =~= Seq::<ClientId>::empty());
        }
        r
    }

    /// Whether no identifier is left for another connection.
    pub fn is_exhausted(&self) -> (r: bool)
        ensures
            r == (self@.next == usize::MAX),
    {
        self.registry.is_exhausted()
    }

    /// The number of connected clients.
    pub fn len(&self) -> (r: usize)
        ensures
            r == self@.connections.len(),
    {
        self.handlers.len()
    }

    /// Accepts a new connection: it gets the next identifier and is greeted.
    pub fn accept(&mut self) -> (out: Outgoing)
        requires
            old(self).wf(),
            old(self)@.next < usize::MAX,
        ensures
            final(self).wf(),
            out.to == old(self)@.next,
            out.line@ == login_line(out.to as nat),
            final(self)@.next == old(self)@.next + 1,
            final(self)@.connections == old(self)@.connections.push(
                HandlerView { id: out.to, phase: Phase::LoggedIn, pending: Seq::empty() },
            ),
    {
        let id = self.registry.register();
        let mut handler = ConnectionHandler::new(id);
        let ghost fresh = handler@;
        let mut acts = handler.step(Event::Opened);
        proof {
            let expected = seq![ActionView::Send(login_line(id as nat))];
            assert(transition(fresh, Event::Opened).1 == expected);
            assert(action_views(acts@) == expected);
            assert(acts@.len() == 1);
            assert(action_views(acts@)[0] == acts@[0]@);
        }
        let ghost conns = self@.connections;
        self.handlers.push(handler);
        proof {
            assert(self@.connections =~= conns.push(handler@));
            assert(ids(self@.connections) =~= ids(conns).push(id));
        }
        let line = match acts.pop() {
            Some(Action::Send(line)) => line,
            _ => {
                proof {
                    assert(false);
                }
                String::new()
            },
        };
        Outgoing { to: id, line }
    }

    /// Takes the bytes that the connection `id` sent: its lines are
    /// acknowledged to it and returned for publication. Nothing happens when
    /// `id` is not connected.
    pub fn receive(&mut self, id: ClientId, bytes: Vec<u8>) -> (r: Option<Vec<Action>>)
        requires
            old(self).wf(),
        ensures
            final(self).wf(),
            final(self)@.next == old(self)@.next,
            match r {
                Some(acts) => exists|i: int|
                    0 <= i < old(self)@.connections.len() && old(self)@.connections[i].id == id
                        && #[trigger] transition(old(self)@.connections[i], Event::Received(bytes))
                        == (final(self)@.connections[i], action_views(acts@))
                        && final(self)@.connections == old(self)@.connections.update(
                        i,
                        final(self)@.connections[i],
                    ),
                None => !old(self)@.is_connected(id) && final(self)@ == old(self)@,
            },
    {
        match self.index_of(id) {
            Some(i) => {
                let ghost conns = self@.connections;
                let ghost ev = Event::Received(bytes);
                let acts = self.handlers[i].step(Event::Received(bytes));
                proof {
                    assert(self@.connections =~= conns.update(i as int, self.handlers@[i as int]@));
                    assert(ids(self@.connections) =~= ids(conns));
                    assert(transition(conns[i as int], ev) == (
                        self@.connections[i as int],
                        action_views(acts@),
                    ));
                    assert forall|k: int| 0 <= k < self.handlers@.len() implies (
                    #[trigger] self.handlers@[k]).wf() by {
                        if k != i {
                            assert(self.handlers@[k] == old(self).handlers@[k]);
                        }
                    }
                }
                Some(acts)
            },
            None => None,
        }
    }

    /// Forgets the connection `id`; says whether it was connected. Its
    /// identifier is never handed out again.
    pub fn disconnect(&mut self, id: ClientId) -> (r: bool)
        requires
            old(self).wf(),
        ensures
            final(self).wf(),
            final(self)@.next == old(self)@.next,
            r == old(self)@.is_connected(id),
            r ==> exists|i: int|
                0 <= i < old(self)@.connections.len() && old(self)@.connections[i].id == id
                    && final(self)@.connections == #[trigger] old(self)@.connections.remove(i),
            !r ==> final(self)@ == old(self)@,
    {
        let ghost conns = self@.connections;
        match self.registry.unregister(id) {
            Some(i) => {
                self.handlers.remove(i);
                proof {
                    assert(self@.connections =~= conns.remove(i as int));
                    assert(ids(self@.connections) =~= ids(conns).remove(i as int));
                    assert(ids(conns)[i as int] == id);
                    assert forall|k: int| 0 <= k < self.handlers@.len() implies (
                    #[trigger] self.handlers@[k]).wf() by {
                        let ok = if k < i { k } else { k + 1 };
                        assert(self.handlers@[k] == old(self).handlers@[ok]);
                    }
                    assert forall|k: int| 0 <= k < self@.connections.len() implies {
                        &&& (#[trigger] self@.connections[k]).id < self@.next
                        &&& is_live(self@.connections[k].phase)
                        &&& !has_newline(self@.connections[k].pending)
                    } by {
                        let ok = if k < i { k } else { k + 1 };
                        assert(self@.connections[k] == conns[ok]);
                    }
                }
                true
            },
            None => false,
        }
    }

    /// The lines that hand `text`, published by `sender`, to every other
    /// connected client, in the order they were accepted.
    pub fn deliver(&self, sender: ClientId, text: &str) -> (out: Vec<Outgoing>)
        ensures
            outgoing_views(out@) == fan_out(
                ids(self@.connections),
                sender,
                message_line(sender as nat, text@),
            ),
    {
        let ghost all = ids(self@.connections);
        let ghost line = message_line(sender as nat, text@);
        let mut out: Vec<Outgoing> = Vec::new();
        let mut i: usize = 0;
        while i < self.handlers.len()
            invariant
                i <= self.handlers@.len(),
                all == ids(self@.connections),
                line == message_line(sender as nat, text@),
                outgoing_views(out@) == fan_out(all.subrange(0, i as int), sender, line),
            decreases self.handlers@.len() - i,
        {
            proof {
                assert(all.subrange(0, i + 1).drop_last() =~= all.subrange(0, i as int));
                assert(all.subrange(0, i + 1).last() == self.handlers@[i as int]@.id);
            }
            let ghost before = out@;
            let recipient = self.handlers[i].id();
            if let Some(l) = self.handlers[i].forward(sender, text) {
                out.push(Outgoing { to: recipient, line: l });
                proof {
                    assert(outgoing_views(out@) =~= outgoing_views(before).push((recipient, line)));
                }
            }
            i = i + 1;
        }
        proof {
            assert(all.subrange(0, all.len() as int) =~= all);
        }
        out
    }

    /// Where the connection `id` stands among the connected clients.
    fn index_of(&self, id: ClientId) -> (r: Option<usize>)
        ensures
            match r {
                Some(i) => i < self@.connections.len() && self@.connections[i as int].id == id,
                None => !self@.is_connected(id),
            },
    {
        let mut i: usize = 0;
        while i < self.handlers.len()
            invariant
                i <= self.handlers@.len(),
                forall|k: int| 0 <= k < i ==> (#[trigger] self.handlers@[k])@.id != id,
            decreases self.handlers@.len() - i,
        {
            if self.handlers[i].id() == id {
                return Some(i);
            }
            i = i + 1;
        }
        proof {
            if ids(self@.connections).contains(id) {
                let k = choose|k: int|
                    0 <= k < ids(self@.connections).len() && ids(self@.connections)[k] == id;
                assert(self.handlers@[k]@.id == id);
            }
        }
        None
    }
}

proof fn lemma_count_push(out: Seq<(ClientId, Seq<char>)>, e: (ClientId, Seq<char>), to: ClientId)
    ensures
        count_to(out.push(e), to) == count_to(out, to) + if e.0 == to {
            1nat
        } else {
            0nat
        },
{
    assert(out.push(e).drop_last() =~= out);
}

/// Fanning a line out over distinct identifiers addresses it exactly once
/// to each of them but the sender, never to the sender, and to no one else.
pub proof fn lemma_fan_out_counts(ids: Seq<ClientId>, sender: ClientId, line: Seq<char>)
    requires
        ids.no_duplicates(),
    ensures
        forall|b: ClientId|
            #[trigger] count_to(fan_out(ids, sender, line), b) == if ids.contains(b) && b
                != sender {
                1nat
            } else {
                0nat
            },
        forall|k: int|
            0 <= k < fan_out(ids, sender, line).len() ==> (#[trigger] fan_out(
                ids,
                sender,
                line,
            )[k]).1 == line,
    decreases ids.len(),
{
    if ids.len() > 0 {
        let p = ids.drop_last();
        let last = ids.last();
        assert(p.no_duplicates()) by {
            assert forall|i: int, j: int| 0 <= i < p.len() && 0 <= j < p.len() && i != j implies p[i]
                != p[j] by {
                assert(p[i] == ids[i] && p[j] == ids[j]);
            }
        }
        lemma_fan_out_counts(p, sender, line);
        let earlier = fan_out(p, sender, line);
        assert forall|b: ClientId| #[trigger] count_to(fan_out(ids, sender, line), b) == if ids.contains(b)
            && b != sender {
            1nat
        } else {
            0nat
        } by {
            if last != sender {
                lemma_count_push(earlier, (last, line), b);
            }
            assert(ids.contains(b) <==> p.contains(b) || last == b) by {
                if ids.contains(b) {
                    let k = choose|k: int| 0 <= k < ids.len() && ids[k] == b;
                    if k < p.len() {
                        assert(p[k] == b);
                    }
                }
                if p.contains(b) {
                    let k = choose|k: int| 0 <= k < p.len() && p[k] == b;
                    assert(ids[k] == b);
                }
                assert(ids[ids.len() - 1] == last);
            }
            if last == b && p.contains(b) {
                let k = choose|k: int| 0 <= k < p.len() && p[k] == b;
                assert(ids[k] == ids[ids.len() - 1]);
            }
        }
    }
}

/// When a client publishes a line, every other connected client receives
/// exactly one copy of it, the sender receives none, and nobody else is
/// addressed.
pub proof fn lemma_delivered_once_to_each_other(h: HubView, sender: ClientId, text: Seq<char>)
    requires
        h.wf(),
    ensures
        forall|b: ClientId|
            #[trigger] count_to(
                fan_out(ids(h.connections), sender, message_line(sender as nat, text)),
                b,
            ) == if h.is_connected(b) && b != sender {
                1nat
            } else {
                0nat
            },
        count_to(fan_out(ids(h.connections), sender, message_line(sender as nat, text)), sender)
            == 0,
        forall|k: int|
            0 <= k < fan_out(ids(h.connections), sender, message_line(sender as nat, text)).len()
                ==> (#[trigger] fan_out(
                ids(h.connections),
                sender,
                message_line(sender as nat, text),
            )[k]).1 == message_line(sender as nat, text),
{
    lemma_fan_out_counts(ids(h.connections), sender, message_line(sender as nat, text));
}

/// Each line a client sends is acknowledged to it exactly once, however many
/// clients are connected: the answer to its bytes holds, for each line, one
/// acknowledgement followed by the line's publication, and no line that the
/// publication hands to the others reads as an acknowledgement.
pub proof fn lemma_acknowledged_once(h: HubView, i: int, bytes: Vec<u8>)
    requires
        h.wf(),
        0 <= i < h.connections.len(),
    ensures
        ({
            let c = h.connections[i];
            let lines = decoded(frames(c.pending + bytes@));
            let answer = transition(c, Event::Received(bytes)).1;
            &&& answer.len() == 2 * lines.len()
            &&& forall|k: int|
                0 <= k < lines.len() ==> #[trigger] answer[2 * k] == ActionView::Send(ack_line())
                    && answer[2 * k + 1] == ActionView::Publish(lines[k])
            &&& forall|k: int, j: int|
                0 <= k < lines.len() && 0 <= j < fan_out(
                    ids(h.connections),
                    c.id,
                    message_line(c.id as nat, lines[k]),
                ).len() ==> (#[trigger] fan_out(
                    ids(h.connections),
                    c.id,
                    message_line(c.id as nat, lines[k]),
                )[j]).1 != ack_line()
        }),
{
    let c = h.connections[i];
    let lines = decoded(frames(c.pending + bytes@));
    lemma_one_ack_per_line(lines);
    assert forall|k: int, j: int|
        0 <= k < lines.len() && 0 <= j < fan_out(
            ids(h.connections),
            c.id,
            message_line(c.id as nat, lines[k]),
        ).len() implies (#[trigger] fan_out(
        ids(h.connections),
        c.id,
        message_line(c.id as nat, lines[k]),
    )[j]).1 != ack_line() by {
        lemma_fan_out_counts(ids(h.connections), c.id, message_line(c.id as nat, lines[k]));
        lemma_message_is_not_ack(c.id as nat, lines[k]);
    }
}

} // verus!
