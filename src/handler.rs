use vstd::prelude::*;

verus! {

use crate::framer::{decoded, frames, has_newline, remainder, LineFramer};
use crate::protocol::{
    ack_line, ack_message, broadcast_message, login_line, login_message, message_line,
};
use crate::registry::ClientId;

/// How many published lines the broadcast medium keeps for a connection
/// that has not consumed them yet; older ones are dropped first.
pub const BROADCAST_CAPACITY: usize = 1000;

/// Where a connection stands in its life.
#[derive(Clone, Copy, Debug, PartialEq, Eq, Structural)]
pub enum Phase {
    /// Accepted, not yet greeted.
    Connecting,
    /// Greeted with its identifier.
    LoggedIn,
    /// Exchanging lines.
    Active,
    /// Finished for good.
    Closed,
}

/// Something that happened to a connection.
#[derive(Debug, PartialEq, Eq)]
pub enum Event {
    /// The connection was accepted and is ready to be greeted.
    Opened,
    /// Bytes arrived from the peer.
    Received(Vec<u8>),
    /// A read returned no bytes: the peer closed its side.
    PeerClosed,
    /// Reading from the peer failed.
    ReadFailed,
    /// Writing to the peer failed.
    WriteFailed,
    /// The broadcast medium handed out a line, with its sender.
    Delivered(ClientId, String),
    /// The broadcast medium dropped this many lines that this connection
    /// had not consumed yet.
    Lagged(u64),
    /// The broadcast medium is gone.
    MediumClosed,
}

/// Something the caller must do for a connection.
#[derive(Debug, PartialEq, Eq)]
pub enum Action {
    /// Write this line to the peer.
    Send(String),
    /// Publish this text, from this connection, to the broadcast medium.
    Publish(String),
    /// Report that this many lines were lost for this connection.
    ReportLag(u64),
    /// Release the connection and unregister its identifier.
    Close,
}

pub enum ActionView {
    Send(Seq<char>),
    Publish(Seq<char>),
    ReportLag(u64),
    Close,
}

impl View for Action {
    type V = ActionView;

    open spec fn view(&self) -> ActionView {
        match self {
            Action::Send(s) => ActionView::Send(s@),
            Action::Publish(s) => ActionView::Publish(s@),
            Action::ReportLag(n) => ActionView::ReportLag(*n),
            Action::Close => ActionView::Close,
        }
    }
}

/// The views of a list of actions.
pub open spec fn action_views(acts: Seq<Action>) -> Seq<ActionView> {
    acts.map_values(|a: Action| a@)
}

pub struct HandlerView {
    pub id: ClientId,
    pub phase: Phase,
    /// The bytes received after the last complete line.
    pub pending: Seq<u8>,
}

/// A connection that is greeted and not closed.
pub open spec fn is_live(p: Phase) -> bool {
    p == Phase::LoggedIn || p == Phase::Active
}

/// The answer to a run of received lines: each is acknowledged to its
/// sender and then published.
pub open spec fn replies(lines: Seq<Seq<char>>) -> Seq<ActionView>
    decreases lines.len(),
{
    if lines.len() == 0 {
        Seq::empty()
    } else {
        replies(lines.drop_last()) + seq![
            ActionView::Send(ack_line()),
            ActionView::Publish(lines.last()),
        ]
    }
}

/// `h` with its phase replaced.
pub open spec fn with_phase(h: HandlerView, phase: Phase) -> HandlerView {
    HandlerView { id: h.id, phase, pending: h.pending }
}

/// What a connection does on an event: its next state and its actions.
pub open spec fn transition(h: HandlerView, ev: Event) -> (HandlerView, Seq<ActionView>) {
    match h.phase {
        Phase::Connecting => match ev {
            Event::Opened => (
                with_phase(h, Phase::LoggedIn),
                seq![ActionView::Send(login_line(h.id as nat))],
            ),
            _ => (h, Seq::empty()),
        },
        Phase::Closed => (h, Seq::empty()),
        _ => match ev {
            Event::Opened => (h, Seq::empty()),
            Event::Received(bytes) => (
                HandlerView {
                    id: h.id,
                    phase: Phase::Active,
                    pending: remainder(h.pending + bytes@),
                },
                replies(decoded(frames(h.pending + bytes@))),
            ),
            Event::Delivered(sender, text) => (
                with_phase(h, Phase::Active),
                if sender != h.id {
                    seq![ActionView::Send(message_line(sender as nat, text@))]
                } else {
                    Seq::empty()
                },
            ),
            Event::Lagged(n) => (with_phase(h, Phase::Active), seq![ActionView::ReportLag(n)]),
            _ => (with_phase(h, Phase::Closed), seq![ActionView::Close]),
        },
    }
}

/// The decisions of one connection: it greets the peer, acknowledges and
/// publishes each line the peer sends, forwards what other connections
/// publish, and closes on the first failure.
pub struct ConnectionHandler {
    id: ClientId,
    phase: Phase,
    framer: LineFramer,
}

impl View for ConnectionHandler {
    type V = HandlerView;

    closed spec fn view(&self) -> HandlerView {
        HandlerView { id: self.id, phase: self.phase, pending: self.framer@ }
    }
}

impl ConnectionHandler {
    pub open spec fn wf(&self) -> bool {
        !has_newline(self@.pending)
    }

    /// A connection with identifier `id`, not yet greeted.
    pub fn new(id: ClientId) -> (r: Self)
        ensures
            r.wf(),
            r@.id == id,
            r@.phase == Phase::Connecting,
            r@.pending == Seq::<u8>::empty(),
    {
        ConnectionHandler { id, phase: Phase::Connecting, framer: LineFramer::new() }
    }

    pub fn id(&self) -> (r: ClientId)
        ensures
            r == self@.id,
    {
        self.id
    }

    pub fn phase(&self) -> (r: Phase)
        ensures
            r == self@.phase,
    {
        self.phase
    }

    /// Whether the connection is finished.
    pub fn is_closed(&self) -> (r: bool)
        ensures
            r == (self@.phase == Phase::Closed),
    {
        self.phase == Phase::Closed
    }

    /// The line that forwards `text` from `sender` to this connection;
    /// nothing when `sender` is this connection itself.
    pub fn forward(&self, sender: ClientId, text: &str) -> (r: Option<String>)
        ensures
            match r {
                Some(line) => sender != self@.id && line@ == message_line(sender as nat, text@),
                None => sender == self@.id,
            },
    {
        if sender != self.id {
            Some(broadcast_message(sender, text))
        } else {
            None
        }
    }

    /// Takes one event and returns what must be done, in order.
    pub fn step(&mut self, ev: Event) -> (acts: Vec<Action>)
        requires
            old(self).wf(),
        ensures
            final(self).wf(),
            (final(self)@, action_views(acts@)) == transition(old(self)@, ev),
    {
        proof {
            assert(self.framer@ == self@.pending);
        }
        let mut acts: Vec<Action> = Vec::new();
        match self.phase {
            Phase::Connecting => {
                if let Event::Opened = ev {
                    self.phase = Phase::LoggedIn;
                    acts.push(Action::Send(login_message(self.id)));
                }
            },
            Phase::Closed => {},
            _ => {
                match ev {
                    Event::Opened => {},
                    Event::Received(bytes) => {
                        self.phase = Phase::Active;
                        let lines = self.framer.feed(bytes.as_slice());
                        acts = acknowledge_and_publish(&lines);
                    },
                    Event::Delivered(sender, text) => {
                        self.phase = Phase::Active;
                        if let Some(line) = self.forward(sender, text.as_str()) {
                            acts.push(Action::Send(line));
                        }
                    },
                    Event::Lagged(n) => {
                        self.phase = Phase::Active;
                        acts.push(Action::ReportLag(n));
                    },
                    _ => {
                        self.phase = Phase::Closed;
                        acts.push(Action::Close);
                    },
                }
            },
        }
        proof {
            assert(action_views(acts@) =~= transition(old(self)@, ev).1);
        }
        acts
    }
}

/// For each line, an acknowledgement and then the line to publish.
fn acknowledge_and_publish(lines: &Vec<String>) -> (acts: Vec<Action>)
    ensures
        action_views(acts@) == replies(lines@.map_values(|s: String| s@)),
{
    let ghost texts = lines@.map_values(|s: String| s@);
    let mut acts: Vec<Action> = Vec::new();
    let mut i: usize = 0;
    while i < lines.len()
        invariant
            i <= lines@.len(),
            texts == lines@.map_values(|s: String| s@),
            action_views(acts@) == replies(texts.subrange(0, i as int)),
        decreases lines@.len() - i,
    {
        proof {
            assert(texts.subrange(0, i + 1).drop_last() =~= texts.subrange(0, i as int));
        }
        let ghost before = acts@;
        acts.push(Action::Send(ack_message()));
        acts.push(Action::Publish(lines[i].clone()));
        proof {
            assert(action_views(acts@) =~= action_views(before) + seq![
                ActionView::Send(ack_line()),
                ActionView::Publish(texts[i as int]),
            ]);
        }
        i = i + 1;
    }
    proof {
        assert(texts.subrange(0, lines@.len() as int) =~= texts);
    }
    acts
}

/// Each received line is answered by exactly one acknowledgement, followed
/// by exactly one publication of that line, and nothing else.
pub proof fn lemma_one_ack_per_line(lines: Seq<Seq<char>>)
    ensures
        replies(lines).len() == 2 * lines.len(),
        forall|i: int|
            0 <= i < lines.len() ==> #[trigger] replies(lines)[2 * i] == ActionView::Send(
                ack_line(),
            ) && replies(lines)[2 * i + 1] == ActionView::Publish(lines[i]),
    decreases lines.len(),
{
    if lines.len() > 0 {
        let p = lines.drop_last();
        lemma_one_ack_per_line(p);
        assert forall|i: int| 0 <= i < lines.len() implies #[trigger] replies(lines)[2 * i]
            == ActionView::Send(ack_line()) && replies(lines)[2 * i + 1] == ActionView::Publish(
            lines[i],
        ) by {
            if i < p.len() {
                assert(replies(lines)[2 * i] == replies(p)[2 * i]);
                assert(replies(lines)[2 * i + 1] == replies(p)[2 * i + 1]);
                assert(p[i] == lines[i]);
            }
        }
    }
}

/// A connection never forwards a line that it published itself, whatever
/// state it is in.
pub proof fn lemma_no_echo(h: HandlerView, text: String)
    ensures
        transition(h, Event::Delivered(h.id, text)).1 == Seq::<ActionView>::empty(),
{
}

} // verus!
