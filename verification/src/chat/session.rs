//! Per-connection session: one client's reader activity and broadcaster
//! activity, sharing a private FIFO queue of encoded action payloads.
//!
//! The reader turns inbound frames into queued actions; the broadcaster
//! drains the queue in order, maintains the shared registry on lifecycle
//! actions, and fans every payload out through the registry. Within one
//! session the queue order guarantees Connect first, then the client's
//! messages in arrival order, then Disconnect last.

use crate::chat::action::ActionView;
use crate::chat::action::ChatAction;
use crate::chat::action::decode;
use crate::chat::action::encode;
use crate::chat::action::encode_view;
use crate::chat::action::lemma_parse_canonical;
use crate::chat::action::lemma_round_trip;
use crate::chat::action::parse_view;
use crate::chat::registry::Handle;
use crate::chat::registry::Registry;
use vstd::prelude::*;

verus! {

/// The broadcaster activity's state.
#[derive(Debug, Clone, Copy, PartialEq, Eq, Structural)]
pub enum Phase {
    Starting,
    Relaying,
    Done,
}

/// Server-side state for one connected client.
pub struct Session {
    addr: String,
    user: String,
    queued: Vec<String>,
    cursor: usize,
    closed: bool,
    phase: Phase,
}

impl Session {
    /// This connection's identity: its remote address.
    pub closed spec fn addr_view(self) -> Seq<char> {
        self.addr@
    }

    /// The label stamped on this client's relayed messages.
    pub closed spec fn user_view(self) -> Seq<char> {
        self.user@
    }

    /// Every payload ever enqueued, in order; the queue history.
    pub closed spec fn queued_texts(self) -> Seq<Seq<char>> {
        self.queued.deep_view()
    }

    pub open spec fn queue_len(self) -> nat {
        self.queued_texts().len()
    }

    /// How many queued payloads the broadcaster has already relayed.
    pub closed spec fn cursor_at(self) -> nat {
        self.cursor as nat
    }

    /// Whether the reader activity has terminated (and queued Disconnect).
    pub closed spec fn reader_closed(self) -> bool {
        self.closed
    }

    pub closed spec fn phase_of(self) -> Phase {
        self.phase
    }

    /// Whether a queued payload is still waiting to be relayed.
    pub open spec fn pending(self) -> bool {
        self.cursor_at() < self.queue_len()
    }

    /// The actions this session has produced, in queue order.
    pub open spec fn produced(self) -> Seq<ActionView> {
        Seq::new(self.queue_len() as nat, |i: int| parse_view(self.queued_texts()[i])->Some_0)
    }

    /// Well-formedness: every queued payload is a canonical encoding; the
    /// first is this session's Connect; all following are this user's
    /// messages, except that once the reader has closed the last is this
    /// session's Disconnect.
    pub closed spec fn wf(self) -> bool {
        &&& self.cursor <= self.queued.len()
        &&& forall|i: int|
            0 <= i < self.queued_texts().len() ==> (#[trigger] parse_view(
                self.queued_texts()[i],
            )) is Some
        &&& (self.phase is Starting ==> self.queued.len() == 0 && !self.closed && self.cursor
            == 0)
        &&& (self.phase is Relaying ==> self.queued.len() >= 1)
        &&& (self.queued_texts().len() > 0 ==> self.produced()[0] == ActionView::Connect {
            addr: self.addr@,
        })
        &&& forall|i: int|
            1 <= i < self.queued_texts().len() && !(self.closed && i == self.queued_texts().len()
                - 1) ==> ((#[trigger] self.produced()[i]) matches ActionView::Msg { user, text }
                && user == self.user@)
        &&& (self.closed ==> self.queued_texts().len() >= 2 && self.produced()[
            self.queued_texts().len() - 1] == ActionView::Disconnect { addr: self.addr@ })
        &&& (self.phase is Done ==> self.closed && self.cursor == self.queued.len())
    }

    /// A fresh session for the connection identified by `addr`, labelling
    /// relayed messages with `user`.
    pub fn new(addr: String, user: String) -> (s: Session)
        ensures
            s.wf(),
            s.phase_of() is Starting,
            s.addr_view() == addr@,
            s.user_view() == user@,
            s.queue_len() == 0,
            s.cursor_at() == 0,
            !s.reader_closed(),
    {
        let s = Session {
            addr,
            user,
            queued: Vec::new(),
            cursor: 0,
            closed: false,
            phase: Phase::Starting,
        };
        proof {
            assert(s.queued_texts() =~= Seq::<Seq<char>>::empty());
        }
        s
    }

    /// The broadcaster's startup step: registers this connection's outbound
    /// handle in the shared registry, then queues the Connect action as the
    /// first payload this session will ever relay — strictly before any of
    /// the client's own messages can be queued.
    pub fn start(&mut self, reg: &mut Registry, handle: Handle)
        requires
            old(self).wf(),
            old(self).phase_of() is Starting,
            old(reg).wf(),
            !old(reg).contains_addr(old(self).addr_view()),
        ensures
            final(self).wf(),
            final(self).phase_of() is Relaying,
            final(self).addr_view() == old(self).addr_view(),
            final(self).user_view() == old(self).user_view(),
            !final(self).reader_closed(),
            final(self).cursor_at() == 0,
            final(self).produced() == seq![
                ActionView::Connect { addr: old(self).addr_view() },
            ],
            final(self).queued_texts() == seq![
                encode_view(ActionView::Connect { addr: old(self).addr_view() }),
            ],
            final(reg).wf(),
            final(reg).count() == old(reg).count() + 1,
            final(reg).contains_addr(old(self).addr_view()),
            forall|b: Seq<char>|
                #[trigger] final(reg).contains_addr(b) <==> (b == old(self).addr_view() || old(
                    reg,
                ).contains_addr(b)),
            final(reg).log_of(old(self).addr_view()) == handle@.0,
            final(reg).is_open(old(self).addr_view()) == handle@.1,
            forall|b: Seq<char>|
                old(reg).contains_addr(b) ==> #[trigger] final(reg).log_of(b) == old(reg).log_of(b)
                    && final(reg).is_open(b) == old(reg).is_open(b),
    {
        reg.register(self.addr.clone(), handle);
        let connect = ChatAction::Connect { addr: self.addr.clone() };
        let text = encode(&connect);
        self.queued.push(text);
        self.phase = Phase::Relaying;
        proof {
            lemma_round_trip(ActionView::Connect { addr: self.addr@ });
            assert(self.queued_texts() =~= seq![
                encode_view(ActionView::Connect { addr: self.addr@ }),
            ]);
            assert(self.produced() =~= seq![ActionView::Connect { addr: self.addr@ }]);
        }
    }

    /// The reader activity saw a text frame: queue this client's message,
    /// carrying the body verbatim.
    pub fn reader_text(&mut self, body: String)
        requires
            old(self).wf(),
            old(self).phase_of() is Relaying,
            !old(self).reader_closed(),
        ensures
            final(self).wf(),
            final(self).phase_of() is Relaying,
            final(self).addr_view() == old(self).addr_view(),
            final(self).user_view() == old(self).user_view(),
            !final(self).reader_closed(),
            final(self).cursor_at() == old(self).cursor_at(),
            final(self).queued_texts() == old(self).queued_texts().push(
                encode_view(ActionView::Msg { user: old(self).user_view(), text: body@ }),
            ),
            final(self).produced() == old(self).produced().push(
                ActionView::Msg { user: old(self).user_view(), text: body@ },
            ),
    {
        let msg = ChatAction::Msg { user: self.user.clone(), text: body };
        let text = encode(&msg);
        self.queued.push(text);
        proof {
            let mv = ActionView::Msg { user: self.user@, text: msg@->Msg_text };
            lemma_round_trip(mv);
            assert(self.queued_texts() =~= old(self).queued_texts().push(encode_view(mv)));
            assert(self.produced() =~= old(self).produced().push(mv));
        }
    }

    /// The reader activity terminated (peer closed, transport error, or a
    /// non-text frame): queue this session's Disconnect and close the
    /// producer side of the queue. No further payload will ever be queued.
    pub fn reader_close(&mut self)
        requires
            old(self).wf(),
            old(self).phase_of() is Relaying,
            !old(self).reader_closed(),
        ensures
            final(self).wf(),
            final(self).phase_of() is Relaying,
            final(self).addr_view() == old(self).addr_view(),
            final(self).user_view() == old(self).user_view(),
            final(self).reader_closed(),
            final(self).cursor_at() == old(self).cursor_at(),
            final(self).queued_texts() == old(self).queued_texts().push(
                encode_view(ActionView::Disconnect { addr: old(self).addr_view() }),
            ),
            final(self).produced() == old(self).produced().push(
                ActionView::Disconnect { addr: old(self).addr_view() },
            ),
    {
        let disconnect = ChatAction::Disconnect { addr: self.addr.clone() };
        let text = encode(&disconnect);
        self.queued.push(text);
        self.closed = true;
        proof {
            let dv = ActionView::Disconnect { addr: self.addr@ };
            lemma_round_trip(dv);
            assert(self.queued_texts() =~= old(self).queued_texts().push(encode_view(dv)));
            assert(self.produced() =~= old(self).produced().push(dv));
        }
    }

    /// One step of the broadcaster activity: dequeue the next payload,
    /// validate it by decoding (a failure here would be an internal
    /// consistency break, and is proven impossible for a well-formed
    /// session), remove this session's registry entry first if the payload
    /// is its own Disconnect, then fan the payload out to every registered
    /// handle.
    ///
    /// On the Disconnect step the entry is removed strictly before the
    /// broadcast, so the disconnecting peer never receives its own
    /// Disconnect: the returned handle's log is exactly as it was before
    /// the step.
    pub fn broadcaster_step(&mut self, reg: &mut Registry) -> (removed: Option<Handle>)
        requires
            old(self).wf(),
            old(self).phase_of() is Relaying,
            old(self).pending(),
            old(reg).wf(),
        ensures
            final(self).wf(),
            final(reg).wf(),
            final(self).addr_view() == old(self).addr_view(),
            final(self).user_view() == old(self).user_view(),
            final(self).queued_texts() == old(self).queued_texts(),
            final(self).reader_closed() == old(self).reader_closed(),
            final(self).cursor_at() == old(self).cursor_at() + 1,
            final(self).phase_of() == (if old(self).reader_closed() && old(self).cursor_at() + 1
                == old(self).queue_len() {
                Phase::Done
            } else {
                Phase::Relaying
            }),
            ({
                let act = old(self).produced()[old(self).cursor_at() as int];
                let payload = encode_view(act);
                let me = old(self).addr_view();
                match act { ActionView::Disconnect { addr } => {
                    &&& addr == me
                    &&& !final(reg).contains_addr(me)
                    &&& (forall|b: Seq<char>|
                        #[trigger] final(reg).contains_addr(b) <==> (b != me && old(
                            reg,
                        ).contains_addr(b)))
                    &&& (forall|b: Seq<char>|
                        b != me && old(reg).contains_addr(b) ==> #[trigger] final(reg).log_of(b)
                            == (if old(reg).is_open(b) {
                            old(reg).log_of(b).push(payload)
                        } else {
                            old(reg).log_of(b)
                        }) && final(reg).is_open(b) == old(reg).is_open(b))
                    &&& (match removed {
                        Some(h) => old(reg).contains_addr(me) && h@.0 == old(reg).log_of(me)
                            && h@.1 == old(reg).is_open(me),
                        None => !old(reg).contains_addr(me),
                    })
                }, _ => {
                    &&& removed is None
                    &&& (forall|b: Seq<char>|
                        #[trigger] final(reg).contains_addr(b) <==> old(reg).contains_addr(b))
                    &&& (forall|b: Seq<char>|
                        old(reg).contains_addr(b) ==> #[trigger] final(reg).log_of(b) == (if old(
                            reg,
                        ).is_open(b) {
                            old(reg).log_of(b).push(payload)
                        } else {
                            old(reg).log_of(b)
                        }) && final(reg).is_open(b) == old(reg).is_open(b))
                } }
            }),
    {
        let payload = self.queued[self.cursor].clone();
        proof {
            assert(payload@ == old(self).queued_texts()[old(self).cursor_at() as int]);
            assert(parse_view(payload@) is Some);
            lemma_parse_canonical(payload@);
        }
        let action = match decode(payload.as_str()) {
            Ok(a) => a,
            Err(_) => {
                // A payload this session queued always decodes: it is this
                // relay's own encoding. A failure here cannot be reached.
                proof {
                    assert(false);
                }
                return None;
            },
        };
        let mut removed: Option<Handle> = None;
        let is_own_disconnect = match &action {
            ChatAction::Disconnect { addr } => *addr == self.addr,
            _ => false,
        };
        if is_own_disconnect {
            removed = reg.unregister(&self.addr);
        }
        let ghost mid = *reg;
        reg.broadcast(&payload);
        self.cursor = self.cursor + 1;
        if self.closed && self.cursor == self.queued.len() {
            self.phase = Phase::Done;
        }
        proof {
            let k = old(self).cursor_at() as int;
            let len = old(self).queue_len() as int;
            let act = old(self).produced()[k];
            let me = old(self).addr_view();
            assert(act == action@);
            assert(payload@ == encode_view(act));
            match act {
                ActionView::Disconnect { addr } => {
                    assert(k != 0) by {
                        if k == 0 {
                            assert(old(self).produced()[0] == (ActionView::Connect { addr: me }));
                        }
                    }
                    assert(old(self).reader_closed() && k == len - 1) by {
                        if !(old(self).reader_closed() && k == len - 1) {
                            assert((old(self).produced()[k]) matches ActionView::Msg {
                                user,
                                text,
                            });
                        }
                    }
                    assert(addr == me);
                    assert(is_own_disconnect);
                    assert forall|b: Seq<char>| #[trigger] final(reg).contains_addr(b) implies (b
                        != me && old(reg).contains_addr(b)) by {
                        assert(mid.contains_addr(b));
                    }
                    assert forall|b: Seq<char>| b != me && old(reg).contains_addr(b) implies
                        #[trigger] final(reg).contains_addr(b) by {
                        assert(mid.contains_addr(b));
                    }
                    assert forall|b: Seq<char>| b != me && old(reg).contains_addr(b) implies
                        #[trigger] final(reg).log_of(b) == (if old(reg).is_open(b) {
                        old(reg).log_of(b).push(payload@)
                    } else {
                        old(reg).log_of(b)
                    }) && final(reg).is_open(b) == old(reg).is_open(b) by {
                        assert(mid.contains_addr(b));
                        assert(mid.log_of(b) == old(reg).log_of(b));
                        assert(mid.is_open(b) == old(reg).is_open(b));
                    }
                    assert(!final(reg).contains_addr(me)) by {
                        assert(!mid.contains_addr(me));
                    }
                },
                _ => {
                    assert(!is_own_disconnect) by {
                        if is_own_disconnect {
                            assert(action@ matches ActionView::Disconnect { addr });
                        }
                    }
                    assert(mid == *old(reg));
                    assert forall|b: Seq<char>|
                        (#[trigger] final(reg).contains_addr(b) <==> old(reg).contains_addr(
                        b,
                    )) by {}
                    assert forall|b: Seq<char>| old(reg).contains_addr(b) implies
                        (#[trigger] final(reg).log_of(b)) == (if old(reg).is_open(b) {
                        old(reg).log_of(b).push(payload@)
                    } else {
                        old(reg).log_of(b)
                    }) && final(reg).is_open(b) == old(reg).is_open(b) by {}
                },
            }
        }
        removed
    }

    /// The next payload the broadcaster will relay, if any.
    pub fn peek_pending(&self) -> (r: Option<&String>)
        ensures
            (self.pending() ==> (r matches Some(p) && p@ == self.queued_texts()[
                self.cursor_at() as int])),
            (!self.pending() ==> r is None),
    {
        if self.cursor < self.queued.len() {
            let p = &self.queued[self.cursor];
            proof {
                assert(p@ == self.queued_texts()[self.cursor_at() as int]);
            }
            Some(p)
        } else {
            None
        }
    }

    /// Whether the broadcaster still has queued payloads to relay.
    pub fn has_pending(&self) -> (r: bool)
        ensures
            r == self.pending(),
    {
        self.cursor < self.queued.len()
    }

    /// The broadcaster's phase, for the driving loop.
    pub fn phase(&self) -> (p: Phase)
        ensures
            p == self.phase_of(),
    {
        self.phase
    }

    /// Whether the reader side has closed the queue.
    pub fn is_closed(&self) -> (r: bool)
        ensures
            r == self.reader_closed(),
    {
        self.closed
    }
}

/// Ordering law for one session, as seen by any observer: the actions it
/// contributes are exactly one Connect first, then its messages in queue
/// order, then — once its reader has closed — one Disconnect last.
pub proof fn lemma_session_ordering(s: Session)
    requires
        s.wf(),
    ensures
        (s.queue_len() > 0 ==> s.produced()[0] == (ActionView::Connect { addr: s.addr_view() })),
        (forall|i: int|
            1 <= i < s.queue_len() && !(s.reader_closed() && i == s.queue_len() - 1)
                ==> ((#[trigger] s.produced()[i]) matches ActionView::Msg { user, text }
                && user == s.user_view())),
        (s.reader_closed() ==> s.queue_len() >= 2 && s.produced()[s.queue_len() - 1]
            == (ActionView::Disconnect { addr: s.addr_view() })),
{
}

} // verus!
