use vstd::prelude::*;

use rocket::futures::channel::mpsc::{UnboundedReceiver, UnboundedSender};

use crate::assoc::{
    count_key, keys_unique, lemma_count_unique, last_wins, lemma_absent, lemma_lookup, lemma_present, lemma_push, lemma_remove,
    lemma_update, none_after,
};
use crate::identity::UserId;
use crate::packet::{get_current_time, make_uuid, Destination, Packet, SPacket};
use crate::protocol::{message_of_draft, Draft, Message, MessageId, Timestamp};
use crate::storage::{
    room_key_of, with_content, MessageDAOError, MessageRoomDAO, MessagesDAO, RoomId, RoomKey,
};

verus! {

#[verifier::external_type_specification]
#[verifier::external_body]
#[verifier::reject_recursive_types(T)]
pub struct ExUnboundedSender<T>(UnboundedSender<T>);

#[verifier::external_type_specification]
#[verifier::external_body]
#[verifier::reject_recursive_types(T)]
pub struct ExUnboundedReceiver<T>(UnboundedReceiver<T>);

/// Relies on futures_channel::mpsc::unbounded: a new unbounded channel, its
/// sending and its receiving end.
#[verifier::external_body]
fn open_channel() -> (UnboundedSender<SPacket>, UnboundedReceiver<SPacket>) {
    rocket::futures::channel::mpsc::unbounded()
}

/// Relies on futures_channel::mpsc::UnboundedSender::unbounded_send and
/// TrySendError::into_inner: the packet is queued without blocking, or, where
/// the receiving end is gone (the only way the send fails), handed back as it
/// was.
#[verifier::external_body]
fn send_packet(tx: &UnboundedSender<SPacket>, p: SPacket) -> (r: Result<(), SPacket>)
    ensures
        r is Err ==> r->Err_0 == p,
{
    match tx.unbounded_send(p) {
        Ok(()) => Ok(()),
        Err(e) => Err(e.into_inner()),
    }
}

/// The sending end of a user's live session.
struct Session {
    user: UserId,
    tx: UnboundedSender<SPacket>,
}

/// Packets waiting for a user who has no session.
struct Backlog {
    user: UserId,
    packets: Vec<SPacket>,
}

/// The draft in progress from `sender` to `destination`.
struct DraftEntry {
    sender: UserId,
    destination: Destination,
    draft: Draft,
}

/// The routing core: live sessions, backlogs of undelivered packets, drafts in
/// progress and the message storage.
pub struct MessageServer<DB> {
    open_senders: Vec<Session>,
    backlog: Vec<Backlog>,
    current_drafts: Vec<DraftEntry>,
    storage: DB,
    /// What has been handed to each user's sessions so far, in order.
    delivered: Ghost<Map<Seq<char>, Seq<SPacket>>>,
}

/// Why the routing core refused an operation.
#[derive(Debug, PartialEq, Eq)]
pub enum ServerError {
    AlreadyInUse(UserId),
    TrySendError(UserId),
    DAOError(MessageDAOError),
}

impl From<MessageDAOError> for ServerError {
    fn from(value: MessageDAOError) -> (r: ServerError) {
        ServerError::DAOError(value)
    }
}

impl vstd::std_specs::convert::FromSpecImpl<MessageDAOError> for ServerError {
    open spec fn obeys_from_spec() -> bool {
        true
    }

    open spec fn from_spec(v: MessageDAOError) -> ServerError {
        ServerError::DAOError(v)
    }
}

/// The key of a draft: its sender and its destination user.
pub type DraftKey = (Seq<char>, Seq<char>);

/// The key of the draft from `sender` to `destination`.
pub open spec fn draft_key(sender: UserId, destination: Destination) -> DraftKey {
    (sender@, destination.user()@)
}

spec fn session_key() -> spec_fn(Session) -> Seq<char> {
    |s: Session| s.user@
}

spec fn backlog_key() -> spec_fn(Backlog) -> Seq<char> {
    |b: Backlog| b.user@
}

spec fn backlog_val() -> spec_fn(Backlog) -> Seq<SPacket> {
    |b: Backlog| b.packets@
}

spec fn draft_entry_key() -> spec_fn(DraftEntry) -> DraftKey {
    |e: DraftEntry| draft_key(e.sender, e.destination)
}

spec fn draft_entry_val() -> spec_fn(DraftEntry) -> Draft {
    |e: DraftEntry| e.draft
}

/// The packets of `q` that go to user `u`, in order.
pub open spec fn routed_to(q: Seq<SPacket>, u: Seq<char>) -> Seq<SPacket>
    decreases q.len(),
{
    if q.len() == 0 {
        seq![]
    } else if q.last().to() == u {
        routed_to(q.drop_last(), u).push(q.last())
    } else {
        routed_to(q.drop_last(), u)
    }
}

proof fn lemma_routed_push(q: Seq<SPacket>, p: SPacket, u: Seq<char>)
    ensures
        routed_to(q.push(p), u) == if p.to() == u {
            routed_to(q, u).push(p)
        } else {
            routed_to(q, u)
        },
{
    assert(q.push(p).drop_last() =~= q);
}

/// The packets that show a user joining at `now` the drafts of `s` headed to
/// `u`: for each, in order, the draft's id and start, then its content.
spec fn catch_up_of(s: Seq<DraftEntry>, u: Seq<char>, now: Timestamp) -> Seq<SPacket>
    decreases s.len(),
{
    if s.len() == 0 {
        seq![]
    } else if s.last().destination.user()@ == u {
        catch_up_of(s.drop_last(), u, now) + catch_up_pair(s.last(), now)
    } else {
        catch_up_of(s.drop_last(), u, now)
    }
}

spec fn catch_up_pair(e: DraftEntry, now: Timestamp) -> Seq<SPacket> {
    seq![
        SPacket {
            sender: e.sender,
            destination: e.destination,
            time: now,
            packet: Packet::NewDraft { uuid: e.draft.id, start_time: e.draft.start_time },
        },
        SPacket {
            sender: e.sender,
            destination: e.destination,
            time: now,
            packet: Packet::Edit { uuid: e.draft.id, content: e.draft.content, editing_draft: true },
        },
    ]
}

/// The packets that processing `msg` at `now` emits, in order; `fresh` is the
/// id of a draft that `msg` starts. A new draft is announced and a draft's end
/// is echoed to both sides (the echo goes to the sender); everything else is
/// forwarded to the recipient as it came.
pub open spec fn emissions(msg: SPacket, now: Timestamp, fresh: MessageId) -> Seq<SPacket> {
    let echo = Destination::User(msg.sender);
    match msg.packet {
        Packet::StartDraft => seq![
            SPacket {
                sender: msg.sender,
                destination: msg.destination,
                time: now,
                packet: Packet::NewDraft { uuid: fresh, start_time: now },
            },
            SPacket {
                sender: msg.sender,
                destination: echo,
                time: now,
                packet: Packet::NewDraft { uuid: fresh, start_time: now },
            },
        ],
        Packet::EndDraft { uuid, content } => seq![
            SPacket {
                sender: msg.sender,
                destination: msg.destination,
                time: now,
                packet: Packet::EndDraft { uuid, content },
            },
            SPacket {
                sender: msg.sender,
                destination: echo,
                time: now,
                packet: Packet::EndDraft { uuid, content },
            },
        ],
        _ => seq![msg],
    }
}

/// `d2` is the draft table `d` after `msg` at `now`: a start (re)opens the
/// sender's draft to the destination with id `fresh`, no content and start
/// time `now`; an end or a discard closes it; an edit of that very draft
/// replaces its content.
pub open spec fn drafts_after(
    d: Map<DraftKey, Draft>,
    d2: Map<DraftKey, Draft>,
    msg: SPacket,
    now: Timestamp,
    fresh: MessageId,
) -> bool {
    let key = draft_key(msg.sender, msg.destination);
    match msg.packet {
        Packet::StartDraft => {
            &&& d2.contains_key(key)
            &&& d2[key].id == fresh
            &&& d2[key].content@ == Seq::<char>::empty()
            &&& d2[key].start_time == now
            &&& d2.remove(key) == d.remove(key)
        },
        Packet::EndDraft { .. } => d2 == d.remove(key),
        Packet::DiscardDraft { .. } => d2 == d.remove(key),
        Packet::Edit { uuid, content, .. } => d2 == if d.contains_key(key) && d[key].id == uuid {
            d.insert(key, Draft { content, ..d[key] })
        } else {
            d
        },
        _ => d2 == d,
    }
}

/// The stored messages after `msg` at `now`, given the draft table `d` before
/// it: ending a draft stores it in the room from sender to destination; an
/// edit that is not of the current draft, and not marked as a draft edit,
/// replaces the content of that stored message where it exists.
pub open spec fn stored_after(
    rooms: Map<RoomKey, Map<MessageId, Message>>,
    d: Map<DraftKey, Draft>,
    msg: SPacket,
    now: Timestamp,
) -> Map<RoomKey, Map<MessageId, Message>> {
    let key = draft_key(msg.sender, msg.destination);
    let rk = room_key_of(msg.sender, msg.destination);
    let room = if rooms.contains_key(rk) {
        rooms[rk]
    } else {
        Map::empty()
    };
    match msg.packet {
        Packet::EndDraft { .. } => if d.contains_key(key) {
            rooms.insert(rk, room.insert(d[key].id, message_of_draft(d[key], msg.sender, now)))
        } else {
            rooms
        },
        Packet::Edit { uuid, content, editing_draft } => if !(d.contains_key(key) && d[key].id == uuid)
            && !editing_draft && rooms.contains_key(rk) && rooms[rk].contains_key(uuid) {
            rooms.insert(rk, rooms[rk].insert(uuid, with_content(rooms[rk][uuid], content)))
        } else {
            rooms
        },
        _ => rooms,
    }
}

/// The packets routed to `u` while the packets of `msgs` are processed in
/// turn, the `i`-th at `nows[i]` with `fresh[i]` as the id of a draft it
/// starts.
pub open spec fn routed_all(
    msgs: Seq<SPacket>,
    nows: Seq<Timestamp>,
    fresh: Seq<MessageId>,
    u: Seq<char>,
) -> Seq<SPacket>
    decreases msgs.len(),
{
    if msgs.len() == 0 {
        seq![]
    } else {
        let i = msgs.len() - 1;
        routed_all(msgs.drop_last(), nows, fresh, u) + routed_to(emissions(msgs[i], nows[i], fresh[i]), u)
    }
}

/// `drafts_after` changes the draft table at the key of `msg` alone.
pub proof fn lemma_drafts_after_elsewhere(
    d0: Map<DraftKey, Draft>,
    d: Map<DraftKey, Draft>,
    msg: SPacket,
    now: Timestamp,
    fresh: MessageId,
    k: DraftKey,
)
    requires
        drafts_after(d0, d, msg, now, fresh),
        k != draft_key(msg.sender, msg.destination),
    ensures
        d.contains_key(k) == d0.contains_key(k),
        d.contains_key(k) ==> d[k] == d0[k],
{
    let key = draft_key(msg.sender, msg.destination);
    match msg.packet {
        Packet::StartDraft => {
            assert(d.remove(key).contains_key(k) == d.contains_key(k));
            assert(d0.remove(key).contains_key(k) == d0.contains_key(k));
            if d.contains_key(k) {
                assert(d.remove(key)[k] == d[k]);
                assert(d0.remove(key)[k] == d0[k]);
            }
        },
        _ => {},
    }
}

/// The drafts of `m` whose sender is not `u`.
pub open spec fn without_sender(m: Map<DraftKey, Draft>, u: Seq<char>) -> Map<DraftKey, Draft> {
    m.restrict(Set::new(|k: DraftKey| k.0 != u))
}

/// `p` tells user `v` at `now` that the draft of `uid` headed to `v`, one of
/// `drafts`, was discarded.
pub open spec fn is_discard_notice(
    p: SPacket,
    uid: UserId,
    v: Seq<char>,
    now: Timestamp,
    drafts: Map<DraftKey, Draft>,
) -> bool {
    &&& v != uid@
    &&& drafts.contains_key((uid@, v))
    &&& p.sender == uid
    &&& p.to() == v
    &&& p.time == now
    &&& p.packet == Packet::DiscardDraft { uuid: drafts[(uid@, v)].id }
}

impl<DB: MessagesDAO> MessageServer<DB> {
    /// The packets that bring a user `u` joining at `now` up to date with the
    /// drafts headed to them: for each such draft, its id and start time
    /// (`NewDraft`), then its content so far (`Edit`, `editing_draft` set),
    /// sent in the draft's sender's name.
    pub closed spec fn catch_up(&self, u: Seq<char>, now: Timestamp) -> Seq<SPacket> {
        catch_up_of(self.current_drafts@, u, now)
    }

    /// Whether `u` has a live session.
    pub closed spec fn has_session(&self, u: Seq<char>) -> bool {
        exists|i: int| 0 <= i < self.open_senders@.len() && self.open_senders@[i].user@ == u
    }

    /// How many live sessions `u` has.
    pub closed spec fn session_count(&self, u: Seq<char>) -> nat {
        count_key(self.open_senders@, session_key(), u)
    }

    /// How many drafts the table holds under key `k`.
    pub closed spec fn draft_count(&self, k: DraftKey) -> nat {
        count_key(self.current_drafts@, draft_entry_key(), k)
    }

    /// The packets waiting for `u`, oldest first.
    pub closed spec fn backlog_of(&self, u: Seq<char>) -> Seq<SPacket> {
        let m = last_wins(self.backlog@, backlog_key(), backlog_val());
        if m.contains_key(u) {
            m[u]
        } else {
            seq![]
        }
    }

    /// The drafts in progress, by (sender, destination user).
    pub closed spec fn drafts(&self) -> Map<DraftKey, Draft> {
        last_wins(self.current_drafts@, draft_entry_key(), draft_entry_val())
    }

    /// The packets handed to `u`'s sessions, in order: each one the session's
    /// channel accepted, and each one handed best effort (a sender echo, a
    /// drained backlog or catch-up packet when a session opens, a discard
    /// notice), accepted or not.
    pub closed spec fn received(&self, u: Seq<char>) -> Seq<SPacket> {
        if self.delivered@.contains_key(u) {
            self.delivered@[u]
        } else {
            seq![]
        }
    }

    /// `self` and `other` agree on everything that concerns user `v`.
    pub open spec fn agrees_on(&self, other: Self, v: Seq<char>) -> bool {
        &&& self.has_session(v) == other.has_session(v)
        &&& self.backlog_of(v) == other.backlog_of(v)
        &&& self.received(v) == other.received(v)
    }

    /// `self` is the routing core after `before` processed `msg` at `now`,
    /// with `fresh` as the id of a draft it starts; `sent` says whether every
    /// emitted packet went to a session that stayed. Only the session of the
    /// destination user `to` can end (its receiving end was gone); then `to`
    /// is deregistered: the draft table is the one `drafts_after` gives, less
    /// the drafts of `to`, and each user with a session to whom `to` was
    /// composing a draft is handed the notice. Every user's outbox grows by
    /// exactly the packets emitted to them and that notice; a user without a
    /// session gets them in their backlog.
    pub open spec fn processed_from(
        &self,
        before: Self,
        msg: SPacket,
        now: Timestamp,
        fresh: MessageId,
        sent: bool,
    ) -> bool {
        let emitted = emissions(msg, now, fresh);
        let to = msg.destination.user();
        let lost = before.has_session(to@) && !self.has_session(to@);
        &&& sent <==> forall|u: Seq<char>| #[trigger] routed_to(emitted, u).len() > 0 ==> before.has_session(u)
            && self.has_session(u)
        &&& self.stored() == stored_after(before.stored(), before.drafts(), msg, now)
        &&& forall|u: Seq<char>| u != to@ ==> #[trigger] self.has_session(u) == before.has_session(u)
        &&& self.has_session(to@) ==> before.has_session(to@)
        &&& exists|d: Map<DraftKey, Draft>| #[trigger] drafts_after(before.drafts(), d, msg, now, fresh)
            && self.drafts() == (if lost { without_sender(d, to@) } else { d })
        &&& forall|u: Seq<char>|
            !before.has_session(u) ==> {
                &&& #[trigger] self.backlog_of(u) == before.backlog_of(u) + routed_to(emitted, u)
                &&& self.received(u) == before.received(u)
            }
        &&& forall|u: Seq<char>| #[trigger] self.outbox_after(before, u, emitted, lost, to, now)
    }

    /// What `u` has been handed in `self`: what `u` had in `before`, then the
    /// packets of `emitted` routed to `u`, then, where the session of `to`
    /// was `lost` and `to` was composing a draft to `u`, who has a session,
    /// the notice that it was discarded.
    pub open spec fn outbox_after(
        &self,
        before: Self,
        u: Seq<char>,
        emitted: Seq<SPacket>,
        lost: bool,
        to: UserId,
        now: Timestamp,
    ) -> bool {
        if lost && u != to@ && before.has_session(u) && before.drafts().contains_key((to@, u)) {
            exists|p: SPacket| #[trigger] is_discard_notice(p, to, u, now, before.drafts())
                && self.outbox(u) == (before.outbox(u) + routed_to(emitted, u)).push(p)
        } else {
            self.outbox(u) == before.outbox(u) + routed_to(emitted, u)
        }
    }

    /// `self` is the routing core after `before` opened a session for `u` at
    /// `now`: `u` has a session that has been handed `u`'s whole backlog,
    /// oldest first, and then the catch-up packets; nothing waits for `u`;
    /// drafts, storage and every other user are untouched.
    pub open spec fn registered_from(&self, before: Self, u: Seq<char>, now: Timestamp) -> bool {
        &&& self.has_session(u)
        &&& self.drafts() == before.drafts()
        &&& self.stored() == before.stored()
        &&& self.backlog_of(u).len() == 0
        &&& self.received(u) == before.received(u) + before.backlog_of(u) + before.catch_up(u, now)
        &&& forall|v: Seq<char>| v != u ==> #[trigger] self.agrees_on(before, v)
    }

    /// `self` holds, beyond `before`, the notice to `v`, sent at `now`, that
    /// the draft of `uid` headed to `v` was discarded.
    pub open spec fn got_notice(&self, before: Self, uid: UserId, v: Seq<char>, now: Timestamp) -> bool {
        exists|p: SPacket| #[trigger] is_discard_notice(p, uid, v, now, before.drafts())
            && self.outbox(v) == before.outbox(v).push(p)
    }

    /// `self` is the routing core after `before` deregistered `uid` at
    /// `now`: `uid` has no session and every other session is as it was; no
    /// backlog changes; exactly the drafts of `uid` are discarded; each user
    /// with a session to whom `uid` was composing a draft is handed the
    /// `DiscardDraft` notice for it, and nobody else is handed anything.
    pub open spec fn deregistered_from(&self, before: Self, uid: UserId, now: Timestamp) -> bool {
        &&& !self.has_session(uid@)
        &&& forall|u: Seq<char>| u != uid@ ==> #[trigger] self.has_session(u) == before.has_session(u)
        &&& forall|u: Seq<char>| #[trigger] self.backlog_of(u) == before.backlog_of(u)
        &&& self.stored() == before.stored()
        &&& self.drafts() == without_sender(before.drafts(), uid@)
        &&& forall|v: Seq<char>|
            v != uid@ && before.has_session(v) && before.drafts().contains_key((uid@, v))
                ==> #[trigger] self.got_notice(before, uid, v, now)
        &&& forall|v: Seq<char>|
            !(v != uid@ && before.has_session(v) && before.drafts().contains_key((uid@, v)))
                ==> #[trigger] self.received(v) == before.received(v)
    }

    /// Everything ever routed to `u`: what its sessions were handed, then what
    /// waits in its backlog.
    pub open spec fn outbox(&self, u: Seq<char>) -> Seq<SPacket> {
        self.received(u) + self.backlog_of(u)
    }

    /// The stored messages of each room.
    pub closed spec fn stored(&self) -> Map<RoomKey, Map<MessageId, Message>> {
        self.storage.rooms()
    }

    /// At most one session per user and one draft per key.
    closed spec fn lists_ok(&self) -> bool {
        &&& keys_unique(self.open_senders@, session_key())
        &&& keys_unique(self.current_drafts@, draft_entry_key())
    }

    /// A user with a live session has nothing waiting.
    pub open spec fn caught_up(&self, u: Seq<char>) -> bool {
        self.has_session(u) ==> self.backlog_of(u).len() == 0
    }

    /// The invariant of the routing core.
    pub closed spec fn wf(&self) -> bool {
        &&& self.lists_ok()
        &&& forall|u: Seq<char>| #[trigger] self.caught_up(u)
    }

    /// A routing core with no sessions, backlogs or drafts.
    pub fn new(storage: DB) -> (r: Self)
        ensures
            r.wf(),
            r.stored() == storage.rooms(),
            r.drafts() == Map::<DraftKey, Draft>::empty(),
            forall|u: Seq<char>| !#[trigger] r.has_session(u),
            forall|u: Seq<char>| #[trigger] r.backlog_of(u) == Seq::<SPacket>::empty(),
            forall|u: Seq<char>| #[trigger] r.received(u) == Seq::<SPacket>::empty(),
    {
        let r = MessageServer {
            backlog: Vec::new(),
            open_senders: Vec::new(),
            current_drafts: Vec::new(),
            storage,
            delivered: Ghost(Map::empty()),
        };
        assert(r.drafts() == Map::<DraftKey, Draft>::empty());
        assert(last_wins(r.backlog@, backlog_key(), backlog_val()) == Map::<Seq<char>, Seq<SPacket>>::empty());
        r
    }

    /// The position of `u`'s session.
    fn find_session(&self, u: &UserId) -> (r: Option<usize>)
        ensures
            r is Some ==> r->Some_0 < self.open_senders@.len() && self.open_senders@[r->Some_0 as int].user@ == u@,
            r is None ==> !self.has_session(u@),
    {
        let mut i: usize = 0;
        while i < self.open_senders.len()
            invariant
                i <= self.open_senders@.len(),
                forall|j: int| 0 <= j < i ==> self.open_senders@[j].user@ != u@,
            decreases self.open_senders@.len() - i,
        {
            if self.open_senders[i].user.same_user(u) {
                return Some(i);
            }
            i = i + 1;
        }
        None
    }

    /// The position of `u`'s backlog, the last one if several hold it.
    fn find_backlog(&self, u: &UserId) -> (r: Option<usize>)
        ensures
            r is Some ==> {
                let i = r->Some_0 as int;
                &&& 0 <= i < self.backlog@.len()
                &&& self.backlog@[i].user@ == u@
                &&& none_after(self.backlog@, backlog_key(), i, u@)
            },
            r is None ==> none_after(self.backlog@, backlog_key(), -1, u@),
    {
        let mut i = self.backlog.len();
        while i > 0
            invariant
                i <= self.backlog@.len(),
                none_after(self.backlog@, backlog_key(), i as int - 1, u@),
            decreases i,
        {
            i = i - 1;
            if self.backlog[i].user.same_user(u) {
                return Some(i);
            }
        }
        None
    }

    /// Puts `p` at the end of its recipient's backlog.
    fn enqueue(&mut self, p: SPacket)
        requires
            old(self).lists_ok(),
        ensures
            final(self).lists_ok(),
            final(self).open_senders == old(self).open_senders,
            final(self).current_drafts == old(self).current_drafts,
            final(self).storage == old(self).storage,
            final(self).delivered == old(self).delivered,
            final(self).backlog_of(p.to()) == old(self).backlog_of(p.to()).push(p),
            forall|v: Seq<char>| v != p.to() ==> #[trigger] final(self).backlog_of(v) == old(self).backlog_of(v),
    {
        let ghost s = self.backlog@;
        let ghost key = backlog_key();
        let ghost val = backlog_val();
        let u = p.destination.to_user();
        match self.find_backlog(&u) {
            Some(i) => {
                proof {
                    lemma_lookup(s, key, val, i as int);
                }
                self.backlog[i].packets.push(p);
                proof {
                    lemma_update(s, key, val, i as int, self.backlog@[i as int]);
                }
            },
            None => {
                proof {
                    lemma_absent(s, key, val, u@);
                }
                let mut packets = Vec::new();
                packets.push(p);
                self.backlog.push(Backlog { user: u, packets });
                proof {
                    lemma_push(s, key, val, self.backlog@.last());
                }
            },
        }
    }

    /// Ends the session at position `i`, dropping its sending end.
    fn drop_session(&mut self, i: usize)
        requires
            old(self).lists_ok(),
            i < old(self).open_senders@.len(),
        ensures
            final(self).lists_ok(),
            final(self).open_senders@.len() + 1 == old(self).open_senders@.len(),
            final(self).backlog == old(self).backlog,
            final(self).current_drafts == old(self).current_drafts,
            final(self).storage == old(self).storage,
            final(self).delivered == old(self).delivered,
            !final(self).has_session(old(self).open_senders@[i as int].user@),
            forall|v: Seq<char>| v != old(self).open_senders@[i as int].user@ ==>
                #[trigger] final(self).has_session(v) == old(self).has_session(v),
    {
        let ghost s = self.open_senders@;
        let ghost u = s[i as int].user@;
        proof {
            lemma_remove(s, session_key(), |x: Session| (), i as int);
        }
        let _ = self.open_senders.remove(i);
        proof {
            let t = self.open_senders@;
            assert(t == s.remove(i as int));
            assert forall|v: Seq<char>| v != u implies #[trigger] self.has_session(v) == old(self).has_session(v) by {
                if old(self).has_session(v) {
                    let j = choose|j: int| 0 <= j < s.len() && s[j].user@ == v;
                    if j < i {
                        assert(t[j] == s[j]);
                    } else {
                        assert(j != i);
                        assert(t[j - 1] == s[j]);
                    }
                }
                if self.has_session(v) {
                    let j = choose|j: int| 0 <= j < t.len() && t[j].user@ == v;
                    if j < i {
                        assert(t[j] == s[j]);
                    } else {
                        assert(t[j] == s[j + 1]);
                    }
                }
            }
            if self.has_session(u) {
                let j = choose|j: int| 0 <= j < t.len() && t[j].user@ == u;
                if j < i {
                    assert(t[j] == s[j]);
                } else {
                    assert(t[j] == s[j + 1]);
                }
            }
        }
    }

    /// Hands `p` to its recipient's session, best effort: where the
    /// session's receiving end is gone the packet is lost with it, and the
    /// session stays until a delivery finds it broken. Where the recipient has
    /// no session, `p` is appended to their backlog.
    fn hand(&mut self, p: SPacket)
        requires
            old(self).wf(),
        ensures
            final(self).wf(),
            final(self).current_drafts == old(self).current_drafts,
            final(self).storage == old(self).storage,
            final(self).open_senders == old(self).open_senders,
            forall|v: Seq<char>| v != p.to() ==> #[trigger] final(self).agrees_on(*old(self), v),
            final(self).outbox(p.to()) == old(self).outbox(p.to()).push(p),
            old(self).has_session(p.to()) ==> final(self).received(p.to()) == old(self).received(p.to()).push(p),
            old(self).has_session(p.to()) ==> final(self).backlog_of(p.to()) == old(self).backlog_of(p.to()),
            !old(self).has_session(p.to()) ==> final(self).received(p.to()) == old(self).received(p.to()),
    {
        let ghost gp = p;
        let u = p.destination.to_user();
        assert(self.caught_up(u@));
        match self.find_session(&u) {
            Some(i) => {
                let _ = send_packet(&self.open_senders[i].tx, p);
                self.delivered = Ghost(self.delivered@.insert(u@, self.received(u@).push(gp)));
                assert forall|v: Seq<char>| v != u@ implies #[trigger] self.received(v) == old(self).received(v) by {}
                assert(self.outbox(u@) =~= old(self).outbox(u@).push(gp));
                assert forall|v: Seq<char>| #[trigger] self.caught_up(v) by {
                    assert(old(self).caught_up(v));
                }
                assert(gp.to() == u@);
                assert(self.open_senders == old(self).open_senders);
                assert(self.backlog == old(self).backlog);
                assert forall|v: Seq<char>| v != gp.to() implies #[trigger] self.agrees_on(*old(self), v) by {
                    assert(self.received(v) == old(self).received(v));
                }
            },
            None => {
                self.enqueue(p);
                assert(self.outbox(u@) =~= old(self).outbox(u@).push(gp));
                assert forall|v: Seq<char>| #[trigger] self.caught_up(v) by {
                    if v != u@ {
                        assert(old(self).caught_up(v));
                    }
                }
            },
        }
    }

    /// Hands `p` to its recipient's session, or appends it to the recipient's
    /// backlog where there is none. A live session never has a backlog (it is
    /// drained when the session opens), so nothing has to go before `p`. A
    /// session whose receiving end is gone ends here: `p` goes to the backlog
    /// and the recipient is noted in `broken`.
    fn deliver(&mut self, p: SPacket, broken: &mut Vec<UserId>) -> (accepted: bool)
        requires
            old(self).wf(),
        ensures
            final(self).wf(),
            accepted ==> final(self).backlog_of(p.to()) == old(self).backlog_of(p.to()),
            accepted <==> old(self).has_session(p.to()) && final(self).has_session(p.to()),
            final(self).open_senders@.len() + final(broken)@.len() == old(self).open_senders@.len() + old(broken)@.len(),
            !accepted ==> final(self).backlog_of(p.to()) == old(self).backlog_of(p.to()).push(p),
            final(self).current_drafts == old(self).current_drafts,
            final(self).storage == old(self).storage,
            forall|v: Seq<char>| v != p.to() ==> #[trigger] final(self).agrees_on(*old(self), v),
            final(self).outbox(p.to()) == old(self).outbox(p.to()).push(p),
            final(self).has_session(p.to()) ==> {
                &&& old(self).has_session(p.to())
                &&& final(self).received(p.to()) == old(self).received(p.to()).push(p)
                &&& final(broken)@ == old(broken)@
            },
            !old(self).has_session(p.to()) ==> {
                &&& !final(self).has_session(p.to())
                &&& final(self).received(p.to()) == old(self).received(p.to())
                &&& final(broken)@ == old(broken)@
            },
            old(self).has_session(p.to()) && !final(self).has_session(p.to()) ==> {
                exists|b: UserId| b@ == p.to() && final(broken)@ == old(broken)@.push(b)
            },
    {
        let ghost gp = p;
        let u = p.destination.to_user();
        assert(self.caught_up(u@));
        match self.find_session(&u) {
            Some(i) => {
                match send_packet(&self.open_senders[i].tx, p) {
                    Ok(()) => {
                        self.delivered = Ghost(self.delivered@.insert(u@, self.received(u@).push(gp)));
                        assert(self.received(u@) == old(self).received(u@).push(gp));
                        assert forall|v: Seq<char>| v != u@ implies #[trigger] self.received(v) == old(self).received(v) by {}
                        assert(self.outbox(u@) =~= old(self).outbox(u@).push(gp));
                        assert forall|v: Seq<char>| #[trigger] self.caught_up(v) by {
                            assert(old(self).caught_up(v));
                        }
                        true
                    },
                    Err(back) => {
                        proof {
                            assert(old(self).open_senders@[i as int].user@ == u@);
                        }
                        self.drop_session(i);
                        let ghost mid = *self;
                        assert(!mid.has_session(u@));
                        self.enqueue(back);
                        assert(self.open_senders == mid.open_senders);
                        assert(!self.has_session(u@));
                        broken.push(u);
                        assert(self.outbox(u@) =~= old(self).outbox(u@).push(gp));
                        assert forall|v: Seq<char>| #[trigger] self.caught_up(v) by {
                            if v != u@ {
                                assert(old(self).caught_up(v));
                                assert(mid.has_session(v) == old(self).has_session(v));
                                assert(self.has_session(v) == mid.has_session(v));
                                assert(self.backlog_of(v) == mid.backlog_of(v));
                            }
                        }
                        assert forall|v: Seq<char>| v != gp.to() implies #[trigger] self.has_session(v)
                            == old(self).has_session(v) by {
                            assert(mid.has_session(v) == old(self).has_session(v));
                            assert(self.has_session(v) == mid.has_session(v));
                        }
                        false
                    },
                }
            },
            None => {
                self.enqueue(p);
                assert(self.outbox(u@) =~= old(self).outbox(u@).push(gp));
                assert forall|v: Seq<char>| #[trigger] self.caught_up(v) by {
                    if v != u@ {
                        assert(old(self).caught_up(v));
                    }
                }
                false
            },
        }
    }

    /// Drains `u`'s backlog into `u`'s session, oldest first, handing each
    /// packet to the session (see `hand`); the session stays.
    fn flush_backlog(&mut self, u: &UserId)
        requires
            old(self).lists_ok(),
            forall|v: Seq<char>| v != u@ ==> #[trigger] old(self).caught_up(v),
        ensures
            final(self).wf(),
            final(self).current_drafts == old(self).current_drafts,
            final(self).storage == old(self).storage,
            final(self).open_senders == old(self).open_senders,
            forall|v: Seq<char>| v != u@ ==> #[trigger] final(self).agrees_on(*old(self), v),
            final(self).outbox(u@) == old(self).outbox(u@),
            old(self).has_session(u@) ==> {
                &&& final(self).backlog_of(u@).len() == 0
                &&& final(self).received(u@) == old(self).received(u@) + old(self).backlog_of(u@)
            },
            !old(self).has_session(u@) ==> final(self).received(u@) == old(self).received(u@),
    {
        let ghost key = backlog_key();
        let ghost val = backlog_val();
        let si = match self.find_session(u) {
            Some(si) => si,
            None => {
                assert forall|v: Seq<char>| #[trigger] self.caught_up(v) by {
                    if v != u@ {
                        assert(old(self).caught_up(v));
                    }
                }
                return ;
            },
        };
        let bi = match self.find_backlog(u) {
            Some(bi) => bi,
            None => {
                proof {
                    lemma_absent(self.backlog@, key, val, u@);
                }
                assert forall|v: Seq<char>| #[trigger] self.caught_up(v) by {
                    if v != u@ {
                        assert(old(self).caught_up(v));
                    }
                }
                assert(self.outbox(u@) =~= old(self).outbox(u@));
                assert(self.received(u@) + old(self).backlog_of(u@) =~= self.received(u@));
                return ;
            },
        };
        proof {
            lemma_lookup(self.backlog@, key, val, bi as int);
        }
        let ghost packets = self.backlog@[bi as int].packets@;
        let ghost received0 = self.received(u@);
        let n = self.backlog[bi].packets.len();
        let mut k: usize = 0;
        while k < n
            invariant
                n == packets.len(),
                k <= n,
                bi < self.backlog@.len(),
                si < self.open_senders@.len(),
                self.backlog == old(self).backlog,
                self.open_senders == old(self).open_senders,
                self.current_drafts == old(self).current_drafts,
                self.storage == old(self).storage,
                self.backlog@[bi as int].packets@ == packets,
                self.received(u@) == received0 + packets.take(k as int),
                forall|v: Seq<char>| v != u@ ==> #[trigger] self.received(v) == old(self).received(v),
            decreases n - k,
        {
            let p = self.backlog[bi].packets[k].clone();
            let ghost before = *self;
            let _ = send_packet(&self.open_senders[si].tx, p);
            self.delivered = Ghost(self.delivered@.insert(u@, self.received(u@).push(packets[k as int])));
            assert(packets.take(k as int + 1) =~= packets.take(k as int).push(packets[k as int]));
            assert forall|v: Seq<char>| v != u@ implies #[trigger] self.received(v) == old(self).received(v) by {
                assert(before.received(v) == old(self).received(v));
            }
            k = k + 1;
        }
        let ghost after_loop = *self;
        let mut rest: Vec<SPacket> = Vec::new();
        let mut j: usize = k;
        while j < n
            invariant
                n == packets.len(),
                k <= j <= n,
                bi < self.backlog@.len(),
                self.backlog@[bi as int].packets@ == packets,
                rest@ == packets.subrange(k as int, j as int),
            decreases n - j,
        {
            rest.push(self.backlog[bi].packets[j].clone());
            assert(packets.subrange(k as int, j as int + 1) =~= packets.subrange(k as int, j as int).push(packets[j as int]));
            j = j + 1;
        }
        let ghost s = self.backlog@;
        self.backlog.set(bi, Backlog { user: u.clone(), packets: rest });
        proof {
            lemma_update(s, key, val, bi as int, self.backlog@[bi as int]);
            assert(packets =~= packets.take(k as int) + packets.subrange(k as int, n as int));
        }
        let ghost mid = *self;
        assert(k == n);
        assert(packets.take(k as int) =~= packets);
        assert(rest@.len() == 0);
        assert(mid.open_senders == old(self).open_senders);
        assert forall|v: Seq<char>| v != u@ implies #[trigger] self.agrees_on(*old(self), v) by {
            assert(after_loop.received(v) == old(self).received(v));
            assert(mid.has_session(v) == old(self).has_session(v));
            assert(mid.backlog_of(v) == old(self).backlog_of(v));
            assert(self.agrees_on(mid, v));
        }
        assert forall|v: Seq<char>| #[trigger] self.caught_up(v) by {
            if v != u@ {
                assert(old(self).caught_up(v));
                assert(self.backlog_of(v) == old(self).backlog_of(v));
            }
        }
        assert(self.outbox(u@) =~= old(self).outbox(u@));
    }

    /// Opens a session for `uid` at time `now`: drains `uid`'s backlog into it,
    /// oldest first, then hands it the catch-up packets of the drafts headed
    /// to `uid`, and returns the receiving end. Refused with `AlreadyInUse`
    /// where `uid` already has a session, and only then. The sends go into the
    /// new channel while its receiving end is held here, so none can fail.
    pub fn register_at(&mut self, uid: UserId, now: Timestamp) -> (r: Result<
        UnboundedReceiver<SPacket>,
        ServerError,
    >)
        requires
            old(self).wf(),
        ensures
            final(self).wf(),
            old(self).has_session(uid@) ==> {
                &&& r == Err::<UnboundedReceiver<SPacket>, ServerError>(ServerError::AlreadyInUse(uid))
                &&& *final(self) == *old(self)
            },
            !old(self).has_session(uid@) ==> r is Ok && final(self).registered_from(*old(self), uid@, now),
    {
        if let Some(_) = self.find_session(&uid) {
            return Err(ServerError::AlreadyInUse(uid));
        }
        let (tx, rx) = open_channel();
        let ghost s = self.open_senders@;
        self.open_senders.push(Session { user: uid.clone(), tx });
        proof {
            let t = self.open_senders@;
            assert(t == s.push(t.last()));
            assert forall|a: int, b: int| 0 <= a < t.len() && 0 <= b < t.len() && a != b implies
                session_key()(t[a]) != session_key()(t[b]) by {
                if a < s.len() && b < s.len() {
                    assert(t[a] == s[a] && t[b] == s[b]);
                } else if a < s.len() {
                    assert(t[a] == s[a]);
                } else {
                    assert(t[b] == s[b]);
                }
            }
            assert(self.has_session(uid@)) by {
                assert(t[t.len() - 1].user@ == uid@);
            }
            assert forall|v: Seq<char>| v != uid@ implies #[trigger] self.has_session(v) == old(self).has_session(v) by {
                if self.has_session(v) {
                    let i = choose|i: int| 0 <= i < t.len() && t[i].user@ == v;
                    assert(t[i] == s[i]);
                }
                if old(self).has_session(v) {
                    let i = choose|i: int| 0 <= i < s.len() && s[i].user@ == v;
                    assert(t[i] == s[i]);
                }
            }
            assert forall|v: Seq<char>| v != uid@ implies #[trigger] self.caught_up(v) by {
                assert(old(self).caught_up(v));
            }
        }
        let ghost joined = *self;
        self.flush_backlog(&uid);
        let ghost flushed = *self;
        assert forall|v: Seq<char>| v != uid@ implies #[trigger] flushed.agrees_on(*old(self), v) by {
            assert(flushed.agrees_on(joined, v));
            assert(joined.has_session(v) == old(self).has_session(v));
        }
        assert(flushed.has_session(uid@));
        let ghost drafts = self.current_drafts@;
        let mut i: usize = 0;
        while i < self.current_drafts.len()
            invariant
                self.wf(),
                self.current_drafts@ == drafts,
                self.storage == old(self).storage,
                self.open_senders == flushed.open_senders,
                flushed.has_session(uid@),
                i <= drafts.len(),
                self.backlog_of(uid@) == flushed.backlog_of(uid@),
                self.received(uid@) == flushed.received(uid@) + catch_up_of(drafts.take(i as int), uid@, now),
                forall|v: Seq<char>| v != uid@ ==> #[trigger] self.agrees_on(*old(self), v),
            decreases drafts.len() - i,
        {
            let ghost before = *self;
            assert(drafts.take(i as int + 1).drop_last() =~= drafts.take(i as int));
            if self.current_drafts[i].destination.to_user().same_user(&uid) {
                let e = &self.current_drafts[i];
                let opened = SPacket {
                    sender: e.sender.clone(),
                    destination: e.destination.clone(),
                    time: now,
                    packet: Packet::NewDraft { uuid: e.draft.id, start_time: e.draft.start_time },
                };
                let typed = SPacket {
                    sender: e.sender.clone(),
                    destination: e.destination.clone(),
                    time: now,
                    packet: Packet::Edit {
                        uuid: e.draft.id,
                        content: e.draft.content.clone(),
                        editing_draft: true,
                    },
                };
                let ghost pair = catch_up_pair(drafts[i as int], now);
                assert(pair =~= seq![opened, typed]);
                assert(before.has_session(uid@));
                self.hand(opened);
                let ghost between = *self;
                assert(between.has_session(uid@));
                self.hand(typed);
                assert(catch_up_of(drafts.take(i as int + 1), uid@, now) == catch_up_of(drafts.take(i as int), uid@, now) + pair);
                assert(self.received(uid@) =~= flushed.received(uid@) + catch_up_of(drafts.take(i as int + 1), uid@, now));
                assert forall|v: Seq<char>| v != uid@ implies #[trigger] self.agrees_on(*old(self), v) by {
                    assert(before.agrees_on(*old(self), v));
                    assert(between.agrees_on(before, v));
                    assert(self.agrees_on(between, v));
                }
            } else {
                assert(catch_up_of(drafts.take(i as int + 1), uid@, now) == catch_up_of(drafts.take(i as int), uid@, now));
                assert forall|v: Seq<char>| v != uid@ implies #[trigger] self.agrees_on(*old(self), v) by {
                    assert(before.agrees_on(*old(self), v));
                }
            }
            i = i + 1;
        }
        proof {
            assert(drafts.take(drafts.len() as int) =~= drafts);
            assert(joined.outbox(uid@) == old(self).outbox(uid@));
            assert(joined.received(uid@) == old(self).received(uid@));
            assert(joined.backlog_of(uid@) == old(self).backlog_of(uid@));
            assert(self.has_session(uid@));
            assert(self.received(uid@) =~= old(self).received(uid@) + old(self).backlog_of(uid@) + old(self).catch_up(uid@, now));
        }
        Ok(rx)
    }

    /// Opens a session for `uid` at the current time; see `register_at`.
    pub fn register(&mut self, uid: UserId) -> (r: Result<UnboundedReceiver<SPacket>, ServerError>)
        requires
            old(self).wf(),
        ensures
            final(self).wf(),
            old(self).has_session(uid@) ==> {
                &&& r == Err::<UnboundedReceiver<SPacket>, ServerError>(ServerError::AlreadyInUse(uid))
                &&& *final(self) == *old(self)
            },
            !old(self).has_session(uid@) ==> r is Ok && exists|now: Timestamp| #[trigger] final(self).registered_from(
                *old(self),
                uid@,
                now,
            ),
    {
        let now = get_current_time();
        self.register_at(uid, now)
    }

    /// Discards every draft that `uid`, who has no session, was composing,
    /// at `now`. Each recipient of such a draft that has a session is handed a
    /// `DiscardDraft` notice, best effort (see `hand`); one without a session
    /// is not, and nothing is kept for it.
    fn discard_drafts(&mut self, uid: &UserId, now: Timestamp)
        requires
            old(self).wf(),
            !old(self).has_session(uid@),
        ensures
            final(self).wf(),
            final(self).storage == old(self).storage,
            final(self).open_senders == old(self).open_senders,
            final(self).drafts() == without_sender(old(self).drafts(), uid@),
            forall|u: Seq<char>| #[trigger] final(self).backlog_of(u) == old(self).backlog_of(u),
            forall|v: Seq<char>| old(self).has_session(v) && old(self).drafts().contains_key((uid@, v))
                ==> #[trigger] final(self).got_notice(*old(self), *uid, v, now),
            forall|v: Seq<char>| !(old(self).has_session(v) && old(self).drafts().contains_key((uid@, v)))
                ==> #[trigger] final(self).agrees_on(*old(self), v),
    {
        let ghost dkey = draft_entry_key();
        let ghost dval = draft_entry_val();
        let ghost start = *self;
        let mut taken: Vec<DraftEntry> = Vec::new();
        core::mem::swap(&mut self.current_drafts, &mut taken);
        let ghost all = taken@;
        let ghost drafts0 = old(self).drafts();
        assert(last_wins(self.current_drafts@, dkey, dval) =~= without_sender(
            last_wins(all.take(0), dkey, dval),
            uid@,
        ));
        assert forall|v: Seq<char>| #[trigger] self.caught_up(v) by {
            assert(start.caught_up(v));
        }
        while taken.len() > 0
            invariant
                all == start.current_drafts@,
                drafts0 == last_wins(all, dkey, dval),
                drafts0 == start.drafts(),
                dkey == draft_entry_key(),
                dval == draft_entry_val(),
                keys_unique(all, dkey),
                !start.has_session(uid@),
                self.wf(),
                taken@.len() <= all.len(),
                taken@ == all.skip(all.len() - taken@.len()),
                self.storage == start.storage,
                self.open_senders == start.open_senders,
                last_wins(self.current_drafts@, dkey, dval) == without_sender(
                    last_wins(all.take(all.len() - taken@.len()), dkey, dval),
                    uid@,
                ),
                forall|a: int|
                    0 <= a < self.current_drafts@.len() ==> exists|i: int|
                        0 <= i < all.len() - taken@.len() && dkey(#[trigger] self.current_drafts@[a]) == dkey(all[i]),
                keys_unique(self.current_drafts@, dkey),
                forall|u: Seq<char>| #[trigger] self.backlog_of(u) == start.backlog_of(u),
                forall|v: Seq<char>| #[trigger] self.agrees_on(start, v) || {
                    &&& exists|i: int| 0 <= i < all.len() - taken@.len() && dkey(all[i]) == (uid@, v)
                    &&& start.has_session(v)
                    &&& self.got_notice(start, *uid, v, now)
                },
                forall|i: int| 0 <= i < all.len() - taken@.len() && (#[trigger] dkey(all[i])).0 == uid@
                    && start.has_session(dkey(all[i]).1) ==> self.got_notice(start, *uid, dkey(all[i]).1, now),
            decreases taken@.len(),
        {
            let ghost j = all.len() - taken@.len();
            let ghost before = *self;
            let ghost tk = taken@;
            assert(tk[0] == all[j]);
            let e = taken.remove(0);
            assert(e == all[j]);
            assert(taken@ =~= all.skip(j + 1));
            assert(all.take(j + 1) =~= all.take(j).push(e));
            proof {
                lemma_push(all.take(j), dkey, dval, e);
            }
            if e.sender.same_user(uid) {
                let to = e.destination.to_user();
                let ghost v = to@;
                assert(dkey(all[j]) == (uid@, v));
                proof {
                    if !before.agrees_on(start, v) {
                        let i = choose|i: int| 0 <= i < j && dkey(all[i]) == (uid@, v);
                        assert(dkey(all[i]) == dkey(all[j]));
                    }
                }
                if self.find_session(&to).is_some() {
                    let notice = SPacket {
                        sender: uid.clone(),
                        destination: e.destination.clone(),
                        time: now,
                        packet: Packet::DiscardDraft { uuid: e.draft.id },
                    };
                    let ghost gn = notice;
                    self.hand(notice);
                    proof {
                        assert(before.has_session(v));
                        assert(start.has_session(v));
                        assert(v != uid@);
                        assert(none_after(all, dkey, j, dkey(all[j]))) by {
                            assert forall|b: int| j < b < all.len() implies dkey(#[trigger] all[b]) != dkey(all[j]) by {}
                        }
                        lemma_lookup(all, dkey, dval, j);
                        assert(is_discard_notice(gn, *uid, v, now, drafts0));
                        assert(self.outbox(v) == start.outbox(v).push(gn));
                        assert(self.got_notice(start, *uid, v, now));
                    }
                } else {
                    proof {
                        assert(!start.has_session(v));
                    }
                }
                assert(last_wins(self.current_drafts@, dkey, dval) =~= without_sender(
                    last_wins(all.take(j + 1), dkey, dval),
                    uid@,
                ));
                proof {
                    assert forall|w: Seq<char>| w != v implies #[trigger] self.agrees_on(before, w) by {}
                    assert forall|u: Seq<char>| #[trigger] self.backlog_of(u) == start.backlog_of(u) by {
                        assert(before.backlog_of(u) == start.backlog_of(u));
                        if u != v {
                            assert(self.agrees_on(before, u));
                        }
                    }
                    assert forall|w: Seq<char>| #[trigger] self.agrees_on(start, w) || {
                        &&& exists|i: int| 0 <= i < j + 1 && dkey(all[i]) == (uid@, w)
                        &&& start.has_session(w)
                        &&& self.got_notice(start, *uid, w, now)
                    } by {
                        if w != v {
                            assert(self.agrees_on(before, w));
                            if !before.agrees_on(start, w) {
                                let i = choose|i: int| 0 <= i < j && dkey(all[i]) == (uid@, w);
                                assert(self.outbox(w) == before.outbox(w));
                            }
                        } else if !self.agrees_on(start, w) {
                            assert(dkey(all[j]) == (uid@, w));
                        }
                    }
                    assert forall|i: int| 0 <= i < j + 1 && (#[trigger] dkey(all[i])).0 == uid@
                        && start.has_session(dkey(all[i]).1) implies self.got_notice(start, *uid, dkey(all[i]).1, now) by {
                        if i < j {
                            let w = dkey(all[i]).1;
                            assert(before.got_notice(start, *uid, w, now));
                            if w == v {
                                assert(dkey(all[i]) == dkey(all[j]));
                            }
                            assert(self.agrees_on(before, w));
                            assert(self.outbox(w) == before.outbox(w));
                        }
                    }
                }
            } else {
                let ghost kept = self.current_drafts@;
                proof {
                    assert forall|a: int| 0 <= a < kept.len() implies dkey(#[trigger] kept[a]) != dkey(e) by {
                        let i = choose|i: int| 0 <= i < j && dkey(kept[a]) == dkey(all[i]);
                        assert(i != j);
                    }
                }
                self.current_drafts.push(e);
                proof {
                    lemma_push(kept, dkey, dval, e);
                    let t = self.current_drafts@;
                    assert(t == kept.push(e));
                    assert forall|a: int, b: int| 0 <= a < t.len() && 0 <= b < t.len() && a != b implies
                        dkey(t[a]) != dkey(t[b]) by {
                        if a < kept.len() && b < kept.len() {
                            assert(t[a] == kept[a] && t[b] == kept[b]);
                        } else if a < kept.len() {
                            assert(t[a] == kept[a]);
                        } else {
                            assert(t[b] == kept[b]);
                        }
                    }
                    assert forall|a: int| 0 <= a < t.len() implies exists|i: int|
                        0 <= i < j + 1 && dkey(#[trigger] t[a]) == dkey(all[i]) by {
                        if a < kept.len() {
                            assert(t[a] == kept[a]);
                            let i = choose|i: int| 0 <= i < j && dkey(kept[a]) == dkey(all[i]);
                            assert(0 <= i < j + 1 && dkey(t[a]) == dkey(all[i]));
                        } else {
                            assert(dkey(t[a]) == dkey(all[j]));
                        }
                    }
                    assert(last_wins(t, dkey, dval) =~= without_sender(last_wins(all.take(j + 1), dkey, dval), uid@));
                    assert(self.open_senders == before.open_senders);
                    assert(self.backlog == before.backlog);
                    assert(self.delivered == before.delivered);
                    assert forall|v: Seq<char>| #[trigger] self.caught_up(v) by {
                        assert(before.caught_up(v));
                    }
                    assert forall|w: Seq<char>| #[trigger] self.agrees_on(before, w) by {}
                    assert forall|u: Seq<char>| #[trigger] self.backlog_of(u) == start.backlog_of(u) by {
                        assert(before.backlog_of(u) == start.backlog_of(u));
                    }
                    assert forall|w: Seq<char>| #[trigger] self.agrees_on(start, w) || {
                        &&& exists|i: int| 0 <= i < j + 1 && dkey(all[i]) == (uid@, w)
                        &&& start.has_session(w)
                        &&& self.got_notice(start, *uid, w, now)
                    } by {
                        assert(self.agrees_on(before, w));
                        if !before.agrees_on(start, w) {
                            let i = choose|i: int| 0 <= i < j && dkey(all[i]) == (uid@, w);
                        }
                    }
                    assert forall|i: int| 0 <= i < j + 1 && (#[trigger] dkey(all[i])).0 == uid@
                        && start.has_session(dkey(all[i]).1) implies self.got_notice(start, *uid, dkey(all[i]).1, now) by {
                        if i < j {
                            assert(self.outbox(dkey(all[i]).1) == before.outbox(dkey(all[i]).1));
                        }
                    }
                }
            }
        }
        proof {
            assert(all.take(all.len() as int) =~= all);
            assert forall|v: Seq<char>| old(self).has_session(v) && old(self).drafts().contains_key((uid@, v))
                implies #[trigger] self.got_notice(*old(self), *uid, v, now) by {
                crate::assoc::lemma_present(all, dkey, dval, (uid@, v));
                let i = choose|i: int| 0 <= i < all.len() && dkey(all[i]) == (uid@, v);
                assert(dkey(all[i]).0 == uid@);
            }
            assert forall|v: Seq<char>| !(old(self).has_session(v) && old(self).drafts().contains_key((uid@, v)))
                implies #[trigger] self.agrees_on(*old(self), v) by {
                if !self.agrees_on(start, v) {
                    let i = choose|i: int| 0 <= i < all.len() && dkey(all[i]) == (uid@, v);
                    assert(none_after(all, dkey, i, dkey(all[i]))) by {
                        assert forall|b: int| i < b < all.len() implies dkey(#[trigger] all[b]) != dkey(all[i]) by {}
                    }
                    lemma_lookup(all, dkey, dval, i);
                }
            }
        }
    }

    /// Ends `uid`'s session, if any, at time `now`, and discards every draft
    /// that `uid` was composing. Each recipient of such a draft that has a
    /// session is handed a `DiscardDraft` notice, best effort; one without a
    /// session is not, and nothing is kept for it.
    pub fn deregister_at(&mut self, uid: &UserId, now: Timestamp)
        requires
            old(self).wf(),
        ensures
            final(self).wf(),
            final(self).deregistered_from(*old(self), *uid, now),
    {
        match self.find_session(uid) {
            Some(i) => {
                self.drop_session(i);
            },
            None => {},
        }
        let ghost mid = *self;
        assert(mid.drafts() == old(self).drafts());
        assert forall|v: Seq<char>| #[trigger] mid.outbox(v) == old(self).outbox(v) by {}
        assert forall|v: Seq<char>| #[trigger] mid.received(v) == old(self).received(v) by {}
        assert forall|v: Seq<char>| #[trigger] mid.backlog_of(v) == old(self).backlog_of(v) by {}
        assert forall|v: Seq<char>| #[trigger] self.caught_up(v) by {
            assert(old(self).caught_up(v));
        }
        assert forall|v: Seq<char>| v != uid@ implies #[trigger] mid.has_session(v) == old(self).has_session(v) by {}
        self.discard_drafts(uid, now);
        proof {
            assert forall|u: Seq<char>| #[trigger] self.has_session(u) == mid.has_session(u) by {}
            assert forall|v: Seq<char>| v != uid@ && old(self).has_session(v) && old(self).drafts().contains_key((uid@, v))
                implies #[trigger] self.got_notice(*old(self), *uid, v, now) by {
                assert(mid.has_session(v));
                assert(self.got_notice(mid, *uid, v, now));
                let p = choose|p: SPacket| #[trigger] is_discard_notice(p, *uid, v, now, mid.drafts())
                    && self.outbox(v) == mid.outbox(v).push(p);
                assert(is_discard_notice(p, *uid, v, now, old(self).drafts()));
            }
            assert forall|v: Seq<char>| !(v != uid@ && old(self).has_session(v) && old(self).drafts().contains_key((uid@, v)))
                implies #[trigger] self.received(v) == old(self).received(v) by {
                if v != uid@ {
                    assert(mid.has_session(v) == old(self).has_session(v));
                }
                assert(self.agrees_on(mid, v));
            }
        }
    }

    /// Ends `uid`'s session at the current time; see `deregister_at`.
    pub fn deregister(&mut self, uid: &UserId)
        requires
            old(self).wf(),
        ensures
            final(self).wf(),
            exists|now: Timestamp| #[trigger] final(self).deregistered_from(*old(self), *uid, now),
    {
        let now = get_current_time();
        self.deregister_at(uid, now);
    }

    /// The position of the draft from `sender` to `destination`.
    fn find_draft(&self, sender: &UserId, destination: &Destination) -> (r: Option<usize>)
        requires
            self.lists_ok(),
        ensures
            r is Some ==> {
                &&& r->Some_0 < self.current_drafts@.len()
                &&& draft_entry_key()(self.current_drafts@[r->Some_0 as int]) == draft_key(*sender, *destination)
                &&& self.drafts().contains_key(draft_key(*sender, *destination))
                &&& self.drafts()[draft_key(*sender, *destination)] == self.current_drafts@[r->Some_0 as int].draft
            },
            r is None ==> !self.drafts().contains_key(draft_key(*sender, *destination)),
    {
        let ghost key = draft_key(*sender, *destination);
        let to = destination.to_user();
        let mut i: usize = 0;
        while i < self.current_drafts.len()
            invariant
                self.lists_ok(),
                to == destination.user(),
                key == draft_key(*sender, *destination),
                i <= self.current_drafts@.len(),
                forall|j: int| 0 <= j < i ==> draft_entry_key()(#[trigger] self.current_drafts@[j]) != key,
            decreases self.current_drafts@.len() - i,
        {
            let e = &self.current_drafts[i];
            let same_sender = e.sender.same_user(sender);
            let e_to = e.destination.to_user();
            let same_to = e_to.same_user(&to);
            assert(draft_entry_key()(self.current_drafts@[i as int]) == (e.sender@, e_to@));
            if same_sender && same_to {
                proof {
                    let t = self.current_drafts@;
                    assert forall|j: int| i < j < t.len() implies draft_entry_key()(#[trigger] t[j]) != key by {
                        assert(draft_entry_key()(t[j]) != draft_entry_key()(t[i as int]));
                    }
                    assert(none_after(self.current_drafts@, draft_entry_key(), i as int, key));
                    lemma_lookup(self.current_drafts@, draft_entry_key(), draft_entry_val(), i as int);
                }
                return Some(i);
            }
            i = i + 1;
        }
        proof {
            lemma_absent(self.current_drafts@, draft_entry_key(), draft_entry_val(), key);
        }
        None
    }

    /// Starts (or restarts) the draft from `sender` to `destination`.
    fn set_draft(&mut self, sender: &UserId, destination: &Destination, draft: Draft)
        requires
            old(self).wf(),
        ensures
            final(self).wf(),
            final(self).drafts() == old(self).drafts().insert(draft_key(*sender, *destination), draft),
            final(self).open_senders == old(self).open_senders,
            final(self).backlog == old(self).backlog,
            final(self).storage == old(self).storage,
            final(self).delivered == old(self).delivered,
    {
        let ghost s = self.current_drafts@;
        let ghost key = draft_entry_key();
        let ghost val = draft_entry_val();
        let entry = DraftEntry { sender: sender.clone(), destination: destination.clone(), draft };
        match self.find_draft(sender, destination) {
            Some(i) => {
                proof {
                    assert(none_after(s, key, i as int, key(s[i as int])));
                    lemma_update(s, key, val, i as int, entry);
                }
                self.current_drafts.set(i, entry);
                proof {
                    let t = self.current_drafts@;
                    assert forall|a: int, b: int| 0 <= a < t.len() && 0 <= b < t.len() && a != b implies
                        key(t[a]) != key(t[b]) by {
                        assert(key(t[a]) == key(s[a]) && key(t[b]) == key(s[b]));
                    }
                }
            },
            None => {
                proof {
                    lemma_push(s, key, val, entry);
                    assert forall|a: int| 0 <= a < s.len() implies key(s[a]) != key(entry) by {
                        if key(s[a]) == key(entry) {
                            lemma_lookup(s, key, val, a);
                            assert(none_after(s, key, a, key(s[a]))) by {
                                assert forall|b: int| a < b < s.len() implies key(#[trigger] s[b]) != key(s[a]) by {}
                            }
                        }
                    }
                }
                self.current_drafts.push(entry);
                proof {
                    let t = self.current_drafts@;
                    assert(t == s.push(entry));
                    assert forall|a: int, b: int| 0 <= a < t.len() && 0 <= b < t.len() && a != b implies
                        key(t[a]) != key(t[b]) by {
                        if a < s.len() && b < s.len() {
                            assert(t[a] == s[a] && t[b] == s[b]);
                        } else if a < s.len() {
                            assert(t[a] == s[a]);
                        } else {
                            assert(t[b] == s[b]);
                        }
                    }
                }
            },
        }
        assert forall|v: Seq<char>| #[trigger] self.caught_up(v) by {
            assert(old(self).caught_up(v));
        }
    }

    /// Takes the draft from `sender` to `destination` out of the table.
    fn take_draft(&mut self, sender: &UserId, destination: &Destination) -> (r: Option<Draft>)
        requires
            old(self).wf(),
        ensures
            final(self).wf(),
            old(self).drafts().contains_key(draft_key(*sender, *destination)) <==> r is Some,
            r is Some ==> r->Some_0 == old(self).drafts()[draft_key(*sender, *destination)],
            final(self).drafts() == old(self).drafts().remove(draft_key(*sender, *destination)),
            final(self).open_senders == old(self).open_senders,
            final(self).backlog == old(self).backlog,
            final(self).storage == old(self).storage,
            final(self).delivered == old(self).delivered,
    {
        let ghost s = self.current_drafts@;
        match self.find_draft(sender, destination) {
            Some(i) => {
                proof {
                    lemma_remove(s, draft_entry_key(), draft_entry_val(), i as int);
                }
                let e = self.current_drafts.remove(i);
                assert forall|v: Seq<char>| #[trigger] self.caught_up(v) by {
                    assert(old(self).caught_up(v));
                }
                Some(e.draft)
            },
            None => {
                assert(old(self).drafts().remove(draft_key(*sender, *destination)) =~= old(self).drafts());
                None
            },
        }
    }

    /// Replaces the content of the draft from `sender` to `destination` where
    /// it is the draft `uuid`; says whether it was.
    fn edit_draft(&mut self, sender: &UserId, destination: &Destination, uuid: MessageId, content: &String) -> (r: bool)
        requires
            old(self).wf(),
        ensures
            final(self).wf(),
            r == (old(self).drafts().contains_key(draft_key(*sender, *destination))
                && old(self).drafts()[draft_key(*sender, *destination)].id == uuid),
            r ==> final(self).drafts() == old(self).drafts().insert(
                draft_key(*sender, *destination),
                Draft { content: *content, ..old(self).drafts()[draft_key(*sender, *destination)] },
            ),
            !r ==> final(self).drafts() == old(self).drafts(),
            final(self).open_senders == old(self).open_senders,
            final(self).backlog == old(self).backlog,
            final(self).storage == old(self).storage,
            final(self).delivered == old(self).delivered,
    {
        let ghost s = self.current_drafts@;
        let ghost key = draft_entry_key();
        let ghost val = draft_entry_val();
        match self.find_draft(sender, destination) {
            Some(i) => {
                if self.current_drafts[i].draft.id == uuid {
                    proof {
                        assert(none_after(s, key, i as int, key(s[i as int])));
                    }
                    self.current_drafts[i].draft.content = content.clone();
                    proof {
                        lemma_update(s, key, val, i as int, self.current_drafts@[i as int]);
                        let t = self.current_drafts@;
                        assert forall|a: int, b: int| 0 <= a < t.len() && 0 <= b < t.len() && a != b implies
                            key(t[a]) != key(t[b]) by {
                            assert(key(t[a]) == key(s[a]) && key(t[b]) == key(s[b]));
                        }
                    }
                    assert forall|v: Seq<char>| #[trigger] self.caught_up(v) by {
                        assert(old(self).caught_up(v));
                    }
                    true
                } else {
                    false
                }
            },
            None => false,
        }
    }

    /// Processes the packet `msg` at time `now`, with `fresh` as the id of a
    /// draft that it starts: updates the draft table and the stored messages
    /// as the packet asks, then delivers what it emits, in order: the packet
    /// for the destination user goes to their session or, where they have
    /// none, to their backlog; where their session's receiving end turns out
    /// to be gone, the packet stays in their backlog and they are
    /// deregistered once the packet is processed. The echo to the sender is
    /// handed to the sender's session best effort, or kept in the sender's
    /// backlog where they have none. Returns whether every emitted packet went
    /// to a session that stayed.
    #[verifier::rlimit(100)]
    #[verifier::spinoff_prover]
    pub fn process_message_at(&mut self, msg: SPacket, now: Timestamp, fresh: MessageId) -> (r: Result<
        bool,
        ServerError,
    >)
        requires
            old(self).wf(),
        ensures
            final(self).wf(),
            r is Ok,
            final(self).processed_from(*old(self), msg, now, fresh, r->Ok_0),
    {
        let ghost gmsg = msg;
        let mut out: Vec<SPacket> = Vec::new();
        match &msg.packet {
            Packet::StartDraft => {
                let draft = Draft { id: fresh, content: String::new(), start_time: now };
                let ghost gd = draft;
                self.set_draft(&msg.sender, &msg.destination, draft);
                proof {
                    let key = draft_key(gmsg.sender, gmsg.destination);
                    assert(self.drafts().remove(key) =~= old(self).drafts().remove(key));
                    assert(self.drafts()[key] == gd);
                }
                out.push(SPacket {
                    sender: msg.sender.clone(),
                    destination: msg.destination.clone(),
                    time: now,
                    packet: Packet::NewDraft { uuid: fresh, start_time: now },
                });
                out.push(SPacket {
                    sender: msg.sender.clone(),
                    destination: Destination::User(msg.sender.clone()),
                    time: now,
                    packet: Packet::NewDraft { uuid: fresh, start_time: now },
                });
                assert(self.open_senders == old(self).open_senders);
                assert(self.backlog == old(self).backlog);
                assert(self.delivered == old(self).delivered);
                assert(self.stored() == stored_after(old(self).stored(), old(self).drafts(), gmsg, now));
            },
            Packet::EndDraft { uuid, content } => {
                match self.take_draft(&msg.sender, &msg.destination) {
                    Some(draft) => {
                        let m = draft.into_message(msg.sender.clone(), now);
                        let dest = msg.destination.clone();
                        let ghost s1 = *self;
                        let _ = self.storage.add_message(m, dest);
                        proof {
                            assert(self.open_senders == s1.open_senders);
                            assert(self.backlog == s1.backlog);
                            assert(self.current_drafts == s1.current_drafts);
                            assert forall|v: Seq<char>| #[trigger] self.caught_up(v) by {
                                assert(s1.caught_up(v));
                            }
                        }
                    },
                    None => {},
                }
                out.push(SPacket {
                    sender: msg.sender.clone(),
                    destination: msg.destination.clone(),
                    time: now,
                    packet: Packet::EndDraft { uuid: *uuid, content: content.clone() },
                });
                out.push(SPacket {
                    sender: msg.sender.clone(),
                    destination: Destination::User(msg.sender.clone()),
                    time: now,
                    packet: Packet::EndDraft { uuid: *uuid, content: content.clone() },
                });
                assert(self.open_senders == old(self).open_senders);
                assert(self.backlog == old(self).backlog);
                assert(self.delivered == old(self).delivered);
                assert(self.stored() == stored_after(old(self).stored(), old(self).drafts(), gmsg, now));
            },
            Packet::Edit { uuid, content, editing_draft } => {
                let edited = self.edit_draft(&msg.sender, &msg.destination, *uuid, content);
                if !edited && !*editing_draft {
                    let room_id = RoomId::from((msg.sender.clone(), msg.destination.clone()));
                    let ghost rooms0 = self.storage.rooms();
                    let ghost rk = room_key_of(gmsg.sender, gmsg.destination);
                    assert(room_id.key() == rk);
                    match self.storage.get_room_mut(&room_id) {
                        Ok(room) => {
                            let _ = room.edit_message(*uuid, content.clone());
                        },
                        Err(_) => {},
                    }
                    proof {
                        assert forall|v: Seq<char>| #[trigger] self.caught_up(v) by {
                            assert(old(self).caught_up(v));
                        }
                        if rooms0.contains_key(rk) && !rooms0[rk].contains_key(*uuid) {
                            assert(rooms0.insert(rk, rooms0[rk]) =~= rooms0);
                        }
                    }
                }
                out.push(msg.clone());
                assert(self.open_senders == old(self).open_senders);
                assert(self.backlog == old(self).backlog);
                assert(self.delivered == old(self).delivered);
                assert(self.stored() == stored_after(old(self).stored(), old(self).drafts(), gmsg, now));
            },
            Packet::DiscardDraft { .. } => {
                let _ = self.take_draft(&msg.sender, &msg.destination);
                out.push(msg.clone());
            },
            _ => {
                out.push(msg.clone());
            },
        }
        assert(out@ =~= emissions(gmsg, now, fresh));
        assert(drafts_after(old(self).drafts(), self.drafts(), gmsg, now, fresh));
        assert(self.stored() == stored_after(old(self).stored(), old(self).drafts(), gmsg, now));
        let ghost stepped = *self;
        assert forall|u: Seq<char>| #[trigger] stepped.agrees_on(*old(self), u) by {}
        let to = msg.destination.to_user();
        let had = self.is_registered(&to);
        let mut broken: Vec<UserId> = Vec::new();
        assert(out@.len() >= 1);
        let first = out[0].clone();
        let ok1 = self.deliver(first, &mut broken);
        let ghost p1 = *self;
        let ghost em = emissions(gmsg, now, fresh);
        let ok2 = if out.len() > 1 {
            let echo = out[1].clone();
            let echo_to = echo.destination.to_user();
            let live = self.is_registered(&echo_to);
            assert(echo == em[1]);
            self.hand(echo);
            proof {
                let b = em[1];
                assert(self.outbox(b.to()) == p1.outbox(b.to()).push(b));
                assert(live == p1.has_session(b.to()));
                assert forall|u: Seq<char>| u != b.to() implies #[trigger] self.agrees_on(p1, u) by {}
                assert(!p1.has_session(b.to()) ==> self.received(b.to()) == p1.received(b.to()));
                assert(self.open_senders == p1.open_senders);
            }
            live
        } else {
            true
        };
        let ghost p2 = *self;
        assert(ok1 == (stepped.has_session(to@) && p1.has_session(to@)));
        assert(ok2 == (em.len() == 2 ==> p1.has_session(em[1].to())));
        let lost = had && !self.is_registered(&to);
        if lost {
            self.deregister_at(&to, now);
        }
        proof {
            let em = emissions(gmsg, now, fresh);
            let a = em[0];
            let top = to@;
            assert(a.to() == top);
            assert(em.len() == 1 || em.len() == 2);
            assert(Seq::<SPacket>::empty().push(a) =~= seq![a]);
            assert forall|u: Seq<char>| #[trigger] routed_to(seq![a], u) == if a.to() == u {
                seq![a]
            } else {
                Seq::<SPacket>::empty()
            } by {
                lemma_routed_push(Seq::<SPacket>::empty(), a, u);
                assert(routed_to(Seq::<SPacket>::empty(), u) =~= Seq::<SPacket>::empty());
            }
            if em.len() == 2 {
                let b = em[1];
                assert(em =~= seq![a].push(b));
                assert(b.to() == gmsg.sender@);
                assert forall|u: Seq<char>| #[trigger] routed_to(em, u) == if b.to() == u {
                    routed_to(seq![a], u).push(b)
                } else {
                    routed_to(seq![a], u)
                } by {
                    lemma_routed_push(seq![a], b, u);
                }
            } else {
                assert(em =~= seq![a]);
            }
            // sessions and outboxes after the deliveries
            assert forall|u: Seq<char>| u != top implies #[trigger] p2.has_session(u) == old(self).has_session(u) by {
                assert(stepped.agrees_on(*old(self), u));
                assert(p1.agrees_on(stepped, u));
            }
            assert(p2.has_session(top) == p1.has_session(top)) by {
                if em.len() == 2 {
                    assert(p2.open_senders == p1.open_senders);
                }
            }
            assert(p1.has_session(top) ==> old(self).has_session(top)) by {
                assert(stepped.agrees_on(*old(self), top));
            }
            assert(p1.outbox(top) == stepped.outbox(top).push(a));
            assert forall|u: Seq<char>| #[trigger] p2.outbox(u) =~= old(self).outbox(u) + routed_to(em, u)
                && (!old(self).has_session(u) ==> p2.received(u) == old(self).received(u)) by {
                assert(stepped.agrees_on(*old(self), u));
                if u != top {
                    assert(p1.agrees_on(stepped, u));
                } else {
                    assert(!stepped.has_session(u) ==> p1.received(u) == stepped.received(u));
                }
                if em.len() == 2 {
                    let b = em[1];
                    if u == b.to() {
                        assert(p2.outbox(u) == p1.outbox(u).push(b));
                        assert(!p1.has_session(u) ==> p2.received(u) == p1.received(u));
                    } else {
                        assert(p2.agrees_on(p1, u));
                    }
                } else {
                    assert(p2 == p1);
                }
            }
            assert(p2.drafts() == stepped.drafts());
            assert(lost == (old(self).has_session(top) && !self.has_session(top))) by {
                assert(stepped.agrees_on(*old(self), top));
            }
            // the final state against the one after the deliveries
            assert forall|u: Seq<char>| u != top implies #[trigger] self.has_session(u) == p2.has_session(u) by {}
            assert(self.has_session(top) == p2.has_session(top));
            assert(self.stored() == p2.stored());
            assert(self.drafts() == (if lost { without_sender(stepped.drafts(), top) } else { stepped.drafts() }));
            assert forall|u: Seq<char>| !old(self).has_session(u) implies {
                &&& #[trigger] self.backlog_of(u) == old(self).backlog_of(u) + routed_to(em, u)
                &&& self.received(u) == old(self).received(u)
            } by {
                assert(!p2.has_session(u));
                assert(self.received(u) == p2.received(u));
                assert(self.backlog_of(u) == p2.backlog_of(u));
                let rl = old(self).received(u).len() as int;
                assert(p2.backlog_of(u) =~= p2.outbox(u).skip(rl));
                assert(old(self).backlog_of(u) + routed_to(em, u) =~= (old(self).outbox(u) + routed_to(em, u)).skip(rl));
            }
            assert forall|u: Seq<char>| #[trigger] self.outbox_after(*old(self), u, em, lost, to, now) by {
                if lost && u != top && old(self).has_session(u) && old(self).drafts().contains_key((top, u)) {
                    assert(p2.has_session(u));
                    lemma_drafts_after_elsewhere(old(self).drafts(), stepped.drafts(), gmsg, now, fresh, (top, u));
                    assert(self.got_notice(p2, to, u, now));
                    let p = choose|p: SPacket| #[trigger] is_discard_notice(p, to, u, now, p2.drafts())
                        && self.outbox(u) == p2.outbox(u).push(p);
                    assert(is_discard_notice(p, to, u, now, old(self).drafts()));
                } else if lost {
                    if u != top {
                        lemma_drafts_after_elsewhere(old(self).drafts(), stepped.drafts(), gmsg, now, fresh, (top, u));
                    }
                    assert(self.received(u) == p2.received(u));
                    assert(self.backlog_of(u) == p2.backlog_of(u));
                }
            }
            // what `sent` says
            if ok1 && ok2 {
                assert forall|u: Seq<char>| #[trigger] routed_to(em, u).len() > 0 implies old(self).has_session(u)
                    && self.has_session(u) by {
                    assert(stepped.agrees_on(*old(self), u));
                    if u != top {
                        assert(em.len() == 2 && u == em[1].to());
                        assert(p1.agrees_on(stepped, u));
                        assert(p2.open_senders == p1.open_senders);
                    }
                }
            } else if !ok1 {
                assert(routed_to(em, top).len() > 0);
            } else {
                assert(em.len() == 2);
                assert(routed_to(em, em[1].to()).len() > 0);
                if em[1].to() != top {
                    assert(p1.agrees_on(stepped, em[1].to()));
                }
            }
        }
        Ok(ok1 && ok2)
    }

    /// Processes the packet `msg` at the current time, minting a fresh id for
    /// a draft that it starts; see `process_message_at`.
    pub fn process_message(&mut self, msg: SPacket) -> (r: Result<bool, ServerError>)
        requires
            old(self).wf(),
        ensures
            final(self).wf(),
            r is Ok,
            exists|now: Timestamp, fresh: MessageId| #[trigger]
                final(self).processed_from(*old(self), msg, now, fresh, r->Ok_0),
    {
        let now = get_current_time();
        let fresh: MessageId = match msg.packet {
            Packet::StartDraft => make_uuid(),
            _ => 0,
        };
        self.process_message_at(msg, now, fresh)
    }

    /// Every user has at most one live session, and has one exactly when
    /// `has_session` says so.
    pub proof fn lemma_one_session_per_user(&self, u: Seq<char>)
        requires
            self.wf(),
        ensures
            self.session_count(u) <= 1,
            self.has_session(u) <==> self.session_count(u) == 1,
    {
        lemma_count_unique(self.open_senders@, session_key(), u);
    }

    /// The draft table holds at most one draft per (sender, destination) key,
    /// and one exactly for the keys of `drafts`.
    pub proof fn lemma_one_draft_per_key(&self, k: DraftKey)
        requires
            self.wf(),
        ensures
            self.draft_count(k) <= 1,
            self.drafts().contains_key(k) <==> self.draft_count(k) == 1,
    {
        let s = self.current_drafts@;
        lemma_count_unique(s, draft_entry_key(), k);
        if self.drafts().contains_key(k) {
            lemma_present(s, draft_entry_key(), draft_entry_val(), k);
        }
        if self.draft_count(k) == 1 {
            let i = choose|i: int| 0 <= i < s.len() && draft_entry_key()(s[i]) == k;
            assert(none_after(s, draft_entry_key(), i, k)) by {
                assert forall|j: int| i < j < s.len() implies draft_entry_key()(#[trigger] s[j]) != k by {
                    assert(draft_entry_key()(s[j]) != draft_entry_key()(s[i]));
                }
            }
            lemma_lookup(s, draft_entry_key(), draft_entry_val(), i);
        }
    }

    /// A user with a live session has been handed everything ever routed to
    /// them, in the order it was routed: nothing waits, nothing is skipped.
    pub proof fn lemma_session_has_everything(&self, u: Seq<char>)
        requires
            self.wf(),
            self.has_session(u),
        ensures
            self.received(u) == self.outbox(u),
    {
        assert(self.caught_up(u));
        assert(self.outbox(u) =~= self.received(u));
    }

    /// While `u` has no session, processing packets leaves what `u` received
    /// alone and appends to `u`'s backlog exactly the packets routed to `u`,
    /// in processing order.
    pub proof fn lemma_offline_backlog(
        states: Seq<Self>,
        msgs: Seq<SPacket>,
        nows: Seq<Timestamp>,
        fresh: Seq<MessageId>,
        sents: Seq<bool>,
        u: Seq<char>,
    )
        requires
            states.len() == msgs.len() + 1,
            nows.len() >= msgs.len(),
            fresh.len() >= msgs.len(),
            sents.len() >= msgs.len(),
            forall|i: int| 0 <= i < msgs.len() ==> #[trigger] states[i + 1].processed_from(
                states[i],
                msgs[i],
                nows[i],
                fresh[i],
                sents[i],
            ),
            forall|i: int| 0 <= i < states.len() ==> !#[trigger] states[i].has_session(u),
        ensures
            states.last().backlog_of(u) == states[0].backlog_of(u) + routed_all(msgs, nows, fresh, u),
            states.last().received(u) == states[0].received(u),
        decreases msgs.len(),
    {
        if msgs.len() > 0 {
            let n = msgs.len() - 1;
            let t = states.drop_last();
            assert forall|i: int| 0 <= i < msgs.drop_last().len() implies #[trigger] t[i + 1].processed_from(
                t[i],
                msgs.drop_last()[i],
                nows[i],
                fresh[i],
                sents[i],
            ) by {
                assert(states[i + 1].processed_from(states[i], msgs[i], nows[i], fresh[i], sents[i]));
            }
            assert forall|i: int| 0 <= i < t.len() implies !#[trigger] t[i].has_session(u) by {
                assert(!states[i].has_session(u));
            }
            Self::lemma_offline_backlog(t, msgs.drop_last(), nows, fresh, sents, u);
            assert(states[n + 1].processed_from(states[n], msgs[n], nows[n], fresh[n], sents[n]));
            assert(!states[n].has_session(u));
            assert(t.last() == states[n]);
            assert(states.last() == states[n + 1]);
            assert(states[n + 1].backlog_of(u) == states[n].backlog_of(u) + routed_to(emissions(msgs[n], nows[n], fresh[n]), u));
            assert(states.last().backlog_of(u) =~= states[0].backlog_of(u) + routed_all(msgs, nows, fresh, u));
        }
    }

    /// A user who had no session while packets were processed and then opens
    /// one receives on it first what waited in their backlog before, then the
    /// packets routed to them meanwhile, in processing order, then the
    /// catch-up packets; after that, only what is routed to them later
    /// (`lemma_session_has_everything`).
    pub proof fn lemma_offline_then_register(
        states: Seq<Self>,
        msgs: Seq<SPacket>,
        nows: Seq<Timestamp>,
        fresh: Seq<MessageId>,
        sents: Seq<bool>,
        u: Seq<char>,
        after: Self,
        now: Timestamp,
    )
        requires
            states.len() == msgs.len() + 1,
            nows.len() >= msgs.len(),
            fresh.len() >= msgs.len(),
            sents.len() >= msgs.len(),
            forall|i: int| 0 <= i < msgs.len() ==> #[trigger] states[i + 1].processed_from(
                states[i],
                msgs[i],
                nows[i],
                fresh[i],
                sents[i],
            ),
            forall|i: int| 0 <= i < states.len() ==> !#[trigger] states[i].has_session(u),
            after.registered_from(states.last(), u, now),
        ensures
            after.received(u) == states[0].received(u) + states[0].backlog_of(u) + routed_all(msgs, nows, fresh, u)
                + states.last().catch_up(u, now),
    {
        Self::lemma_offline_backlog(states, msgs, nows, fresh, sents, u);
        assert(after.received(u) =~= states[0].received(u) + states[0].backlog_of(u) + routed_all(msgs, nows, fresh, u)
            + states.last().catch_up(u, now));
    }

    /// The message storage.
    pub fn storage(&self) -> (r: &DB)
        ensures
            r.rooms() == self.stored(),
    {
        &self.storage
    }

    /// Whether `uid` has a live session.
    pub fn is_registered(&self, uid: &UserId) -> (r: bool)
        ensures
            r == self.has_session(uid@),
    {
        self.find_session(uid).is_some()
    }

    /// How many packets wait in `uid`'s backlog.
    pub fn backlog_len(&self, uid: &UserId) -> (r: usize)
        ensures
            r == self.backlog_of(uid@).len(),
    {
        match self.find_backlog(uid) {
            Some(i) => {
                proof {
                    lemma_lookup(self.backlog@, backlog_key(), backlog_val(), i as int);
                }
                self.backlog[i].packets.len()
            },
            None => {
                proof {
                    lemma_absent(self.backlog@, backlog_key(), backlog_val(), uid@);
                }
                0
            },
        }
    }

    /// The draft in progress from `sender` to `destination`, if any.
    pub fn current_draft(&self, sender: &UserId, destination: &Destination) -> (r: Option<&Draft>)
        requires
            self.wf(),
        ensures
            self.drafts().contains_key(draft_key(*sender, *destination)) <==> r is Some,
            r is Some ==> *r->Some_0 == self.drafts()[draft_key(*sender, *destination)],
    {
        match self.find_draft(sender, destination) {
            Some(i) => Some(&self.current_drafts[i].draft),
            None => None,
        }
    }
}

} // verus!
