//! The routing table: which clients are subscribed to which topic filters,
//! and the channels that reach them.
use vstd::prelude::*;
use tokio::sync::mpsc::Sender;
use bytes::Bytes;

use crate::buffer::{bytes_clone, bytes_view};
use crate::packet::publish::{PublishFields, PublishPacket};
use crate::packet::{qos_code, QoS};

pub mod laws;
pub mod topic;

pub use self::topic::topic_matches;
use self::topic::topic_matches_spec;
use self::laws::{
    lemma_no_channels_wf, lemma_no_rows_wf, lemma_put_channel_keeps_wf, lemma_register_keeps_wf,
    lemma_remove_keeps_wf, lemma_subscribe_keeps_wf, router_wf,
};

verus! {

// ---------------------------------------------------------------------------
// Routing table
// ---------------------------------------------------------------------------

pub type ClientId = String;

pub type PacketId = u16;

#[verifier::external_type_specification]
#[verifier::external_body]
#[verifier::reject_recursive_types(T)]
pub struct ExSender<T>(Sender<T>);

/// A message queued for one subscriber.
#[derive(Debug)]
pub struct RoutedMessage {
    pub publish: PublishPacket,
    pub packet_id: Option<u16>,
}

impl Clone for RoutedMessage {
    fn clone(&self) -> (r: Self)
        ensures
            r.publish@ == self.publish@,
            r.packet_id == self.packet_id,
    {
        RoutedMessage { publish: self.publish.clone(), packet_id: self.packet_id }
    }
}

/// What a client asks of the router.
#[derive(Debug)]
pub enum ClientCommand {
    Subscribe { topic_filter: String, qos: QoS },
    UnsubscribeAll,
    Publish { publish: PublishPacket },
    PubAck { packet_id: PacketId },
}

/// One subscription of one client, with the channel that reaches it.
pub struct SubscriptionEntry {
    pub client_id: ClientId,
    pub topic_filter: String,
    pub qos: QoS,
    pub sender: Sender<RoutedMessage>,
}

/// A subscription as plain values: the client identifier, the topic filter,
/// the granted QoS, and the channel that reaches the client.
pub type EntryView = (Seq<char>, Seq<char>, QoS, Sender<RoutedMessage>);

/// One client's row of the subscription table: its identifier and its subscriptions, in order.
pub type ClientRow = (Seq<char>, Seq<EntryView>);

impl View for SubscriptionEntry {
    type V = EntryView;

    open spec fn view(&self) -> EntryView {
        (self.client_id@, self.topic_filter@, self.qos, self.sender)
    }
}

pub open spec fn entries_view(v: Seq<SubscriptionEntry>) -> Seq<EntryView> {
    v.map_values(|e: SubscriptionEntry| e@)
}

pub open spec fn table_view(t: Seq<(ClientId, Vec<SubscriptionEntry>)>) -> Seq<ClientRow> {
    t.map_values(|c: (ClientId, Vec<SubscriptionEntry>)| (c.0@, entries_view(c.1@)))
}

pub open spec fn sender_keys(t: Seq<(ClientId, Sender<RoutedMessage>)>) -> Seq<Seq<char>> {
    t.map_values(|c: (ClientId, Sender<RoutedMessage>)| c.0@)
}

pub open spec fn sender_channels(t: Seq<(ClientId, Sender<RoutedMessage>)>) -> Seq<Sender<RoutedMessage>> {
    t.map_values(|c: (ClientId, Sender<RoutedMessage>)| c.1)
}

/// One message handed to a channel: the channel, the message, its packet identifier.
pub type Handoff = (Sender<RoutedMessage>, PublishFields, Option<u16>);

/// The router as plain values.
pub struct RouterView {
    /// The subscription table: one row per client, in the order rows were made.
    pub subscriptions: Seq<ClientRow>,
    /// The clients that have a channel registered, in the order they came.
    pub clients: Seq<Seq<char>>,
    /// The channel registered for each client of `clients`, at the same place.
    pub channels: Seq<Sender<RoutedMessage>>,
    /// The packet identifier that the next QoS 1 delivery gets.
    pub next_packet_id: u16,
    /// Every message the router has handed to a channel, in order.
    pub handed: Seq<Handoff>,
}

/// The routing state: who is subscribed to what, and which clients can be
/// reached by which channel. Retained messages are not kept.
pub struct Router {
    subscriptions: Vec<(ClientId, Vec<SubscriptionEntry>)>,
    senders: Vec<(ClientId, Sender<RoutedMessage>)>,
    next_packet_id: u16,
    handed: Ghost<Seq<Handoff>>,
}

impl View for Router {
    type V = RouterView;

    closed spec fn view(&self) -> RouterView {
        RouterView {
            subscriptions: table_view(self.subscriptions@),
            clients: sender_keys(self.senders@),
            channels: sender_channels(self.senders@),
            next_packet_id: self.next_packet_id,
            handed: self.handed@,
        }
    }
}

// --- the model's operations ---

/// The position of the first occurrence of `k` in `keys`, or -1.
pub open spec fn key_position(keys: Seq<Seq<char>>, k: Seq<char>) -> int {
    if exists|i: int| 0 <= i < keys.len() && keys[i] == k && forall|j: int| 0 <= j < i ==> keys[j] != k {
        choose|i: int| 0 <= i < keys.len() && keys[i] == k && forall|j: int| 0 <= j < i ==> keys[j] != k
    } else {
        -1
    }
}

pub open spec fn row_keys(t: Seq<ClientRow>) -> Seq<Seq<char>> {
    t.map_values(|r: ClientRow| r.0)
}


/// A key set with `k` added at the end unless it is there.
pub open spec fn keys_insert(keys: Seq<Seq<char>>, k: Seq<char>) -> Seq<Seq<char>> {
    if key_position(keys, k) >= 0 {
        keys
    } else {
        keys.push(k)
    }
}

/// A key set with the first `k` taken out.
pub open spec fn keys_remove(keys: Seq<Seq<char>>, k: Seq<char>) -> Seq<Seq<char>> {
    if key_position(keys, k) >= 0 {
        keys.remove(key_position(keys, k))
    } else {
        keys
    }
}

/// The channels after `id` registers `s`: `s` replaces the channel of `id`,
/// or comes last when `id` has none.
pub open spec fn channels_put(
    keys: Seq<Seq<char>>,
    chans: Seq<Sender<RoutedMessage>>,
    id: Seq<char>,
    s: Sender<RoutedMessage>,
) -> Seq<Sender<RoutedMessage>> {
    if key_position(keys, id) >= 0 {
        chans.update(key_position(keys, id), s)
    } else {
        chans.push(s)
    }
}

/// The channels without the channel of `id`.
pub open spec fn channels_remove(keys: Seq<Seq<char>>, chans: Seq<Sender<RoutedMessage>>, id: Seq<char>) -> Seq<
    Sender<RoutedMessage>,
> {
    if key_position(keys, id) >= 0 {
        chans.remove(key_position(keys, id))
    } else {
        chans
    }
}

/// The channel registered for `id`, if any.
pub open spec fn channel_of(v: RouterView, id: Seq<char>) -> Option<Sender<RoutedMessage>> {
    if key_position(v.clients, id) >= 0 {
        Some(v.channels[key_position(v.clients, id)])
    } else {
        None
    }
}

/// The table with a row for `id` added at the end unless it has one.
pub open spec fn table_ensure_row(t: Seq<ClientRow>, id: Seq<char>) -> Seq<ClientRow> {
    if key_position(row_keys(t), id) >= 0 {
        t
    } else {
        t.push((id, Seq::empty()))
    }
}

/// The table without the first row of `id`.
pub open spec fn table_remove_row(t: Seq<ClientRow>, id: Seq<char>) -> Seq<ClientRow> {
    if key_position(row_keys(t), id) >= 0 {
        t.remove(key_position(row_keys(t), id))
    } else {
        t
    }
}

/// A client's subscriptions without those to `filter`.
pub open spec fn without_filter(entries: Seq<EntryView>, filter: Seq<char>) -> Seq<EntryView>
    decreases entries.len(),
{
    if entries.len() == 0 {
        Seq::empty()
    } else {
        (if entries[0].1 == filter {
            Seq::empty()
        } else {
            seq![entries[0]]
        }) + without_filter(entries.drop_first(), filter)
    }
}

/// The table after `id` subscribes to `filter` with `qos` through channel
/// `s`: the row of `id` (made when missing) loses any subscription to
/// `filter` and gains the new one last.
pub open spec fn table_subscribe(
    t: Seq<ClientRow>,
    id: Seq<char>,
    filter: Seq<char>,
    qos: QoS,
    s: Sender<RoutedMessage>,
) -> Seq<ClientRow> {
    let t1 = table_ensure_row(t, id);
    let i = key_position(row_keys(t1), id);
    t1.update(i, (id, without_filter(t1[i].1, filter).push((id, filter, qos, s))))
}

/// `next_packet_id` state after handing out `n` identifiers.
pub open spec fn advance_id(id: u16, n: nat) -> u16 {
    ((id + n) % 65536) as u16
}

/// The first occurrence found by a scan from the front is the key's position.
pub(crate) proof fn lemma_key_position_found(keys: Seq<Seq<char>>, k: Seq<char>, i: int)
    requires
        0 <= i < keys.len(),
        keys[i] == k,
        forall|j: int| 0 <= j < i ==> keys[j] != k,
    ensures
        key_position(keys, k) == i,
{
    let p = key_position(keys, k);
    assert(p == i) by {
        if p < i {
            assert(keys[p] == k);
        } else if p > i {
            assert(keys[i] != k);
        }
    }
}

/// A key that no scan finds has no position.
pub(crate) proof fn lemma_key_position_absent(keys: Seq<Seq<char>>, k: Seq<char>)
    requires
        forall|j: int| 0 <= j < keys.len() ==> keys[j] != k,
    ensures
        key_position(keys, k) == -1,
{
}

/// A position, when there is one, holds the key.
pub proof fn lemma_key_position_valid(keys: Seq<Seq<char>>, k: Seq<char>)
    ensures
        key_position(keys, k) >= 0 ==> (key_position(keys, k) < keys.len() && keys[key_position(keys, k)] == k),
        key_position(keys, k) < 0 ==> key_position(keys, k) == -1 && forall|j: int|
            0 <= j < keys.len() ==> keys[j] != k,
{
    if key_position(keys, k) < 0 {
        assert forall|j: int| 0 <= j < keys.len() implies keys[j] != k by {
            if keys[j] == k {
                lemma_first_occurrence_exists(keys, k, j);
            }
        }
    }
}

proof fn lemma_first_occurrence_exists(keys: Seq<Seq<char>>, k: Seq<char>, j: int)
    requires
        0 <= j < keys.len(),
        keys[j] == k,
    ensures
        exists|i: int| 0 <= i < keys.len() && keys[i] == k && forall|m: int| 0 <= m < i ==> keys[m] != k,
    decreases j,
{
    if exists|m: int| 0 <= m < j && keys[m] == k {
        let m = choose|m: int| 0 <= m < j && keys[m] == k;
        lemma_first_occurrence_exists(keys, k, m);
    } else {
        assert(forall|m: int| 0 <= m < j ==> keys[m] != k);
    }
}

/// `<Sender as Clone>::clone`: another handle on the same channel. A
/// `Sender` holds only a shared pointer to the channel, which the clone
/// copies (the reference count lives behind the pointer), so the clone is
/// the same value as the original.
#[verifier::external_body]
pub(crate) fn clone_sender(s: &Sender<RoutedMessage>) -> (r: Sender<RoutedMessage>)
    ensures
        r == *s,
{
    s.clone()
}

/// `Sender::try_send`: queues the message when the channel is open and has
/// room. Whether it did depends on the state of the channel and its receiver
/// at that moment, so nothing is promised of the answer; beside the answer
/// comes a ghost record of what was handed over: the channel, the message and
/// its packet identifier.
#[verifier::external_body]
pub(crate) fn try_send(s: &Sender<RoutedMessage>, msg: RoutedMessage) -> (r: (bool, Ghost<Handoff>))
    ensures
        r.1@ == (*s, msg.publish@, msg.packet_id),
{
    let handed = Ghost((*s, msg.publish@, msg.packet_id));
    (s.try_send(msg).is_ok(), handed)
}

/// Where the first row of `id` stands in the table.
fn find_row(t: &Vec<(ClientId, Vec<SubscriptionEntry>)>, id: &String) -> (r: Option<usize>)
    ensures
        match r {
            Some(i) => i == key_position(row_keys(table_view(t@)), id@),
            None => key_position(row_keys(table_view(t@)), id@) == -1,
        },
{
    let ghost keys = row_keys(table_view(t@));
    let mut i: usize = 0;
    while i < t.len()
        invariant
            i <= t@.len(),
            keys == row_keys(table_view(t@)),
            keys.len() == t@.len(),
            forall|j: int| 0 <= j < i ==> keys[j] != id@,
        decreases t@.len() - i,
    {
        assert(keys[i as int] == t@[i as int].0@);
        if t[i].0 == *id {
            proof {
                lemma_key_position_found(keys, id@, i as int);
            }
            return Some(i);
        }
        i = i + 1;
    }
    proof {
        lemma_key_position_absent(keys, id@);
    }
    None
}

/// Where the channel of `id` stands among the registered channels.
fn find_sender(t: &Vec<(ClientId, Sender<RoutedMessage>)>, id: &String) -> (r: Option<usize>)
    ensures
        match r {
            Some(i) => i == key_position(sender_keys(t@), id@),
            None => key_position(sender_keys(t@), id@) == -1,
        },
{
    let ghost keys = sender_keys(t@);
    let mut i: usize = 0;
    while i < t.len()
        invariant
            i <= t@.len(),
            keys == sender_keys(t@),
            keys.len() == t@.len(),
            forall|j: int| 0 <= j < i ==> keys[j] != id@,
        decreases t@.len() - i,
    {
        assert(keys[i as int] == t@[i as int].0@);
        if t[i].0 == *id {
            proof {
                lemma_key_position_found(keys, id@, i as int);
            }
            return Some(i);
        }
        i = i + 1;
    }
    proof {
        lemma_key_position_absent(keys, id@);
    }
    None
}

/// The subscriptions that are not to `filter`, in order.
fn drop_filter(entries: Vec<SubscriptionEntry>, filter: &String) -> (r: Vec<SubscriptionEntry>)
    ensures
        entries_view(r@) == without_filter(entries_view(entries@), filter@),
{
    let ghost all = entries_view(entries@);
    let mut rest = entries;
    let mut kept: Vec<SubscriptionEntry> = Vec::new();
    assert(entries_view(kept@) + without_filter(entries_view(rest@), filter@) =~= all.subrange(0, 0)
        + without_filter(all, filter@));
    while rest.len() > 0
        invariant
            entries_view(kept@) + without_filter(entries_view(rest@), filter@) == without_filter(all, filter@),
        decreases rest@.len(),
    {
        let ghost rv = entries_view(rest@);
        let e = rest.remove(0);
        assert(entries_view(rest@) =~= rv.drop_first());
        if !(e.topic_filter == *filter) {
            kept.push(e);
            assert(entries_view(kept@) =~= entries_view(kept@).drop_last().push(e@));
        }
        assert(entries_view(kept@) + without_filter(entries_view(rest@), filter@) =~= without_filter(
            all,
            filter@,
        ));
    }
    assert(without_filter(entries_view(rest@), filter@) =~= Seq::<EntryView>::empty());
    assert(entries_view(kept@) + Seq::<EntryView>::empty() =~= entries_view(kept@));
    kept
}

impl Router {
    /// Every router keeps `router_wf`: one row and one channel per client,
    /// each row holding only its client's subscriptions, one per filter.
    /// (`use_type_invariant` on a router gives it.)
    #[verifier::type_invariant]
    pub open spec fn keeps_wf(self) -> bool {
        router_wf(self@)
    }

    pub fn new() -> (r: Self)
        ensures
            r@.subscriptions == Seq::<ClientRow>::empty(),
            r@.clients == Seq::<Seq<char>>::empty(),
            r@.channels == Seq::<Sender<RoutedMessage>>::empty(),
            r@.next_packet_id == 1,
            r@.handed == Seq::<Handoff>::empty(),
            router_wf(r@),
    {
        let r = Self { subscriptions: Vec::new(), senders: Vec::new(), next_packet_id: 1, handed: Ghost(Seq::empty()) };
        assert(r@.subscriptions =~= Seq::<ClientRow>::empty());
        assert(r@.clients =~= Seq::<Seq<char>>::empty());
        assert(r@.channels =~= Seq::<Sender<RoutedMessage>>::empty());
        r
    }

    /// Hands out the next packet identifier; identifiers wrap around after 65535.
    pub fn next_packet_id(&mut self) -> (r: PacketId)
        ensures
            r == old(self)@.next_packet_id,
            final(self)@ == (RouterView { next_packet_id: advance_id(old(self)@.next_packet_id, 1), ..old(self)@ }),
    {
        proof {
            use_type_invariant(&*self);
        }
        let id = self.next_packet_id;
        self.next_packet_id = self.next_packet_id.wrapping_add(1);
        id
    }

    /// Registers (or replaces) the channel of `client_id`.
    fn put_sender(&mut self, client_id: ClientId, sender: Sender<RoutedMessage>)
        ensures
            final(self)@ == (RouterView {
                clients: keys_insert(old(self)@.clients, client_id@),
                channels: channels_put(old(self)@.clients, old(self)@.channels, client_id@, sender),
                ..old(self)@
            }),
    {
        proof {
            use_type_invariant(&*self);
        }
        let ghost v0 = self@;
        let ghost s = sender;
        let mut senders: Vec<(ClientId, Sender<RoutedMessage>)> = Vec::new();
        proof {
            lemma_no_channels_wf(v0, v0.subscriptions);
            assert(sender_keys(senders@) =~= Seq::<Seq<char>>::empty());
            assert(sender_channels(senders@) =~= Seq::<Sender<RoutedMessage>>::empty());
        }
        std::mem::swap(&mut senders, &mut self.senders);
        let ghost before = senders@;
        match find_sender(&senders, &client_id) {
            Some(i) => {
                let _replaced = senders.remove(i);
                senders.insert(i, (client_id, sender));
                assert(sender_keys(senders@) =~= sender_keys(before));
                assert(sender_channels(senders@) =~= sender_channels(before).update(i as int, s));
            },
            None => {
                senders.push((client_id, sender));
                assert(sender_keys(senders@) =~= sender_keys(before).push(client_id@));
                assert(sender_channels(senders@) =~= sender_channels(before).push(s));
            },
        }
        proof {
            lemma_put_channel_keeps_wf(v0, client_id@, s);
        }
        self.senders = senders;
    }

    /// Registers the channel of `client_id` (replacing an earlier one) and
    /// gives the client a row of subscriptions if it has none.
    pub fn register_client(&mut self, client_id: ClientId, sender: Sender<RoutedMessage>)
        ensures
            final(self)@ == (RouterView {
                subscriptions: table_ensure_row(old(self)@.subscriptions, client_id@),
                clients: keys_insert(old(self)@.clients, client_id@),
                channels: channels_put(old(self)@.clients, old(self)@.channels, client_id@, sender),
                ..old(self)@
            }),
    {
        proof {
            use_type_invariant(&*self);
        }
        let ghost v0 = self@;
        let ghost s = sender;
        let key = client_id.clone();
        self.put_sender(client_id, sender);
        if find_row(&self.subscriptions, &key).is_none() {
            proof {
                use_type_invariant(&*self);
            }
            let ghost v1 = self@;
            let mut subs: Vec<(ClientId, Vec<SubscriptionEntry>)> = Vec::new();
            proof {
                lemma_no_rows_wf(v1);
                assert(table_view(subs@) =~= Seq::<ClientRow>::empty());
            }
            std::mem::swap(&mut subs, &mut self.subscriptions);
            let ghost before = subs@;
            let empty: Vec<SubscriptionEntry> = Vec::new();
            assert(entries_view(empty@) =~= Seq::<EntryView>::empty());
            subs.push((key, empty));
            assert(table_view(subs@) =~= table_view(before).push((key@, Seq::empty())));
            proof {
                lemma_register_keeps_wf(v0, key@, s);
            }
            self.subscriptions = subs;
        }
    }

    /// Forgets the subscriptions and the channel of `client_id`.
    pub fn remove_client(&mut self, client_id: &str)
        ensures
            final(self)@ == (RouterView {
                subscriptions: table_remove_row(old(self)@.subscriptions, client_id@),
                clients: keys_remove(old(self)@.clients, client_id@),
                channels: channels_remove(old(self)@.clients, old(self)@.channels, client_id@),
                ..old(self)@
            }),
    {
        proof {
            use_type_invariant(&*self);
        }
        let ghost v0 = self@;
        let id = client_id.to_owned();
        let ghost v2 = RouterView {
            subscriptions: table_remove_row(v0.subscriptions, id@),
            clients: keys_remove(v0.clients, id@),
            channels: channels_remove(v0.clients, v0.channels, id@),
            ..v0
        };
        let mut senders: Vec<(ClientId, Sender<RoutedMessage>)> = Vec::new();
        let mut subs: Vec<(ClientId, Vec<SubscriptionEntry>)> = Vec::new();
        proof {
            lemma_remove_keeps_wf(v0, id@);
            lemma_no_channels_wf(v0, v0.subscriptions);
            lemma_no_channels_wf(v2, v2.subscriptions);
            lemma_no_rows_wf(RouterView { clients: Seq::empty(), channels: Seq::empty(), ..v0 });
            assert(sender_keys(senders@) =~= Seq::<Seq<char>>::empty());
            assert(sender_channels(senders@) =~= Seq::<Sender<RoutedMessage>>::empty());
            assert(table_view(subs@) =~= Seq::<ClientRow>::empty());
        }
        std::mem::swap(&mut senders, &mut self.senders);
        std::mem::swap(&mut subs, &mut self.subscriptions);
        if let Some(i) = find_row(&subs, &id) {
            let ghost before = subs@;
            let _row = subs.remove(i);
            assert(table_view(subs@) =~= table_view(before).remove(i as int));
        }
        if let Some(i) = find_sender(&senders, &id) {
            let ghost before = senders@;
            let _sender = senders.remove(i);
            assert(sender_keys(senders@) =~= sender_keys(before).remove(i as int));
            assert(sender_channels(senders@) =~= sender_channels(before).remove(i as int));
        }
        self.subscriptions = subs;
        self.senders = senders;
    }

    /// Subscribes `client_id` to `topic_filter` through the channel `sender`,
    /// replacing an earlier subscription of the client to the same filter, and
    /// (re)registers `sender` as the client's channel. Every requested QoS is
    /// granted as asked.
    pub fn subscribe(
        &mut self,
        client_id: &str,
        topic_filter: String,
        qos: QoS,
        sender: Sender<RoutedMessage>,
    ) -> (r: QoS)
        ensures
            r == qos,
            final(self)@ == (RouterView {
                subscriptions: table_subscribe(old(self)@.subscriptions, client_id@, topic_filter@, qos, sender),
                clients: keys_insert(old(self)@.clients, client_id@),
                channels: channels_put(old(self)@.clients, old(self)@.channels, client_id@, sender),
                ..old(self)@
            }),
    {
        proof {
            use_type_invariant(&*self);
        }
        let granted_qos = qos;
        let id = client_id.to_owned();
        let ghost s = sender;
        self.put_sender(id.clone(), clone_sender(&sender));

        proof {
            use_type_invariant(&*self);
        }
        let ghost v1 = self@;
        let mut subs: Vec<(ClientId, Vec<SubscriptionEntry>)> = Vec::new();
        proof {
            lemma_no_rows_wf(v1);
            assert(table_view(subs@) =~= Seq::<ClientRow>::empty());
        }
        std::mem::swap(&mut subs, &mut self.subscriptions);
        let ghost t0 = table_view(subs@);
        let i = match find_row(&subs, &id) {
            Some(i) => i,
            None => {
                let empty: Vec<SubscriptionEntry> = Vec::new();
                assert(entries_view(empty@) =~= Seq::<EntryView>::empty());
                let ghost before = subs@;
                subs.push((id.clone(), empty));
                assert(table_view(subs@) =~= table_view(before).push((id@, Seq::empty())));
                proof {
                    lemma_key_position_valid(row_keys(t0), id@);
                    assert(row_keys(table_view(subs@)) =~= row_keys(t0).push(id@));
                    lemma_key_position_found(row_keys(table_view(subs@)), id@, t0.len() as int);
                }
                subs.len() - 1
            },
        };
        let ghost t1 = table_view(subs@);
        assert(t1 == table_ensure_row(t0, id@));
        let (key, entries) = subs.remove(i);
        proof {
            lemma_key_position_valid(row_keys(t1), id@);
            assert(row_keys(t1)[i as int] == key@);
        }
        let mut kept = drop_filter(entries, &topic_filter);
        let ghost kept_view = entries_view(kept@);
        kept.push(SubscriptionEntry { client_id: id, topic_filter, qos: granted_qos, sender });
        assert(entries_view(kept@) =~= kept_view.push((client_id@, topic_filter@, qos, s)));
        subs.insert(i, (key, kept));
        assert(table_view(subs@) =~= t1.update(
            i as int,
            (client_id@, without_filter(t1[i as int].1, topic_filter@).push((client_id@, topic_filter@, qos, s))),
        ));
        proof {
            lemma_subscribe_keeps_wf(old(self)@, client_id@, topic_filter@, qos, s);
        }
        self.subscriptions = subs;
        granted_qos
    }

    /// The deliveries a message calls for, starting from identifier `start`,
    /// and the identifier that comes after the last one handed out.
    fn plan_from(&self, publish: &PublishPacket, start: u16) -> (r: (Vec<Delivery>, u16))
        ensures
            planned(
                r.0@,
                table_deliveries(self@.subscriptions, publish@.topic, publish@.qos),
                table_channels(self@.subscriptions, publish@.topic),
                delivery_ids(table_deliveries(self@.subscriptions, publish@.topic, publish@.qos), start),
                publish@,
            ),
            r.1 == advance_id(start, qos1_count(table_deliveries(self@.subscriptions, publish@.topic, publish@.qos))),
    {
        let ghost topic = publish@.topic;
        let ghost t = self@.subscriptions;
        let effective_qos = publish.qos;
        let mut plan: Vec<Delivery> = Vec::new();
        let mut next = start;
        let n = self.subscriptions.len();
        let mut i: usize = 0;
        assert(t.take(0) =~= Seq::<ClientRow>::empty());
        while i < n
            invariant
                n == self.subscriptions@.len(),
                t == self@.subscriptions,
                t.len() == n,
                i <= n,
                topic == publish@.topic,
                effective_qos == publish@.qos,
                ({
                    let d = table_deliveries(t.take(i as int), topic, effective_qos);
                    &&& next == advance_id(start, qos1_count(d))
                    &&& planned(plan@, d, table_channels(t.take(i as int), topic), delivery_ids(d, start), publish@)
                }),
            decreases n - i,
        {
            let entries = &self.subscriptions[i].1;
            let ghost row = t[i as int].1;
            assert(row == entries_view(entries@));
            let ghost d0 = table_deliveries(t.take(i as int), topic, effective_qos);
            let ghost c0 = table_channels(t.take(i as int), topic);
            let m = entries.len();
            let mut j: usize = 0;
            assert(row.take(0) =~= Seq::<EntryView>::empty());
            assert(d0 + entry_deliveries(row.take(0), topic, effective_qos) =~= d0);
            assert(c0 + entry_channels(row.take(0), topic) =~= c0);
            while j < m
                invariant
                    m == entries@.len(),
                    row == entries_view(entries@),
                    j <= m,
                    topic == publish@.topic,
                    effective_qos == publish@.qos,
                    ({
                        let d = d0 + entry_deliveries(row.take(j as int), topic, effective_qos);
                        let c = c0 + entry_channels(row.take(j as int), topic);
                        &&& next == advance_id(start, qos1_count(d))
                        &&& planned(plan@, d, c, delivery_ids(d, start), publish@)
                    }),
                decreases m - j,
            {
                let entry = &entries[j];
                let ghost d = d0 + entry_deliveries(row.take(j as int), topic, effective_qos);
                let ghost c = c0 + entry_channels(row.take(j as int), topic);
                assert(row.take(j + 1).drop_last() =~= row.take(j as int));
                assert(row.take(j + 1).last() == entry@);
                if topic_matches(entry.topic_filter.as_str(), publish.topic.as_str()) {
                    let low = if effective_qos.as_u8() <= entry.qos.as_u8() {
                        effective_qos.as_u8()
                    } else {
                        entry.qos.as_u8()
                    };
                    let delivery_qos = match low {
                        0 => QoS::AtMostOnce,
                        _ => QoS::AtLeastOnce,
                    };
                    let ghost d1 = d.push((entry@.0, delivery_qos));
                    let ghost c1 = c.push(entry@.3);
                    assert(d0 + entry_deliveries(row.take(j + 1), topic, effective_qos) =~= d1);
                    assert(c0 + entry_channels(row.take(j + 1), topic) =~= c1);
                    assert(d1.drop_last() =~= d);
                    let outbound_id = if delivery_qos == QoS::AtLeastOnce {
                        proof {
                            lemma_advance_id_step(start, qos1_count(d));
                        }
                        let id = next;
                        next = next.wrapping_add(1);
                        Some(id)
                    } else {
                        None
                    };
                    proof {
                        assert(d1.last() == (entry@.0, delivery_qos));
                        if delivery_qos == QoS::AtLeastOnce {
                            assert(outbound_id == Some(advance_id(start, qos1_count(d))));
                        }
                        assert(delivery_ids(d1, start) =~= delivery_ids(d, start).push(outbound_id));
                        lemma_delivery_ids_len(d, start);
                    }
                    let msg = outbound_message(publish, delivery_qos, outbound_id);
                    let ghost before = plan@;
                    plan.push((entry.client_id.clone(), clone_sender(&entry.sender), msg));
                    proof {
                        let ids1 = delivery_ids(d1, start);
                        assert forall|k: int| 0 <= k < plan@.len() implies #[trigger] planned_at(
                            plan@,
                            d1,
                            c1,
                            ids1,
                            publish@,
                            k,
                        ) by {
                            if k < before.len() {
                                assert(planned_at(before, d, c, delivery_ids(d, start), publish@, k));
                                assert(plan@[k] == before[k]);
                            } else {
                                assert(k == d.len());
                                assert(ids1[k] == outbound_id);
                                assert(d1[k] == (entry@.0, delivery_qos));
                                assert(c1[k] == entry@.3);
                            }
                        }
                    }
                } else {
                    assert(d0 + entry_deliveries(row.take(j + 1), topic, effective_qos) =~= d);
                    assert(c0 + entry_channels(row.take(j + 1), topic) =~= c);
                }
                j = j + 1;
            }
            assert(row.take(m as int) =~= row);
            assert(t.take(i + 1).drop_last() =~= t.take(i as int));
            assert(t.take(i + 1).last() == t[i as int]);
            i = i + 1;
        }
        assert(t.take(n as int) =~= t);
        (plan, next)
    }

    /// The deliveries a message calls for, in order: for each subscription
    /// whose filter matches the message's topic, the subscriber, the channel
    /// of that subscription, and the message it is to be sent (a fresh copy
    /// at the delivery QoS; QoS 1 copies under consecutive identifiers from
    /// the router's next one on).
    pub fn plan_deliveries(&self, publish: &PublishPacket) -> (r: Vec<Delivery>)
        ensures
            planned(
                r@,
                table_deliveries(self@.subscriptions, publish@.topic, publish@.qos),
                table_channels(self@.subscriptions, publish@.topic),
                delivery_ids(
                    table_deliveries(self@.subscriptions, publish@.topic, publish@.qos),
                    self@.next_packet_id,
                ),
                publish@,
            ),
    {
        let (plan, _next) = self.plan_from(publish, self.next_packet_id);
        plan
    }

    /// Routes a message: each delivery of `plan_deliveries` is handed to its
    /// channel with `try_send`, in order, and recorded in `handed`; the
    /// packet identifiers are used up; the answer is `acks_from` the plan and
    /// what each channel answered: the subscriber and identifier of each QoS 1
    /// copy that its channel accepted, in order. Whether a channel accepts
    /// depends on its state at that moment.
    pub fn publish(&mut self, publish: PublishPacket) -> (r: Vec<(ClientId, Option<PacketId>)>)
        ensures
            final(self)@ == (RouterView {
                next_packet_id: advance_id(
                    old(self)@.next_packet_id,
                    qos1_count(table_deliveries(old(self)@.subscriptions, publish@.topic, publish@.qos)),
                ),
                handed: old(self)@.handed + publish_handoffs(
                    old(self)@.subscriptions,
                    publish@,
                    old(self)@.next_packet_id,
                ),
                ..old(self)@
            }),
            exists|sent: Seq<bool>|
                sent.len() == table_deliveries(old(self)@.subscriptions, publish@.topic, publish@.qos).len()
                    && acks_view(r@) == #[trigger] publish_acks(
                    old(self)@.subscriptions,
                    publish@.topic,
                    publish@.qos,
                    old(self)@.next_packet_id,
                    sent,
                ),
    {
        proof {
            use_type_invariant(&*self);
        }
        let ghost v0 = self@;
        let ghost d = table_deliveries(v0.subscriptions, publish@.topic, publish@.qos);
        let ghost c = table_channels(v0.subscriptions, publish@.topic);
        let ghost ids = delivery_ids(d, v0.next_packet_id);
        let (plan, next) = self.plan_from(&publish, self.next_packet_id);
        let mut sent: Vec<bool> = Vec::new();
        let n = plan.len();
        let mut k: usize = 0;
        assert(plan_handoffs(plan@.take(0)) =~= Seq::<Handoff>::empty());
        assert(v0.handed + Seq::<Handoff>::empty() =~= v0.handed);
        while k < n
            invariant
                n == plan@.len(),
                k <= n,
                sent@.len() == k,
                router_wf(v0),
                self@ == (RouterView { handed: v0.handed + plan_handoffs(plan@.take(k as int)), ..v0 }),
            decreases n - k,
        {
            let delivery = &plan[k];
            let (ok, handoff) = try_send(&delivery.1, delivery.2.clone());
            self.handed = Ghost(self.handed@.push(handoff@));
            assert(plan@.take(k + 1).drop_last() =~= plan@.take(k as int));
            assert(plan_handoffs(plan@.take(k + 1)) =~= plan_handoffs(plan@.take(k as int)).push(handoff@));
            assert(v0.handed + plan_handoffs(plan@.take(k + 1)) =~= (v0.handed + plan_handoffs(
                plan@.take(k as int),
            )).push(handoff@));
            sent.push(ok);
            k = k + 1;
        }
        let acks = acks_from(&plan, &sent);
        proof {
            assert(plan@.take(n as int) =~= plan@);
            assert forall|j: int| 0 <= j < n implies #[trigger] plan_handoffs(plan@)[j] == publish_handoffs(
                v0.subscriptions,
                publish@,
                v0.next_packet_id,
            )[j] by {
                assert(planned_at(plan@, d, c, ids, publish@, j));
            }
            assert(plan_handoffs(plan@) =~= publish_handoffs(v0.subscriptions, publish@, v0.next_packet_id));
            lemma_delivery_ids_len(d, v0.next_packet_id);
            lemma_plan_acks(plan@, d, c, ids, publish@, sent@);
            assert(acks_view(acks@) == publish_acks(
                v0.subscriptions,
                publish@.topic,
                publish@.qos,
                v0.next_packet_id,
                sent@,
            ));
        }
        self.next_packet_id = next;
        acks
    }

    /// Retained messages are not kept, so none matches any filter.
    pub fn retained_messages_matching(&self, _topic_filter: &str) -> (r: Vec<PublishPacket>)
        ensures
            r@.len() == 0,
    {
        Vec::new()
    }

    /// The number of subscriptions of all clients together (at most `usize::MAX`).
    pub fn subscription_count(&self) -> (r: usize)
        ensures
            r == (if table_total(self@.subscriptions) <= usize::MAX {
                table_total(self@.subscriptions)
            } else {
                usize::MAX as nat
            }),
            router_wf(self@),
    {
        proof {
            use_type_invariant(self);
        }
        let mut total: usize = 0;
        let mut i: usize = 0;
        let ghost t = self@.subscriptions;
        while i < self.subscriptions.len()
            invariant
                i <= self.subscriptions@.len(),
                t == self@.subscriptions,
                t.len() == self.subscriptions@.len(),
                total == (if table_total(t.take(i as int)) <= usize::MAX {
                    table_total(t.take(i as int))
                } else {
                    usize::MAX as nat
                }),
            decreases self.subscriptions@.len() - i,
        {
            assert(t.take(i + 1).drop_last() =~= t.take(i as int));
            assert(t[i as int].1.len() == self.subscriptions@[i as int].1@.len());
            total = total.saturating_add(self.subscriptions[i].1.len());
            i = i + 1;
        }
        assert(t.take(i as int) =~= t);
        total
    }

    /// The number of clients with a registered channel.
    pub fn client_count(&self) -> (r: usize)
        ensures
            r == self@.clients.len(),
            router_wf(self@),
    {
        proof {
            use_type_invariant(self);
        }
        self.senders.len()
    }
}


// --- publishing, in the model ---

/// The QoS of a delivery: the lower of the published and the granted level,
/// where anything above 0 is delivered at QoS 1.
pub open spec fn delivery_qos(published: QoS, granted: QoS) -> QoS {
    let low = if qos_code(published) <= qos_code(granted) {
        qos_code(published)
    } else {
        qos_code(granted)
    };
    if low == 0 {
        QoS::AtMostOnce
    } else {
        QoS::AtLeastOnce
    }
}

/// The deliveries a message on `topic` makes through one row of
/// subscriptions, in order: the subscriber and the delivery QoS of each
/// subscription whose filter matches.
pub open spec fn entry_deliveries(entries: Seq<EntryView>, topic: Seq<char>, q: QoS) -> Seq<(Seq<char>, QoS)>
    decreases entries.len(),
{
    if entries.len() == 0 {
        Seq::empty()
    } else {
        let prev = entry_deliveries(entries.drop_last(), topic, q);
        let e = entries.last();
        if topic_matches_spec(e.1, topic) {
            prev.push((e.0, delivery_qos(q, e.2)))
        } else {
            prev
        }
    }
}

/// The deliveries a message on `topic` makes through the whole table, row after row.
pub open spec fn table_deliveries(t: Seq<ClientRow>, topic: Seq<char>, q: QoS) -> Seq<(Seq<char>, QoS)>
    decreases t.len(),
{
    if t.len() == 0 {
        Seq::empty()
    } else {
        table_deliveries(t.drop_last(), topic, q) + entry_deliveries(t.last().1, topic, q)
    }
}

/// The channels a message on `topic` is handed to through one row of
/// subscriptions: that of each subscription whose filter matches, in order.
pub open spec fn entry_channels(entries: Seq<EntryView>, topic: Seq<char>) -> Seq<Sender<RoutedMessage>>
    decreases entries.len(),
{
    if entries.len() == 0 {
        Seq::empty()
    } else {
        let prev = entry_channels(entries.drop_last(), topic);
        if topic_matches_spec(entries.last().1, topic) {
            prev.push(entries.last().3)
        } else {
            prev
        }
    }
}

/// The channels of the deliveries through the whole table, in the order of
/// `table_deliveries`.
pub open spec fn table_channels(t: Seq<ClientRow>, topic: Seq<char>) -> Seq<Sender<RoutedMessage>>
    decreases t.len(),
{
    if t.len() == 0 {
        Seq::empty()
    } else {
        table_channels(t.drop_last(), topic) + entry_channels(t.last().1, topic)
    }
}

/// The messages a publish of `p` hands to channels, in order: for each
/// delivery, the channel of its subscription, the copy of `p` at the
/// delivery QoS under the delivery's identifier, and that identifier.
pub open spec fn publish_handoffs(t: Seq<ClientRow>, p: PublishFields, start: u16) -> Seq<Handoff> {
    let d = table_deliveries(t, p.topic, p.qos);
    let c = table_channels(t, p.topic);
    let ids = delivery_ids(d, start);
    Seq::new(d.len(), |k: int| (c[k], outbound_fields(p, d[k].1, ids[k]), ids[k]))
}

/// The messages of a plan as handed to channels.
pub open spec fn plan_handoffs(plan: Seq<Delivery>) -> Seq<Handoff> {
    plan.map_values(|x: Delivery| (x.1, x.2.publish@, x.2.packet_id))
}

/// One planned delivery: the subscriber, the channel, the message.
pub type Delivery = (ClientId, Sender<RoutedMessage>, RoutedMessage);

/// Planned delivery `k` goes to the `k`-th subscriber of `d` on the `k`-th
/// channel of `c`, with the message `p` at that delivery's QoS and identifier.
pub open spec fn planned_at(
    r: Seq<Delivery>,
    d: Seq<(Seq<char>, QoS)>,
    c: Seq<Sender<RoutedMessage>>,
    ids: Seq<Option<u16>>,
    p: PublishFields,
    k: int,
) -> bool {
    &&& r[k].0@ == d[k].0
    &&& r[k].1 == c[k]
    &&& r[k].2.publish@ == outbound_fields(p, d[k].1, ids[k])
    &&& r[k].2.packet_id == ids[k]
}

/// `r` plans exactly the deliveries `d`, on the channels `c`, under the identifiers `ids`.
pub open spec fn planned(
    r: Seq<Delivery>,
    d: Seq<(Seq<char>, QoS)>,
    c: Seq<Sender<RoutedMessage>>,
    ids: Seq<Option<u16>>,
    p: PublishFields,
) -> bool {
    &&& r.len() == d.len()
    &&& r.len() == c.len()
    &&& forall|k: int| 0 <= k < r.len() ==> #[trigger] planned_at(r, d, c, ids, p, k)
}

/// The acknowledgements a plan waits for, given which of its messages were
/// queued: the subscriber and identifier of each queued message that has one.
pub open spec fn plan_acks(plan: Seq<Delivery>, sent: Seq<bool>) -> Seq<(Seq<char>, Option<u16>)>
    decreases plan.len(),
{
    if plan.len() == 0 || sent.len() == 0 {
        Seq::empty()
    } else {
        let prev = plan_acks(plan.drop_last(), sent.drop_last());
        if sent.last() && plan.last().2.packet_id is Some {
            prev.push((plan.last().0@, plan.last().2.packet_id))
        } else {
            prev
        }
    }
}

/// The acknowledgements to wait for after the messages of `plan` were handed
/// to their channels, `sent[k]` telling whether the `k`-th was queued.
pub fn acks_from(plan: &Vec<Delivery>, sent: &Vec<bool>) -> (r: Vec<(ClientId, Option<PacketId>)>)
    requires
        sent@.len() == plan@.len(),
    ensures
        acks_view(r@) == plan_acks(plan@, sent@),
{
    let mut acks: Vec<(ClientId, Option<PacketId>)> = Vec::new();
    let n = plan.len();
    let mut i: usize = 0;
    assert(plan@.take(0) =~= Seq::<Delivery>::empty());
    assert(acks_view(acks@) =~= Seq::<(Seq<char>, Option<u16>)>::empty());
    while i < n
        invariant
            n == plan@.len(),
            sent@.len() == n,
            i <= n,
            acks_view(acks@) == plan_acks(plan@.take(i as int), sent@.take(i as int)),
        decreases n - i,
    {
        assert(plan@.take(i + 1).drop_last() =~= plan@.take(i as int));
        assert(sent@.take(i + 1).drop_last() =~= sent@.take(i as int));
        assert(plan@.take(i + 1).last() == plan@[i as int]);
        assert(sent@.take(i + 1).last() == sent@[i as int]);
        let delivery = &plan[i];
        if sent[i] && delivery.2.packet_id.is_some() {
            let ghost before = acks@;
            acks.push((delivery.0.clone(), delivery.2.packet_id));
            assert(acks_view(acks@) =~= acks_view(before).push((delivery.0@, delivery.2.packet_id)));
        }
        i = i + 1;
    }
    assert(plan@.take(n as int) =~= plan@);
    assert(sent@.take(n as int) =~= sent@);
    acks
}

/// Every delivery has an identifier slot.
proof fn lemma_delivery_ids_len(d: Seq<(Seq<char>, QoS)>, start: u16)
    ensures
        delivery_ids(d, start).len() == d.len(),
    decreases d.len(),
{
    if d.len() > 0 {
        lemma_delivery_ids_len(d.drop_last(), start);
    }
}

/// The acknowledgements of a plan are those of the deliveries it plans.
proof fn lemma_plan_acks(
    plan: Seq<Delivery>,
    d: Seq<(Seq<char>, QoS)>,
    c: Seq<Sender<RoutedMessage>>,
    ids: Seq<Option<u16>>,
    p: PublishFields,
    sent: Seq<bool>,
)
    requires
        planned(plan, d, c, ids, p),
        ids.len() == d.len(),
        sent.len() == plan.len(),
    ensures
        plan_acks(plan, sent) == acked_deliveries(d, ids, sent),
    decreases plan.len(),
{
    if plan.len() > 0 {
        let k = plan.len() - 1;
        assert(planned_at(plan, d, c, ids, p, k));
        let (p1, d1, c1, i1) = (plan.drop_last(), d.drop_last(), c.drop_last(), ids.drop_last());
        assert forall|j: int| 0 <= j < p1.len() implies #[trigger] planned_at(p1, d1, c1, i1, p, j) by {
            assert(planned_at(plan, d, c, ids, p, j));
        }
        lemma_plan_acks(p1, d1, c1, i1, p, sent.drop_last());
    }
}

/// How many deliveries are at QoS 1.
pub open spec fn qos1_count(d: Seq<(Seq<char>, QoS)>) -> nat
    decreases d.len(),
{
    if d.len() == 0 {
        0
    } else {
        qos1_count(d.drop_last()) + (if d.last().1 == QoS::AtLeastOnce {
            1nat
        } else {
            0nat
        })
    }
}

/// The packet identifier of each delivery: QoS 1 deliveries take
/// consecutive identifiers from `start` on (wrapping after 65535), QoS 0
/// deliveries none.
pub open spec fn delivery_ids(d: Seq<(Seq<char>, QoS)>, start: u16) -> Seq<Option<u16>>
    decreases d.len(),
{
    if d.len() == 0 {
        Seq::empty()
    } else {
        let prev = delivery_ids(d.drop_last(), start);
        if d.last().1 == QoS::AtLeastOnce {
            prev.push(Some(advance_id(start, qos1_count(d.drop_last()))))
        } else {
            prev.push(None)
        }
    }
}

/// The acknowledgements a publish waits for: the subscriber and identifier
/// of each QoS 1 delivery whose message was queued (`sent`).
pub open spec fn acked_deliveries(d: Seq<(Seq<char>, QoS)>, ids: Seq<Option<u16>>, sent: Seq<bool>) -> Seq<
    (Seq<char>, Option<u16>),
>
    decreases d.len(),
{
    if d.len() == 0 || ids.len() == 0 || sent.len() == 0 {
        Seq::empty()
    } else {
        let prev = acked_deliveries(d.drop_last(), ids.drop_last(), sent.drop_last());
        if sent.last() && ids.last() is Some {
            prev.push((d.last().0, ids.last()))
        } else {
            prev
        }
    }
}

/// The acknowledgements a publish of a message on `topic` at QoS `q` waits
/// for, given which of its deliveries were queued.
pub open spec fn publish_acks(t: Seq<ClientRow>, topic: Seq<char>, q: QoS, start: u16, sent: Seq<bool>) -> Seq<
    (Seq<char>, Option<u16>),
> {
    let d = table_deliveries(t, topic, q);
    acked_deliveries(d, delivery_ids(d, start), sent)
}

pub open spec fn acks_view(v: Seq<(ClientId, Option<PacketId>)>) -> Seq<(Seq<char>, Option<u16>)> {
    v.map_values(|a: (ClientId, Option<PacketId>)| (a.0@, a.1))
}

/// The message a subscriber is sent: a fresh (not duplicate, not retained)
/// copy of the published one at the delivery QoS, under its own packet identifier.
pub open spec fn outbound_fields(p: PublishFields, q: QoS, id: Option<u16>) -> PublishFields {
    PublishFields { dup: false, qos: q, retain: false, topic: p.topic, packet_id: id, payload: p.payload }
}

/// Handing out one more identifier moves the counter by one, wrapping.
proof fn lemma_advance_id_step(start: u16, n: nat)
    ensures
        advance_id(start, n + 1) == vstd::wrapping::u16_specs::wrapping_add(advance_id(start, n), 1),
{
}

/// The message queued for one subscriber.
fn outbound_message(publish: &PublishPacket, qos: QoS, packet_id: Option<u16>) -> (r: RoutedMessage)
    ensures
        r.publish@ == outbound_fields(publish@, qos, packet_id),
        r.packet_id == packet_id,
{
    RoutedMessage {
        publish: PublishPacket {
            dup: false,
            qos,
            retain: false,
            topic: publish.topic.clone(),
            packet_id,
            payload: bytes_clone(&publish.payload),
        },
        packet_id,
    }
}


/// The number of subscriptions in a table.
pub open spec fn table_total(t: Seq<ClientRow>) -> nat
    decreases t.len(),
{
    if t.len() == 0 {
        0
    } else {
        table_total(t.drop_last()) + t.last().1.len()
    }
}

/// A PUBLISH packet for `topic`: not a duplicate, identifier 1 unless at QoS 0.
pub fn build_publish(topic: &str, payload: Bytes, qos: QoS, retain: bool) -> (r: PublishPacket)
    ensures
        r@ == (PublishFields {
            dup: false,
            qos,
            retain,
            topic: topic@,
            packet_id: if qos == QoS::AtMostOnce { None } else { Some(1u16) },
            payload: bytes_view(payload),
        }),
{
    PublishPacket {
        dup: false,
        qos,
        retain,
        topic: topic.to_owned(),
        packet_id: if qos == QoS::AtMostOnce {
            None
        } else {
            Some(1)
        },
        payload,
    }
}

impl Default for Router {
    fn default() -> (r: Self)
        ensures
            r@.subscriptions == Seq::<ClientRow>::empty(),
            r@.clients == Seq::<Seq<char>>::empty(),
            r@.channels == Seq::<Sender<RoutedMessage>>::empty(),
            r@.next_packet_id == 1,
            r@.handed == Seq::<Handoff>::empty(),
    {
        Self::new()
    }
}

} // verus!
