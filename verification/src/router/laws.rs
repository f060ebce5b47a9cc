//! What routing guarantees: who receives a message and on which channel,
//! what the router keeps true across operations, and how packet identifiers
//! are handed out.
use vstd::prelude::*;
use tokio::sync::mpsc::Sender;

use crate::packet::{qos_code, QoS};
use crate::packet::publish::PublishFields;
use super::topic::topic_matches_spec;
use super::{
    advance_id, channel_of, channels_put, channels_remove, delivery_ids, delivery_qos, entry_channels,
    entry_deliveries, key_position, keys_insert, keys_remove, lemma_key_position_found, lemma_key_position_valid,
    outbound_fields, publish_handoffs, qos1_count, row_keys, table_channels, table_deliveries, table_ensure_row, table_remove_row, table_subscribe,
    without_filter, ClientRow, EntryView, RoutedMessage, RouterView,
};

verus! {

// --- laws of routing ---

/// Law: a delivery is never at a higher QoS than was published or granted, nor above 1.
pub proof fn lemma_delivery_qos_bounded(published: QoS, granted: QoS)
    ensures
        qos_code(delivery_qos(published, granted)) <= qos_code(published),
        qos_code(delivery_qos(published, granted)) <= qos_code(granted),
        qos_code(delivery_qos(published, granted)) <= 1,
{
}

/// A row hands out one channel per delivery.
proof fn lemma_entry_channels_len(entries: Seq<EntryView>, topic: Seq<char>, q: QoS)
    ensures
        entry_channels(entries, topic).len() == entry_deliveries(entries, topic, q).len(),
    decreases entries.len(),
{
    if entries.len() > 0 {
        lemma_entry_channels_len(entries.drop_last(), topic, q);
    }
}

/// The table hands out one channel per delivery.
pub proof fn lemma_table_channels_len(t: Seq<ClientRow>, topic: Seq<char>, q: QoS)
    ensures
        table_channels(t, topic).len() == table_deliveries(t, topic, q).len(),
    decreases t.len(),
{
    if t.len() > 0 {
        lemma_table_channels_len(t.drop_last(), topic, q);
        lemma_entry_channels_len(t.last().1, topic, q);
    }
}

proof fn lemma_entry_deliveries_complete(entries: Seq<EntryView>, j: int, topic: Seq<char>, q: QoS)
    requires
        0 <= j < entries.len(),
        topic_matches_spec(entries[j].1, topic),
    ensures
        exists|k: int|
            0 <= k < entry_deliveries(entries, topic, q).len() && #[trigger] entry_deliveries(entries, topic, q)[k]
                == (entries[j].0, delivery_qos(q, entries[j].2)) && entry_channels(entries, topic)[k]
                == entries[j].3,
    decreases entries.len(),
{
    lemma_entry_channels_len(entries, topic, q);
    lemma_entry_channels_len(entries.drop_last(), topic, q);
    let prev = entry_deliveries(entries.drop_last(), topic, q);
    let pc = entry_channels(entries.drop_last(), topic);
    let d = entry_deliveries(entries, topic, q);
    let c = entry_channels(entries, topic);
    if j == entries.len() - 1 {
        assert(d[d.len() - 1] == (entries[j].0, delivery_qos(q, entries[j].2)));
        assert(c[d.len() - 1] == entries[j].3);
    } else {
        lemma_entry_deliveries_complete(entries.drop_last(), j, topic, q);
        let w = choose|k: int|
            0 <= k < prev.len() && #[trigger] prev[k] == (entries[j].0, delivery_qos(q, entries[j].2)) && pc[k]
                == entries[j].3;
        assert(d[w] == prev[w]);
        assert(c[w] == pc[w]);
    }
}

proof fn lemma_table_deliveries_complete(t: Seq<ClientRow>, i: int, j: int, topic: Seq<char>, q: QoS)
    requires
        0 <= i < t.len(),
        0 <= j < t[i].1.len(),
        topic_matches_spec(t[i].1[j].1, topic),
    ensures
        exists|k: int|
            0 <= k < table_deliveries(t, topic, q).len() && #[trigger] table_deliveries(t, topic, q)[k] == (
                t[i].1[j].0,
                delivery_qos(q, t[i].1[j].2),
            ) && table_channels(t, topic)[k] == t[i].1[j].3,
    decreases t.len(),
{
    let item = (t[i].1[j].0, delivery_qos(q, t[i].1[j].2));
    let ch = t[i].1[j].3;
    let prev = table_deliveries(t.drop_last(), topic, q);
    let last = entry_deliveries(t.last().1, topic, q);
    let pc = table_channels(t.drop_last(), topic);
    let lc = entry_channels(t.last().1, topic);
    let d = table_deliveries(t, topic, q);
    let c = table_channels(t, topic);
    lemma_table_channels_len(t.drop_last(), topic, q);
    lemma_entry_channels_len(t.last().1, topic, q);
    assert(d == prev + last);
    assert(c == pc + lc);
    if i == t.len() - 1 {
        lemma_entry_deliveries_complete(t.last().1, j, topic, q);
        let w = choose|k: int| 0 <= k < last.len() && #[trigger] last[k] == item && lc[k] == ch;
        assert(d[prev.len() + w] == item);
        assert(c[prev.len() + w] == ch);
    } else {
        lemma_table_deliveries_complete(t.drop_last(), i, j, topic, q);
        let w = choose|k: int| 0 <= k < prev.len() && #[trigger] prev[k] == item && pc[k] == ch;
        assert(d[w] == item);
        assert(c[w] == ch);
    }
}

/// Law: a message reaches every subscription whose filter matches its topic,
/// at the delivery QoS of that subscription, on that subscription's channel.
pub proof fn lemma_matching_subscription_receives(t: Seq<ClientRow>, i: int, j: int, topic: Seq<char>, q: QoS)
    requires
        0 <= i < t.len(),
        0 <= j < t[i].1.len(),
        topic_matches_spec(t[i].1[j].1, topic),
    ensures
        exists|k: int|
            0 <= k < table_deliveries(t, topic, q).len() && #[trigger] table_deliveries(t, topic, q)[k] == (
                t[i].1[j].0,
                delivery_qos(q, t[i].1[j].2),
            ) && table_channels(t, topic)[k] == t[i].1[j].3,
{
    lemma_table_deliveries_complete(t, i, j, topic, q);
}

proof fn lemma_entry_deliveries_sound(entries: Seq<EntryView>, k: int, topic: Seq<char>, q: QoS)
    requires
        0 <= k < entry_deliveries(entries, topic, q).len(),
    ensures
        exists|j: int|
            0 <= j < entries.len() && topic_matches_spec(entries[j].1, topic) && #[trigger] entry_deliveries(
                entries,
                topic,
                q,
            )[k] == (entries[j].0, delivery_qos(q, entries[j].2)),
    decreases entries.len(),
{
    let prev = entry_deliveries(entries.drop_last(), topic, q);
    let d = entry_deliveries(entries, topic, q);
    let n = entries.len() - 1;
    if k < prev.len() {
        lemma_entry_deliveries_sound(entries.drop_last(), k, topic, q);
        let j = choose|j: int|
            0 <= j < entries.drop_last().len() && topic_matches_spec(entries.drop_last()[j].1, topic)
                && #[trigger] entry_deliveries(entries.drop_last(), topic, q)[k] == (
                entries.drop_last()[j].0,
                delivery_qos(q, entries.drop_last()[j].2),
            );
        assert(entries.drop_last()[j] == entries[j]);
        assert(d[k] == prev[k]);
    } else {
        assert(topic_matches_spec(entries[n].1, topic));
        assert(d[k] == (entries[n].0, delivery_qos(q, entries[n].2)));
    }
}

/// Law: every delivery of a message comes from a subscription whose filter
/// matches its topic, to that subscription's client, at its delivery QoS.
pub proof fn lemma_delivery_from_matching_subscription(t: Seq<ClientRow>, k: int, topic: Seq<char>, q: QoS)
    requires
        0 <= k < table_deliveries(t, topic, q).len(),
    ensures
        exists|i: int, j: int|
            0 <= i < t.len() && 0 <= j < t[i].1.len() && topic_matches_spec(t[i].1[j].1, topic)
                && #[trigger] table_deliveries(t, topic, q)[k] == (t[i].1[j].0, delivery_qos(q, t[i].1[j].2)),
    decreases t.len(),
{
    let prev = table_deliveries(t.drop_last(), topic, q);
    let last = entry_deliveries(t.last().1, topic, q);
    let d = table_deliveries(t, topic, q);
    assert(d == prev + last);
    if k < prev.len() {
        lemma_delivery_from_matching_subscription(t.drop_last(), k, topic, q);
        let (i, j) = choose|i: int, j: int|
            0 <= i < t.drop_last().len() && 0 <= j < t.drop_last()[i].1.len() && topic_matches_spec(
                t.drop_last()[i].1[j].1,
                topic,
            ) && #[trigger] table_deliveries(t.drop_last(), topic, q)[k] == (
                t.drop_last()[i].1[j].0,
                delivery_qos(q, t.drop_last()[i].1[j].2),
            );
        assert(t.drop_last()[i] == t[i]);
        assert(d[k] == prev[k]);
    } else {
        let i = t.len() - 1;
        lemma_entry_deliveries_sound(t.last().1, k - prev.len(), topic, q);
        let j = choose|j: int|
            0 <= j < t.last().1.len() && topic_matches_spec(t.last().1[j].1, topic)
                && #[trigger] entry_deliveries(t.last().1, topic, q)[k - prev.len()] == (
                t.last().1[j].0,
                delivery_qos(q, t.last().1[j].2),
            );
        assert(d[k] == last[k - prev.len()]);
        assert(t[i] == t.last());
    }
}

/// The row of a client after it subscribes: where it stands, and that it
/// ends with the new subscription.
proof fn lemma_table_subscribe_row(
    t: Seq<ClientRow>,
    id: Seq<char>,
    filter: Seq<char>,
    qos: QoS,
    s: Sender<RoutedMessage>,
)
    ensures
        ({
            let t2 = table_subscribe(t, id, filter, qos, s);
            let i = key_position(row_keys(table_ensure_row(t, id)), id);
            &&& 0 <= i < t2.len()
            &&& t2[i].1.len() > 0
            &&& t2[i].1.last() == (id, filter, qos, s)
        }),
{
    let t1 = table_ensure_row(t, id);
    lemma_key_position_valid(row_keys(t), id);
    if key_position(row_keys(t), id) < 0 {
        assert(row_keys(t1) =~= row_keys(t).push(id));
        lemma_key_position_found(row_keys(t1), id, t.len() as int);
    }
    lemma_key_position_valid(row_keys(t1), id);
}

/// Law: once a client has subscribed to a filter through a channel, a
/// message on a topic the filter matches is delivered to that client, at the
/// lower of the published and the granted QoS, on that channel.
pub proof fn lemma_subscribe_then_publish(
    t: Seq<ClientRow>,
    client: Seq<char>,
    filter: Seq<char>,
    granted: QoS,
    s: Sender<RoutedMessage>,
    topic: Seq<char>,
    published: QoS,
)
    requires
        topic_matches_spec(filter, topic),
    ensures
        exists|k: int|
            0 <= k < table_deliveries(table_subscribe(t, client, filter, granted, s), topic, published).len()
                && #[trigger] table_deliveries(table_subscribe(t, client, filter, granted, s), topic, published)[k]
                == (client, delivery_qos(published, granted)) && table_channels(
                table_subscribe(t, client, filter, granted, s),
                topic,
            )[k] == s,
{
    let t2 = table_subscribe(t, client, filter, granted, s);
    let i = key_position(row_keys(table_ensure_row(t, client)), client);
    lemma_table_subscribe_row(t, client, filter, granted, s);
    let j = t2[i].1.len() - 1;
    lemma_table_deliveries_complete(t2, i, j, topic, published);
}

// --- the router's invariant ---

/// No key occurs twice.
pub open spec fn distinct_keys(s: Seq<Seq<char>>) -> bool {
    forall|a: int, b: int| 0 <= a < b < s.len() ==> s[a] != s[b]
}

/// The topic filters of a row, in order.
pub open spec fn entry_filters(e: Seq<EntryView>) -> Seq<Seq<char>> {
    e.map_values(|x: EntryView| x.1)
}

/// What the router keeps true: one row per client, each row holding only
/// that client's subscriptions and at most one per filter, one channel per
/// client.
pub open spec fn router_wf(v: RouterView) -> bool {
    &&& distinct_keys(row_keys(v.subscriptions))
    &&& forall|i: int, j: int|
        0 <= i < v.subscriptions.len() && 0 <= j < v.subscriptions[i].1.len()
            ==> #[trigger] v.subscriptions[i].1[j].0 == v.subscriptions[i].0
    &&& forall|i: int| 0 <= i < v.subscriptions.len() ==> distinct_keys(entry_filters(#[trigger] v.subscriptions[i].1))
    &&& distinct_keys(v.clients)
    &&& v.channels.len() == v.clients.len()
}

proof fn lemma_keys_insert_distinct(keys: Seq<Seq<char>>, k: Seq<char>)
    requires
        distinct_keys(keys),
    ensures
        distinct_keys(keys_insert(keys, k)),
        keys_insert(keys, k).contains(k),
{
    lemma_key_position_valid(keys, k);
    if key_position(keys, k) < 0 {
        let r = keys.push(k);
        assert(r[keys.len() as int] == k);
    } else {
        assert(keys[key_position(keys, k)] == k);
    }
}

proof fn lemma_remove_distinct(keys: Seq<Seq<char>>, i: int)
    requires
        distinct_keys(keys),
        0 <= i < keys.len(),
    ensures
        distinct_keys(keys.remove(i)),
        forall|j: int| 0 <= j < keys.remove(i).len() ==> #[trigger] keys.remove(i)[j] != keys[i],
{
    let r = keys.remove(i);
    assert forall|a: int, b: int| 0 <= a < b < r.len() implies r[a] != r[b] by {
        let a2 = if a < i { a } else { a + 1 };
        let b2 = if b < i { b } else { b + 1 };
        assert(r[a] == keys[a2] && r[b] == keys[b2]);
    }
    assert forall|j: int| 0 <= j < r.len() implies #[trigger] r[j] != keys[i] by {
        let j2 = if j < i { j } else { j + 1 };
        assert(r[j] == keys[j2]);
    }
}

/// What dropping a filter keeps: only earlier subscriptions to other
/// filters, each filter still once.
proof fn lemma_without_filter(entries: Seq<EntryView>, f: Seq<char>)
    ensures
        forall|k: int|
            #![trigger without_filter(entries, f)[k]]
            0 <= k < without_filter(entries, f).len() ==> without_filter(entries, f)[k].1 != f
                && entries.contains(without_filter(entries, f)[k]),
        distinct_keys(entry_filters(entries)) ==> distinct_keys(entry_filters(without_filter(entries, f))),
    decreases entries.len(),
{
    let r = without_filter(entries, f);
    if entries.len() > 0 {
        let rest = entries.drop_first();
        lemma_without_filter(rest, f);
        let head: Seq<EntryView> = if entries[0].1 == f {
            Seq::empty()
        } else {
            seq![entries[0]]
        };
        let tail = without_filter(rest, f);
        assert(r == head + tail);
        assert forall|k: int| 0 <= k < r.len() implies #[trigger] r[k].1 != f && entries.contains(r[k]) by {
            if k >= head.len() {
                assert(tail[k - head.len()].1 != f);
            }
            if k < head.len() {
                assert(r[k] == entries[0]);
            } else {
                assert(r[k] == tail[k - head.len()]);
                let w = choose|w: int| 0 <= w < rest.len() && rest[w] == tail[k - head.len()];
                assert(entries[w + 1] == rest[w]);
            }
        }
        if distinct_keys(entry_filters(entries)) {
            assert(distinct_keys(entry_filters(rest))) by {
                assert forall|a: int, b: int| 0 <= a < b < entry_filters(rest).len() implies entry_filters(
                    rest,
                )[a] != entry_filters(rest)[b] by {
                    assert(entry_filters(rest)[a] == entry_filters(entries)[a + 1]);
                    assert(entry_filters(rest)[b] == entry_filters(entries)[b + 1]);
                }
            }
            let rf = entry_filters(r);
            assert forall|a: int, b: int| 0 <= a < b < rf.len() implies rf[a] != rf[b] by {
                if a < head.len() {
                    assert(rf[a] == entries[0].1);
                    assert(r[b] == tail[b - head.len()]);
                    let w = choose|w: int| 0 <= w < rest.len() && rest[w] == tail[b - head.len()];
                    assert(entry_filters(entries)[w + 1] == rest[w].1);
                    assert(entry_filters(entries)[0] == entries[0].1);
                } else {
                    assert(rf[a] == entry_filters(tail)[a - head.len()]);
                    assert(rf[b] == entry_filters(tail)[b - head.len()]);
                }
            }
        }
    }
}

/// Registering a channel alone keeps the invariant.
pub(crate) proof fn lemma_put_channel_keeps_wf(v: RouterView, id: Seq<char>, s: Sender<RoutedMessage>)
    requires
        router_wf(v),
    ensures
        router_wf(
            RouterView {
                clients: keys_insert(v.clients, id),
                channels: channels_put(v.clients, v.channels, id, s),
                ..v
            },
        ),
{
    lemma_keys_insert_distinct(v.clients, id);
    lemma_key_position_valid(v.clients, id);
}

/// Laying a table aside (the router holding no rows meanwhile) keeps the invariant.
pub(crate) proof fn lemma_no_rows_wf(v: RouterView)
    requires
        router_wf(v),
    ensures
        router_wf(RouterView { subscriptions: Seq::empty(), ..v }),
{
    assert(row_keys(Seq::<ClientRow>::empty()) =~= Seq::<Seq<char>>::empty());
}

/// Laying the channels aside (the router holding none meanwhile) keeps the
/// invariant, whatever the table.
pub(crate) proof fn lemma_no_channels_wf(v: RouterView, t: Seq<ClientRow>)
    requires
        router_wf(RouterView { subscriptions: t, ..v }),
    ensures
        router_wf(RouterView { subscriptions: t, clients: Seq::empty(), channels: Seq::empty(), ..v }),
{
}


/// Law: a new router keeps the invariant.
pub proof fn lemma_new_router_wf()
    ensures
        router_wf(
            RouterView {
                subscriptions: Seq::empty(),
                clients: Seq::empty(),
                channels: Seq::empty(),
                next_packet_id: 1,
                handed: Seq::empty(),
            },
        ),
{
}

/// Law: registering a client keeps the invariant, and afterwards the
/// channel of the client is the one it registered.
pub proof fn lemma_register_keeps_wf(v: RouterView, id: Seq<char>, s: Sender<RoutedMessage>)
    requires
        router_wf(v),
    ensures
        router_wf(
            RouterView {
                subscriptions: table_ensure_row(v.subscriptions, id),
                clients: keys_insert(v.clients, id),
                channels: channels_put(v.clients, v.channels, id, s),
                ..v
            },
        ),
        channel_of(
            RouterView {
                subscriptions: table_ensure_row(v.subscriptions, id),
                clients: keys_insert(v.clients, id),
                channels: channels_put(v.clients, v.channels, id, s),
                ..v
            },
            id,
        ) == Some(s),
{
    lemma_keys_insert_distinct(v.clients, id);
    lemma_key_position_valid(v.clients, id);
    let keys2 = keys_insert(v.clients, id);
    lemma_key_position_valid(keys2, id);
    if key_position(v.clients, id) < 0 {
        lemma_key_position_found(keys2, id, v.clients.len() as int);
    }
    let t = v.subscriptions;
    lemma_key_position_valid(row_keys(t), id);
    if key_position(row_keys(t), id) < 0 {
        let t1 = t.push((id, Seq::<EntryView>::empty()));
        assert(row_keys(t1) =~= row_keys(t).push(id));
        assert forall|i: int| 0 <= i < t1.len() implies distinct_keys(entry_filters(#[trigger] t1[i].1)) by {
            if i < t.len() {
                assert(t1[i] == t[i]);
            }
        }
        assert forall|i: int, j: int| 0 <= i < t1.len() && 0 <= j < t1[i].1.len() implies #[trigger] t1[i].1[j].0
            == t1[i].0 by {
            assert(i < t.len());
            assert(t1[i] == t[i]);
        }
    }
}

/// Law: removing a client keeps the invariant, and afterwards the client
/// has no channel.
pub proof fn lemma_remove_keeps_wf(v: RouterView, id: Seq<char>)
    requires
        router_wf(v),
    ensures
        router_wf(
            RouterView {
                subscriptions: table_remove_row(v.subscriptions, id),
                clients: keys_remove(v.clients, id),
                channels: channels_remove(v.clients, v.channels, id),
                ..v
            },
        ),
        channel_of(
            RouterView {
                subscriptions: table_remove_row(v.subscriptions, id),
                clients: keys_remove(v.clients, id),
                channels: channels_remove(v.clients, v.channels, id),
                ..v
            },
            id,
        ) is None,
{
    let t = v.subscriptions;
    lemma_key_position_valid(row_keys(t), id);
    lemma_key_position_valid(v.clients, id);
    if key_position(v.clients, id) >= 0 {
        lemma_remove_distinct(v.clients, key_position(v.clients, id));
    }
    let keys2 = keys_remove(v.clients, id);
    assert forall|j: int| 0 <= j < keys2.len() implies keys2[j] != id by {
        if key_position(v.clients, id) >= 0 {
            assert(keys2[j] != v.clients[key_position(v.clients, id)]);
        }
    }
    lemma_key_position_valid(keys2, id);
    let p = key_position(row_keys(t), id);
    if p >= 0 {
        let t1 = t.remove(p);
        assert(row_keys(t1) =~= row_keys(t).remove(p));
        lemma_remove_distinct(row_keys(t), p);
        assert forall|i: int| 0 <= i < t1.len() implies distinct_keys(entry_filters(#[trigger] t1[i].1)) by {
            let i2 = if i < p { i } else { i + 1 };
            assert(t1[i] == t[i2]);
        }
        assert forall|i: int, j: int| 0 <= i < t1.len() && 0 <= j < t1[i].1.len() implies #[trigger] t1[i].1[j].0
            == t1[i].0 by {
            let i2 = if i < p { i } else { i + 1 };
            assert(t1[i] == t[i2]);
        }
    }
}

/// Law: subscribing keeps the invariant; in particular a client holds at
/// most one subscription per filter, a second subscription replacing the first.
#[verifier::spinoff_prover]
pub proof fn lemma_subscribe_keeps_wf(
    v: RouterView,
    id: Seq<char>,
    filter: Seq<char>,
    qos: QoS,
    s: Sender<RoutedMessage>,
)
    requires
        router_wf(v),
    ensures
        router_wf(
            RouterView {
                subscriptions: table_subscribe(v.subscriptions, id, filter, qos, s),
                clients: keys_insert(v.clients, id),
                channels: channels_put(v.clients, v.channels, id, s),
                ..v
            },
        ),
{
    lemma_register_keeps_wf(v, id, s);
    let t1 = table_ensure_row(v.subscriptions, id);
    let v1 = RouterView {
        subscriptions: t1,
        clients: keys_insert(v.clients, id),
        channels: channels_put(v.clients, v.channels, id, s),
        ..v
    };
    assert(router_wf(v1));
    lemma_table_subscribe_row(v.subscriptions, id, filter, qos, s);
    let i = key_position(row_keys(t1), id);
    lemma_key_position_valid(row_keys(t1), id);
    assert(t1[i].0 == id);
    let old_row = t1[i].1;
    lemma_without_filter(old_row, filter);
    let kept = without_filter(old_row, filter);
    let row = kept.push((id, filter, qos, s));
    let t2 = t1.update(i, (id, row));
    assert(t2 == table_subscribe(v.subscriptions, id, filter, qos, s));
    assert(row_keys(t2) =~= row_keys(t1));
    assert(distinct_keys(entry_filters(row))) by {
        let rf = entry_filters(row);
        assert(distinct_keys(entry_filters(old_row)));
        assert forall|a: int, b: int| 0 <= a < b < rf.len() implies rf[a] != rf[b] by {
            assert(rf[a] == kept[a].1);
            if b == kept.len() {
                assert(rf[b] == filter);
            } else {
                assert(rf[b] == kept[b].1);
                assert(entry_filters(kept)[a] == kept[a].1);
                assert(entry_filters(kept)[b] == kept[b].1);
            }
        }
    }
    assert forall|k: int| 0 <= k < row.len() implies #[trigger] row[k].0 == id by {
        if k < kept.len() {
            assert(kept[k].1 != filter);
            let w = choose|w: int| 0 <= w < old_row.len() && old_row[w] == kept[k];
            assert(t1[i].1[w].0 == t1[i].0);
        }
    }
    assert forall|a: int| 0 <= a < t2.len() implies distinct_keys(entry_filters(#[trigger] t2[a].1)) by {
        if a != i {
            assert(t2[a] == t1[a]);
        }
    }
    assert forall|a: int, j: int| 0 <= a < t2.len() && 0 <= j < t2[a].1.len() implies #[trigger] t2[a].1[j].0
        == t2[a].0 by {
        if a != i {
            assert(t2[a] == t1[a]);
        } else {
            assert(t2[a].1 == row);
            assert(row[j].0 == id);
        }
    }
}

/// Law: publishing (which moves only the identifier counter) keeps the invariant.
pub proof fn lemma_publish_keeps_wf(v: RouterView, n: nat)
    requires
        router_wf(v),
    ensures
        router_wf(RouterView { next_packet_id: advance_id(v.next_packet_id, n), ..v }),
{
}

/// Law: a removed client receives nothing; no delivery of any message goes to it.
pub proof fn lemma_removed_client_receives_nothing(v: RouterView, id: Seq<char>, topic: Seq<char>, q: QoS)
    requires
        router_wf(v),
    ensures
        forall|k: int|
            0 <= k < table_deliveries(table_remove_row(v.subscriptions, id), topic, q).len()
                ==> #[trigger] table_deliveries(table_remove_row(v.subscriptions, id), topic, q)[k].0 != id,
{
    let t = v.subscriptions;
    let t1 = table_remove_row(t, id);
    lemma_key_position_valid(row_keys(t), id);
    let p = key_position(row_keys(t), id);
    if p >= 0 {
        lemma_remove_distinct(row_keys(t), p);
        assert(row_keys(t1) =~= row_keys(t).remove(p));
    }
    assert forall|k: int| 0 <= k < table_deliveries(t1, topic, q).len() implies #[trigger] table_deliveries(
        t1,
        topic,
        q,
    )[k].0 != id by {
        lemma_delivery_from_matching_subscription(t1, k, topic, q);
        let (i, j) = choose|i: int, j: int|
            0 <= i < t1.len() && 0 <= j < t1[i].1.len() && topic_matches_spec(t1[i].1[j].1, topic)
                && #[trigger] table_deliveries(t1, topic, q)[k] == (t1[i].1[j].0, delivery_qos(q, t1[i].1[j].2));
        let i2 = if p >= 0 && i >= p { i + 1 } else { i };
        assert(t1[i] == t[i2]);
        assert(t[i2].1[j].0 == t[i2].0);
        assert(row_keys(t1)[i] == t1[i].0);
    }
}

// --- laws of packet identifiers ---

/// How identifiers are handed out: the QoS 1 deliveries, and only they, get
/// one, the next after those handed out before them.
pub proof fn lemma_delivery_ids_shape(d: Seq<(Seq<char>, QoS)>, start: u16)
    ensures
        delivery_ids(d, start).len() == d.len(),
        forall|k: int|
            #![trigger delivery_ids(d, start)[k]]
            0 <= k < d.len() ==> (delivery_ids(d, start)[k] is Some <==> d[k].1 == QoS::AtLeastOnce) && (
            d[k].1 == QoS::AtLeastOnce ==> delivery_ids(d, start)[k] == Some(
                advance_id(start, qos1_count(d.take(k))),
            )),
    decreases d.len(),
{
    if d.len() > 0 {
        let p = d.drop_last();
        lemma_delivery_ids_shape(p, start);
        let ids = delivery_ids(d, start);
        assert forall|k: int| #![trigger ids[k]] 0 <= k < d.len() implies (ids[k] is Some <==> d[k].1
            == QoS::AtLeastOnce) && (d[k].1 == QoS::AtLeastOnce ==> ids[k] == Some(
            advance_id(start, qos1_count(d.take(k))),
        )) by {
            if k < p.len() {
                assert(ids[k] == delivery_ids(p, start)[k]);
                assert(p[k] == d[k]);
                assert(p.take(k) =~= d.take(k));
            } else {
                assert(d.take(k) =~= p);
            }
        }
    }
}

proof fn lemma_qos1_count_step(d: Seq<(Seq<char>, QoS)>, k: int)
    requires
        0 <= k < d.len(),
    ensures
        qos1_count(d.take(k + 1)) == qos1_count(d.take(k)) + (if d[k].1 == QoS::AtLeastOnce {
            1nat
        } else {
            0nat
        }),
{
    assert(d.take(k + 1).drop_last() =~= d.take(k));
}

proof fn lemma_qos1_count_monotone(d: Seq<(Seq<char>, QoS)>, a: int, b: int)
    requires
        0 <= a <= b <= d.len(),
    ensures
        qos1_count(d.take(a)) <= qos1_count(d.take(b)),
    decreases b - a,
{
    if a < b {
        lemma_qos1_count_step(d, b - 1);
        lemma_qos1_count_monotone(d, a, b - 1);
    }
}

/// Law: as long as a message makes at most 65536 QoS 1 deliveries, no two
/// of them share a packet identifier.
#[verifier::spinoff_prover]
pub proof fn lemma_delivery_ids_distinct(d: Seq<(Seq<char>, QoS)>, start: u16, a: int, b: int)
    requires
        0 <= a < b < d.len(),
        d[a].1 == QoS::AtLeastOnce,
        d[b].1 == QoS::AtLeastOnce,
        qos1_count(d) <= 65536,
    ensures
        delivery_ids(d, start)[a] is Some,
        delivery_ids(d, start)[b] is Some,
        delivery_ids(d, start)[a] != delivery_ids(d, start)[b],
{
    lemma_delivery_ids_shape(d, start);
    let ids = delivery_ids(d, start);
    assert(ids[a] == Some(advance_id(start, qos1_count(d.take(a)))));
    assert(ids[b] == Some(advance_id(start, qos1_count(d.take(b)))));
    lemma_qos1_count_step(d, a);
    lemma_qos1_count_step(d, b);
    lemma_qos1_count_monotone(d, a + 1, b);
    lemma_qos1_count_monotone(d, b + 1, d.len() as int);
    assert(d.take(d.len() as int) =~= d);
    let ca = qos1_count(d.take(a));
    let cb = qos1_count(d.take(b));
    assert(ca < cb < 65536);
    assert((start + ca) % 65536 != (start + cb) % 65536);
}

/// Law: `next_packet_id` hands out identifiers in one run: after `m` calls
/// from counter `start`, the next `k` calls go on from where the first ones
/// stopped, and no two calls fewer than 65536 calls apart give the same
/// identifier.
pub proof fn lemma_packet_id_run(start: u16, m: nat, k: nat)
    ensures
        advance_id(advance_id(start, m), k) == advance_id(start, m + k),
        0 < k < 65536 ==> advance_id(start, m) != advance_id(start, m + k),
{
    let x = start + m;
    vstd::arithmetic::div_mod::lemma_add_mod_noop_right(k as int, x as int, 65536);
    assert((x % 65536 + k) % 65536 == (x + k) % 65536);
    if 0 < k < 65536 {
        vstd::arithmetic::div_mod::lemma_fundamental_div_mod(x as int, 65536);
        vstd::arithmetic::div_mod::lemma_fundamental_div_mod((x + k) as int, 65536);
        assert((x + k) % 65536 != x % 65536) by (nonlinear_arith)
            requires
                0 < k < 65536,
                x >= 0,
                x == 65536 * (x / 65536) + x % 65536,
                x + k == 65536 * ((x + k) / 65536) + (x + k) % 65536,
                0 <= x % 65536 < 65536,
                0 <= (x + k) % 65536 < 65536,
        ;
    }
}

/// Law: a new router's counter starts at 1, so the `k`-th identifier it
/// hands out (counting from 1, each call moving the counter by one) is
/// `k` modulo 65536: 1, 2, ..., 65535, then 0, 1, ...
pub proof fn lemma_packet_ids_from_new(k: nat)
    requires
        k >= 1,
    ensures
        advance_id(1, (k - 1) as nat) == (k % 65536) as u16,
{
}

/// Law: a publish hands every subscription whose filter matches the topic a
/// copy of the message on that subscription's channel, at the delivery QoS
/// of that subscription, not duplicate and not retained.
pub proof fn lemma_publish_reaches_matching_subscription(
    t: Seq<ClientRow>,
    i: int,
    j: int,
    p: PublishFields,
    start: u16,
)
    requires
        0 <= i < t.len(),
        0 <= j < t[i].1.len(),
        topic_matches_spec(t[i].1[j].1, p.topic),
    ensures
        exists|k: int|
            0 <= k < publish_handoffs(t, p, start).len() && #[trigger] publish_handoffs(t, p, start)[k] == (
                t[i].1[j].3,
                outbound_fields(p, delivery_qos(p.qos, t[i].1[j].2), publish_handoffs(t, p, start)[k].2),
                publish_handoffs(t, p, start)[k].2,
            ),
{
    lemma_matching_subscription_receives(t, i, j, p.topic, p.qos);
    let d = table_deliveries(t, p.topic, p.qos);
    let k = choose|k: int|
        0 <= k < d.len() && #[trigger] d[k] == (t[i].1[j].0, delivery_qos(p.qos, t[i].1[j].2))
            && table_channels(t, p.topic)[k] == t[i].1[j].3;
    assert(publish_handoffs(t, p, start)[k].0 == t[i].1[j].3);
}

// --- what each operation does to the rows of the table ---

/// The subscriptions of client `c` in a table: those of its row, or none.
pub open spec fn row_of(t: Seq<ClientRow>, c: Seq<char>) -> Seq<EntryView> {
    if key_position(row_keys(t), c) >= 0 {
        t[key_position(row_keys(t), c)].1
    } else {
        Seq::empty()
    }
}

/// Dropping the subscriptions to `f` keeps every subscription to another filter.
pub proof fn lemma_without_filter_keeps(entries: Seq<EntryView>, f: Seq<char>, e: EntryView)
    requires
        entries.contains(e),
        e.1 != f,
    ensures
        without_filter(entries, f).contains(e),
    decreases entries.len(),
{
    let rest = entries.drop_first();
    let head: Seq<EntryView> = if entries[0].1 == f {
        Seq::empty()
    } else {
        seq![entries[0]]
    };
    let r = without_filter(entries, f);
    assert(r == head + without_filter(rest, f));
    if entries[0] == e {
        assert(r[0] == e);
    } else {
        let w = choose|w: int| 0 <= w < entries.len() && entries[w] == e;
        assert(w > 0);
        assert(rest[w - 1] == e);
        lemma_without_filter_keeps(rest, f, e);
        let tail = without_filter(rest, f);
        let x = choose|x: int| 0 <= x < tail.len() && tail[x] == e;
        assert(r[head.len() + x] == e);
    }
}

/// Law: after client `c` subscribes to `g` with `q` through `s`, its row
/// holds that subscription and keeps every earlier subscription to another
/// filter.
pub proof fn lemma_table_subscribe_row_effect(
    t: Seq<ClientRow>,
    c: Seq<char>,
    g: Seq<char>,
    q: QoS,
    s: Sender<RoutedMessage>,
    e: EntryView,
)
    ensures
        row_of(table_subscribe(t, c, g, q, s), c).contains((c, g, q, s)),
        row_of(t, c).contains(e) && e.1 != g ==> row_of(table_subscribe(t, c, g, q, s), c).contains(e),
{
    let t1 = table_ensure_row(t, c);
    let t2 = table_subscribe(t, c, g, q, s);
    lemma_key_position_valid(row_keys(t), c);
    if key_position(row_keys(t), c) < 0 {
        assert(row_keys(t1) =~= row_keys(t).push(c));
        lemma_key_position_found(row_keys(t1), c, t.len() as int);
    }
    lemma_key_position_valid(row_keys(t1), c);
    let i = key_position(row_keys(t1), c);
    assert(row_keys(t2) =~= row_keys(t1));
    assert(row_of(t2, c) == t2[i].1);
    let kept = without_filter(t1[i].1, g);
    assert(t2[i].1 == kept.push((c, g, q, s)));
    assert(t2[i].1[kept.len() as int] == (c, g, q, s));
    if row_of(t, c).contains(e) && e.1 != g {
        assert(key_position(row_keys(t), c) >= 0);
        assert(t1[i].1 == row_of(t, c));
        lemma_without_filter_keeps(t1[i].1, g, e);
        let x = choose|x: int| 0 <= x < kept.len() && kept[x] == e;
        assert(t2[i].1[x] == e);
    }
}

/// Law: removing a client keeps the row of every other client as it was,
/// invents no row, and drops at most one row.
pub proof fn lemma_remove_keeps_other_rows(t: Seq<ClientRow>, id: Seq<char>)
    ensures
        forall|i: int| 0 <= i < t.len() && t[i].0 != id ==> #[trigger] table_remove_row(t, id).contains(t[i]),
        forall|r: ClientRow| #[trigger] table_remove_row(t, id).contains(r) ==> t.contains(r),
        table_remove_row(t, id).len() + 1 >= t.len(),
        table_remove_row(t, id).len() <= t.len(),
{
    lemma_key_position_valid(row_keys(t), id);
    let p = key_position(row_keys(t), id);
    let t1 = table_remove_row(t, id);
    if p >= 0 {
        assert(row_keys(t)[p] == t[p].0);
        assert forall|i: int| 0 <= i < t.len() && t[i].0 != id implies #[trigger] t1.contains(t[i]) by {
            assert(row_keys(t)[i] == t[i].0);
            assert(i != p);
            if i < p {
                assert(t1[i] == t[i]);
            } else {
                assert(t1[i - 1] == t[i]);
            }
        }
        assert forall|r: ClientRow| #[trigger] t1.contains(r) implies t.contains(r) by {
            let x = choose|x: int| 0 <= x < t1.len() && t1[x] == r;
            if x < p {
                assert(t[x] == r);
            } else {
                assert(t[x + 1] == r);
            }
        }
    }
}

/// Law: every message a publish hands to a channel is a fresh copy of the
/// published one: not a duplicate and not retained, whatever the published
/// flags; with the same topic and payload; never above the published QoS;
/// at QoS 1 exactly when it carries an identifier, and carrying the
/// identifier it is handed with.
pub proof fn lemma_handoffs_are_fresh(t: Seq<ClientRow>, p: PublishFields, start: u16)
    ensures
        forall|k: int|
            0 <= k < publish_handoffs(t, p, start).len() ==> {
                let h = #[trigger] publish_handoffs(t, p, start)[k];
                &&& !h.1.dup
                &&& !h.1.retain
                &&& h.1.topic == p.topic
                &&& h.1.payload == p.payload
                &&& h.1.packet_id == h.2
                &&& qos_code(h.1.qos) <= qos_code(p.qos)
                &&& (h.2 is Some <==> h.1.qos == QoS::AtLeastOnce)
            },
{
    let d = table_deliveries(t, p.topic, p.qos);
    lemma_delivery_ids_shape(d, start);
    assert forall|k: int| 0 <= k < publish_handoffs(t, p, start).len() implies {
        let h = #[trigger] publish_handoffs(t, p, start)[k];
        &&& !h.1.dup
        &&& !h.1.retain
        &&& h.1.topic == p.topic
        &&& h.1.payload == p.payload
        &&& h.1.packet_id == h.2
        &&& qos_code(h.1.qos) <= qos_code(p.qos)
        &&& (h.2 is Some <==> h.1.qos == QoS::AtLeastOnce)
    } by {
        lemma_delivery_from_matching_subscription(t, k, p.topic, p.qos);
        let (i, j) = choose|i: int, j: int|
            0 <= i < t.len() && 0 <= j < t[i].1.len() && topic_matches_spec(t[i].1[j].1, p.topic)
                && #[trigger] table_deliveries(t, p.topic, p.qos)[k] == (t[i].1[j].0, delivery_qos(p.qos, t[i].1[j].2));
        lemma_delivery_qos_bounded(p.qos, t[i].1[j].2);
        assert(delivery_ids(d, start)[k] is Some <==> d[k].1 == QoS::AtLeastOnce);
    }
}

} // verus!
