//! Laws that relate the operations of the bus, stated over the values that
//! their contracts speak of.

use crate::matching::{glob_match, is_literal, lemma_literal_matches_only_itself};
use crate::msgbus::pending_after_request;
use crate::subscription::{
    delivery_order, has_subscription, lemma_filter_keeps_all, lemma_filter_no_duplicates, lemma_sort_by_priority,
    lemma_strictly_sorted_unique, matching, priorities_ascending, with_subscription, without_key,
    SubscriptionView,
};
use vstd::prelude::*;

verus! {

broadcast use vstd::seq_lib::group_filter_ensures;

/// Subscribing the same handler to the same topic a second time changes
/// nothing: neither the number of subscriptions nor the priority that the
/// first subscription set.
pub proof fn lemma_subscribe_idempotent(
    subs: Seq<SubscriptionView>,
    topic: Seq<char>,
    handler_id: Seq<char>,
    first: u8,
    second: u8,
)
    ensures
        with_subscription(with_subscription(subs, topic, handler_id, first), topic, handler_id, second)
            == with_subscription(subs, topic, handler_id, first),
{
    let once = with_subscription(subs, topic, handler_id, first);
    if !has_subscription(subs, topic, handler_id) {
        assert(once[subs.len() as int].has_key(topic, handler_id));
    }
    assert(has_subscription(once, topic, handler_id));
}

/// Unsubscribing right after a new subscription leaves the subscriptions as
/// they were before it.
pub proof fn lemma_unsubscribe_undoes_subscribe(
    subs: Seq<SubscriptionView>,
    topic: Seq<char>,
    handler_id: Seq<char>,
    priority: u8,
)
    requires
        !has_subscription(subs, topic, handler_id),
    ensures
        without_key(with_subscription(subs, topic, handler_id, priority), topic, handler_id) == subs,
{
    let pred = |s: SubscriptionView| !s.has_key(topic, handler_id);
    let x = SubscriptionView { topic, handler_id, priority };
    subs.lemma_filter_push(x, pred);
    assert forall|k: int| 0 <= k < subs.len() implies pred(#[trigger] subs[k]) by {
        if !pred(subs[k]) {
            assert(has_subscription(subs, topic, handler_id));
        }
    }
    lemma_filter_keeps_all(subs, pred);
}

/// A subscription to a topic that had none, once unsubscribed, leaves no
/// trace: no subscription has that topic, and the topic, read as a pattern
/// without wildcards, matches no subscription.
pub proof fn lemma_unsubscribe_clears_topic(
    subs: Seq<SubscriptionView>,
    topic: Seq<char>,
    handler_id: Seq<char>,
    priority: u8,
)
    requires
        forall|i: int| 0 <= i < subs.len() ==> (#[trigger] subs[i]).topic != topic,
        is_literal(topic),
    ensures
        ({
            let after = without_key(
                with_subscription(subs, topic, handler_id, priority),
                topic,
                handler_id,
            );
            &&& forall|i: int| 0 <= i < after.len() ==> (#[trigger] after[i]).topic != topic
            &&& forall|i: int| 0 <= i < after.len() ==> !glob_match((#[trigger] after[i]).topic, topic)
        }),
{
    assert(!has_subscription(subs, topic, handler_id)) by {
        if has_subscription(subs, topic, handler_id) {
            let i = choose|i: int| 0 <= i < subs.len() && (#[trigger] subs[i]).has_key(topic, handler_id);
            assert(subs[i].topic == topic);
        }
    }
    lemma_unsubscribe_undoes_subscribe(subs, topic, handler_id, priority);
    assert forall|i: int| 0 <= i < subs.len() implies !glob_match((#[trigger] subs[i]).topic, topic) by {
        lemma_literal_matches_only_itself(subs[i].topic, topic);
    }
}

/// Registering a second handler under an endpoint replaces the first.
pub proof fn lemma_register_replaces(
    endpoints: Map<Seq<char>, Seq<char>>,
    endpoint: Seq<char>,
    first: Seq<char>,
    second: Seq<char>,
)
    ensures
        endpoints.insert(endpoint, first).insert(endpoint, second) == endpoints.insert(endpoint, second),
        endpoints.insert(endpoint, first).insert(endpoint, second)[endpoint] == second,
{
    assert(endpoints.insert(endpoint, first).insert(endpoint, second) =~= endpoints.insert(endpoint, second));
}

/// A request to an unregistered endpoint leaves its id not pending; one to a
/// registered endpoint makes it pending for that endpoint's handler until its
/// response is taken, after which a second response finds nothing.
pub proof fn lemma_request_then_response(
    endpoints: Map<Seq<char>, Seq<char>>,
    pending: Map<u128, Seq<char>>,
    endpoint: Seq<char>,
    request_id: u128,
)
    ensures
        !endpoints.contains_key(endpoint) && !pending.contains_key(request_id) ==> !pending_after_request(
            endpoints,
            pending,
            endpoint,
            request_id,
        ).contains_key(request_id),
        endpoints.contains_key(endpoint) ==> ({
            let sent = pending_after_request(endpoints, pending, endpoint, request_id);
            &&& sent.contains_key(request_id)
            &&& sent[request_id] == endpoints[endpoint]
            &&& !sent.remove(request_id).contains_key(request_id)
            &&& sent.remove(request_id).remove(request_id) == sent.remove(request_id)
        }),
{
    let sent = pending_after_request(endpoints, pending, endpoint, request_id);
    assert(sent.remove(request_id).remove(request_id) =~= sent.remove(request_id));
}

/// Subscriptions are delivered by ascending priority, and exactly those
/// whose topic the pattern matches are delivered.
pub proof fn lemma_delivery_order_sorted(subs: Seq<SubscriptionView>, pattern: Seq<char>)
    ensures
        priorities_ascending(delivery_order(subs, pattern)),
        forall|x: SubscriptionView|
            #[trigger] delivery_order(subs, pattern).contains(x) <==> subs.contains(x) && glob_match(
                x.topic,
                pattern,
            ),
{
    let m = matching(subs, pattern);
    lemma_sort_by_priority(m);
    let d = delivery_order(subs, pattern);
    assert forall|x: SubscriptionView| #[trigger] d.contains(x) <==> subs.contains(x) && glob_match(x.topic, pattern) by {
        let pred = |s: SubscriptionView| glob_match(s.topic, pattern);
        assert(d.to_set().contains(x) <==> m.to_set().contains(x));
        if subs.contains(x) && glob_match(x.topic, pattern) {
            let i = choose|i: int| 0 <= i < subs.len() && subs[i] == x;
            subs.lemma_filter_contains(pred, i);
        }
        if m.contains(x) {
            subs.lemma_filter_contains_rev(pred, x);
            let i = choose|i: int| 0 <= i < m.len() && m[i] == x;
            subs.lemma_filter_pred(pred, i);
        }
    }
}

/// Where the subscriptions that a pattern matches have distinct priorities,
/// the order of delivery does not depend on the order in which they were
/// made.
pub proof fn lemma_delivery_order_ignores_subscription_order(
    first: Seq<SubscriptionView>,
    second: Seq<SubscriptionView>,
    pattern: Seq<char>,
)
    requires
        first.no_duplicates(),
        second.no_duplicates(),
        first.to_set() == second.to_set(),
        forall|x: SubscriptionView, y: SubscriptionView|
            #[trigger] first.contains(x) && #[trigger] first.contains(y) && glob_match(x.topic, pattern)
                && glob_match(y.topic, pattern) && x != y ==> x.priority != y.priority,
    ensures
        delivery_order(first, pattern) == delivery_order(second, pattern),
{
    assert forall|x: SubscriptionView, y: SubscriptionView|
        #[trigger] second.contains(x) && #[trigger] second.contains(y) && glob_match(x.topic, pattern)
            && glob_match(y.topic, pattern) && x != y implies x.priority != y.priority by {
        assert(second.to_set().contains(x));
        assert(second.to_set().contains(y));
        assert(first.contains(x));
        assert(first.contains(y));
    }
    lemma_strictly_ascending(first, pattern);
    lemma_strictly_ascending(second, pattern);
    lemma_delivery_order_sorted(first, pattern);
    lemma_delivery_order_sorted(second, pattern);
    let a = delivery_order(first, pattern);
    let b = delivery_order(second, pattern);
    assert forall|x: SubscriptionView| a.to_set().contains(x) <==> b.to_set().contains(x) by {
        assert(a.to_set().contains(x) <==> a.contains(x));
        assert(b.to_set().contains(x) <==> b.contains(x));
        assert(first.contains(x) <==> first.to_set().contains(x));
        assert(second.contains(x) <==> second.to_set().contains(x));
    }
    assert(a.to_set() =~= b.to_set());
    lemma_strictly_sorted_unique(a, b);
}

/// Without duplicates, and with distinct priorities among the matched
/// subscriptions, the order of delivery has strictly ascending priorities.
proof fn lemma_strictly_ascending(subs: Seq<SubscriptionView>, pattern: Seq<char>)
    requires
        subs.no_duplicates(),
        forall|x: SubscriptionView, y: SubscriptionView|
            #[trigger] subs.contains(x) && #[trigger] subs.contains(y) && glob_match(x.topic, pattern)
                && glob_match(y.topic, pattern) && x != y ==> x.priority != y.priority,
    ensures
        forall|i: int, j: int|
            0 <= i < j < delivery_order(subs, pattern).len() ==> (#[trigger] delivery_order(
                subs,
                pattern,
            )[i]).priority < (#[trigger] delivery_order(subs, pattern)[j]).priority,
{
    let pred = |s: SubscriptionView| glob_match(s.topic, pattern);
    let m = matching(subs, pattern);
    let d = delivery_order(subs, pattern);
    lemma_filter_no_duplicates(subs, pred);
    lemma_sort_by_priority(m);
    lemma_delivery_order_sorted(subs, pattern);
    m.unique_seq_to_set();
    vstd::seq_lib::seq_to_set_is_finite(d);
    d.lemma_no_dup_set_cardinality();
    assert forall|i: int, j: int| 0 <= i < j < d.len() implies (#[trigger] d[i]).priority < (#[trigger] d[j]).priority by {
        assert(d.contains(d[i]));
        assert(d.contains(d[j]));
        assert(d[i] != d[j]);
    }
}

/// A subscription whose topic a pattern matches is delivered for that
/// pattern, and stays so when other subscriptions are made or removed.
pub proof fn lemma_match_survives_other_changes(
    subs: Seq<SubscriptionView>,
    x: SubscriptionView,
    pattern: Seq<char>,
    topic: Seq<char>,
    handler_id: Seq<char>,
    priority: u8,
)
    requires
        subs.contains(x),
        glob_match(x.topic, pattern),
        !x.has_key(topic, handler_id),
    ensures
        delivery_order(subs, pattern).contains(x),
        delivery_order(with_subscription(subs, topic, handler_id, priority), pattern).contains(x),
        delivery_order(without_key(subs, topic, handler_id), pattern).contains(x),
{
    let added = with_subscription(subs, topic, handler_id, priority);
    let removed = without_key(subs, topic, handler_id);
    let i = choose|i: int| 0 <= i < subs.len() && subs[i] == x;
    assert(added[i] == x);
    assert(added.contains(x));
    let pred = |s: SubscriptionView| !s.has_key(topic, handler_id);
    subs.lemma_filter_contains(pred, i);
    assert(removed.contains(x));
    lemma_delivery_order_sorted(subs, pattern);
    lemma_delivery_order_sorted(added, pattern);
    lemma_delivery_order_sorted(removed, pattern);
}

} // verus!
