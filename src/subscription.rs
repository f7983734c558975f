//! Subscriptions of handlers to topics, and their order of delivery.

use crate::handler::MessageHandler;
use crate::matching::glob_match;
use vstd::prelude::*;

verus! {

/// A subscription as a value: its topic, the id of its handler and its
/// priority.
pub struct SubscriptionView {
    pub topic: Seq<char>,
    pub handler_id: Seq<char>,
    pub priority: u8,
}

impl SubscriptionView {
    /// Whether this subscription has the identity `(topic, handler_id)`.
    /// The priority is no part of a subscription's identity.
    pub open spec fn has_key(self, topic: Seq<char>, handler_id: Seq<char>) -> bool {
        self.topic == topic && self.handler_id == handler_id
    }
}

/// No two subscriptions of `subs` share a topic and a handler id.
pub open spec fn keys_unique(subs: Seq<SubscriptionView>) -> bool {
    forall|i: int, j: int|
        0 <= i < subs.len() && 0 <= j < subs.len() && i != j ==> !(#[trigger] subs[i]).has_key(
            (#[trigger] subs[j]).topic,
            subs[j].handler_id,
        )
}

/// Whether some subscription of `subs` has the identity `(topic, handler_id)`.
pub open spec fn has_subscription(
    subs: Seq<SubscriptionView>,
    topic: Seq<char>,
    handler_id: Seq<char>,
) -> bool {
    exists|i: int| 0 <= i < subs.len() && (#[trigger] subs[i]).has_key(topic, handler_id)
}

/// `subs` after subscribing `handler_id` to `topic` with `priority`: a new
/// identity is appended, an existing one leaves `subs` as it was.
pub open spec fn with_subscription(
    subs: Seq<SubscriptionView>,
    topic: Seq<char>,
    handler_id: Seq<char>,
    priority: u8,
) -> Seq<SubscriptionView> {
    if has_subscription(subs, topic, handler_id) {
        subs
    } else {
        subs.push(SubscriptionView { topic, handler_id, priority })
    }
}

/// `subs` without the subscription whose identity is `(topic, handler_id)`.
pub open spec fn without_key(
    subs: Seq<SubscriptionView>,
    topic: Seq<char>,
    handler_id: Seq<char>,
) -> Seq<SubscriptionView> {
    subs.filter(|s: SubscriptionView| !s.has_key(topic, handler_id))
}

/// `sorted` with `x` placed after every subscription whose priority is not
/// greater than that of `x`, and before the others.
pub open spec fn insert_by_priority(
    sorted: Seq<SubscriptionView>,
    x: SubscriptionView,
) -> Seq<SubscriptionView>
    decreases sorted.len(),
{
    if sorted.len() > 0 && x.priority < sorted.last().priority {
        insert_by_priority(sorted.drop_last(), x).push(sorted.last())
    } else {
        sorted.push(x)
    }
}

/// Where `x` goes: after the first `k` subscriptions of `sorted`, when those
/// from `k` on have a greater priority than `x` and the one before does not.
pub proof fn lemma_insert_at(sorted: Seq<SubscriptionView>, x: SubscriptionView, k: int)
    requires
        0 <= k <= sorted.len(),
        forall|j: int| k <= j < sorted.len() ==> (#[trigger] sorted[j]).priority > x.priority,
        k == 0 || sorted[k - 1].priority <= x.priority,
    ensures
        insert_by_priority(sorted, x) == sorted.take(k).push(x) + sorted.skip(k),
    decreases sorted.len(),
{
    if k == sorted.len() {
        assert(sorted.take(k) =~= sorted);
        assert(sorted.push(x) =~= sorted.take(k).push(x) + sorted.skip(k));
    } else {
        let rest = sorted.drop_last();
        lemma_insert_at(rest, x, k);
        assert(insert_by_priority(sorted, x) == insert_by_priority(rest, x).push(sorted.last()));
        assert(rest.take(k).push(x) + rest.skip(k) + seq![sorted.last()] =~= sorted.take(k).push(x)
            + sorted.skip(k));
        assert(insert_by_priority(rest, x).push(sorted.last()) =~= rest.take(k).push(x)
            + rest.skip(k) + seq![sorted.last()]);
    }
}

/// `subs` ordered by ascending priority; subscriptions of equal priority keep
/// their order in `subs`.
pub open spec fn sort_by_priority(subs: Seq<SubscriptionView>) -> Seq<SubscriptionView>
    decreases subs.len(),
{
    if subs.len() == 0 {
        subs
    } else {
        insert_by_priority(sort_by_priority(subs.drop_last()), subs.last())
    }
}

/// The subscriptions of `subs` whose topic `pattern` matches.
pub open spec fn matching(subs: Seq<SubscriptionView>, pattern: Seq<char>) -> Seq<
    SubscriptionView,
> {
    subs.filter(|s: SubscriptionView| glob_match(s.topic, pattern))
}

/// The order in which the subscriptions of `subs` that `pattern` matches are
/// delivered: by ascending priority, and in order of subscription where
/// priorities are equal.
pub open spec fn delivery_order(subs: Seq<SubscriptionView>, pattern: Seq<char>) -> Seq<
    SubscriptionView,
> {
    sort_by_priority(matching(subs, pattern))
}

/// The priorities of `subs` do not decrease.
pub open spec fn priorities_ascending(subs: Seq<SubscriptionView>) -> bool {
    forall|i: int, j: int|
        0 <= i < j < subs.len() ==> (#[trigger] subs[i]).priority <= (#[trigger] subs[j]).priority
}

/// Inserting adds `x` and nothing else, and keeps the priorities ascending.
pub proof fn lemma_insert_by_priority(sorted: Seq<SubscriptionView>, x: SubscriptionView)
    ensures
        insert_by_priority(sorted, x).len() == sorted.len() + 1,
        insert_by_priority(sorted, x).to_set() == sorted.to_set().insert(x),
        priorities_ascending(sorted) ==> priorities_ascending(insert_by_priority(sorted, x)),
    decreases sorted.len(),
{
    broadcast use Seq::lemma_push_to_set_commute;

    let r = insert_by_priority(sorted, x);
    if sorted.len() > 0 && x.priority < sorted.last().priority {
        let rest = sorted.drop_last();
        lemma_insert_by_priority(rest, x);
        let inner = insert_by_priority(rest, x);
        assert(rest.push(sorted.last()) =~= sorted);
        assert(r.to_set() =~= sorted.to_set().insert(x));
        if priorities_ascending(sorted) {
            assert(priorities_ascending(rest));
            assert forall|i: int, j: int| 0 <= i < j < r.len() implies (#[trigger] r[i]).priority
                <= (#[trigger] r[j]).priority by {
                if j == r.len() - 1 {
                    assert(inner.to_set().contains(inner[i]));
                    assert(rest.to_set().insert(x).contains(inner[i]));
                    if inner[i] != x {
                        let k = choose|k: int| 0 <= k < rest.len() && rest[k] == inner[i];
                        assert(sorted[k] == rest[k]);
                    }
                }
            }
        }
    } else {
        if priorities_ascending(sorted) {
            assert forall|i: int, j: int| 0 <= i < j < r.len() implies (#[trigger] r[i]).priority
                <= (#[trigger] r[j]).priority by {
                if j == r.len() - 1 && sorted.len() > 0 {
                    assert(sorted[i].priority <= sorted.last().priority || i == sorted.len() - 1);
                }
            }
        }
    }
}

/// Sorting keeps the elements and orders them by ascending priority.
pub proof fn lemma_sort_by_priority(subs: Seq<SubscriptionView>)
    ensures
        sort_by_priority(subs).len() == subs.len(),
        sort_by_priority(subs).to_set() == subs.to_set(),
        priorities_ascending(sort_by_priority(subs)),
    decreases subs.len(),
{
    broadcast use Seq::lemma_push_to_set_commute;

    if subs.len() > 0 {
        let rest = subs.drop_last();
        lemma_sort_by_priority(rest);
        lemma_insert_by_priority(sort_by_priority(rest), subs.last());
        assert(rest.push(subs.last()) =~= subs);
    }
}

/// Keeping every element keeps the sequence.
pub proof fn lemma_filter_keeps_all<A>(s: Seq<A>, pred: spec_fn(A) -> bool)
    requires
        forall|k: int| 0 <= k < s.len() ==> pred(#[trigger] s[k]),
    ensures
        s.filter(pred) == s,
    decreases s.len(),
{
    reveal(Seq::filter);
    if s.len() > 0 {
        lemma_filter_keeps_all(s.drop_last(), pred);
        assert(s.drop_last().push(s.last()) =~= s);
    }
}

/// Dropping the one element that fails `pred` is removing it.
pub proof fn lemma_filter_drops_one<A>(s: Seq<A>, pred: spec_fn(A) -> bool, i: int)
    requires
        0 <= i < s.len(),
        !pred(s[i]),
        forall|k: int| 0 <= k < s.len() && k != i ==> pred(#[trigger] s[k]),
    ensures
        s.filter(pred) == s.remove(i),
{
    let a = s.take(i);
    let b = seq![s[i]];
    let c = s.skip(i + 1);
    assert(s =~= a + b + c);
    assert forall|k: int| 0 <= k < a.len() implies pred(#[trigger] a[k]) by {
        assert(a[k] == s[k]);
    }
    assert forall|k: int| 0 <= k < c.len() implies pred(#[trigger] c[k]) by {
        assert(c[k] == s[k + i + 1]);
    }
    lemma_filter_keeps_all(a, pred);
    lemma_filter_keeps_all(c, pred);
    Seq::filter_distributes_over_add(a + b, c, pred);
    Seq::filter_distributes_over_add(a, b, pred);
    reveal(Seq::filter);
    assert(b.drop_last() =~= Seq::<A>::empty());
    assert(b.drop_last().filter(pred) == b.drop_last());
    assert(b.last() == s[i]);
    assert(b.filter(pred) =~= Seq::<A>::empty());
    assert(s.remove(i) =~= a + c);
}

/// Filtering a sequence without duplicates leaves none.
pub proof fn lemma_filter_no_duplicates<A>(s: Seq<A>, pred: spec_fn(A) -> bool)
    requires
        s.no_duplicates(),
    ensures
        s.filter(pred).no_duplicates(),
    decreases s.len(),
{
    broadcast use vstd::seq_lib::group_filter_ensures;

    reveal(Seq::filter);
    if s.len() > 0 {
        let rest = s.drop_last();
        lemma_filter_no_duplicates(rest, pred);
        let f = rest.filter(pred);
        if pred(s.last()) {
            assert(!f.contains(s.last())) by {
                if f.contains(s.last()) {
                    rest.lemma_filter_contains_rev(pred, s.last());
                    let k = choose|k: int| 0 <= k < rest.len() && rest[k] == s.last();
                    assert(s[k] == s[s.len() - 1]);
                }
            }
        }
    }
}

/// Two sequences with the same elements, each ordered by strictly
/// ascending priority, are equal.
pub proof fn lemma_strictly_sorted_unique(a: Seq<SubscriptionView>, b: Seq<SubscriptionView>)
    requires
        a.to_set() == b.to_set(),
        forall|i: int, j: int| 0 <= i < j < a.len() ==> (#[trigger] a[i]).priority < (#[trigger] a[j]).priority,
        forall|i: int, j: int| 0 <= i < j < b.len() ==> (#[trigger] b[i]).priority < (#[trigger] b[j]).priority,
    ensures
        a == b,
    decreases a.len(),
{
    if a.len() == 0 {
        if b.len() > 0 {
            assert(b.to_set().contains(b[0]));
        }
        assert(a =~= b);
    } else {
        assert(a.to_set().contains(a.last()));
        let j = choose|j: int| 0 <= j < b.len() && b[j] == a.last();
        assert(b.to_set().contains(b.last()));
        let i = choose|i: int| 0 <= i < a.len() && a[i] == b.last();
        assert(j == b.len() - 1);
        let ra = a.drop_last();
        let rb = b.drop_last();
        assert(ra.to_set() =~= rb.to_set()) by {
            assert forall|x: SubscriptionView| ra.to_set().contains(x) implies rb.to_set().contains(x) by {
                let k = choose|k: int| 0 <= k < ra.len() && ra[k] == x;
                assert(a.to_set().contains(x));
                let l = choose|l: int| 0 <= l < b.len() && b[l] == x;
                assert(a[k].priority < a.last().priority);
                assert(rb[l] == x);
            }
            assert forall|x: SubscriptionView| rb.to_set().contains(x) implies ra.to_set().contains(x) by {
                let k = choose|k: int| 0 <= k < rb.len() && rb[k] == x;
                assert(b.to_set().contains(x));
                let l = choose|l: int| 0 <= l < a.len() && a[l] == x;
                assert(b[k].priority < b.last().priority);
                assert(ra[l] == x);
            }
        }
        lemma_strictly_sorted_unique(ra, rb);
        assert(a =~= ra.push(a.last()));
        assert(b =~= rb.push(b.last()));
    }
}

/// Interest of a handler in the topics that a pattern matches.
#[derive(Debug)]
pub struct Subscription {
    pub handler: MessageHandler,
    topic: String,
    priority: u8,
}

impl View for Subscription {
    type V = SubscriptionView;

    closed spec fn view(&self) -> SubscriptionView {
        SubscriptionView {
            topic: self.topic@,
            handler_id: self.handler@,
            priority: self.priority,
        }
    }
}

impl Subscription {
    /// A subscription of `handler` to `topic`; the priority is 0 unless given.
    pub fn new(topic: &str, handler: MessageHandler, priority: Option<u8>) -> (r: Self)
        ensures
            r@ == (SubscriptionView {
                topic: topic@,
                handler_id: handler@,
                priority: match priority {
                    Some(p) => p,
                    None => 0,
                },
            }),
    {
        let priority = match priority {
            Some(p) => p,
            None => 0,
        };
        Subscription { handler, topic: topic.to_owned(), priority }
    }

    /// The topic subscribed to.
    pub fn topic(&self) -> (r: &str)
        ensures
            r@ == self@.topic,
    {
        self.topic.as_str()
    }

    /// The priority of delivery; lower values are delivered first.
    pub fn priority(&self) -> (r: u8)
        ensures
            r == self@.priority,
    {
        self.priority
    }

    /// Whether this subscription has the identity `(topic, handler_id)`.
    pub(crate) fn has_identity(&self, topic: &String, handler_id: &String) -> (r: bool)
        ensures
            r == self@.has_key(topic@, handler_id@),
    {
        self.topic == *topic && self.handler.handler_id == *handler_id
    }

    /// A second subscription equal to this one.
    pub fn duplicate(&self) -> (r: Self)
        ensures
            r@ == self@,
    {
        Subscription {
            handler: self.handler.duplicate(),
            topic: self.topic.clone(),
            priority: self.priority,
        }
    }
}

impl PartialEq for Subscription {
    /// Two subscriptions are equal when topic and handler id are; the
    /// priority does not count.
    fn eq(&self, other: &Self) -> (r: bool)
        ensures
            r == self@.has_key(other@.topic, other@.handler_id),
    {
        self.topic == other.topic && self.handler.handler_id == other.handler.handler_id
    }
}

impl vstd::std_specs::cmp::PartialEqSpecImpl for Subscription {
    open spec fn obeys_eq_spec() -> bool {
        true
    }

    open spec fn eq_spec(&self, other: &Subscription) -> bool {
        self@.has_key(other@.topic, other@.handler_id)
    }
}

impl Eq for Subscription {

}

} // verus!
