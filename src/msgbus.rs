//! The message bus: subscriptions, endpoints and pending requests under one
//! owner.

use crate::endpoints::{
    endpoint_table, has_endpoint, lemma_table_at, lemma_table_push, lemma_table_remove,
    lemma_table_size, lemma_table_update, names_unique, Endpoint,
};
use crate::handler::{MessageHandler, UUID4};
use crate::matching::{glob_match, is_matching};
use crate::subscription::{
    delivery_order, has_subscription, insert_by_priority, keys_unique, lemma_filter_drops_one,
    lemma_filter_keeps_all, lemma_insert_at, matching, sort_by_priority, with_subscription,
    without_key, Subscription, SubscriptionView,
};
use std::collections::HashMap;
use vstd::prelude::*;

verus! {

broadcast use vstd::std_specs::hash::group_hash_axioms, vstd::seq_lib::group_filter_ensures;

/// What a bus holds, as values.
pub struct MessageBusView {
    pub trader_id: Seq<char>,
    pub name: Seq<char>,
    /// The subscriptions, in the order in which they were made.
    pub subscriptions: Seq<SubscriptionView>,
    /// Endpoint name to the id of its handler.
    pub endpoints: Map<Seq<char>, Seq<char>>,
    /// Request id to the id of the handler that awaits its response.
    pub pending: Map<u128, Seq<char>>,
}

/// The pending requests after a request with id `request_id` is sent to
/// `endpoint`: it awaits a response for the endpoint's handler if the endpoint
/// is registered, and is not recorded otherwise.
pub open spec fn pending_after_request(
    endpoints: Map<Seq<char>, Seq<char>>,
    pending: Map<u128, Seq<char>>,
    endpoint: Seq<char>,
    request_id: u128,
) -> Map<u128, Seq<char>> {
    if endpoints.contains_key(endpoint) {
        pending.insert(request_id, endpoints[endpoint])
    } else {
        pending
    }
}

/// A message bus for publish/subscribe, point-to-point messages and
/// request/reply.
///
/// Topics are matched against patterns in which `*` stands for any run of
/// characters and `?` for exactly one. Subscribers of a pattern are handed out
/// by ascending priority, those of equal priority in order of subscription.
pub struct MessageBus {
    /// The trader that owns the bus.
    pub trader_id: String,
    /// The name of the bus.
    pub name: String,
    subscriptions: Vec<Subscription>,
    endpoints: Vec<Endpoint>,
    correlation_index: HashMap<u128, MessageHandler>,
}

impl View for MessageBus {
    type V = MessageBusView;

    closed spec fn view(&self) -> MessageBusView {
        MessageBusView {
            trader_id: self.trader_id@,
            name: self.name@,
            subscriptions: self.subscriptions@.map_values(|s: Subscription| s@),
            endpoints: endpoint_table(self.endpoints@),
            pending: self.correlation_index@.map_values(|h: MessageHandler| h@),
        }
    }
}

/// The values of the subscriptions that `subs` refers to.
pub open spec fn views(subs: Seq<&Subscription>) -> Seq<SubscriptionView> {
    subs.map_values(|s: &Subscription| s@)
}

impl MessageBus {
    /// The bus's internal tables are consistent: subscriptions are unique by
    /// topic and handler id, endpoints by name.
    pub closed spec fn wf(&self) -> bool {
        &&& keys_unique(self@.subscriptions)
        &&& names_unique(self.endpoints@)
    }

    /// An empty bus owned by `trader_id`, named `name` or else "MessageBus".
    pub fn new(trader_id: &str, name: Option<String>) -> (r: Self)
        ensures
            r.wf(),
            r@.trader_id == trader_id@,
            r@.name == match name {
                Some(n) => n@,
                None => "MessageBus"@,
            },
            r@.subscriptions.len() == 0,
            r@.endpoints == Map::<Seq<char>, Seq<char>>::empty(),
            r@.pending == Map::<u128, Seq<char>>::empty(),
    {
        let name = match name {
            Some(n) => n,
            None => "MessageBus".to_owned(),
        };
        let r = MessageBus {
            trader_id: trader_id.to_owned(),
            name,
            subscriptions: Vec::new(),
            endpoints: Vec::new(),
            correlation_index: HashMap::new(),
        };
        assert(r@.endpoints =~= Map::<Seq<char>, Seq<char>>::empty());
        assert(r@.pending =~= Map::<u128, Seq<char>>::empty());
        r
    }

    /// The index of the subscription with identity `(topic, handler_id)`.
    fn find_subscription(&self, topic: &String, handler_id: &String) -> (r: Option<usize>)
        ensures
            match r {
                Some(i) => i < self@.subscriptions.len() && self@.subscriptions[i as int].has_key(
                    topic@,
                    handler_id@,
                ),
                None => !has_subscription(self@.subscriptions, topic@, handler_id@),
            },
    {
        let ghost subs = self@.subscriptions;
        for i in 0..self.subscriptions.len()
            invariant
                subs == self@.subscriptions,
                subs.len() == self.subscriptions@.len(),
                forall|k: int| 0 <= k < i ==> !(#[trigger] subs[k]).has_key(topic@, handler_id@),
        {
            let s = &self.subscriptions[i];
            assert(s@ == subs[i as int]);
            if s.has_identity(topic, handler_id) {
                return Some(i);
            }
        }
        None
    }

    /// The topics of the subscriptions, one for each, in order of
    /// subscription.
    pub fn topics(&self) -> (r: Vec<&str>)
        ensures
            r@.len() == self@.subscriptions.len(),
            forall|k: int|
                0 <= k < r@.len() ==> (#[trigger] r@[k])@ == self@.subscriptions[k].topic,
    {
        let mut r: Vec<&str> = Vec::new();
        for i in 0..self.subscriptions.len()
            invariant
                self.subscriptions@.len() == self@.subscriptions.len(),
                r@.len() == i,
                forall|k: int|
                    0 <= k < i ==> (#[trigger] r@[k])@ == self@.subscriptions[k].topic,
        {
            r.push(self.subscriptions[i].topic());
        }
        r
    }

    /// Whether `pattern` matches the topic of some subscription.
    pub fn has_subscribers(&self, pattern: &str) -> (r: bool)
        ensures
            r == exists|i: int|
                0 <= i < self@.subscriptions.len() && glob_match(
                    (#[trigger] self@.subscriptions[i]).topic,
                    pattern@,
                ),
    {
        for i in 0..self.subscriptions.len()
            invariant
                self.subscriptions@.len() == self@.subscriptions.len(),
                forall|k: int|
                    0 <= k < i ==> !glob_match(
                        (#[trigger] self@.subscriptions[k]).topic,
                        pattern@,
                    ),
        {
            assert(self.subscriptions@[i as int]@ == self@.subscriptions[i as int]);
            if is_matching(self.subscriptions[i].topic(), pattern) {
                return true;
            }
        }
        false
    }

    /// The index of the endpoint named `name`.
    fn find_endpoint(&self, name: &String) -> (r: Option<usize>)
        ensures
            match r {
                Some(i) => i < self.endpoints@.len() && self.endpoints@[i as int].name@ == name@,
                None => !has_endpoint(self.endpoints@, name@),
            },
    {
        for i in 0..self.endpoints.len()
            invariant
                forall|k: int| 0 <= k < i ==> (#[trigger] self.endpoints@[k]).name@ != name@,
        {
            if self.endpoints[i].name == *name {
                return Some(i);
            }
        }
        None
    }

    /// The names of the registered endpoints, each once.
    pub fn endpoints(&self) -> (r: Vec<&str>)
        requires
            self.wf(),
        ensures
            r@.len() == self@.endpoints.len(),
            forall|k: int| 0 <= k < r@.len() ==> self@.endpoints.contains_key((#[trigger] r@[k])@),
            forall|a: int, b: int| 0 <= a < b < r@.len() ==> (#[trigger] r@[a])@ != (#[trigger] r@[b])@,
    {
        let mut r: Vec<&str> = Vec::new();
        for i in 0..self.endpoints.len()
            invariant
                self.wf(),
                r@.len() == i,
                forall|k: int| 0 <= k < i ==> (#[trigger] r@[k])@ == self.endpoints@[k].name@,
        {
            r.push(self.endpoints[i].name.as_str());
        }
        proof {
            let eps = self.endpoints@;
            assert forall|k: int| 0 <= k < r@.len() implies self@.endpoints.contains_key((#[trigger] r@[k])@) by {
                lemma_table_at(eps, k);
            }
            assert(r@.len() == self@.endpoints.len()) by {
                lemma_table_size(eps);
            }
        }
        r
    }

    /// Whether an endpoint is registered under `endpoint`.
    pub fn is_registered(&self, endpoint: &str) -> (r: bool)
        requires
            self.wf(),
        ensures
            r == self@.endpoints.contains_key(endpoint@),
    {
        self.find_endpoint(&endpoint.to_owned()).is_some()
    }

    /// The handler registered under `endpoint`, if any.
    pub fn get_endpoint(&self, endpoint: &str) -> (r: Option<&MessageHandler>)
        requires
            self.wf(),
        ensures
            match r {
                Some(h) => self@.endpoints.contains_key(endpoint@) && h@ == self@.endpoints[endpoint@],
                None => !self@.endpoints.contains_key(endpoint@),
            },
    {
        match self.find_endpoint(&endpoint.to_owned()) {
            Some(i) => {
                proof {
                    lemma_table_at(self.endpoints@, i as int);
                }
                Some(&self.endpoints[i].handler)
            },
            None => None,
        }
    }

    /// Registers `handler` under `endpoint`, in place of any handler that was
    /// registered there.
    pub fn register(&mut self, endpoint: &str, handler: MessageHandler)
        requires
            old(self).wf(),
        ensures
            final(self).wf(),
            final(self)@.endpoints == old(self)@.endpoints.insert(endpoint@, handler@),
            final(self)@.subscriptions == old(self)@.subscriptions,
            final(self)@.pending == old(self)@.pending,
            final(self)@.trader_id == old(self)@.trader_id,
            final(self)@.name == old(self)@.name,
    {
        let name = endpoint.to_owned();
        let e = Endpoint { name, handler };
        match self.find_endpoint(&e.name) {
            Some(i) => {
                proof {
                    lemma_table_update(self.endpoints@, i as int, e);
                }
                self.endpoints[i] = e;
            },
            None => {
                proof {
                    lemma_table_push(self.endpoints@, e);
                }
                self.endpoints.push(e);
            },
        }
    }

    /// Removes the endpoint named `endpoint`, if there is one.
    pub fn deregister(&mut self, endpoint: &str)
        requires
            old(self).wf(),
        ensures
            final(self).wf(),
            final(self)@.endpoints == old(self)@.endpoints.remove(endpoint@),
            final(self)@.subscriptions == old(self)@.subscriptions,
            final(self)@.pending == old(self)@.pending,
            final(self)@.trader_id == old(self)@.trader_id,
            final(self)@.name == old(self)@.name,
    {
        match self.find_endpoint(&endpoint.to_owned()) {
            Some(i) => {
                proof {
                    lemma_table_remove(self.endpoints@, i as int);
                }
                self.endpoints.remove(i);
            },
            None => {
                assert(self@.endpoints =~= old(self)@.endpoints.remove(endpoint@));
            },
        }
    }

    /// Whether a request with id `request_id` awaits its response.
    pub fn is_pending_response(&self, request_id: &UUID4) -> (r: bool)
        ensures
            r == self@.pending.contains_key(request_id.value),
    {
        self.correlation_index.contains_key(&request_id.value)
    }

    /// The handler of the endpoint a request is sent to. Where `endpoint` is
    /// registered, `request_id` is recorded as awaiting a response for that
    /// handler; elsewhere nothing changes.
    pub fn request_handler(&mut self, endpoint: &str, request_id: UUID4) -> (r: Option<
        MessageHandler,
    >)
        requires
            old(self).wf(),
        ensures
            final(self).wf(),
            match r {
                Some(h) => old(self)@.endpoints.contains_key(endpoint@) && h@ == old(
                    self,
                )@.endpoints[endpoint@],
                None => !old(self)@.endpoints.contains_key(endpoint@),
            },
            final(self)@.pending == pending_after_request(
                old(self)@.endpoints,
                old(self)@.pending,
                endpoint@,
                request_id.value,
            ),
            final(self)@.subscriptions == old(self)@.subscriptions,
            final(self)@.endpoints == old(self)@.endpoints,
            final(self)@.trader_id == old(self)@.trader_id,
            final(self)@.name == old(self)@.name,
    {
        match self.find_endpoint(&endpoint.to_owned()) {
            Some(i) => {
                proof {
                    lemma_table_at(self.endpoints@, i as int);
                }
                let handler = self.endpoints[i].handler.duplicate();
                self.correlation_index.insert(request_id.value, handler.duplicate());
                assert(self@.pending =~= old(self)@.pending.insert(request_id.value, handler@));
                Some(handler)
            },
            None => None,
        }
    }

    /// The handler awaiting the response to request `correlation_id`, which
    /// then awaits it no longer. Each pending request is answered once.
    pub fn response_handler(&mut self, correlation_id: &UUID4) -> (r: Option<MessageHandler>)
        requires
            old(self).wf(),
        ensures
            final(self).wf(),
            match r {
                Some(h) => old(self)@.pending.contains_key(correlation_id.value) && h@ == old(
                    self,
                )@.pending[correlation_id.value],
                None => !old(self)@.pending.contains_key(correlation_id.value),
            },
            final(self)@.pending == old(self)@.pending.remove(correlation_id.value),
            final(self)@.subscriptions == old(self)@.subscriptions,
            final(self)@.endpoints == old(self)@.endpoints,
            final(self)@.trader_id == old(self)@.trader_id,
            final(self)@.name == old(self)@.name,
    {
        let r = self.correlation_index.remove(&correlation_id.value);
        assert(self@.pending =~= old(self)@.pending.remove(correlation_id.value));
        r
    }

    /// The subscriptions whose topic `pattern` matches, by ascending
    /// priority, and in order of subscription where priorities are equal.
    /// The list is computed from the current subscriptions on each call, so
    /// it never holds one that was removed.
    pub fn matching_subscriptions(&self, pattern: &str) -> (r: Vec<&Subscription>)
        ensures
            views(r@) == delivery_order(self@.subscriptions, pattern@),
    {
        let ghost subs = self@.subscriptions;
        let ghost pred = |s: SubscriptionView| glob_match(s.topic, pattern@);
        let mut r: Vec<&Subscription> = Vec::new();
        assert(subs.take(0) =~= Seq::<SubscriptionView>::empty());
        assert(views(r@) =~= Seq::<SubscriptionView>::empty());
        proof {
            reveal(Seq::filter);
        }
        for i in 0..self.subscriptions.len()
            invariant
                subs == self@.subscriptions,
                subs.len() == self.subscriptions@.len(),
                pred == (|s: SubscriptionView| glob_match(s.topic, pattern@)),
                views(r@) == sort_by_priority(matching(subs.take(i as int), pattern@)),
        {
            let s = &self.subscriptions[i];
            let ghost x = subs[i as int];
            assert(s@ == x);
            let ghost before = subs.take(i as int);
            assert(subs.take(i + 1) =~= before.push(x));
            proof {
                before.lemma_filter_push(x, pred);
            }
            if is_matching(s.topic(), pattern) {
                let ghost sorted = views(r@);
                let ghost m = matching(before, pattern@);
                assert(m.push(x).drop_last() =~= m);
                assert(sort_by_priority(m.push(x)) == insert_by_priority(sorted, x));
                let pr = s.priority();
                let mut k: usize = r.len();
                while k > 0 && r[k - 1].priority() > pr
                    invariant
                        k <= r@.len(),
                        sorted == views(r@),
                        pr == x.priority,
                        forall|j: int| k <= j < sorted.len() ==> (#[trigger] sorted[j]).priority
                            > pr,
                    decreases k,
                {
                    k = k - 1;
                }
                proof {
                    lemma_insert_at(sorted, x, k as int);
                }
                r.insert(k, s);
                assert(views(r@) =~= sorted.take(k as int).push(x) + sorted.skip(k as int));
            }
        }
        assert(subs.take(subs.len() as int) =~= subs);
        r
    }

    /// Whether `handler` is subscribed to exactly `topic`; no wildcard is
    /// expanded.
    pub fn is_subscribed(&self, topic: &str, handler: MessageHandler) -> (r: bool)
        ensures
            r == has_subscription(self@.subscriptions, topic@, handler@),
    {
        self.find_subscription(&topic.to_owned(), &handler.handler_id).is_some()
    }

    /// Subscribes `handler` to `topic` with `priority`, 0 if none is given.
    /// A handler already subscribed to the topic stays as it was, its
    /// priority too; the result tells whether the subscription is new.
    pub fn subscribe(&mut self, topic: &str, handler: MessageHandler, priority: Option<u8>) -> (r:
        bool)
        requires
            old(self).wf(),
        ensures
            final(self).wf(),
            r == !has_subscription(old(self)@.subscriptions, topic@, handler@),
            final(self)@.subscriptions == with_subscription(
                old(self)@.subscriptions,
                topic@,
                handler@,
                match priority {
                    Some(p) => p,
                    None => 0,
                },
            ),
            final(self)@.endpoints == old(self)@.endpoints,
            final(self)@.pending == old(self)@.pending,
            final(self)@.trader_id == old(self)@.trader_id,
            final(self)@.name == old(self)@.name,
    {
        if self.find_subscription(&topic.to_owned(), &handler.handler_id).is_some() {
            return false;
        }
        let sub = Subscription::new(topic, handler, priority);
        self.subscriptions.push(sub);
        assert(self@.subscriptions =~= old(self)@.subscriptions.push(sub@));
        true
    }

    /// Removes the subscription of `handler` to `topic`, if there is one.
    pub fn unsubscribe(&mut self, topic: &str, handler: MessageHandler)
        requires
            old(self).wf(),
        ensures
            final(self).wf(),
            final(self)@.subscriptions == without_key(
                old(self)@.subscriptions,
                topic@,
                handler@,
            ),
            final(self)@.endpoints == old(self)@.endpoints,
            final(self)@.pending == old(self)@.pending,
            final(self)@.trader_id == old(self)@.trader_id,
            final(self)@.name == old(self)@.name,
    {
        let ghost subs = old(self)@.subscriptions;
        let ghost pred = |s: SubscriptionView| !s.has_key(topic@, handler@);
        match self.find_subscription(&topic.to_owned(), &handler.handler_id) {
            Some(i) => {
                proof {
                    lemma_filter_drops_one(subs, pred, i as int);
                }
                self.subscriptions.remove(i);
                assert(self@.subscriptions =~= subs.remove(i as int));
            },
            None => {
                proof {
                    lemma_filter_keeps_all(subs, pred);
                }
            },
        }
    }
}

} // verus!
