use msgbus::{MessageBus, MessageHandler, UUID4};

fn stub_msgbus() -> MessageBus {
    MessageBus::new("trader-001", None)
}

fn handler(id: &str) -> MessageHandler {
    MessageHandler::new(id)
}

#[test]
fn test_new() {
    let msgbus = MessageBus::new("trader-001", None);

    assert_eq!(msgbus.trader_id, "trader-001");
    assert_eq!(msgbus.name, "MessageBus");
}

#[test]
fn new_with_name() {
    let msgbus = MessageBus::new("trader-001", Some("Bus-2".to_string()));

    assert_eq!(msgbus.name, "Bus-2");
}

#[test]
fn test_endpoints_when_no_endpoints() {
    let msgbus = stub_msgbus();

    assert!(msgbus.endpoints().is_empty());
}

#[test]
fn test_topics_when_no_subscriptions() {
    let msgbus = stub_msgbus();

    assert!(msgbus.topics().is_empty());
    assert!(!msgbus.has_subscribers("my-topic"));
}

#[test]
fn test_is_subscribed_when_no_subscriptions() {
    let msgbus = stub_msgbus();

    assert!(!msgbus.is_subscribed("my-topic", handler("1")));
}

#[test]
fn test_is_registered_when_no_registrations() {
    let msgbus = stub_msgbus();

    assert!(!msgbus.is_registered("MyEndpoint"));
}

#[test]
fn test_is_pending_response_when_no_requests() {
    let msgbus = stub_msgbus();

    assert!(!msgbus.is_pending_response(&UUID4::from_u128(0)));
}

#[test]
fn test_regsiter_endpoint() {
    let mut msgbus = stub_msgbus();
    let endpoint = "MyEndpoint";

    msgbus.register(endpoint, handler("1"));

    assert_eq!(msgbus.endpoints(), vec!["MyEndpoint"]);
    assert!(msgbus.get_endpoint(endpoint).is_some());
    assert!(msgbus.is_registered(endpoint));
}

#[test]
fn test_deregsiter_endpoint() {
    let mut msgbus = stub_msgbus();
    let endpoint = "MyEndpoint";

    msgbus.register(endpoint, handler("1"));
    msgbus.deregister(endpoint);

    assert!(msgbus.endpoints().is_empty());
    assert!(!msgbus.is_registered(endpoint));
    assert!(msgbus.get_endpoint(endpoint).is_none());
}

#[test]
fn deregister_missing_endpoint_is_noop() {
    let mut msgbus = stub_msgbus();
    msgbus.register("A", handler("1"));

    msgbus.deregister("B");

    assert_eq!(msgbus.endpoints(), vec!["A"]);
}

#[test]
fn endpoints_lists_each_name_once() {
    let mut msgbus = stub_msgbus();
    msgbus.register("A", handler("1"));
    msgbus.register("B", handler("2"));
    msgbus.register("A", handler("3"));

    let mut names = msgbus.endpoints();
    names.sort();
    assert_eq!(names, vec!["A", "B"]);
}

#[test]
fn register_twice_replaces_handler() {
    let mut msgbus = stub_msgbus();

    msgbus.register("MyEndpoint", handler("h1"));
    msgbus.register("MyEndpoint", handler("h2"));

    assert_eq!(msgbus.get_endpoint("MyEndpoint"), Some(&handler("h2")));
    assert_eq!(msgbus.endpoints().len(), 1);
}

#[test]
fn test_subscribe() {
    let mut msgbus = stub_msgbus();
    let topic = "my-topic";

    assert!(msgbus.subscribe(topic, handler("1"), Some(1)));

    assert!(msgbus.has_subscribers(topic));
    assert_eq!(msgbus.topics(), vec![topic]);
    assert!(msgbus.is_subscribed(topic, handler("1")));
}

#[test]
fn test_unsubscribe() {
    let mut msgbus = stub_msgbus();
    let topic = "my-topic";

    msgbus.subscribe(topic, handler("1"), None);
    msgbus.unsubscribe(topic, handler("1"));

    assert!(!msgbus.has_subscribers(topic));
    assert!(msgbus.topics().is_empty());
    assert!(!msgbus.is_subscribed(topic, handler("1")));
}

#[test]
fn unsubscribe_keeps_other_subscriptions() {
    let mut msgbus = stub_msgbus();
    msgbus.subscribe("a", handler("1"), None);
    msgbus.subscribe("b", handler("1"), None);
    msgbus.subscribe("a", handler("2"), None);

    msgbus.unsubscribe("a", handler("1"));

    assert_eq!(msgbus.topics(), vec!["b", "a"]);
    assert!(msgbus.is_subscribed("a", handler("2")));
    assert!(!msgbus.is_subscribed("a", handler("1")));
}

#[test]
fn unsubscribe_missing_is_noop() {
    let mut msgbus = stub_msgbus();
    msgbus.subscribe("a", handler("1"), None);

    msgbus.unsubscribe("a", handler("2"));
    msgbus.unsubscribe("b", handler("1"));

    assert_eq!(msgbus.topics(), vec!["a"]);
}

#[test]
fn subscribe_twice_keeps_first_priority() {
    let mut msgbus = stub_msgbus();

    assert!(msgbus.subscribe("my-topic", handler("1"), Some(7)));
    assert!(!msgbus.subscribe("my-topic", handler("1"), Some(2)));

    assert_eq!(msgbus.topics().len(), 1);
    let subs = msgbus.matching_subscriptions("my-topic");
    assert_eq!(subs.len(), 1);
    assert_eq!(subs[0].priority(), 7);
}

#[test]
fn subscribe_without_priority_uses_zero() {
    let mut msgbus = stub_msgbus();
    msgbus.subscribe("t", handler("1"), None);

    assert_eq!(msgbus.matching_subscriptions("t")[0].priority(), 0);
}

#[test]
fn subscribe_then_unsubscribe_leaves_no_trace() {
    let mut msgbus = stub_msgbus();
    msgbus.subscribe("data.quotes", handler("other"), None);

    msgbus.subscribe("data.trades", handler("1"), Some(3));
    msgbus.unsubscribe("data.trades", handler("1"));

    assert!(!msgbus.has_subscribers("data.trades"));
    assert_eq!(msgbus.topics(), vec!["data.quotes"]);
}

#[test]
fn has_subscribers_uses_wildcards() {
    let mut msgbus = stub_msgbus();
    msgbus.subscribe("data.quotes.BINANCE", handler("1"), None);

    assert!(msgbus.has_subscribers("data.*"));
    assert!(msgbus.has_subscribers("data.quotes.BINANC?"));
    assert!(!msgbus.has_subscribers("data.trades.*"));
}

#[test]
fn is_subscribed_is_exact() {
    let mut msgbus = stub_msgbus();
    msgbus.subscribe("data.quotes", handler("1"), None);

    assert!(!msgbus.is_subscribed("data.*", handler("1")));
}

#[test]
fn test_request_handler() {
    let mut msgbus = stub_msgbus();
    let endpoint = "MyEndpoint";
    let request_id = UUID4::from_u128(0x1234_5678_9abc_def0);

    msgbus.register(endpoint, handler("1"));

    assert_eq!(
        msgbus.request_handler(endpoint, request_id),
        Some(handler("1"))
    );
    assert!(msgbus.is_pending_response(&request_id));
}

#[test]
fn test_response_handler() {
    let mut msgbus = stub_msgbus();
    let correlation_id = UUID4::from_u128(42);

    msgbus.register("MyEndpoint", handler("1"));
    let _ = msgbus.request_handler("MyEndpoint", correlation_id);

    assert_eq!(msgbus.response_handler(&correlation_id), Some(handler("1")));
}

#[test]
fn request_to_unregistered_endpoint_records_nothing() {
    let mut msgbus = stub_msgbus();
    let id = UUID4::from_u128(7);

    assert_eq!(msgbus.request_handler("Nowhere", id), None);
    assert!(!msgbus.is_pending_response(&id));
}

#[test]
fn response_is_taken_once() {
    let mut msgbus = stub_msgbus();
    let id = UUID4::from_u128(9);
    msgbus.register("E", handler("h"));

    assert_eq!(msgbus.request_handler("E", id), Some(handler("h")));
    assert!(msgbus.is_pending_response(&id));
    assert_eq!(msgbus.response_handler(&id), Some(handler("h")));
    assert!(!msgbus.is_pending_response(&id));
    assert_eq!(msgbus.response_handler(&id), None);
}

#[test]
fn response_to_unknown_id_is_none() {
    let mut msgbus = stub_msgbus();

    assert_eq!(msgbus.response_handler(&UUID4::from_u128(1)), None);
}

#[test]
fn request_keeps_handler_after_deregister() {
    let mut msgbus = stub_msgbus();
    let id = UUID4::from_u128(3);
    msgbus.register("E", handler("h"));
    let _ = msgbus.request_handler("E", id);

    msgbus.deregister("E");

    assert_eq!(msgbus.response_handler(&id), Some(handler("h")));
}

fn priorities(msgbus: &MessageBus, pattern: &str) -> Vec<u8> {
    msgbus
        .matching_subscriptions(pattern)
        .iter()
        .map(|s| s.priority())
        .collect()
}

fn handler_ids(msgbus: &MessageBus, pattern: &str) -> Vec<String> {
    msgbus
        .matching_subscriptions(pattern)
        .iter()
        .map(|s| s.handler.handler_id.clone())
        .collect()
}

#[test]
fn matching_subscriptions_by_ascending_priority() {
    let mut msgbus = stub_msgbus();
    msgbus.subscribe("data.quotes", handler("a"), Some(5));
    msgbus.subscribe("data.quotes", handler("b"), Some(1));
    msgbus.subscribe("data.quotes", handler("c"), Some(3));

    assert_eq!(priorities(&msgbus, "data.*"), vec![1, 3, 5]);
    assert_eq!(handler_ids(&msgbus, "data.*"), vec!["b", "c", "a"]);
    assert_eq!(handler_ids(&msgbus, "data.*"), vec!["b", "c", "a"]);
}

#[test]
fn matching_order_independent_of_subscription_order() {
    let mut first = stub_msgbus();
    first.subscribe("t", handler("a"), Some(5));
    first.subscribe("t", handler("b"), Some(1));
    first.subscribe("t", handler("c"), Some(3));

    let mut second = stub_msgbus();
    second.subscribe("t", handler("c"), Some(3));
    second.subscribe("t", handler("a"), Some(5));
    second.subscribe("t", handler("b"), Some(1));

    assert_eq!(handler_ids(&first, "t"), handler_ids(&second, "t"));
}

#[test]
fn equal_priorities_keep_subscription_order() {
    let mut msgbus = stub_msgbus();
    msgbus.subscribe("t.1", handler("x"), Some(2));
    msgbus.subscribe("t.2", handler("y"), Some(0));
    msgbus.subscribe("t.3", handler("z"), Some(2));

    assert_eq!(handler_ids(&msgbus, "t.?"), vec!["y", "x", "z"]);
}

#[test]
fn matching_subscriptions_filters_by_pattern() {
    let mut msgbus = stub_msgbus();
    msgbus.subscribe("data.quotes.BINANCE", handler("1"), None);
    msgbus.subscribe("data.trades.BINANCE", handler("2"), None);
    msgbus.subscribe("events.order", handler("3"), None);

    assert_eq!(handler_ids(&msgbus, "data.*.BINANCE"), vec!["1", "2"]);
    assert_eq!(handler_ids(&msgbus, "events.*"), vec!["3"]);
    assert!(msgbus.matching_subscriptions("nothing").is_empty());
}

#[test]
fn match_survives_unrelated_changes() {
    let mut msgbus = stub_msgbus();
    msgbus.subscribe("data.quotes", handler("keep"), None);
    msgbus.subscribe("data.trades", handler("drop"), None);

    msgbus.unsubscribe("data.trades", handler("drop"));
    msgbus.subscribe("other.topic", handler("new"), None);

    assert_eq!(handler_ids(&msgbus, "data.*"), vec!["keep"]);
}

#[test]
fn subscription_identity_ignores_priority() {
    let a = msgbus::Subscription::new("t", handler("1"), Some(1));
    let b = msgbus::Subscription::new("t", handler("1"), Some(9));
    let c = msgbus::Subscription::new("t", handler("2"), Some(1));

    assert!(a == b);
    assert!(a != c);
    assert_eq!(a.topic(), "t");
    assert_eq!(b.priority(), 9);
}
