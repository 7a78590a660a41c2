use jetstream::pull_subscription::{
    AckPolicy, ConsumerConfig, ConsumerInfo, ConsumerOwnership, FetchError, Message,
    PullSubscription, ReplyEnd, Teardown, TransportReply,
};

fn info(ack_policy: AckPolicy) -> ConsumerInfo {
    ConsumerInfo {
        stream_name: "orders".to_string(),
        name: "worker".to_string(),
        config: ConsumerConfig { ack_policy },
    }
}

fn messages(n: usize) -> Vec<Message> {
    let mut out = Vec::new();
    for i in 0..n {
        out.push(Message {
            subject: format!("orders.{}", i),
            data: vec![i as u8],
            headers: None,
            reply: None,
        });
    }
    out
}

fn is_delete(t: &Teardown, stream: &str, consumer: &str) -> bool {
    match t {
        Teardown::DeleteConsumer { stream: s, consumer: c } => s == stream && c == consumer,
        Teardown::Nothing => false,
    }
}

#[test]
fn new_binds_the_consumer() {
    let sub = PullSubscription::new(info(AckPolicy::Explicit), ConsumerOwnership::Owned);
    assert_eq!(sub.0.stream, "orders");
    assert_eq!(sub.0.consumer, "worker");
    assert_eq!(sub.0.consumer_ownership, ConsumerOwnership::Owned);
    assert_eq!(sub.0.holders, 1);
    assert_eq!(sub.ack_policy(), AckPolicy::Explicit);
}

#[test]
fn owned_handle_asks_for_one_delete() {
    let mut sub = PullSubscription::new(info(AckPolicy::All), ConsumerOwnership::Owned);
    let t = sub.0.release();
    assert!(is_delete(&t, "orders", "worker"));
    assert_eq!(sub.0.holders, 0);
    assert!(matches!(sub.0.release(), Teardown::Nothing));
    assert!(matches!(sub.0.release(), Teardown::Nothing));
}

#[test]
fn borrowed_handle_asks_for_none() {
    let mut sub = PullSubscription::new(info(AckPolicy::NoAck), ConsumerOwnership::Borrowed);
    assert!(matches!(sub.0.release(), Teardown::Nothing));
    assert_eq!(sub.0.holders, 0);
    assert!(matches!(sub.0.release(), Teardown::Nothing));
}

#[test]
fn teardown_comes_with_the_last_release_only() {
    let mut sub = PullSubscription::new(info(AckPolicy::Explicit), ConsumerOwnership::Owned);
    assert!(sub.0.acquire());
    assert!(sub.0.acquire());
    assert!(sub.0.acquire());
    assert_eq!(sub.0.holders, 4);
    let mut deletes = 0;
    for k in 0..6 {
        let t = sub.0.release();
        if is_delete(&t, "orders", "worker") {
            deletes += 1;
            assert_eq!(k, 3);
        }
    }
    assert_eq!(deletes, 1);
    assert_eq!(sub.0.holders, 0);
}

#[test]
fn torn_down_handle_takes_no_holder() {
    let mut sub = PullSubscription::new(info(AckPolicy::Explicit), ConsumerOwnership::Owned);
    sub.0.release();
    assert!(!sub.0.acquire());
    assert_eq!(sub.0.holders, 0);
}

#[test]
fn full_count_takes_no_holder() {
    let mut sub = PullSubscription::new(info(AckPolicy::Explicit), ConsumerOwnership::Owned);
    sub.0.holders = u64::MAX;
    assert!(!sub.0.acquire());
    assert_eq!(sub.0.holders, u64::MAX);
}

#[test]
fn request_names_stream_consumer_and_batch() {
    let sub = PullSubscription::new(info(AckPolicy::Explicit), ConsumerOwnership::Borrowed);
    let req = sub.request(5).unwrap();
    assert_eq!(req.stream, "orders");
    assert_eq!(req.consumer, "worker");
    assert_eq!(req.batch, 5);
}

#[test]
fn fetch_never_exceeds_the_batch() {
    let sub = PullSubscription::new(info(AckPolicy::Explicit), ConsumerOwnership::Borrowed);
    let reply = TransportReply { messages: messages(8), end: ReplyEnd::Exhausted };
    let fetch = sub.fetch(5, reply).unwrap();
    assert_eq!(fetch.len(), 5);
    for i in 0..5 {
        assert_eq!(fetch.get(i).unwrap().subject, format!("orders.{}", i));
    }
    assert!(fetch.get(5).is_none());
}

#[test]
fn fetch_keeps_a_short_reply_whole() {
    let sub = PullSubscription::new(info(AckPolicy::Explicit), ConsumerOwnership::Borrowed);
    let reply = TransportReply { messages: messages(3), end: ReplyEnd::Expired };
    let fetch = sub.fetch(5, reply).unwrap();
    assert_eq!(fetch.len(), 3);
    assert_eq!(fetch.messages[2].data, vec![2u8]);
}

#[test]
fn fetch_timeout_is_no_error() {
    let sub = PullSubscription::new(info(AckPolicy::Explicit), ConsumerOwnership::Borrowed);
    let reply = TransportReply { messages: Vec::new(), end: ReplyEnd::Expired };
    let fetch = sub.fetch(5, reply).unwrap();
    assert_eq!(fetch.len(), 0);
}

#[test]
fn fetch_refuses_a_batch_that_is_not_positive() {
    let sub = PullSubscription::new(info(AckPolicy::Explicit), ConsumerOwnership::Borrowed);
    assert_eq!(sub.request(0).err(), Some(FetchError::InvalidBatch));
    assert_eq!(sub.request(-1).err(), Some(FetchError::InvalidBatch));
    let reply = TransportReply { messages: messages(2), end: ReplyEnd::Exhausted };
    assert_eq!(sub.fetch(0, reply).err(), Some(FetchError::InvalidBatch));
    let reply = TransportReply { messages: messages(2), end: ReplyEnd::Exhausted };
    assert_eq!(sub.fetch(-1, reply).err(), Some(FetchError::InvalidBatch));
}

#[test]
fn transport_failure_with_nothing_is_an_error() {
    let sub = PullSubscription::new(info(AckPolicy::Explicit), ConsumerOwnership::Borrowed);
    let reply = TransportReply { messages: Vec::new(), end: ReplyEnd::Failed };
    assert_eq!(sub.fetch(5, reply).err(), Some(FetchError::TransportFailure));
}

#[test]
fn transport_failure_keeps_what_arrived() {
    let sub = PullSubscription::new(info(AckPolicy::Explicit), ConsumerOwnership::Borrowed);
    let reply = TransportReply { messages: messages(2), end: ReplyEnd::Failed };
    let fetch = sub.fetch(5, reply).unwrap();
    assert_eq!(fetch.len(), 2);
}

#[test]
fn shared_subscription_tears_down_once() {
    let mut sub = PullSubscription::new(info(AckPolicy::All), ConsumerOwnership::Owned);
    assert!(sub.share());
    assert!(sub.share());
    assert!(matches!(sub.release(), Teardown::Nothing));
    assert!(matches!(sub.release(), Teardown::Nothing));
    assert!(is_delete(&sub.release(), "orders", "worker"));
    assert!(matches!(sub.release(), Teardown::Nothing));
    assert!(!sub.share());
}

#[test]
fn shared_borrowed_subscription_never_deletes() {
    let mut sub = PullSubscription::new(info(AckPolicy::All), ConsumerOwnership::Borrowed);
    assert!(sub.share());
    for _ in 0..4 {
        assert!(matches!(sub.release(), Teardown::Nothing));
    }
    assert_eq!(sub.0.holders, 0);
}

#[test]
fn fetch_of_exactly_the_batch() {
    let sub = PullSubscription::new(info(AckPolicy::Explicit), ConsumerOwnership::Borrowed);
    let reply = TransportReply { messages: messages(5), end: ReplyEnd::Exhausted };
    let fetch = sub.fetch(5, reply).unwrap();
    assert_eq!(fetch.len(), 5);
    assert_eq!(fetch.get(4).unwrap().data, vec![4u8]);
}

#[test]
fn cancelled_fetch_keeps_what_arrived() {
    let sub = PullSubscription::new(info(AckPolicy::Explicit), ConsumerOwnership::Borrowed);
    let reply = TransportReply { messages: messages(2), end: ReplyEnd::Cancelled };
    let fetch = sub.fetch(5, reply).unwrap();
    assert_eq!(fetch.len(), 2);
    assert_eq!(fetch.get(1).unwrap().subject, "orders.1");
    let reply = TransportReply { messages: Vec::new(), end: ReplyEnd::Cancelled };
    assert_eq!(sub.fetch(5, reply).unwrap().len(), 0);
}
