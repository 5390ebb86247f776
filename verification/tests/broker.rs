use chanman::registry::ChanMan;

#[test]
fn subscriber_receives_published_message() {
    let mut cm = ChanMan::new();
    let d = cm.open_mailbox();
    cm.subscribe("s1".to_string(), "news".to_string(), d);
    cm.publish("news", "hello");
    assert_eq!(cm.take_outbound(d), Some("hello".to_string()));
    assert_eq!(cm.take_outbound(d), None);
}

#[test]
fn all_subscribers_receive_published_message() {
    let mut cm = ChanMan::new();
    let d1 = cm.open_mailbox();
    let d2 = cm.open_mailbox();
    cm.subscribe("s1".to_string(), "news".to_string(), d1);
    cm.subscribe("s2".to_string(), "news".to_string(), d2);
    cm.publish("news", "hi");
    assert_eq!(cm.take_outbound(d1), Some("hi".to_string()));
    assert_eq!(cm.take_outbound(d2), Some("hi".to_string()));
    assert_eq!(cm.take_outbound(d1), None);
    assert_eq!(cm.take_outbound(d2), None);
}

#[test]
fn other_sessions_receive_nothing() {
    let mut cm = ChanMan::new();
    let d1 = cm.open_mailbox();
    let d2 = cm.open_mailbox();
    cm.subscribe("s1".to_string(), "news".to_string(), d1);
    cm.subscribe("s2".to_string(), "weather".to_string(), d2);
    cm.publish("news", "hello");
    assert_eq!(cm.take_outbound(d1), Some("hello".to_string()));
    assert_eq!(cm.take_outbound(d2), None);
}

#[test]
fn unsubscribed_session_receives_nothing() {
    let mut cm = ChanMan::new();
    let d = cm.open_mailbox();
    cm.subscribe("s1".to_string(), "news".to_string(), d);
    cm.unsubscribe("s1".to_string(), "news".to_string());
    cm.publish("news", "x");
    assert_eq!(cm.take_outbound(d), None);
}

#[test]
fn unsubscribe_without_subscription_is_a_no_op() {
    let mut cm = ChanMan::new();
    let d = cm.open_mailbox();
    cm.unsubscribe("ghostly".to_string(), "news".to_string());
    cm.subscribe("s1".to_string(), "news".to_string(), d);
    cm.unsubscribe("s1".to_string(), "elsewhere".to_string());
    cm.publish("news", "still here");
    assert_eq!(cm.take_outbound(d), Some("still here".to_string()));
}

#[test]
fn publish_without_subscribers_succeeds_silently() {
    let mut cm = ChanMan::new();
    let d = cm.open_mailbox();
    cm.publish("empty-topic", "x");
    assert_eq!(cm.take_outbound(d), None);
    cm.subscribe("s1".to_string(), "news".to_string(), d);
    cm.publish("empty-topic", "x");
    assert_eq!(cm.take_outbound(d), None);
}

#[test]
fn resubscribing_replaces_the_deliverable() {
    let mut cm = ChanMan::new();
    let early = cm.open_mailbox();
    let late = cm.open_mailbox();
    cm.subscribe("s1".to_string(), "news".to_string(), early);
    cm.subscribe("s1".to_string(), "news".to_string(), late);
    cm.publish("news", "once");
    assert_eq!(cm.take_outbound(early), None);
    assert_eq!(cm.take_outbound(late), Some("once".to_string()));
    assert_eq!(cm.take_outbound(late), None);
}

#[test]
fn one_mailbox_delivers_in_publish_order() {
    let mut cm = ChanMan::new();
    let d = cm.open_mailbox();
    cm.subscribe("s1".to_string(), "news".to_string(), d);
    cm.publish("news", "first");
    cm.publish("news", "second");
    cm.publish("news", "third");
    assert_eq!(cm.take_outbound(d), Some("first".to_string()));
    assert_eq!(cm.take_outbound(d), Some("second".to_string()));
    assert_eq!(cm.take_outbound(d), Some("third".to_string()));
    assert_eq!(cm.take_outbound(d), None);
}

#[test]
fn late_subscriber_misses_earlier_publish() {
    let mut cm = ChanMan::new();
    let d = cm.open_mailbox();
    cm.publish("news", "early");
    cm.subscribe("s1".to_string(), "news".to_string(), d);
    cm.publish("news", "late");
    assert_eq!(cm.take_outbound(d), Some("late".to_string()));
    assert_eq!(cm.take_outbound(d), None);
}

#[test]
fn take_outbound_of_unopened_mailbox_is_none() {
    let mut cm = ChanMan::new();
    assert_eq!(cm.take_outbound(7), None);
}
