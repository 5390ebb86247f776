use chanman::registry::ChanMan;
use chanman::session::{Action, Session, SessionState};
use chanman::Response;

fn subscribed_session(cm: &mut ChanMan, key: &str, first_frame: &str) -> (Session, usize, String) {
    let mut session = Session::new(key.to_string());
    session.handshake_complete();
    let action = session.on_inbound(first_frame);
    match action {
        Action::Register { topic } => {
            let d = cm.open_mailbox();
            cm.subscribe(key.to_string(), topic.clone(), d);
            (session, d, topic)
        }
        _ => panic!("first frame did not subscribe"),
    }
}

#[test]
fn stream_delivers_published_text() {
    let mut cm = ChanMan::new();
    let (_session, d, topic) = subscribed_session(&mut cm, "c1", "{\"subscribe\":\"news\"}");
    assert_eq!(topic, "news");
    cm.publish("news", "hi");
    assert_eq!(cm.take_outbound(d), Some("hi".to_string()));
}

#[test]
fn unsubscribe_frame_ends_stream_and_silences_it() {
    let mut cm = ChanMan::new();
    let (mut session, d, topic) = subscribed_session(&mut cm, "c1", "{\"subscribe\":\"news\"}");
    let action = session.on_inbound("{\"unsubscribe\":\"news\"}");
    match action {
        Action::Unregister { topic: t } => {
            assert_eq!(t, topic);
            cm.unsubscribe("c1".to_string(), t);
        }
        _ => panic!("unsubscribe frame was not honoured"),
    }
    assert!(matches!(session.state, SessionState::Closed));
    cm.publish("news", "y");
    assert_eq!(cm.take_outbound(d), None);
}

#[test]
fn unsubscribe_of_another_topic_is_ignored() {
    let mut cm = ChanMan::new();
    let (mut session, d, _topic) = subscribed_session(&mut cm, "c1", "{\"subscribe\":\"news\"}");
    let action = session.on_inbound("{\"unsubscribe\":\"weather\"}");
    assert!(matches!(action, Action::Keep));
    assert!(matches!(session.state, SessionState::Subscribed { .. }));
    cm.publish("news", "still on");
    assert_eq!(cm.take_outbound(d), Some("still on".to_string()));
}

#[test]
fn chatter_while_subscribed_is_ignored() {
    let mut cm = ChanMan::new();
    let (mut session, d, _topic) = subscribed_session(&mut cm, "c1", "{\"subscribe\":\"news\"}");
    assert!(matches!(session.on_inbound("not json at all"), Action::Keep));
    assert!(matches!(session.on_inbound("{\"subscribe\":\"weather\"}"), Action::Keep));
    assert!(matches!(session.state, SessionState::Subscribed { .. }));
    cm.publish("news", "ping");
    assert_eq!(cm.take_outbound(d), Some("ping".to_string()));
}

#[test]
fn malformed_first_frame_closes_without_registering() {
    let mut session = Session::new("c1".to_string());
    session.handshake_complete();
    let action = session.on_inbound("{\"publish\":\"news\"}");
    assert!(matches!(action, Action::Keep));
    assert!(matches!(session.state, SessionState::Closed));
}

#[test]
fn unparseable_first_frame_closes_without_registering() {
    let mut session = Session::new("c1".to_string());
    session.handshake_complete();
    let action = session.on_inbound("][ not json");
    assert!(matches!(action, Action::Keep));
    assert!(matches!(session.state, SessionState::Closed));
}

#[test]
fn subscribe_field_of_wrong_type_closes_the_connection() {
    let mut session = Session::new("c1".to_string());
    session.handshake_complete();
    let action = session.on_inbound("{\"subscribe\":7}");
    assert!(matches!(action, Action::Keep));
    assert!(matches!(session.state, SessionState::Closed));
}

#[test]
fn transport_close_while_subscribed_unregisters_once() {
    let mut cm = ChanMan::new();
    let (mut session, d, topic) = subscribed_session(&mut cm, "c1", "{\"subscribe\":\"news\"}");
    let action = session.transport_closed();
    match action {
        Action::Unregister { topic: t } => {
            assert_eq!(t, topic);
            cm.unsubscribe("c1".to_string(), t);
        }
        _ => panic!("close did not unregister"),
    }
    assert!(matches!(session.transport_closed(), Action::Keep));
    assert!(matches!(session.state, SessionState::Closed));
    cm.publish("news", "gone");
    assert_eq!(cm.take_outbound(d), None);
}

#[test]
fn transport_close_before_topic_has_nothing_to_clean_up() {
    let mut session = Session::new("c1".to_string());
    session.handshake_complete();
    assert!(matches!(session.transport_closed(), Action::Keep));
    assert!(matches!(session.state, SessionState::Closed));
}

#[test]
fn publish_endpoint_reply_body() {
    let r = Response::new("Ok".to_string());
    assert_eq!(r.message, "Ok");
}
