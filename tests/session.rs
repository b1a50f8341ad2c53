use notificationd::notifications::NotificationDetails;
use notificationd::server::{consume_choice, is_reset_word, next_id, set_id, Action, ServerState, StoreError};
use notificationd::session::{ClientHandle, ClientState, Failure};

fn registry(keys: &[u64]) -> ServerState {
    let mut s = ServerState::new();
    for k in keys {
        assert!(s.add_client(ClientHandle::new(*k, format!("10.0.0.{k}:4000"))));
    }
    s
}

fn say(s: &mut ServerState, key: u64, text: &str) -> Action {
    s.handle_line(key, text)
}

fn out(s: &mut ServerState, key: u64) -> Vec<String> {
    s.take_outbox(key)
}

fn session(s: &ServerState, key: u64) -> &ClientHandle {
    let i = s.find(key).unwrap();
    &s.clients[i]
}

#[test]
fn new_session_defaults() {
    let st = ClientState::new();
    assert!(st.name.is_none());
    assert!(st.consume);
    assert!(st.details.title.is_none());
}

#[test]
fn commands_before_login_get_no_login() {
    let mut s = registry(&[1, 2]);
    for cmd in ["TITLE :x", "BODY :y", "SEND", "RESET", "CONSUME off", "WHO", "HISTORY", "QUIT", "FOO"] {
        let a = say(&mut s, 1, cmd);
        assert!(matches!(a, Action::Continue));
        assert_eq!(out(&mut s, 1), vec!["-ERR NO_LOGIN : Please login first.\r\n".to_string()]);
    }
    let c = session(&s, 1);
    assert!(c.state.name.is_none());
    assert!(c.state.consume);
    assert!(c.state.details.title.is_none());
    assert!(c.state.details.body.is_none());
    assert_eq!(s.counter, 0);
    assert!(out(&mut s, 2).is_empty());
}

#[test]
fn second_login_is_refused() {
    let mut s = registry(&[1]);
    say(&mut s, 1, "LOGIN alice");
    assert_eq!(out(&mut s, 1), vec!["+LOGIN : Welcome alice\r\n".to_string()]);
    say(&mut s, 1, "3 login bob");
    assert_eq!(
        out(&mut s, 1),
        vec!["3 -LOGIN ALREADY_LOGGED_IN : You are already logged in as alice. Please reconnect.\r\n".to_string()]
    );
    assert_eq!(session(&s, 1).state.name.as_deref(), Some("alice"));
}

#[test]
fn login_without_name() {
    let mut s = registry(&[1]);
    say(&mut s, 1, "LOGIN");
    assert_eq!(out(&mut s, 1), vec!["-LOGIN MISSING_ARG\r\n".to_string()]);
    assert!(session(&s, 1).state.name.is_none());
}

#[test]
fn body_lines_accumulate_and_reset() {
    let mut s = registry(&[1]);
    say(&mut s, 1, "LOGIN alice");
    say(&mut s, 1, "BODY :line1");
    say(&mut s, 1, "BODY :line2");
    assert_eq!(session(&s, 1).state.details.body.as_deref(), Some("line1\nline2\n"));
    out(&mut s, 1);
    say(&mut s, 1, "SEND");
    let o = out(&mut s, 1);
    assert_eq!(o[0], "NOTIFY_START alice 0\r\nBODY: line1\r\nBODY: line2\r\nNOTIFY_END 0\r\n");
    assert_eq!(o[1], "+SEND 1\r\n");
    say(&mut s, 1, "BODY :line2");
    say(&mut s, 1, "BODY RST :line3");
    assert_eq!(session(&s, 1).state.details.body.as_deref(), Some("line3\n"));
    say(&mut s, 1, "body rst");
    assert!(session(&s, 1).state.details.body.is_none());
    say(&mut s, 1, "BODY");
    assert_eq!(out(&mut s, 1), vec!["-BODY MISSING_TRAILING\r\n".to_string()]);
}

#[test]
fn broadcast_reaches_logged_in_consumers_only() {
    let mut s = registry(&[1, 2, 3]);
    say(&mut s, 1, "LOGIN a");
    say(&mut s, 2, "LOGIN b");
    say(&mut s, 1, "CONSUME off");
    out(&mut s, 1);
    out(&mut s, 2);
    say(&mut s, 1, "TITLE :hello");
    let a = say(&mut s, 1, "SEND");
    assert!(matches!(a, Action::Continue));
    assert_eq!(out(&mut s, 1), vec!["+SEND 1\r\n".to_string()]);
    assert_eq!(out(&mut s, 2), vec!["NOTIFY_START a 0\r\nTITLE: hello\r\nNOTIFY_END 0\r\n".to_string()]);
    assert!(out(&mut s, 3).is_empty());
}

#[test]
fn sender_that_consumes_gets_its_own_broadcast() {
    let mut s = registry(&[1]);
    say(&mut s, 1, "LOGIN a");
    out(&mut s, 1);
    say(&mut s, 1, "7 SEND");
    assert_eq!(out(&mut s, 1), vec!["NOTIFY_START a 0\r\nNOTIFY_END 0\r\n".to_string(), "7 +SEND 1\r\n".to_string()]);
}

#[test]
fn ids_increase_across_sessions() {
    let mut s = registry(&[1, 2]);
    s.db = true;
    say(&mut s, 1, "LOGIN a");
    say(&mut s, 2, "LOGIN b");
    let mut ids = vec![];
    for key in [1, 2, 1, 2] {
        match say(&mut s, key, "SEND") {
            Action::Persist(d) => ids.push(d.id.unwrap()),
            other => panic!("unexpected {other:?}"),
        }
    }
    assert_eq!(ids, vec![0, 1, 2, 3]);
    assert_eq!(s.counter, 4);
    let frames: Vec<String> = out(&mut s, 2).into_iter().filter(|t| t.starts_with("NOTIFY_START")).collect();
    assert_eq!(frames.len(), 4);
    assert!(frames[1].starts_with("NOTIFY_START b 1\r\n"));
}

#[test]
fn send_hands_out_record_when_store_attached() {
    let mut s = registry(&[1]);
    s.db = true;
    set_id(&mut s, 41);
    say(&mut s, 1, "LOGIN a");
    say(&mut s, 1, "TITLE :t");
    match say(&mut s, 1, "SEND") {
        Action::Persist(d) => {
            assert_eq!(d.id, Some(41));
            assert_eq!(d.user.as_deref(), Some("a"));
            assert_eq!(d.title.as_deref(), Some("t"));
        }
        other => panic!("unexpected {other:?}"),
    }
    assert!(session(&s, 1).state.details.title.is_none());
    assert_eq!(s.counter, 42);
}

#[test]
fn counter_is_seeded_forward_only() {
    let mut s = ServerState::new();
    assert_eq!(next_id(&mut s), Some(0));
    set_id(&mut s, 10);
    assert_eq!(next_id(&mut s), Some(10));
    set_id(&mut s, 3);
    assert_eq!(next_id(&mut s), Some(11));
    s.counter = usize::MAX;
    assert_eq!(next_id(&mut s), None);
}

#[test]
fn send_without_ids_left() {
    let mut s = registry(&[1]);
    s.counter = usize::MAX;
    say(&mut s, 1, "LOGIN a");
    out(&mut s, 1);
    say(&mut s, 1, "SEND");
    assert_eq!(out(&mut s, 1), vec!["-SEND NO_ID\r\n".to_string()]);
}

#[test]
fn history_without_store() {
    let mut s = registry(&[1]);
    say(&mut s, 1, "LOGIN a");
    out(&mut s, 1);
    let a = say(&mut s, 1, "HISTORY");
    assert!(matches!(a, Action::Continue));
    assert_eq!(out(&mut s, 1), vec!["-HISTORY NO_DB\r\n".to_string()]);
}

#[test]
fn history_with_empty_store() {
    let mut s = registry(&[1]);
    s.db = true;
    say(&mut s, 1, "LOGIN a");
    out(&mut s, 1);
    match say(&mut s, 1, "4 HISTORY") {
        Action::LoadHistory(id) => {
            assert_eq!(id, Some(4));
            s.history_loaded(1, id, Ok(vec![]));
        }
        other => panic!("unexpected {other:?}"),
    }
    assert_eq!(out(&mut s, 1), vec!["4 +HISTORY END\r\n".to_string()]);
}

#[test]
fn history_with_records_and_failure() {
    let mut s = registry(&[1]);
    s.db = true;
    say(&mut s, 1, "LOGIN a");
    out(&mut s, 1);
    let mut d = NotificationDetails::new();
    d.id = Some(3);
    d.user = Some("bob".to_string());
    d.timestamp = Some("2024-01-01 10:00:00".to_string());
    d.title = Some("T".to_string());
    d.tags = vec!["x".to_string(), "y".to_string()];
    d.body = Some("l1\nl2\n".to_string());
    s.history_loaded(1, None, Ok(vec![d]));
    assert_eq!(
        out(&mut s, 1),
        vec![
            "+HISTORY 3 bob : 2024-01-01 10:00:00\r\n+HISTORY TITLE : T\r\n+HISTORY TAGS : x y\r\n+HISTORY BODY : l1\r\n+HISTORY BODY : l2\r\n"
                .to_string(),
            "+HISTORY END\r\n".to_string(),
        ]
    );
    s.history_loaded(1, Some(9), Err(StoreError));
    assert_eq!(out(&mut s, 1), vec!["9 -HISTORY DB_FAIL\r\n".to_string()]);
}

#[test]
fn consume_arguments() {
    let mut s = registry(&[1]);
    say(&mut s, 1, "LOGIN a");
    out(&mut s, 1);
    say(&mut s, 1, "CONSUME OFF");
    assert!(!session(&s, 1).state.consume);
    say(&mut s, 1, "consume True");
    assert!(session(&s, 1).state.consume);
    say(&mut s, 1, "CONSUME false");
    say(&mut s, 1, "CONSUME");
    assert!(session(&s, 1).state.consume);
    say(&mut s, 1, "CONSUME maybe");
    assert!(session(&s, 1).state.consume);
    assert_eq!(out(&mut s, 1), vec![
        "+CONSUME off\r\n".to_string(),
        "+CONSUME true\r\n".to_string(),
        "+CONSUME false\r\n".to_string(),
        "+CONSUME on\r\n".to_string(),
        "-CONSUME INVALID_ARG\r\n".to_string(),
    ]);
}

#[test]
fn who_lists_logged_in_sessions() {
    let mut s = registry(&[1, 2, 3]);
    say(&mut s, 1, "LOGIN a");
    say(&mut s, 3, "LOGIN c");
    say(&mut s, 3, "CONSUME off");
    out(&mut s, 1);
    say(&mut s, 1, "WHO");
    assert_eq!(out(&mut s, 1), vec![
        "+WHO a CONSUME : 10.0.0.1:4000\r\n".to_string(),
        "+WHO c : 10.0.0.3:4000\r\n".to_string(),
        "+WHO END\r\n".to_string(),
    ]);
    let roster = s.who();
    assert_eq!(roster, vec![
        ("a".to_string(), "10.0.0.1:4000".to_string(), true),
        ("c".to_string(), "10.0.0.3:4000".to_string(), false),
    ]);
}

#[test]
fn other_commands() {
    let mut s = registry(&[1]);
    say(&mut s, 1, "LOGIN a");
    out(&mut s, 1);
    say(&mut s, 1, "VERSION");
    say(&mut s, 1, "frobnicate now");
    say(&mut s, 1, "TITLE");
    say(&mut s, 1, "+LOGIN x");
    assert_eq!(out(&mut s, 1), vec![
        "+VERSION notificationd 0.1.0\r\n".to_string(),
        "-ERR UNKNOWN_CMD : I do not know FROBNICATE\r\n".to_string(),
        "-TITLE MISSING_TRAILING\r\n".to_string(),
        "-ERR INVALID_MESSAGE : You can't send a reply message to a server.\r\n".to_string(),
    ]);
    say(&mut s, 1, "TITLE :x");
    say(&mut s, 1, "RESET");
    assert!(session(&s, 1).state.details.title.is_none());
    assert!(matches!(say(&mut s, 1, "quit"), Action::Close));
}

#[test]
fn registry_membership() {
    let mut s = registry(&[1, 2]);
    assert!(!s.add_client(ClientHandle::new(2, "x".to_string())));
    assert_eq!(s.clients_len(), 2);
    assert!(!s.has_db());
    assert!(s.remove_client(1));
    assert!(!s.remove_client(1));
    assert_eq!(s.clients_len(), 1);
    assert!(matches!(say(&mut s, 1, "LOGIN a"), Action::Continue));
    assert!(out(&mut s, 1).is_empty());
}

#[test]
fn broadcast_to_everyone() {
    let mut s = registry(&[1, 2]);
    s.broadcast(&"hello\r\n".to_string());
    assert_eq!(out(&mut s, 1), vec!["hello\r\n".to_string()]);
    assert_eq!(out(&mut s, 2), vec!["hello\r\n".to_string()]);
}

#[test]
fn broadcast_notification_counts() {
    let mut s = registry(&[1, 2]);
    say(&mut s, 2, "LOGIN b");
    out(&mut s, 2);
    assert_eq!(s.broadcast_notification(&"f\r\n".to_string()), 1);
    assert!(out(&mut s, 1).is_empty());
    assert_eq!(out(&mut s, 2), vec!["f\r\n".to_string()]);
}

#[test]
fn failure_codes() {
    assert_eq!(Failure::MissingArg.code(), "MISSING_ARG");
    assert_eq!(Failure::AlreadyLoggedIn.code(), "ALREADY_LOGGED_IN");
    assert_eq!(Failure::NoLogin.code(), "NO_LOGIN");
    assert_eq!(Failure::MissingTrailing.code(), "MISSING_TRAILING");
    assert_eq!(Failure::InvalidArg.code(), "INVALID_ARG");
    assert_eq!(Failure::UnknownCmd.code(), "UNKNOWN_CMD");
    assert_eq!(Failure::DbFail.code(), "DB_FAIL");
    assert_eq!(Failure::NoDb.code(), "NO_DB");
    assert_eq!(Failure::InvalidMessage.code(), "INVALID_MESSAGE");
    assert_eq!(Failure::NoId.code(), "NO_ID");
}

#[test]
fn counter_resumes_after_stored_ids() {
    let mut s = ServerState::new();
    notificationd::server::resume_after(&mut s, 9);
    assert_eq!(next_id(&mut s), Some(10));
    notificationd::server::resume_after(&mut s, 2);
    assert_eq!(next_id(&mut s), Some(11));
    notificationd::server::resume_after(&mut s, usize::MAX);
    assert_eq!(next_id(&mut s), None);
}

#[test]
fn closed_connection_is_not_counted() {
    let mut s = registry(&[1, 2, 3]);
    say(&mut s, 1, "LOGIN a");
    say(&mut s, 2, "LOGIN b");
    say(&mut s, 3, "LOGIN c");
    assert!(s.mark_closed(2));
    assert!(!s.mark_closed(9));
    out(&mut s, 1);
    out(&mut s, 2);
    say(&mut s, 1, "SEND");
    assert_eq!(out(&mut s, 1), vec![
        "NOTIFY_START a 0\r\nNOTIFY_END 0\r\n".to_string(),
        "+SEND 2\r\n".to_string(),
    ]);
    assert!(out(&mut s, 2).is_empty());
    assert_eq!(out(&mut s, 3).len(), 2);
}

#[test]
fn arguments_fold_unicode_case() {
    assert!(is_reset_word("RST"));
    assert!(!is_reset_word("rst"));
    assert_eq!(consume_choice("true"), Some(true));
    assert_eq!(consume_choice("off"), Some(false));
    assert_eq!(consume_choice("OFF"), None);
    let mut s = registry(&[1]);
    say(&mut s, 1, "LOGIN a");
    say(&mut s, 1, "BODY :x");
    say(&mut s, 1, "BODY r\u{17f}t :y");
    assert_eq!(session(&s, 1).state.details.body.as_deref(), Some("y\n"));
}

#[test]
fn closed_connection_takes_no_text() {
    let mut s = registry(&[1, 2]);
    assert!(s.mark_closed(1));
    s.broadcast(&"hello\r\n".to_string());
    assert!(out(&mut s, 1).is_empty());
    assert_eq!(out(&mut s, 2), vec!["hello\r\n".to_string()]);
    say(&mut s, 1, "TITLE :x");
    assert!(out(&mut s, 1).is_empty());
    let mut c = ClientHandle::new(5, "p".to_string());
    c.open = false;
    c.write("x".to_string());
    assert!(c.outbox.is_empty());
}
