use notificationd::client::{display_fields, greeting, parse_decimal, Event, Forwarder};
use notificationd::notifications::NotificationDetails;


fn feed(f: &mut Forwarder, text: &str) -> Event {
    let (_, m) = notificationd::protocol::line(text, false).unwrap();
    f.on_message(&m)
}

#[test]
fn frames_become_a_notification() {
    let mut f = Forwarder::new();
    assert!(matches!(feed(&mut f, "NOTIFY_START alice 12"), Event::Nothing));
    feed(&mut f, "TITLE: Hello");
    feed(&mut f, "BODY: one");
    feed(&mut f, "BODY: two");
    match feed(&mut f, "NOTIFY_END 12") {
        Event::Display(d) => {
            assert_eq!(d.user.as_deref(), Some("alice"));
            assert_eq!(d.id, Some(12));
            assert_eq!(d.title.as_deref(), Some("Hello"));
            assert_eq!(d.body.as_deref(), Some("one\ntwo\n"));
        }
        other => panic!("unexpected {other:?}"),
    }
    assert!(f.details.is_none());
    assert!(matches!(feed(&mut f, "NOTIFY_END 12"), Event::Nothing));
}

#[test]
fn lines_outside_a_frame_are_ignored() {
    let mut f = Forwarder::new();
    assert!(matches!(feed(&mut f, "TITLE: x"), Event::Nothing));
    assert!(f.details.is_none());
    feed(&mut f, "NOTIFY_START bob notanumber");
    assert_eq!(f.details.as_ref().unwrap().id, None);
}

#[test]
fn login_confirmed_once() {
    let mut f = Forwarder::new();
    assert!(matches!(feed(&mut f, "-LOGIN MISSING_ARG"), Event::Nothing));
    assert!(matches!(feed(&mut f, "+LOGIN : Welcome a"), Event::LoggedIn));
    assert!(matches!(feed(&mut f, "+LOGIN : Welcome a"), Event::Nothing));
    assert!(f.logged_in);
}

#[test]
fn decimal_ids() {
    assert_eq!(parse_decimal("0"), Some(0));
    assert_eq!(parse_decimal("0042"), Some(42));
    assert_eq!(parse_decimal(""), None);
    assert_eq!(parse_decimal("4x"), None);
    assert_eq!(parse_decimal("18446744073709551615"), Some(usize::MAX));
    assert_eq!(parse_decimal("18446744073709551616"), None);
}

#[test]
fn greeting_and_display() {
    assert_eq!(greeting("me", "box"), "login me@box\r\nconsume\r\n");
    let d = NotificationDetails::new();
    let (u, t, b) = display_fields(&d);
    assert_eq!((u.as_str(), t.as_str(), b.as_str()), ("notificationd", "", ""));
}

#[test]
fn decimal_ids_with_plus_sign() {
    assert_eq!(parse_decimal("+7"), Some(7));
    assert_eq!(parse_decimal("+"), None);
    assert_eq!(parse_decimal("-7"), None);
    assert_eq!(parse_decimal("++7"), None);
}
