use notificationd::control::address;
use notificationd::frames::{history_group_text, join_tags, notify_frame_text, split_lines, split_tags};
use notificationd::notifications::NotificationDetails;
use notificationd::text::{ascii_upper, decimal_string, same_text};

#[test]
fn tags_split_on_spaces() {
    assert_eq!(split_tags("a  b c "), vec!["a".to_string(), "b".to_string(), "c".to_string()]);
    assert!(split_tags("").is_empty());
    assert!(split_tags("   ").is_empty());
    assert_eq!(join_tags(&vec!["x".to_string(), "y".to_string()]), "x y");
    assert_eq!(join_tags(&vec![]), "");
}

#[test]
fn body_split_into_lines() {
    assert_eq!(split_lines(&"a\r\nb\nc".to_string()), vec!["a".to_string(), "b".to_string(), "c".to_string()]);
    assert_eq!(split_lines(&"a\n\nb\n".to_string()), vec!["a".to_string(), String::new(), "b".to_string()]);
    assert!(split_lines(&String::new()).is_empty());
    assert_eq!(split_lines(&"x\r".to_string()), vec!["x\r".to_string()]);
}

#[test]
fn full_notify_frame() {
    let mut d = NotificationDetails::new();
    d.title = Some("Hi".to_string());
    d.tags = vec!["t1".to_string(), "t2".to_string()];
    d.body = Some("one\ntwo\n".to_string());
    assert_eq!(
        notify_frame_text(&d, &"alice".to_string(), 12),
        "NOTIFY_START alice 12\r\nTITLE: Hi\r\nTAGS: t1 t2\r\nBODY: one\r\nBODY: two\r\nNOTIFY_END 12\r\n"
    );
}

#[test]
fn history_group_without_optional_fields() {
    let mut d = NotificationDetails::new();
    d.user = Some("u".to_string());
    assert_eq!(history_group_text(Some(2), &d), "2 +HISTORY u\r\n");
}

#[test]
fn builder_operations() {
    let mut d = NotificationDetails::new();
    d.set_title("x".to_string());
    d.append_body(&"a".to_string(), false);
    d.append_body(&"b".to_string(), false);
    assert_eq!(d.body.as_deref(), Some("a\nb\n"));
    d.append_body(&"c".to_string(), true);
    assert_eq!(d.body.as_deref(), Some("c\n"));
    let s = d.stamped(&"me".to_string(), 5);
    assert_eq!(s.user.as_deref(), Some("me"));
    assert_eq!(s.id, Some(5));
    assert_eq!(s.title.as_deref(), Some("x"));
    d.clear_body();
    assert!(d.body.is_none());
    d.reset();
    assert!(d.title.is_none());
}

#[test]
fn text_helpers() {
    assert_eq!(ascii_upper("abZ_9é"), "ABZ_9é");
    assert_eq!(decimal_string(0), "0");
    assert_eq!(decimal_string(4294967295), "4294967295");
    assert!(same_text("ab", "ab"));
    assert!(!same_text("ab", "abc"));
}

#[test]
fn control_addresses() {
    assert_eq!(address(0, true, None, true), "unix:@levitating.notificationd");
    assert_eq!(address(0, false, None, true), "unix:/run/levitating.notificationd");
    assert_eq!(address(1000, true, None, true), "unix://run/user/1000/levitating.notificationd");
    assert_eq!(address(1000, true, None, false), "unix://var/run/user/1000/levitating.notificationd");
    assert_eq!(
        address(1000, true, Some("/tmp/rt".to_string()), true),
        "unix:/tmp/rt/levitating.notificationd"
    );
}
