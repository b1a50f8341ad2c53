
use notificationd::protocol::reply;

#[test]
fn empty_trailing() {
    let (res_, msg) = notificationd::protocol::line("BODY:", false).unwrap();
    println!("{res_:?} {msg:?}");
    assert_eq!(msg.command, "BODY");
    assert_eq!(msg.trailing, Some(String::new()));
}

#[test]
fn body_space_colon_has_empty_trailing() {
    let (rest, msg) = notificationd::protocol::line("BODY :", false).unwrap();
    assert_eq!(rest, "");
    assert_eq!(msg.command, "BODY");
    assert!(msg.arguments.is_empty());
    assert_eq!(msg.trailing, Some(String::new()));
}

#[test]
fn parses_every_field() {
    let (rest, msg) = notificationd::protocol::line("12 +LOGIN alice extra : hello: world", false).unwrap();
    assert_eq!(rest, "");
    assert_eq!(msg.id, Some(12));
    assert_eq!(msg.sign, Some(true));
    assert_eq!(msg.command, "LOGIN");
    assert_eq!(msg.arguments, vec!["alice".to_string(), "extra".to_string()]);
    assert_eq!(msg.trailing, Some("hello: world".to_string()));
}

#[test]
fn minus_sign_and_no_id() {
    let (_, msg) = notificationd::protocol::line("-send x", false).unwrap();
    assert_eq!(msg.id, None);
    assert_eq!(msg.sign, Some(false));
    assert_eq!(msg.command, "send");
    assert_eq!(msg.arguments, vec!["x".to_string()]);
    assert_eq!(msg.trailing, None);
}

#[test]
fn id_too_large_is_a_command() {
    let (_, msg) = notificationd::protocol::line("99999999999 X", false).unwrap();
    assert_eq!(msg.id, None);
    assert_eq!(msg.command, "99999999999");
    assert_eq!(msg.arguments, vec!["X".to_string()]);
}

#[test]
fn digits_without_blank_are_no_id() {
    let (_, msg) = notificationd::protocol::line("42LOGIN bob", false).unwrap();
    assert_eq!(msg.id, None);
    assert_eq!(msg.command, "42LOGIN");
}

#[test]
fn text_after_fields_is_returned() {
    let (rest, msg) = notificationd::protocol::line("LOGIN-x", false).unwrap();
    assert_eq!(msg.command, "LOGIN");
    assert!(msg.arguments.is_empty());
    assert_eq!(rest, "-x");
}

#[test]
fn terminated_line_consumes_break() {
    let (rest, msg) = notificationd::protocol::line("TITLE :hi there\r\nNEXT", true).unwrap();
    assert_eq!(msg.trailing, Some("hi there".to_string()));
    assert_eq!(rest, "NEXT");
    let (rest, _) = notificationd::protocol::line("WHO\n", true).unwrap();
    assert_eq!(rest, "");
}

#[test]
fn terminated_line_without_break_fails() {
    let e = notificationd::protocol::line("WHO x", true).unwrap_err();
    assert_eq!(e.position, 5);
    assert_eq!(e.describe(), "expected line end at 5");
}

#[test]
fn empty_line_parses_to_empty_command() {
    let (rest, msg) = notificationd::protocol::line("", false).unwrap();
    assert_eq!(rest, "");
    assert_eq!(msg.command, "");
    assert!(msg.arguments.is_empty());
    assert_eq!(msg.trailing, None);
}

#[test]
fn reply_formats() {
    assert_eq!(reply(Some(7), false, "LOGIN", vec!["MISSING_ARG"], None), "7 -LOGIN MISSING_ARG\r\n");
    assert_eq!(reply(None, true, "LOGIN", vec![], Some("Welcome alice")), "+LOGIN : Welcome alice\r\n");
    assert_eq!(reply(None, true, "WHO", vec!["bob", "CONSUME"], Some("1.2.3.4:5")), "+WHO bob CONSUME : 1.2.3.4:5\r\n");
    assert_eq!(reply(Some(0), true, "X", vec![], None), "0 +X\r\n");
}

#[test]
fn reply_of_parsed_line_parses_back() {
    let (_, m) = notificationd::protocol::line("5 -Cmd a b  :x y: z", false).unwrap();
    let args: Vec<&str> = m.arguments.iter().map(|a| a.as_str()).collect();
    let out = reply(m.id, false, &m.command, args, m.trailing.as_deref());
    assert_eq!(out, "5 -Cmd a b : x y: z\r\n");
    let (rest, back) = notificationd::protocol::line(&out, true).unwrap();
    assert_eq!(rest, "");
    assert_eq!(back.id, m.id);
    assert_eq!(back.sign, Some(false));
    assert_eq!(back.command, m.command);
    assert_eq!(back.arguments, m.arguments);
    assert_eq!(back.trailing, m.trailing);
}

#[test]
fn reply_of_unsigned_line_takes_reply_sign() {
    let (_, m) = notificationd::protocol::line("TITLE :hello", false).unwrap();
    assert_eq!(m.sign, None);
    let out = reply(m.id, true, &m.command, vec![], m.trailing.as_deref());
    let (_, back) = notificationd::protocol::line(&out, false).unwrap();
    assert_eq!(back.sign, Some(true));
    assert_eq!(back.command, "TITLE");
    assert_eq!(back.trailing, Some("hello".to_string()));
}
