use cloudplay::input::{
    apply_control, mouse_position_from_fields, process_user_web_input, read_all_user_sends,
    remove_closed, Inbox, JsonScalar,
};
use cloudplay::websockets::User;

fn user(ip: &str, keys: &[&str]) -> User {
    User {
        true_ip: ip.to_string(),
        commands: keys.iter().map(|k| k.to_string()).collect(),
        mouse_position: None,
    }
}

fn keys(u: &User) -> Vec<&str> {
    u.commands.iter().map(|s| s.as_str()).collect()
}

#[test]
fn press_and_release() {
    let mut u = user("a", &[]);
    process_user_web_input(&mut u, r#"{"Invoke_Type":"Control","Key":"w","Pressing":true}"#);
    process_user_web_input(&mut u, r#"{"Invoke_Type":"Control","Key":"a","Pressing":true}"#);
    process_user_web_input(&mut u, r#"{"Invoke_Type":"Control","Key":"w","Pressing":true}"#);
    assert_eq!(keys(&u), vec!["w", "a"]);
    process_user_web_input(&mut u, r#"{"Invoke_Type":"Control","Key":"w","Pressing":false}"#);
    assert_eq!(keys(&u), vec!["a"]);
    process_user_web_input(&mut u, r#"{"Invoke_Type":"Control","Key":"q","Pressing":false}"#);
    assert_eq!(keys(&u), vec!["a"]);
}

#[test]
fn malformed_control_messages_change_nothing() {
    let mut u = user("a", &["s"]);
    process_user_web_input(&mut u, r#"{"Invoke_Type":"Control","Key":"w","Pressing":"yes"}"#);
    process_user_web_input(&mut u, r#"{"Invoke_Type":"Control","Key":5,"Pressing":true}"#);
    process_user_web_input(&mut u, r#"{"Invoke_Type":"Control","Pressing":true}"#);
    process_user_web_input(&mut u, r#"{"Invoke_Type":"Jump","Key":"w","Pressing":true}"#);
    process_user_web_input(&mut u, r#"{"Key":"w","Pressing":true}"#);
    process_user_web_input(&mut u, r#"["Control"]"#);
    process_user_web_input(&mut u, "not json");
    assert_eq!(keys(&u), vec!["s"]);
    assert_eq!(u.mouse_position, None);
}

#[test]
fn mouse_messages() {
    let mut u = user("a", &["s"]);
    process_user_web_input(&mut u, r#"{"Invoke_Type":"Mouse","X":100,"Y":200}"#);
    assert_eq!(u.mouse_position, Some((100, 200)));
    process_user_web_input(&mut u, r#"{"Invoke_Type":"Mouse","X":70000,"Y":65535}"#);
    assert_eq!(u.mouse_position, Some((4464, 65535)));
    process_user_web_input(&mut u, r#"{"Invoke_Type":"Mouse","X":-1,"Y":3}"#);
    assert_eq!(u.mouse_position, None);
    process_user_web_input(&mut u, r#"{"Invoke_Type":"Mouse","X":1,"Y":2.5}"#);
    assert_eq!(u.mouse_position, None);
    assert_eq!(keys(&u), vec!["s"]);
}

#[test]
fn mouse_fields() {
    assert_eq!(
        mouse_position_from_fields(Some(JsonScalar::Number(Some(65536 + 7))), Some(JsonScalar::Number(Some(3)))),
        Some((7, 3))
    );
    assert_eq!(mouse_position_from_fields(Some(JsonScalar::Number(None)), Some(JsonScalar::Number(Some(3)))), None);
    assert_eq!(mouse_position_from_fields(Some(JsonScalar::Number(Some(1))), None), None);
    assert_eq!(mouse_position_from_fields(Some(JsonScalar::Boolean(true)), Some(JsonScalar::Other)), None);
}

#[test]
fn apply_control_removes_first_occurrence_only() {
    let mut cmds = vec!["w".to_string(), "a".to_string(), "w".to_string()];
    apply_control(&mut cmds, "w".to_string(), false);
    assert_eq!(cmds, vec!["a".to_string(), "w".to_string()]);
    apply_control(&mut cmds, "d".to_string(), true);
    assert_eq!(cmds, vec!["a".to_string(), "w".to_string(), "d".to_string()]);
}

#[test]
fn closed_connections_are_removed() {
    let mut users = vec![user("a", &[]), user("b", &[]), user("c", &[]), user("d", &[])];
    let closed = "Trying to work with closed connection".to_string();
    let inboxes = vec![
        Inbox { messages: vec![], error: closed.clone() },
        Inbox {
            messages: vec![
                Some(r#"{"Invoke_Type":"Control","Key":"w","Pressing":true}"#.to_string()),
                None,
            ],
            error: "would block".to_string(),
        },
        Inbox { messages: vec![], error: closed.clone() },
        Inbox { messages: vec![], error: "would block".to_string() },
    ];
    let removed = read_all_user_sends(&mut users, &inboxes);
    assert_eq!(removed, vec![0, 2]);
    // swap_remove(0) then swap_remove(2 - 1).
    let ips: Vec<&str> = users.iter().map(|u| u.true_ip.as_str()).collect();
    assert_eq!(ips, vec!["d", "c"]);
    assert!(users.iter().all(|u| u.commands.is_empty()));
    // A list kept beside the users is cut the same way.
    let mut sockets = vec![10, 11, 12, 13];
    remove_closed(&mut sockets, &removed);
    assert_eq!(sockets, vec![13, 12]);
}

#[test]
fn users_keep_their_messages_in_order() {
    let mut users = vec![user("a", &[])];
    let inboxes = vec![Inbox {
        messages: vec![
            Some(r#"{"Invoke_Type":"Control","Key":"w","Pressing":true}"#.to_string()),
            Some(r#"{"Invoke_Type":"Control","Key":"w","Pressing":false}"#.to_string()),
            Some(r#"{"Invoke_Type":"Control","Key":"d","Pressing":true}"#.to_string()),
            Some(r#"{"Invoke_Type":"Mouse","X":5,"Y":6}"#.to_string()),
        ],
        error: "would block".to_string(),
    }];
    let removed = read_all_user_sends(&mut users, &inboxes);
    assert!(removed.is_empty());
    assert_eq!(keys(&users[0]), vec!["d"]);
    assert_eq!(users[0].mouse_position, Some((5, 6)));
}
