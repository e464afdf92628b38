use cloudplay::frame::{makebase, pack_frame};
use cloudplay::http::get_body_and_headers;
use cloudplay::websockets::{
    add_new_user, get_ip, initalise_data, is_multi_connecting, next_monitor_message,
    send_inital_monitor_data, tag_message, User, WebsocketDataTypes,
};

fn user(ip: &str) -> User {
    User { true_ip: ip.to_string(), commands: Vec::new(), mouse_position: None }
}

#[test]
fn message_codes() {
    assert_eq!(WebsocketDataTypes::Initialing.code(), 0);
    assert_eq!(WebsocketDataTypes::SendMonitorData.code(), 1);
    assert_eq!(WebsocketDataTypes::SendingGlobalUserStates.code(), 2);
}

#[test]
fn tagged_messages_start_with_their_code() {
    assert_eq!(tag_message(vec![7, 8], Some(WebsocketDataTypes::SendingGlobalUserStates)), vec![2, 7, 8]);
    assert_eq!(tag_message(vec![7, 8], None), vec![7, 8]);
}

#[test]
fn initial_data_lists_the_keys() {
    let keys = vec!["w".to_string(), "a".to_string(), "Space".to_string()];
    let mut expected = vec![0u8];
    expected.extend_from_slice(b"{\"Keys\":[\"w\",\"a\",\"Space\"]}");
    assert_eq!(initalise_data(&keys), expected);
    let quoted = vec!["\"".to_string()];
    let mut expected = vec![0u8];
    expected.extend_from_slice(b"{\"Keys\":[\"\\\"\"]}");
    assert_eq!(initalise_data(&quoted), expected);
    let mut expected = vec![0u8];
    expected.extend_from_slice(b"{\"Keys\":[]}");
    assert_eq!(initalise_data(&Vec::new()), expected);
}

#[test]
fn initial_monitor_data() {
    assert_eq!(send_inital_monitor_data(&Vec::new()), None);
    assert_eq!(send_inital_monitor_data(&vec![0, 1, 0, 2, 0, 0, 0, 0]), Some(vec![1, 0, 1, 0, 2, 2, 0, 1]));
}

#[test]
fn monitor_step_compresses_against_the_last_frame() {
    let mut previous = vec![0, 1, 0, 2, 0, 0, 0, 0];
    let frame = vec![0, 1, 0, 2, 0, 0, 5, 5];
    let m = next_monitor_message(&mut previous, frame.clone());
    assert_eq!(m, vec![1, 0, 1, 0, 2, 0, 5, 5]);
    assert_eq!(previous, frame);
}

#[test]
fn ip_comes_from_the_proxy_header_first() {
    let (_, _, h) =
        get_body_and_headers(b"GET / x\r\nCF-Connecting-IP: 1.2.3.4\r\n\r\n".to_vec()).unwrap();
    assert_eq!(get_ip(&h, Some("9.9.9.9".to_string())), Some("1.2.3.4".to_string()));
    let (_, _, h2) = get_body_and_headers(b"GET / x\r\n\r\n".to_vec()).unwrap();
    assert_eq!(get_ip(&h2, Some("9.9.9.9".to_string())), Some("9.9.9.9".to_string()));
    assert_eq!(get_ip(&h2, None), None);
}

#[test]
fn one_connection_per_address_unless_allowed() {
    let users = vec![user("1.1.1.1"), user("2.2.2.2")];
    assert!(is_multi_connecting(&users, &"2.2.2.2".to_string(), false));
    assert!(!is_multi_connecting(&users, &"3.3.3.3".to_string(), false));
    assert!(!is_multi_connecting(&users, &"2.2.2.2".to_string(), true));
}

#[test]
fn new_users_are_added_once() {
    let mut users = vec![user("1.1.1.1")];
    assert!(add_new_user(&mut users, Some("2.2.2.2".to_string()), false));
    assert_eq!(users.len(), 2);
    assert_eq!(users[1].true_ip, "2.2.2.2");
    assert!(users[1].commands.is_empty());
    assert_eq!(users[1].mouse_position, None);
    assert!(!add_new_user(&mut users, Some("2.2.2.2".to_string()), false));
    assert!(!add_new_user(&mut users, None, false));
    assert_eq!(users.len(), 2);
    assert!(add_new_user(&mut users, Some("2.2.2.2".to_string()), true));
    assert_eq!(users.len(), 3);
}

#[test]
fn initial_data_escapes_like_serde_json() {
    let keys = vec![
        "a\nb".to_string(),
        "\\".to_string(),
        "\u{1}\u{1f}\t\r\u{8}\u{c}".to_string(),
        "é€\u{7f}/".to_string(),
    ];
    let mut expected = vec![0u8];
    expected.extend_from_slice(b"{\"Keys\":[\"a\\nb\",\"\\\\\",\"\\u0001\\u001f\\t\\r\\b\\f\",\"");
    expected.extend_from_slice("é€\u{7f}/".as_bytes());
    expected.extend_from_slice(b"\"]}");
    assert_eq!(initalise_data(&keys), expected);
}

#[test]
fn monitor_rounds_read_back_from_the_blank_frame() {
    let size = (2u16, 2u16);
    let rounds: Vec<Vec<(u16, u16, u16)>> = vec![
        vec![(0, 0, 0), (900, 90, 9), (900, 90, 9), (0, 0, 0)],
        vec![(0, 0, 0), (900, 90, 9), (2295, 0, 0), (2295, 0, 0)],
        vec![(0, 0, 0), (900, 90, 9), (2295, 0, 0), (2295, 0, 0)],
    ];
    let mut previous = makebase(size);
    let mut viewer = previous.clone();
    for sums in rounds {
        let frame = pack_frame(size, &sums);
        assert_eq!(frame.len(), previous.len());
        let m = next_monitor_message(&mut previous, frame.clone());
        assert_eq!(m[0], 1);
        viewer = decode(&viewer, &m[1..]);
        assert_eq!(viewer, frame);
    }
}

/// Reads a compressed frame back, as a viewer does.
fn decode(prev: &[u8], code: &[u8]) -> Vec<u8> {
    let mut out = code[..4].to_vec();
    let mut i = 4;
    while i < code.len() {
        let c = code[i];
        if c % 2 == 0 {
            let n = 2 * (c as usize / 2 + 1);
            let pos = out.len();
            out.extend_from_slice(&prev[pos..pos + n]);
            i += 1;
        } else if c % 4 == 3 {
            for _ in 0..(code[i + 2] as usize + 1) {
                out.push(c - 2);
                out.push(code[i + 1]);
            }
            i += 3;
        } else {
            out.push(c);
            out.push(code[i + 1]);
            i += 2;
        }
    }
    out
}
