use cloudplay::setup::parse_yes_no;
use cloudplay::userinputs::{
    classify_key, count_key_presses, key_changes, key_character, user_count_header,
    user_inputs_mouse_positions, KeyTarget,
};
use cloudplay::websockets::User;

fn user(keys: &[&str], mouse: Option<(u16, u16)>) -> User {
    User {
        true_ip: String::new(),
        commands: keys.iter().map(|k| k.to_string()).collect(),
        mouse_position: mouse,
    }
}

#[test]
fn mouse_average() {
    assert_eq!(user_inputs_mouse_positions(&vec![]), (0, 0));
    assert_eq!(user_inputs_mouse_positions(&vec![user(&[], None)]), (0, 0));
    let users = vec![user(&[], Some((10, 20))), user(&[], None), user(&[], Some((15, 65535)))];
    assert_eq!(user_inputs_mouse_positions(&users), (12, 32777));
}

#[test]
fn key_counts() {
    let users = vec![user(&["w", "a"], None), user(&["w"], None), user(&["x"], None)];
    let keys = vec!["w".to_string(), "a".to_string(), "d".to_string()];
    assert_eq!(count_key_presses(&users, &keys), vec![2, 1, 0]);
}

#[test]
fn only_changed_keys_are_sent() {
    let cur = vec![("w".to_string(), true), ("a".to_string(), false), ("d".to_string(), false)];
    let prev = vec![("w".to_string(), false), ("a".to_string(), false), ("d".to_string(), true), ("q".to_string(), true)];
    assert_eq!(key_changes(&cur, &prev), vec![("w".to_string(), true), ("d".to_string(), false)]);
}

#[test]
fn key_targets() {
    assert_eq!(classify_key(&"Space".to_string()), KeyTarget::Space);
    assert_eq!(classify_key(&"M1".to_string()), KeyTarget::MouseLeft);
    assert_eq!(classify_key(&"M2".to_string()), KeyTarget::MouseRight);
    assert_eq!(classify_key(&"M3".to_string()), KeyTarget::MouseMiddle);
    assert_eq!(classify_key(&"W".to_string()), KeyTarget::Character);
    assert_eq!(key_character(&"W".to_string()), Some('w'));
    assert_eq!(key_character(&"Enter".to_string()), Some('e'));
    assert_eq!(key_character(&String::new()), None);
}

#[test]
fn user_count_is_big_endian() {
    assert_eq!(user_count_header(0), vec![0, 0, 0, 0]);
    assert_eq!(user_count_header(258), vec![0, 0, 1, 2]);
    assert_eq!(user_count_header(0x0102_0304), vec![1, 2, 3, 4]);
}

#[test]
fn yes_no_answers() {
    assert_eq!(parse_yes_no("y"), Some(true));
    assert_eq!(parse_yes_no("Y"), Some(true));
    assert_eq!(parse_yes_no("N"), Some(false));
    assert_eq!(parse_yes_no("yes"), None);
    assert_eq!(parse_yes_no(""), None);
}
