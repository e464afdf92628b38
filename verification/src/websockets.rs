//! The viewers connected over websockets and the messages sent to them.
use vstd::prelude::*;
use crate::compression::{
    compressed, compress_frame, decompressed, is_frame, lemma_compress_roundtrip,
    lemma_frame_compresses,
};
use crate::frame::{base_frame, frame_header, pixels_of, lemma_packed_frame_matches_base, lemma_packed_frame_is_frame};
use crate::http::Headers;
use vstd::utf8::encode_utf8;

verus! {

/// What a binary message to the viewers holds; its code is the message's
/// first byte.
#[derive(PartialEq, Eq, Structural, Clone, Copy, Debug)]
pub enum WebsocketDataTypes {
    SendMonitorData,
    Initialing,
    SendingGlobalUserStates,
}

impl WebsocketDataTypes {
    /// The code of the kind of message.
    pub open spec fn spec_code(self) -> u8 {
        match self {
            WebsocketDataTypes::SendMonitorData => 1,
            WebsocketDataTypes::Initialing => 0,
            WebsocketDataTypes::SendingGlobalUserStates => 2,
        }
    }

    /// The code of the kind of message.
    pub fn code(&self) -> (c: u8)
        ensures
            c == self.spec_code(),
    {
        match self {
            WebsocketDataTypes::SendMonitorData => 1,
            WebsocketDataTypes::Initialing => 0,
            WebsocketDataTypes::SendingGlobalUserStates => 2,
        }
    }
}

/// A connected viewer: the address it connects from, the keys it holds down
/// and where it points the mouse.
pub struct User {
    pub true_ip: String,
    pub commands: Vec<String>,
    pub mouse_position: Option<(u16, u16)>,
}

/// A viewer as plain values.
pub struct UserView {
    pub true_ip: Seq<char>,
    pub commands: Seq<Seq<char>>,
    pub mouse_position: Option<(u16, u16)>,
}

/// The characters of each string of a list.
pub open spec fn strings_view(v: Seq<String>) -> Seq<Seq<char>> {
    v.map_values(|s: String| s@)
}

impl View for User {
    type V = UserView;

    open spec fn view(&self) -> UserView {
        UserView {
            true_ip: self.true_ip@,
            commands: strings_view(self.commands@),
            mouse_position: self.mouse_position,
        }
    }
}

/// The viewers as plain values.
pub open spec fn users_view(users: Seq<User>) -> Seq<UserView> {
    users.map_values(|u: User| u@)
}

/// A binary message: the code of its kind, when it has one, then the payload.
pub fn tag_message(payload: Vec<u8>, kind: Option<WebsocketDataTypes>) -> (m: Vec<u8>)
    ensures
        m@ == match kind {
            Some(k) => seq![k.spec_code()] + payload@,
            None => payload@,
        },
{
    match kind {
        Some(k) => {
            let mut m = payload;
            m.insert(0, k.code());
            m
        },
        None => payload,
    }
}

/// A lower-case hexadecimal digit of `d < 16`.
pub open spec fn hex_digit(d: u32) -> u8 {
    if d < 10 {
        (48 + d) as u8
    } else {
        (87 + d) as u8
    }
}

/// How `serde_json` writes one character inside a JSON string: the quote,
/// the backslash and the control characters below U+0020 escaped (`\b`,
/// `\t`, `\n`, `\f`, `\r` by name, the others as `\u00XX`), every other
/// character as its UTF-8 bytes.
pub open spec fn json_char(c: char) -> Seq<u8> {
    let u = c as u32;
    if u == 34 {
        seq![92u8, 34u8]
    } else if u == 92 {
        seq![92u8, 92u8]
    } else if u == 8 {
        seq![92u8, 98u8]
    } else if u == 9 {
        seq![92u8, 116u8]
    } else if u == 10 {
        seq![92u8, 110u8]
    } else if u == 12 {
        seq![92u8, 102u8]
    } else if u == 13 {
        seq![92u8, 114u8]
    } else if u < 32 {
        seq![92u8, 117u8, 48u8, 48u8, hex_digit(u / 16), hex_digit(u % 16)]
    } else {
        encode_utf8(seq![c])
    }
}

/// The characters of a string as written inside a JSON string.
pub open spec fn json_chars(s: Seq<char>) -> Seq<u8>
    decreases s.len(),
{
    if s.len() == 0 {
        seq![]
    } else {
        json_chars(s.drop_last()) + json_char(s.last())
    }
}

/// A JSON string: the escaped characters between quotes.
pub open spec fn json_string(s: Seq<char>) -> Seq<u8> {
    seq![34u8] + json_chars(s) + seq![34u8]
}

/// The JSON strings of the items, separated by commas.
pub open spec fn json_items(items: Seq<Seq<char>>) -> Seq<u8>
    decreases items.len(),
{
    if items.len() == 0 {
        seq![]
    } else if items.len() == 1 {
        json_string(items[0])
    } else {
        json_items(items.drop_last()) + seq![44u8] + json_string(items.last())
    }
}

/// The compact JSON array of a list of strings, as bytes.
pub open spec fn json_string_array(items: Seq<Seq<char>>) -> Seq<u8> {
    seq![91u8] + json_items(items) + seq![93u8]
}

/// `serde_json::to_vec` on a list of strings: the compact JSON array of the
/// strings (see `json_string_array`, which follows serde_json's compact
/// formatter and its escape table).  Serialising a list of strings into a
/// `Vec` does not fail, and the empty arm is never taken.
#[verifier::external_body]
fn json_array_bytes(keys: &Vec<String>) -> (r: Vec<u8>)
    ensures
        r@ == json_string_array(strings_view(keys@)),
{
    match serde_json::to_vec(keys) {
        Ok(v) => v,
        Err(_) => Vec::new(),
    }
}

/// Appends the bytes of `src` to `dst`.
fn push_bytes(dst: &mut Vec<u8>, src: &[u8])
    ensures
        final(dst)@ == old(dst)@ + src@,
{
    let ghost start = dst@;
    let mut i: usize = 0;
    while i < src.len()
        invariant
            i <= src.len(),
            dst@ == start + src@.take(i as int),
        decreases src.len() - i,
    {
        dst.push(src[i]);
        i = i + 1;
        assert(dst@ =~= start + src@.take(i as int));
    }
    assert(src@.take(i as int) =~= src@);
}

/// The message that tells a new viewer the keys it may press: the code of
/// `Initialing`, then the JSON object `{"Keys":[...]}` as bytes.
pub open spec fn initial_data_bytes(keys: Seq<Seq<char>>) -> Seq<u8> {
    seq![WebsocketDataTypes::Initialing.spec_code()] + encode_utf8("{\"Keys\":"@) + json_string_array(keys)
        + encode_utf8("}"@)
}

/// The message that tells a new viewer the keys it may press.
pub fn initalise_data(keys: &Vec<String>) -> (bytes: Vec<u8>)
    ensures
        bytes@ == initial_data_bytes(strings_view(keys@)),
{
    let mut bytes: Vec<u8> = Vec::new();
    bytes.push(WebsocketDataTypes::Initialing.code());
    push_bytes(&mut bytes, "{\"Keys\":".as_bytes());
    let array = json_array_bytes(keys);
    push_bytes(&mut bytes, array.as_slice());
    push_bytes(&mut bytes, "}".as_bytes());
    bytes
}

/// The first screen message for a new viewer: the last frame compressed on
/// its own, after the code of `SendMonitorData`; nothing while there is no
/// frame yet.
pub fn send_inital_monitor_data(previous_bytes: &Vec<u8>) -> (m: Option<Vec<u8>>)
    requires
        previous_bytes.len() == 0 || compressed(previous_bytes@, seq![], true) is Some,
    ensures
        previous_bytes.len() == 0 ==> m is None,
        previous_bytes.len() != 0 ==> (m matches Some(v) && v@ == seq![
            WebsocketDataTypes::SendMonitorData.spec_code(),
        ] + compressed(previous_bytes@, seq![], true).unwrap()),
{
    if previous_bytes.len() == 0 {
        return None;
    }
    let empty: Vec<u8> = Vec::new();
    assert(empty@ =~= Seq::<u8>::empty());
    let data = previous_bytes.clone();
    assert(data@ =~= previous_bytes@);
    let bytes = compress_frame(data, &empty, true);
    Some(tag_message(bytes, Some(WebsocketDataTypes::SendMonitorData)))
}

/// The address a new viewer connects from: the `CF-Connecting-IP` field
/// when the request has one, else the address of the connection, if known.
pub fn get_ip(headers: &Headers, connection_ip: Option<String>) -> (ip: Option<String>)
    ensures
        headers@.contains_key("CF-Connecting-IP"@) ==> (ip matches Some(s) && s@ == headers@[
            "CF-Connecting-IP"@]),
        !headers@.contains_key("CF-Connecting-IP"@) ==> ip == connection_ip,
{
    let name = "CF-Connecting-IP".to_string();
    match headers.get(&name) {
        Some(ip) => Some(ip.clone()),
        None => connection_ip,
    }
}

/// Whether some viewer already connects from `ip`, unless several
/// connections per address are allowed.
pub fn is_multi_connecting(user_vec: &Vec<User>, ip_string: &String, ignore_multiple: bool) -> (r:
    bool)
    ensures
        r == (!ignore_multiple && exists|i: int|
            0 <= i < user_vec.len() && (#[trigger] user_vec@[i]).true_ip@ == ip_string@),
{
    if ignore_multiple {
        return false;
    }
    let mut i: usize = 0;
    while i < user_vec.len()
        invariant
            !ignore_multiple,
            i <= user_vec.len(),
            forall|j: int| 0 <= j < i ==> (#[trigger] user_vec@[j]).true_ip@ != ip_string@,
        decreases user_vec.len() - i,
    {
        if user_vec[i].true_ip == *ip_string {
            assert(user_vec@[i as int].true_ip@ == ip_string@);
            return true;
        }
        i = i + 1;
    }
    false
}

/// Admits a new viewer from `ip` unless there is no address or the address
/// is already connected (and that is not allowed): the new viewer holds no
/// keys and points nowhere.  Returns whether it was admitted.
pub fn add_new_user(users: &mut Vec<User>, ip: Option<String>, ignore_multiple: bool) -> (added:
    bool)
    ensures
        added == (ip is Some && !(!ignore_multiple && exists|i: int|
            0 <= i < old(users).len() && (#[trigger] old(users)@[i]).true_ip@ == ip->0@)),
        added ==> users_view(final(users)@) == users_view(old(users)@).push(
            UserView { true_ip: ip->0@, commands: seq![], mouse_position: None },
        ),
        !added ==> final(users)@ == old(users)@,
{
    match ip {
        Some(ip_string) => {
            if is_multi_connecting(users, &ip_string, ignore_multiple) {
                false
            } else {
                let user = User { true_ip: ip_string, commands: Vec::new(), mouse_position: None };
                let ghost before = users@;
                let ghost nu = user@;
                assert(nu.commands =~= Seq::<Seq<char>>::empty());
                users.push(user);
                assert(users_view(users@) =~= users_view(before).push(
                    UserView { true_ip: ip_string@, commands: seq![], mouse_position: None },
                ));
                true
            }
        },
        None => false,
    }
}

/// One round of the screen loop: the new frame, compressed against the
/// previous one, after the code of `SendMonitorData`; the new frame becomes
/// the previous one.
pub fn next_monitor_message(previous_bytes: &mut Vec<u8>, frame: Vec<u8>) -> (m: Vec<u8>)
    requires
        compressed(frame@, old(previous_bytes)@, false) is Some,
    ensures
        final(previous_bytes)@ == frame@,
        m@ == monitor_message(frame@, old(previous_bytes)@),
{
    let copy = frame.clone();
    assert(copy@ =~= frame@);
    let compressed_bytes = compress_frame(copy, previous_bytes, false);
    *previous_bytes = frame;
    tag_message(compressed_bytes, Some(WebsocketDataTypes::SendMonitorData))
}

/// The screen message of one round, as `next_monitor_message` sends it.
pub open spec fn monitor_message(frame: Seq<u8>, prev: Seq<u8>) -> Seq<u8> {
    seq![WebsocketDataTypes::SendMonitorData.spec_code()] + compressed(frame, prev, false).unwrap()
}

/// One round of the screen loop reads back: for a frame in the screen
/// format and a previous frame at least as long, the message compresses,
/// and a viewer that reads it after its first byte against the previous
/// frame gets the new frame.
pub proof fn lemma_monitor_step_roundtrip(frame: Seq<u8>, prev: Seq<u8>)
    requires
        is_frame(frame),
        prev.len() >= frame.len(),
    ensures
        compressed(frame, prev, false) is Some,
        decompressed(prev, monitor_message(frame, prev).drop_first()) == frame,
{
    lemma_frame_compresses(frame, prev, false);
    lemma_compress_roundtrip(frame, prev, false);
    assert(monitor_message(frame, prev).drop_first() =~= compressed(frame, prev, false).unwrap());
}

/// The screen loop reads back round after round: starting from the blank
/// frame of a size, with each round a frame packed from one sample per
/// pixel of that size, the message of round `k` read against the frame
/// before it (the blank frame first) gives the frame of round `k`.
pub proof fn lemma_monitor_rounds(
    xsize: u16,
    ysize: u16,
    rounds: Seq<Seq<(u16, u16, u16)>>,
    k: int,
)
    requires
        forall|r: int| 0 <= r < rounds.len() ==> (#[trigger] rounds[r]).len() == xsize * ysize,
        0 <= k < rounds.len(),
    ensures
        ({
            let frame = frame_header(xsize, ysize) + pixels_of(rounds[k]);
            let prev = if k == 0 {
                base_frame(xsize, ysize)
            } else {
                frame_header(xsize, ysize) + pixels_of(rounds[k - 1])
            };
            &&& compressed(frame, prev, false) is Some
            &&& decompressed(prev, monitor_message(frame, prev).drop_first()) == frame
        }),
{
    let frame = frame_header(xsize, ysize) + pixels_of(rounds[k]);
    lemma_packed_frame_is_frame(xsize, ysize, rounds[k]);
    lemma_packed_frame_matches_base(xsize, ysize, rounds[k]);
    if k == 0 {
        lemma_monitor_step_roundtrip(frame, base_frame(xsize, ysize));
    } else {
        lemma_packed_frame_matches_base(xsize, ysize, rounds[k - 1]);
        lemma_monitor_step_roundtrip(frame, frame_header(xsize, ysize) + pixels_of(rounds[k - 1]));
    }
}

} // verus!
