//! What the viewers send: key presses and releases and mouse positions, as
//! JSON text, and the removal of viewers whose connection has closed.
use vstd::prelude::*;
use crate::websockets::{User, UserView, strings_view, users_view};

verus! {

/// A field of a JSON object, as the input rules read it.
pub enum JsonScalar {
    Text(String),
    Boolean(bool),
    /// A number, with its value when it is a non-negative integer that fits
    /// in 64 bits.
    Number(Option<u64>),
    Other,
}

/// A field of a JSON object as plain values.
pub enum JsonScalarView {
    Text(Seq<char>),
    Boolean(bool),
    Number(Option<u64>),
    Other,
}

impl View for JsonScalar {
    type V = JsonScalarView;

    open spec fn view(&self) -> JsonScalarView {
        match self {
            JsonScalar::Text(s) => JsonScalarView::Text(s@),
            JsonScalar::Boolean(b) => JsonScalarView::Boolean(*b),
            JsonScalar::Number(n) => JsonScalarView::Number(*n),
            JsonScalar::Other => JsonScalarView::Other,
        }
    }
}

/// A field as plain values, if there is one.
pub open spec fn field_view(f: Option<JsonScalar>) -> Option<JsonScalarView> {
    match f {
        Some(v) => Some(v@),
        None => None,
    }
}

/// The field `key` of the JSON object that `text` holds, as `serde_json`
/// reads it; `None` when `text` is not a JSON object or has no such field.
pub uninterp spec fn json_object_field(text: Seq<char>, key: Seq<char>) -> Option<JsonScalarView>;

/// `serde_json::from_str` into a `serde_json::Value`, then `Value::get` of
/// `key` on the object: the field, with strings, booleans and numbers (by
/// `Number::as_u64`) kept and any other value marked `Other`.  The result
/// is named by `json_object_field`; what JSON text parses to which value is
/// left to `serde_json`.
#[verifier::external_body]
fn object_field(text: &str, key: &str) -> (r: Option<JsonScalar>)
    ensures
        field_view(r) == json_object_field(text@, key@),
{
    let parsed: Result<serde_json::Value, serde_json::Error> = serde_json::from_str(text);
    match parsed {
        Ok(serde_json::Value::Object(map)) => match map.get(key).cloned() {
            Some(serde_json::Value::String(s)) => Some(JsonScalar::Text(s)),
            Some(serde_json::Value::Bool(b)) => Some(JsonScalar::Boolean(b)),
            Some(serde_json::Value::Number(n)) => Some(JsonScalar::Number(n.as_u64())),
            Some(_) => Some(JsonScalar::Other),
            None => None,
        },
        _ => None,
    }
}

// ----------------------------------------------------------------------------
// Keys held down
// ----------------------------------------------------------------------------

/// Index of the first `key` in `cmds`, or `cmds.len()` when it is absent.
pub open spec fn position_of(cmds: Seq<Seq<char>>, key: Seq<char>) -> nat
    decreases cmds.len(),
{
    if cmds.len() == 0 {
        0
    } else if cmds[0] == key {
        0
    } else {
        1 + position_of(cmds.drop_first(), key)
    }
}

/// The keys held after a press (`pressing`) or release of `key`: a press of
/// a key not held adds it at the end, a release of a held key removes its
/// first occurrence, anything else changes nothing.
pub open spec fn control_result(cmds: Seq<Seq<char>>, key: Seq<char>, pressing: bool) -> Seq<
    Seq<char>,
> {
    let p = position_of(cmds, key);
    if p >= cmds.len() {
        if pressing {
            cmds.push(key)
        } else {
            cmds
        }
    } else if pressing {
        cmds
    } else {
        cmds.remove(p as int)
    }
}

/// `position_of` is the first index holding `key`.
pub proof fn lemma_position_of(cmds: Seq<Seq<char>>, key: Seq<char>)
    ensures
        position_of(cmds, key) <= cmds.len(),
        position_of(cmds, key) < cmds.len() ==> cmds[position_of(cmds, key) as int] == key,
        forall|j: int| 0 <= j < position_of(cmds, key) ==> cmds[j] != key,
    decreases cmds.len(),
{
    if cmds.len() > 0 && cmds[0] != key {
        lemma_position_of(cmds.drop_first(), key);
        assert forall|j: int| 0 <= j < position_of(cmds, key) implies cmds[j] != key by {
            if j > 0 {
                assert(cmds[j] == cmds.drop_first()[j - 1]);
            }
        }
    }
}

/// Applies a press or release of `key` to the keys held (see
/// `control_result`).
pub fn apply_control(commands: &mut Vec<String>, key: String, pressing: bool)
    ensures
        strings_view(final(commands)@) == control_result(strings_view(old(commands)@), key@, pressing),
{
    let ghost before = strings_view(commands@);
    proof {
        lemma_position_of(before, key@);
    }
    let mut i: usize = 0;
    while i < commands.len() && !(commands[i] == key)
        invariant
            i <= commands.len(),
            before == strings_view(commands@),
            forall|j: int| 0 <= j < i ==> before[j] != key@,
        decreases commands.len() - i,
    {
        i = i + 1;
    }
    let already_holding = i < commands.len();
    proof {
        if already_holding {
            assert(commands@[i as int]@ == key@);
            assert(before[i as int] == key@);
        }
    }
    assert(position_of(before, key@) == i);
    if !already_holding && pressing {
        commands.push(key);
        assert(strings_view(commands@) =~= before.push(key@));
    } else if already_holding && !pressing {
        commands.remove(i);
        assert(strings_view(commands@) =~= before.remove(i as int));
    }
}

/// The keys held after the message `text`, read as a control message: it
/// needs a text field `Key` and a boolean field `Pressing`.
pub open spec fn controls_after(cmds: Seq<Seq<char>>, text: Seq<char>) -> Seq<Seq<char>> {
    match json_object_field(text, "Key"@) {
        Some(JsonScalarView::Text(k)) => match json_object_field(text, "Pressing"@) {
            Some(JsonScalarView::Boolean(b)) => control_result(cmds, k, b),
            _ => cmds,
        },
        _ => cmds,
    }
}

/// Applies a control message to the keys the viewer holds.
pub fn register_user_controls(user: &mut User, text: &str)
    ensures
        final(user)@ == (UserView {
            commands: controls_after(old(user)@.commands, text@),
            ..old(user)@
        }),
{
    let key = match object_field(text, "Key") {
        Some(JsonScalar::Text(k)) => k,
        _ => return ,
    };
    let pressing = match object_field(text, "Pressing") {
        Some(JsonScalar::Boolean(b)) => b,
        _ => return ,
    };
    apply_control(&mut user.commands, key, pressing);
}

// ----------------------------------------------------------------------------
// Mouse
// ----------------------------------------------------------------------------

/// The mouse position from the fields `X` and `Y`: both must be numbers
/// that fit in 64 bits, and each keeps its low 16 bits.
pub open spec fn mouse_of(x: Option<JsonScalarView>, y: Option<JsonScalarView>) -> Option<
    (u16, u16),
> {
    match x {
        Some(JsonScalarView::Number(Some(a))) => match y {
            Some(JsonScalarView::Number(Some(b))) => Some((a as u16, b as u16)),
            _ => None,
        },
        _ => None,
    }
}

/// The mouse position from the fields `X` and `Y` (see `mouse_of`).
pub fn mouse_position_from_fields(x: Option<JsonScalar>, y: Option<JsonScalar>) -> (r: Option<
    (u16, u16),
>)
    ensures
        r == mouse_of(field_view(x), field_view(y)),
{
    match x {
        Some(JsonScalar::Number(Some(a))) => match y {
            Some(JsonScalar::Number(Some(b))) => Some((a as u16, b as u16)),
            _ => None,
        },
        _ => None,
    }
}

/// The mouse position a mouse message sets.
pub open spec fn mouse_after(text: Seq<char>) -> Option<(u16, u16)> {
    mouse_of(json_object_field(text, "X"@), json_object_field(text, "Y"@))
}

/// Applies a mouse message: the viewer points where it says, or nowhere
/// when it does not say.
pub fn register_mouse_change(user: &mut User, text: &str)
    ensures
        final(user)@ == (UserView { mouse_position: mouse_after(text@), ..old(user)@ }),
{
    user.mouse_position = None;
    let x = object_field(text, "X");
    let y = object_field(text, "Y");
    user.mouse_position = mouse_position_from_fields(x, y);
}

// ----------------------------------------------------------------------------
// Messages
// ----------------------------------------------------------------------------

/// A viewer after the text message `text`: its `Invoke_Type` field says
/// whether it is a control message, a mouse message, or neither.
pub open spec fn input_after(u: UserView, text: Seq<char>) -> UserView {
    match json_object_field(text, "Invoke_Type"@) {
        Some(JsonScalarView::Text(t)) => if t == "Control"@ {
            UserView { commands: controls_after(u.commands, text), ..u }
        } else if t == "Mouse"@ {
            UserView { mouse_position: mouse_after(text), ..u }
        } else {
            u
        },
        _ => u,
    }
}

/// Applies one text message from a viewer.
pub fn process_user_web_input(user: &mut User, text: &str)
    ensures
        final(user)@ == input_after(old(user)@, text@),
{
    match object_field(text, "Invoke_Type") {
        Some(JsonScalar::Text(t)) => {
            if t == "Control".to_string() {
                register_user_controls(user, text);
            } else if t == "Mouse".to_string() {
                register_mouse_change(user, text);
            }
        },
        _ => {},
    }
}

// ----------------------------------------------------------------------------
// Closed connections
// ----------------------------------------------------------------------------

/// `s` after `Vec::swap_remove(i)`: the last item moves to position `i`.
pub open spec fn swap_removed<T>(s: Seq<T>, i: int) -> Seq<T> {
    s.update(i, s.last()).drop_last()
}

/// `s` after `swap_remove(d[k] - k)` for each `k` in turn.  Each call moves
/// the last item into the gap, so the shifted positions name the listed
/// items only when at most one is listed: with two or more, other items
/// may be taken away instead (of `A, B, C, D` with `B` and `D` listed,
/// `A, D` remain).
pub open spec fn remove_all<T>(s: Seq<T>, d: Seq<usize>) -> Seq<T>
    decreases d.len(),
{
    if d.len() == 0 {
        s
    } else {
        swap_removed(remove_all(s, d.drop_last()), d.last() - (d.len() - 1))
    }
}

/// The removals `remove_all` makes stay inside the list: the `k`-th listed
/// position is at least `k` and below `n`.
pub open spec fn removable(n: nat, d: Seq<usize>) -> bool {
    forall|k: int| 0 <= k < d.len() ==> k <= #[trigger] d[k] < n
}

/// Each listed removal takes one item away.
pub proof fn lemma_remove_all_len<T>(s: Seq<T>, d: Seq<usize>)
    requires
        removable(s.len(), d),
    ensures
        remove_all(s, d).len() == s.len() - d.len(),
    decreases d.len(),
{
    if d.len() > 0 {
        let d2 = d.drop_last();
        assert(removable(s.len(), d2)) by {
            assert forall|k: int| 0 <= k < d2.len() implies k <= #[trigger] d2[k] < s.len() by {
                assert(d2[k] == d[k]);
            }
        }
        lemma_remove_all_len(s, d2);
        assert(d[d.len() - 1] < s.len());
    }
}

/// Removing positions commutes with mapping the items: so the same removals
/// keep a list kept beside another one (such as the connections beside the
/// viewers) paired item for item.
pub proof fn lemma_remove_all_map<A, B>(s: Seq<A>, d: Seq<usize>, f: spec_fn(A) -> B)
    requires
        removable(s.len(), d),
    ensures
        remove_all(s.map_values(f), d) == remove_all(s, d).map_values(f),
    decreases d.len(),
{
    if d.len() > 0 {
        let d2 = d.drop_last();
        assert(removable(s.len(), d2)) by {
            assert forall|k: int| 0 <= k < d2.len() implies k <= #[trigger] d2[k] < s.len() by {
                assert(d2[k] == d[k]);
            }
        }
        lemma_remove_all_map(s, d2, f);
        lemma_remove_all_len(s, d2);
        assert(d[d.len() - 1] < s.len());
        let r = remove_all(s, d2);
        let i = d.last() - (d.len() - 1);
        assert(swap_removed(r.map_values(f), i) =~= swap_removed(r, i).map_values(f));
    }
}

/// Calls `swap_remove(d[k] - k)` for each `k` in turn (see `remove_all`
/// for which items this takes away).
pub fn remove_closed<T>(items: &mut Vec<T>, to_delete: &Vec<usize>)
    requires
        removable(old(items).len() as nat, to_delete@),
    ensures
        final(items)@ == remove_all(old(items)@, to_delete@),
{
    let ghost start = items@;
    let mut i: usize = 0;
    assert(to_delete@.take(0) =~= Seq::<usize>::empty());
    while i < to_delete.len()
        invariant
            i <= to_delete.len(),
            removable(start.len(), to_delete@),
            items.len() == start.len() - i,
            items@ == remove_all(start, to_delete@.take(i as int)),
        decreases to_delete.len() - i,
    {
        let d = to_delete[i];
        assert(i <= d < start.len());
        items.swap_remove(d - i);
        i = i + 1;
        assert(to_delete@.take(i as int).drop_last() =~= to_delete@.take(i - 1));
    }
    assert(to_delete@.take(i as int) =~= to_delete@);
}

/// What was read from one viewer's connection until it reported an error:
/// the messages in order (`None` for those that are not text) and the text
/// of the error.
pub struct Inbox {
    pub messages: Vec<Option<String>>,
    pub error: String,
}

/// The text of each message, `None` for one that is not text.
pub open spec fn messages_view(ms: Seq<Option<String>>) -> Seq<Option<Seq<char>>> {
    ms.map_values(|m: Option<String>| match m {
        Some(t) => Some(t@),
        None => None,
    })
}

/// A viewer after the messages, in order; messages that are not text
/// change nothing.
pub open spec fn after_messages(u: UserView, ms: Seq<Option<Seq<char>>>) -> UserView
    decreases ms.len(),
{
    if ms.len() == 0 {
        u
    } else {
        let u2 = after_messages(u, ms.drop_last());
        match ms.last() {
            Some(t) => input_after(u2, t),
            None => u2,
        }
    }
}

/// The error a connection reports once it is closed.
pub open spec fn closed_error() -> Seq<char> {
    "Trying to work with closed connection"@
}

/// The positions of the inboxes whose error says the connection is closed,
/// in order.
pub open spec fn closed_indices(inboxes: Seq<Inbox>) -> Seq<usize>
    decreases inboxes.len(),
{
    if inboxes.len() == 0 {
        seq![]
    } else {
        let rest = closed_indices(inboxes.drop_last());
        if inboxes.last().error@ == closed_error() {
            rest.push((inboxes.len() - 1) as usize)
        } else {
            rest
        }
    }
}

/// The viewers after the messages each sent, before any removal.
pub open spec fn updated_users(users: Seq<UserView>, inboxes: Seq<Inbox>) -> Seq<UserView> {
    Seq::new(
        users.len(),
        |i: int| after_messages(users[i], messages_view(inboxes[i].messages@)),
    )
}

/// Applies what each viewer sent, then, for the positions whose connection
/// has closed, in order, calls `swap_remove` at the position less the
/// number of calls made before (see `remove_all`).  With one closed
/// connection that viewer is removed; with several, the viewers removed
/// need not be the closed ones.  Returns the positions listed, so that a
/// list kept beside the viewers can be cut the same way with
/// `remove_closed`.
pub fn read_all_user_sends(users: &mut Vec<User>, inboxes: &Vec<Inbox>) -> (to_delete: Vec<usize>)
    requires
        inboxes.len() == old(users).len(),
    ensures
        to_delete@ == closed_indices(inboxes@),
        removable(old(users).len() as nat, to_delete@),
        final(users).len() == old(users).len() - to_delete.len(),
        users_view(final(users)@) == remove_all(
            updated_users(users_view(old(users)@), inboxes@),
            to_delete@,
        ),
{
    let ghost start = users_view(users@);
    let closed = "Trying to work with closed connection".to_string();
    let mut to_delete: Vec<usize> = Vec::new();
    let mut i: usize = 0;
    let n = users.len();
    assert(inboxes@.take(0) =~= Seq::<Inbox>::empty());
    while i < n
        invariant
            n == users.len() == inboxes.len() == start.len(),
            i <= n,
            closed@ == closed_error(),
            forall|j: int| 0 <= j < i ==> (#[trigger] users@[j])@ == after_messages(
                start[j],
                messages_view(inboxes@[j].messages@),
            ),
            forall|j: int| i <= j < n ==> (#[trigger] users@[j])@ == start[j],
            to_delete@ == closed_indices(inboxes@.take(i as int)),
            to_delete.len() <= i,
            forall|k: int| 0 <= k < to_delete.len() ==> k <= #[trigger] to_delete@[k] < i,
        decreases n - i,
    {
        let inbox = &inboxes[i];
        let ghost ms = messages_view(inbox.messages@);
        let mut k: usize = 0;
        assert(ms.take(0) =~= Seq::<Option<Seq<char>>>::empty());
        while k < inbox.messages.len()
            invariant
                n == users.len(),
                i < n,
                inbox == inboxes@[i as int],
                ms == messages_view(inbox.messages@),
                k <= inbox.messages.len(),
                users@[i as int]@ == after_messages(start[i as int], ms.take(k as int)),
                forall|j: int|
                    0 <= j < i ==> (#[trigger] users@[j])@ == after_messages(
                        start[j],
                        messages_view(inboxes@[j].messages@),
                    ),
                forall|j: int| i < j < n ==> (#[trigger] users@[j])@ == start[j],
            decreases inbox.messages.len() - k,
        {
            let ghost before = users@;
            match &inbox.messages[k] {
                Some(t) => {
                    process_user_web_input(&mut users[i], t.as_str());
                },
                None => {},
            }
            assert(forall|j: int| 0 <= j < n && j != i ==> users@[j] == before[j]);
            k = k + 1;
            assert(ms.take(k as int).drop_last() =~= ms.take(k - 1));
        }
        assert(ms.take(k as int) =~= ms);
        if inbox.error == closed {
            to_delete.push(i);
        }
        i = i + 1;
        assert(inboxes@.take(i as int).drop_last() =~= inboxes@.take(i - 1));
    }
    assert(inboxes@.take(i as int) =~= inboxes@);
    let ghost updated = users@;
    assert(users_view(updated) =~= updated_users(start, inboxes@));
    remove_closed(users, &to_delete);
    proof {
        lemma_remove_all_map(updated, to_delete@, |u: User| u@);
        lemma_remove_all_len(updated, to_delete@);
    }
    to_delete
}

/// A press leaves the key held and a release leaves it not held, and no
/// key is ever held twice.
pub proof fn lemma_control_result(cmds: Seq<Seq<char>>, key: Seq<char>, pressing: bool)
    requires
        cmds.no_duplicates(),
    ensures
        control_result(cmds, key, pressing).no_duplicates(),
        pressing ==> control_result(cmds, key, pressing).contains(key),
        !pressing ==> !control_result(cmds, key, pressing).contains(key),
{
    lemma_position_of(cmds, key);
    let p = position_of(cmds, key);
    let r = control_result(cmds, key, pressing);
    if p >= cmds.len() {
        assert(!cmds.contains(key));
        if pressing {
            assert(r[cmds.len() as int] == key);
            assert forall|i: int, j: int| 0 <= i < r.len() && 0 <= j < r.len() && i != j implies r[i]
                != r[j] by {
                if i < cmds.len() && j < cmds.len() {
                } else if i < cmds.len() {
                    assert(cmds[i] != key);
                } else if j < cmds.len() {
                    assert(cmds[j] != key);
                }
            }
        }
    } else if pressing {
        assert(r[p as int] == key);
    } else {
        assert forall|i: int| 0 <= i < r.len() implies r[i] != key by {
            if i < p {
            } else {
                assert(r[i] == cmds[i + 1]);
                assert(cmds[i + 1] != cmds[p as int]);
            }
        }
        assert forall|i: int, j: int| 0 <= i < r.len() && 0 <= j < r.len() && i != j implies r[i]
            != r[j] by {
            let oi = if i < p { i } else { i + 1 };
            let oj = if j < p { j } else { j + 1 };
            assert(r[i] == cmds[oi]);
            assert(r[j] == cmds[oj]);
        }
    }
}

/// Whatever a viewer sends, it never holds a key twice.
pub proof fn lemma_after_messages_no_duplicates(u: UserView, ms: Seq<Option<Seq<char>>>)
    requires
        u.commands.no_duplicates(),
    ensures
        after_messages(u, ms).commands.no_duplicates(),
    decreases ms.len(),
{
    if ms.len() > 0 {
        lemma_after_messages_no_duplicates(u, ms.drop_last());
        let u2 = after_messages(u, ms.drop_last());
        if let Some(t) = ms.last() {
            match json_object_field(t, "Key"@) {
                Some(JsonScalarView::Text(k)) => match json_object_field(t, "Pressing"@) {
                    Some(JsonScalarView::Boolean(b)) => lemma_control_result(u2.commands, k, b),
                    _ => {},
                },
                _ => {},
            }
        }
    }
}

/// Every viewer holds each key at most once.
pub open spec fn all_hold_keys_once(us: Seq<UserView>) -> bool {
    forall|i: int| 0 <= i < us.len() ==> (#[trigger] us[i]).commands.no_duplicates()
}

proof fn lemma_remove_all_keeps<T>(s: Seq<T>, d: Seq<usize>, p: spec_fn(T) -> bool)
    requires
        removable(s.len(), d),
        forall|i: int| 0 <= i < s.len() ==> p(#[trigger] s[i]),
    ensures
        forall|i: int| 0 <= i < remove_all(s, d).len() ==> p(#[trigger] remove_all(s, d)[i]),
    decreases d.len(),
{
    if d.len() > 0 {
        let d2 = d.drop_last();
        assert(removable(s.len(), d2)) by {
            assert forall|k: int| 0 <= k < d2.len() implies k <= #[trigger] d2[k] < s.len() by {
                assert(d2[k] == d[k]);
            }
        }
        lemma_remove_all_keeps(s, d2, p);
        lemma_remove_all_len(s, d2);
        let r = remove_all(s, d2);
        let idx = d.last() - (d.len() - 1);
        assert(d[d.len() - 1] < s.len());
        assert forall|i: int| 0 <= i < remove_all(s, d).len() implies p(
            #[trigger] remove_all(s, d)[i],
        ) by {
            if i == idx {
                assert(remove_all(s, d)[i] == r[r.len() - 1]);
            } else {
                assert(remove_all(s, d)[i] == r[i]);
            }
        }
    }
}

/// A round of reading keeps every viewer holding each key at most once.
pub proof fn lemma_viewers_hold_keys_once(users: Seq<UserView>, inboxes: Seq<Inbox>, d: Seq<usize>)
    requires
        inboxes.len() == users.len(),
        removable(users.len(), d),
        all_hold_keys_once(users),
    ensures
        all_hold_keys_once(remove_all(updated_users(users, inboxes), d)),
{
    let up = updated_users(users, inboxes);
    assert forall|i: int| 0 <= i < up.len() implies (#[trigger] up[i]).commands.no_duplicates() by {
        lemma_after_messages_no_duplicates(users[i], messages_view(inboxes[i].messages@));
    }
    lemma_remove_all_keeps(up, d, |u: UserView| u.commands.no_duplicates());
}

/// What a control message does to the keys a viewer holds, in terms of
/// the key text `k` it sends: a press of a key not held adds exactly `k` at
/// the end, a press of a held key changes nothing, a release removes the
/// first occurrence of `k` and keeps the rest in order, a release of a key
/// not held changes nothing, and a message without a text `Key` and a
/// boolean `Pressing` changes nothing.
pub proof fn lemma_control_message(cmds: Seq<Seq<char>>, text: Seq<char>)
    ensures
        ({
            let r = controls_after(cmds, text);
            match (json_object_field(text, "Key"@), json_object_field(text, "Pressing"@)) {
                (Some(JsonScalarView::Text(k)), Some(JsonScalarView::Boolean(true))) => {
                    &&& r.contains(k)
                    &&& cmds.contains(k) ==> r == cmds
                    &&& !cmds.contains(k) ==> r == cmds.push(k)
                },
                (Some(JsonScalarView::Text(k)), Some(JsonScalarView::Boolean(false))) => {
                    &&& !cmds.contains(k) ==> r == cmds
                    &&& cmds.contains(k) ==> exists|i: int|
                        0 <= i < cmds.len() && cmds[i] == k && (forall|j: int|
                            0 <= j < i ==> cmds[j] != k) && r == cmds.remove(i)
                },
                _ => r == cmds,
            }
        }),
{
    match json_object_field(text, "Key"@) {
        Some(JsonScalarView::Text(k)) => {
            lemma_position_of(cmds, k);
            let p = position_of(cmds, k) as int;
            if p < cmds.len() {
                assert(cmds.contains(k));
            } else {
                assert forall|i: int| 0 <= i < cmds.len() implies cmds[i] != k by {}
                assert(!cmds.contains(k));
                assert(cmds.push(k)[cmds.len() as int] == k);
            }
        },
        _ => {},
    }
}

/// What one text message changes: a message whose `Invoke_Type` is
/// `Control` changes only the keys held (as `lemma_control_message` says),
/// one whose `Invoke_Type` is `Mouse` changes only the mouse position, to
/// the `X` and `Y` it gives (nowhere when it gives none), and any other
/// message changes nothing.
pub proof fn lemma_message_kinds(u: UserView, text: Seq<char>)
    ensures
        ({
            let v = input_after(u, text);
            &&& v.true_ip == u.true_ip
            &&& json_object_field(text, "Invoke_Type"@) == Some(JsonScalarView::Text("Control"@))
                ==> v.mouse_position == u.mouse_position && v.commands == controls_after(
                u.commands,
                text,
            )
            &&& json_object_field(text, "Invoke_Type"@) == Some(JsonScalarView::Text("Mouse"@))
                ==> v.commands == u.commands && v.mouse_position == mouse_of(
                json_object_field(text, "X"@),
                json_object_field(text, "Y"@),
            )
            &&& json_object_field(text, "Invoke_Type"@) != Some(JsonScalarView::Text("Control"@))
                && json_object_field(text, "Invoke_Type"@) != Some(
                JsonScalarView::Text("Mouse"@),
            ) ==> v == u
        }),
{
    reveal_strlit("Control");
    reveal_strlit("Mouse");
    assert("Control"@ != "Mouse"@) by {
        assert("Control"@[0] != "Mouse"@[0]);
    }
}

} // verus!
