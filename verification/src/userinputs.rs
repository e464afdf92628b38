//! Turning the inputs of all viewers into one input: the average mouse
//! position, how many viewers hold each key, which keys change, and the
//! status message sent back to the viewers.
use vstd::prelude::*;
use crate::websockets::{User, UserView, users_view};
use crate::setup::{lowercase, to_lowercase};

verus! {

/// Number of viewers that point the mouse somewhere.
pub open spec fn mouse_count(us: Seq<UserView>) -> nat
    decreases us.len(),
{
    if us.len() == 0 {
        0
    } else {
        mouse_count(us.drop_last()) + if us.last().mouse_position is Some {
            1nat
        } else {
            0nat
        }
    }
}

/// Sum of the horizontal mouse positions of the viewers that point.
pub open spec fn mouse_sum_x(us: Seq<UserView>) -> nat
    decreases us.len(),
{
    if us.len() == 0 {
        0
    } else {
        mouse_sum_x(us.drop_last()) + match us.last().mouse_position {
            Some(p) => p.0 as nat,
            None => 0nat,
        }
    }
}

/// Sum of the vertical mouse positions of the viewers that point.
pub open spec fn mouse_sum_y(us: Seq<UserView>) -> nat
    decreases us.len(),
{
    if us.len() == 0 {
        0
    } else {
        mouse_sum_y(us.drop_last()) + match us.last().mouse_position {
            Some(p) => p.1 as nat,
            None => 0nat,
        }
    }
}

proof fn lemma_mouse_prefix(us: Seq<UserView>, i: int)
    requires
        0 <= i <= us.len(),
    ensures
        mouse_count(us.take(i)) <= mouse_count(us),
        mouse_sum_x(us.take(i)) <= mouse_sum_x(us),
        mouse_sum_y(us.take(i)) <= mouse_sum_y(us),
    decreases us.len(),
{
    if i < us.len() {
        lemma_mouse_prefix(us.drop_last(), i);
        assert(us.drop_last().take(i) =~= us.take(i));
    } else {
        assert(us.take(i) =~= us);
    }
}

/// The average mouse position of the viewers that point, each coordinate
/// rounded down; `(0, 0)` when none points.
pub fn user_inputs_mouse_positions(users: &Vec<User>) -> (pos: (u16, u16))
    requires
        mouse_count(users_view(users@)) <= u32::MAX,
        mouse_sum_x(users_view(users@)) <= u32::MAX,
        mouse_sum_y(users_view(users@)) <= u32::MAX,
    ensures
        ({
            let us = users_view(users@);
            if mouse_count(us) == 0 {
                pos == (0u16, 0u16)
            } else {
                pos == ((mouse_sum_x(us) / mouse_count(us)) as u16, (mouse_sum_y(us)
                    / mouse_count(us)) as u16)
            }
        }),
{
    let ghost us = users_view(users@);
    let mut total_x: u32 = 0;
    let mut total_y: u32 = 0;
    let mut count: u32 = 0;
    let mut i: usize = 0;
    assert(us.take(0) =~= Seq::<UserView>::empty());
    while i < users.len()
        invariant
            i <= users.len(),
            us == users_view(users@),
            mouse_count(us) <= u32::MAX,
            mouse_sum_x(us) <= u32::MAX,
            mouse_sum_y(us) <= u32::MAX,
            count == mouse_count(us.take(i as int)),
            total_x == mouse_sum_x(us.take(i as int)),
            total_y == mouse_sum_y(us.take(i as int)),
        decreases users.len() - i,
    {
        proof {
            lemma_mouse_prefix(us, i + 1);
            assert(us.take(i + 1).drop_last() =~= us.take(i as int));
        }
        if let Some((x, y)) = users[i].mouse_position {
            count = count + 1;
            total_x = total_x + x as u32;
            total_y = total_y + y as u32;
        }
        i = i + 1;
    }
    assert(us.take(i as int) =~= us);
    if count == 0 {
        return (0, 0);
    }
    ((total_x / count) as u16, (total_y / count) as u16)
}

/// How often `key` occurs among the keys held.
pub open spec fn occurrences(cmds: Seq<Seq<char>>, key: Seq<char>) -> nat
    decreases cmds.len(),
{
    if cmds.len() == 0 {
        0
    } else {
        occurrences(cmds.drop_last(), key) + if cmds.last() == key {
            1nat
        } else {
            0nat
        }
    }
}

/// How often `key` occurs among the keys all viewers hold.
pub open spec fn key_count(us: Seq<UserView>, key: Seq<char>) -> nat
    decreases us.len(),
{
    if us.len() == 0 {
        0
    } else {
        key_count(us.drop_last(), key) + occurrences(us.last().commands, key)
    }
}

/// `n`, or the largest `usize` when it does not fit.
pub open spec fn saturate(n: nat) -> usize {
    if n <= usize::MAX {
        n as usize
    } else {
        usize::MAX
    }
}

/// For each valid key, how many times the viewers hold it (saturating at
/// the largest `usize`).
pub fn count_key_presses(users: &Vec<User>, valid_keys: &Vec<String>) -> (amounts: Vec<usize>)
    ensures
        amounts.len() == valid_keys.len(),
        forall|k: int|
            0 <= k < valid_keys.len() ==> #[trigger] amounts@[k] == saturate(
                key_count(users_view(users@), valid_keys@[k]@),
            ),
{
    let ghost us = users_view(users@);
    let mut amounts: Vec<usize> = Vec::new();
    let mut k: usize = 0;
    while k < valid_keys.len()
        invariant
            k <= valid_keys.len(),
            us == users_view(users@),
            amounts.len() == k,
            forall|q: int|
                0 <= q < k ==> #[trigger] amounts@[q] == saturate(
                    key_count(us, valid_keys@[q]@),
                ),
        decreases valid_keys.len() - k,
    {
        let key = &valid_keys[k];
        let mut c: usize = 0;
        let mut u: usize = 0;
        assert(us.take(0) =~= Seq::<UserView>::empty());
        while u < users.len()
            invariant
                u <= users.len(),
                us == users_view(users@),
                c == saturate(key_count(us.take(u as int), key@)),
            decreases users.len() - u,
        {
            let cmds = &users[u].commands;
            let ghost cv = us[u as int].commands;
            let ghost base = key_count(us.take(u as int), key@);
            let mut j: usize = 0;
            assert(cv.take(0) =~= Seq::<Seq<char>>::empty());
            while j < cmds.len()
                invariant
                    j <= cmds.len(),
                    cv == crate::websockets::strings_view(cmds@),
                    c == saturate(base + occurrences(cv.take(j as int), key@)),
                decreases cmds.len() - j,
            {
                if cmds[j] == *key {
                    if c < usize::MAX {
                        c = c + 1;
                    }
                }
                j = j + 1;
                assert(cv.take(j as int).drop_last() =~= cv.take(j - 1));
            }
            assert(cv.take(j as int) =~= cv);
            u = u + 1;
            assert(us.take(u as int).drop_last() =~= us.take(u - 1));
        }
        assert(us.take(u as int) =~= us);
        amounts.push(c);
        k = k + 1;
    }
    amounts
}

/// The keys whose pressed state differs from the previous round, with the
/// new state, in order.
pub open spec fn key_changes_spec(cur: Seq<(String, bool)>, prev: Seq<(String, bool)>) -> Seq<
    (Seq<char>, bool),
>
    decreases cur.len(),
{
    if cur.len() == 0 {
        seq![]
    } else {
        let rest = key_changes_spec(cur.drop_last(), prev);
        let (key, pressed) = cur.last();
        if prev[cur.len() - 1].1 != pressed {
            rest.push((key@, pressed))
        } else {
            rest
        }
    }
}

/// The keys to press or release this round: those whose state differs
/// from the previous round, at the same position.
pub fn key_changes(keyboard_inputs: &Vec<(String, bool)>, previous_keyboard_inputs: &Vec<
    (String, bool),
>) -> (changes: Vec<(String, bool)>)
    requires
        previous_keyboard_inputs.len() >= keyboard_inputs.len(),
    ensures
        changes@.map_values(|c: (String, bool)| (c.0@, c.1)) == key_changes_spec(
            keyboard_inputs@,
            previous_keyboard_inputs@,
        ),
{
    let mut changes: Vec<(String, bool)> = Vec::new();
    let mut i: usize = 0;
    assert(keyboard_inputs@.take(0) =~= Seq::<(String, bool)>::empty());
    while i < keyboard_inputs.len()
        invariant
            i <= keyboard_inputs.len() <= previous_keyboard_inputs.len(),
            changes@.map_values(|c: (String, bool)| (c.0@, c.1)) == key_changes_spec(
                keyboard_inputs@.take(i as int),
                previous_keyboard_inputs@,
            ),
        decreases keyboard_inputs.len() - i,
    {
        let ghost before = changes@;
        let (key, pressed) = &keyboard_inputs[i];
        let previous = previous_keyboard_inputs[i].1;
        if previous != *pressed {
            changes.push((key.clone(), *pressed));
            assert(changes@.map_values(|c: (String, bool)| (c.0@, c.1)) =~= before.map_values(
                |c: (String, bool)| (c.0@, c.1),
            ).push((key@, *pressed)));
        }
        i = i + 1;
        assert(keyboard_inputs@.take(i as int).drop_last() =~= keyboard_inputs@.take(i - 1));
    }
    assert(keyboard_inputs@.take(i as int) =~= keyboard_inputs@);
    changes
}

/// What a key name drives: the space bar, a mouse button, or the character
/// the name starts with.
#[derive(PartialEq, Eq, Structural, Clone, Copy, Debug)]
pub enum KeyTarget {
    Space,
    MouseLeft,
    MouseRight,
    MouseMiddle,
    Character,
}

/// What a key name drives (see `KeyTarget`).
pub open spec fn key_target(key: Seq<char>) -> KeyTarget {
    if key == "Space"@ {
        KeyTarget::Space
    } else if key == "M1"@ {
        KeyTarget::MouseLeft
    } else if key == "M2"@ {
        KeyTarget::MouseRight
    } else if key == "M3"@ {
        KeyTarget::MouseMiddle
    } else {
        KeyTarget::Character
    }
}

/// What a key name drives (see `KeyTarget`).
pub fn classify_key(key: &String) -> (t: KeyTarget)
    ensures
        t == key_target(key@),
{
    if *key == "Space".to_string() {
        KeyTarget::Space
    } else if *key == "M1".to_string() {
        KeyTarget::MouseLeft
    } else if *key == "M2".to_string() {
        KeyTarget::MouseRight
    } else if *key == "M3".to_string() {
        KeyTarget::MouseMiddle
    } else {
        KeyTarget::Character
    }
}

/// The first four bytes of the status message: the number of viewers as a
/// 32-bit big-endian number (its low 32 bits).
pub fn user_count_header(user_count: usize) -> (bytes: Vec<u8>)
    ensures
        bytes@ == seq![
            ((user_count / 16777216) % 256) as u8,
            ((user_count / 65536) % 256) as u8,
            ((user_count / 256) % 256) as u8,
            (user_count % 256) as u8,
        ],
{
    let mut bytes: Vec<u8> = Vec::new();
    bytes.push(((user_count / (256 * 256 * 256)) % 256) as u8);
    bytes.push(((user_count / (256 * 256)) % 256) as u8);
    bytes.push(((user_count / 256) % 256) as u8);
    bytes.push((user_count % 256) as u8);
    assert(bytes@ =~= seq![
        ((user_count / 16777216) % 256) as u8,
        ((user_count / 65536) % 256) as u8,
        ((user_count / 256) % 256) as u8,
        (user_count % 256) as u8,
    ]);
    bytes
}

/// The character a key name types: the first character of its lower-case
/// form; `None` for an empty name.
pub fn key_character(key: &String) -> (c: Option<char>)
    ensures
        lowercase(key@).len() == 0 ==> c is None,
        lowercase(key@).len() > 0 ==> c == Some(lowercase(key@)[0]),
{
    let l = to_lowercase(key.as_str());
    if l.as_str().unicode_len() == 0 {
        None
    } else {
        Some(l.as_str().get_char(0))
    }
}

proof fn lemma_occurrences_no_duplicates(cmds: Seq<Seq<char>>, key: Seq<char>)
    requires
        cmds.no_duplicates(),
    ensures
        occurrences(cmds, key) <= 1,
        occurrences(cmds, key) == 1 ==> cmds.contains(key),
    decreases cmds.len(),
{
    if cmds.len() > 0 {
        let d = cmds.drop_last();
        assert(d.no_duplicates()) by {
            assert forall|i: int, j: int| 0 <= i < d.len() && 0 <= j < d.len() && i != j implies d[i]
                != d[j] by {
                assert(d[i] == cmds[i] && d[j] == cmds[j]);
            }
        }
        lemma_occurrences_no_duplicates(d, key);
        if cmds.last() == key && occurrences(d, key) == 1 {
            let i = choose|i: int| 0 <= i < d.len() && d[i] == key;
            assert(cmds[i] == cmds[cmds.len() - 1]);
        }
        if occurrences(cmds, key) == 1 && cmds.last() != key {
            let i = choose|i: int| 0 <= i < d.len() && d[i] == key;
            assert(cmds[i] == key);
        }
    }
}

/// When no viewer holds a key twice (as the input rules keep it), no key is
/// held by more viewers than there are.
pub proof fn lemma_key_count_at_most_users(us: Seq<UserView>, key: Seq<char>)
    requires
        forall|i: int| 0 <= i < us.len() ==> (#[trigger] us[i]).commands.no_duplicates(),
    ensures
        key_count(us, key) <= us.len(),
    decreases us.len(),
{
    if us.len() > 0 {
        let d = us.drop_last();
        assert forall|i: int| 0 <= i < d.len() implies (#[trigger] d[i]).commands.no_duplicates() by {
            assert(d[i] == us[i]);
        }
        lemma_key_count_at_most_users(d, key);
        lemma_occurrences_no_duplicates(us.last().commands, key);
    }
}

// ----------------------------------------------------------------------------
// Laws
// ----------------------------------------------------------------------------

/// Whether a viewer points the mouse somewhere.
pub open spec fn is_pointing(u: UserView) -> bool {
    u.mouse_position is Some
}

/// The viewers that point are exactly the ones counted: the count is the
/// number of viewers whose mouse position is set.
pub proof fn lemma_mouse_count_is_pointing_viewers(us: Seq<UserView>)
    ensures
        mouse_count(us) == us.filter(|u: UserView| is_pointing(u)).len(),
    decreases us.len(),
{
    if us.len() > 0 {
        lemma_mouse_count_is_pointing_viewers(us.drop_last());
        assert(us.drop_last().push(us.last()) =~= us);
        us.drop_last().lemma_filter_push(us.last(), |u: UserView| is_pointing(u));
    }
}

/// The counts and sums of mouse positions add up over two groups of viewers,
/// and a single viewer contributes its own position (or nothing when it
/// does not point): every pointing viewer is counted once, wherever it is.
pub proof fn lemma_mouse_totals_add(a: Seq<UserView>, b: Seq<UserView>)
    ensures
        mouse_count(a + b) == mouse_count(a) + mouse_count(b),
        mouse_sum_x(a + b) == mouse_sum_x(a) + mouse_sum_x(b),
        mouse_sum_y(a + b) == mouse_sum_y(a) + mouse_sum_y(b),
    decreases b.len(),
{
    if b.len() == 0 {
        assert(a + b =~= a);
    } else {
        lemma_mouse_totals_add(a, b.drop_last());
        assert((a + b).drop_last() =~= a + b.drop_last());
        assert((a + b).last() == b.last());
    }
}

/// What one viewer contributes to the mouse totals: one and its position
/// when it points, nothing otherwise.
pub proof fn lemma_mouse_totals_single(u: UserView)
    ensures
        mouse_count(seq![u]) == if u.mouse_position is Some { 1nat } else { 0nat },
        mouse_sum_x(seq![u]) == match u.mouse_position {
            Some(p) => p.0 as nat,
            None => 0nat,
        },
        mouse_sum_y(seq![u]) == match u.mouse_position {
            Some(p) => p.1 as nat,
            None => 0nat,
        },
{
    let e = seq![u].drop_last();
    assert(e =~= Seq::<UserView>::empty());
    assert(seq![u].last() == u);
    assert(mouse_count(e) == 0 && mouse_sum_x(e) == 0 && mouse_sum_y(e) == 0);
}

/// A viewer's held keys count for `key` as many times as they equal it,
/// wherever they stand in its list.
pub proof fn lemma_occurrences_is_filter(cmds: Seq<Seq<char>>, key: Seq<char>)
    ensures
        occurrences(cmds, key) == cmds.filter(|c: Seq<char>| c == key).len(),
    decreases cmds.len(),
{
    if cmds.len() > 0 {
        lemma_occurrences_is_filter(cmds.drop_last(), key);
        assert(cmds.drop_last().push(cmds.last()) =~= cmds);
        cmds.drop_last().lemma_filter_push(cmds.last(), |c: Seq<char>| c == key);
    }
}

/// The count of a key adds up over two groups of viewers, and one viewer
/// contributes the number of its held keys equal to it.
pub proof fn lemma_key_count_add(a: Seq<UserView>, b: Seq<UserView>, key: Seq<char>)
    ensures
        key_count(a + b, key) == key_count(a, key) + key_count(b, key),
    decreases b.len(),
{
    if b.len() == 0 {
        assert(a + b =~= a);
    } else {
        lemma_key_count_add(a, b.drop_last(), key);
        assert((a + b).drop_last() =~= a + b.drop_last());
        assert((a + b).last() == b.last());
    }
}

/// One viewer counts for `key` as many times as its held keys equal it.
pub proof fn lemma_key_count_single(u: UserView, key: Seq<char>)
    ensures
        key_count(seq![u], key) == u.commands.filter(|c: Seq<char>| c == key).len(),
{
    let e = seq![u].drop_last();
    assert(e =~= Seq::<UserView>::empty());
    assert(seq![u].last() == u);
    assert(key_count(e, key) == 0);
    lemma_occurrences_is_filter(u.commands, key);
}

/// A key that some viewer holds is counted at least once.
pub proof fn lemma_held_key_is_counted(us: Seq<UserView>, i: int, j: int)
    requires
        0 <= i < us.len(),
        0 <= j < us[i].commands.len(),
    ensures
        key_count(us, us[i].commands[j]) >= 1,
{
    let key = us[i].commands[j];
    let a = us.take(i);
    let b = us.skip(i + 1);
    assert(us =~= a + seq![us[i]] + b);
    lemma_key_count_add(a + seq![us[i]], b, key);
    lemma_key_count_add(a, seq![us[i]], key);
    lemma_key_count_single(us[i], key);
    us[i].commands.lemma_filter_contains(|c: Seq<char>| c == key, j);
}

/// The positions whose pressed state differs from the previous round, in
/// order.
pub open spec fn changed_positions(cur: Seq<(String, bool)>, prev: Seq<(String, bool)>) -> Seq<
    int,
> {
    Seq::new(cur.len(), |i: int| i).filter(|i: int| prev[i].1 != cur[i].1)
}

proof fn lemma_key_changes_prefix(cur: Seq<(String, bool)>, prev: Seq<(String, bool)>, n: int)
    requires
        0 <= n <= cur.len(),
    ensures
        key_changes_spec(cur.take(n), prev) == Seq::new(n as nat, |i: int| i).filter(
            |i: int| prev[i].1 != cur[i].1,
        ).map_values(|i: int| (cur[i].0@, cur[i].1)),
    decreases n,
{
    let pred = |i: int| prev[i].1 != cur[i].1;
    let f = |i: int| (cur[i].0@, cur[i].1);
    if n == 0 {
        assert(Seq::new(0nat, |i: int| i).filter(pred) =~= Seq::<int>::empty()) by {
            reveal(Seq::filter);
        }
        assert(Seq::new(0nat, |i: int| i).filter(pred).map_values(f) =~= Seq::<
            (Seq<char>, bool),
        >::empty());
    } else {
        lemma_key_changes_prefix(cur, prev, n - 1);
        assert(cur.take(n).drop_last() =~= cur.take(n - 1));
        assert(cur.take(n).last() == cur[n - 1]);
        let ids = Seq::new((n - 1) as nat, |i: int| i);
        assert(Seq::new(n as nat, |i: int| i) =~= ids.push(n - 1));
        ids.lemma_filter_push(n - 1, pred);
        let fl = ids.filter(pred);
        if pred(n - 1) {
            assert(fl.push(n - 1).map_values(f) =~= fl.map_values(f).push(f(n - 1)));
        }
    }
}

/// The keys to press or release are, in order, exactly those at the
/// positions where the pressed state differs from the previous round's
/// state at the same position, each with its new state.
pub proof fn lemma_key_changes_are_changes(cur: Seq<(String, bool)>, prev: Seq<(String, bool)>)
    ensures
        key_changes_spec(cur, prev) == changed_positions(cur, prev).map_values(
            |i: int| (cur[i].0@, cur[i].1),
        ),
{
    lemma_key_changes_prefix(cur, prev, cur.len() as int);
    assert(cur.take(cur.len() as int) =~= cur);
}

} // verus!
