//! Reading an HTTP request: the request line, the header fields and the body.
use vstd::prelude::*;
use vstd::utf8::{valid_utf8, decode_utf8, encode_utf8, encode_scalar, char_is_scalar};

verus! {

/// The request methods the server answers.
#[derive(PartialEq, Eq, Structural, Clone, Copy, Debug)]
pub enum HttpTypes {
    Post,
    Get,
}

/// The method and the target of a request.
pub struct RequestType {
    pub http_type: HttpTypes,
    pub request: String,
}

// ----------------------------------------------------------------------------
// Text model
// ----------------------------------------------------------------------------

/// Offset of the first `c` in `s`, or `s.len()` when there is none.
pub open spec fn find_char(s: Seq<char>, c: char) -> nat
    decreases s.len(),
{
    if s.len() == 0 {
        0
    } else if s[0] == c {
        0
    } else {
        1 + find_char(s.drop_first(), c)
    }
}

/// `l` without one trailing carriage return.
pub open spec fn strip_cr(l: Seq<char>) -> Seq<char> {
    if l.len() > 0 && l.last() == '\r' {
        l.drop_last()
    } else {
        l
    }
}

/// The lines of `s`, as `str::lines` gives them: split after each `\n`,
/// with the `\n` and a `\r` just before it removed, and no empty line after
/// a final `\n`.
pub open spec fn lines(s: Seq<char>) -> Seq<Seq<char>>
    decreases s.len(),
{
    if s.len() == 0 {
        seq![]
    } else {
        let k = find_char(s, '\n');
        if k >= s.len() {
            seq![s]
        } else {
            seq![strip_cr(s.take(k as int))] + lines(s.skip(k as int + 1))
        }
    }
}

/// The number of bytes that the UTF-8 encoding of `c` takes.
spec fn char_utf8_len(c: char) -> nat {
    if (c as u32) < 0x80 {
        1
    } else if (c as u32) < 0x800 {
        2
    } else if (c as u32) < 0x10000 {
        3
    } else {
        4
    }
}

/// The number of bytes that the UTF-8 encoding of `s` takes.
spec fn utf8_len(s: Seq<char>) -> nat
    decreases s.len(),
{
    if s.len() == 0 {
        0
    } else {
        utf8_len(s.drop_last()) + char_utf8_len(s.last())
    }
}

/// Index of the first line shorter than 3 bytes (the end of the header
/// part), or `ls.len()` when there is none.
pub open spec fn header_end(ls: Seq<Seq<char>>) -> nat
    decreases ls.len(),
{
    if ls.len() == 0 {
        0
    } else if encode_utf8(ls[0]).len() < 3 {
        0
    } else {
        1 + header_end(ls.drop_first())
    }
}

/// Each line followed by `\n`, joined.
pub open spec fn join_lines(ls: Seq<Seq<char>>) -> Seq<char>
    decreases ls.len(),
{
    if ls.len() == 0 {
        seq![]
    } else {
        join_lines(ls.drop_last()) + ls.last() + seq!['\n']
    }
}

/// The lines joined with nothing between them.
pub open spec fn concat_lines(ls: Seq<Seq<char>>) -> Seq<char>
    decreases ls.len(),
{
    if ls.len() == 0 {
        seq![]
    } else {
        concat_lines(ls.drop_last()) + ls.last()
    }
}

/// The first field of `l` when it is split at spaces.
pub open spec fn first_token(l: Seq<char>) -> Seq<char> {
    l.take(find_char(l, ' ') as int)
}

/// The second field of `l` when it is split at spaces, if there is one.
pub open spec fn second_token(l: Seq<char>) -> Option<Seq<char>> {
    let k = find_char(l, ' ');
    if k >= l.len() {
        None
    } else {
        let r = l.skip(k as int + 1);
        Some(r.take(find_char(r, ' ') as int))
    }
}

/// The method name of a page request.
pub open spec fn get_word() -> Seq<char> {
    seq!['G', 'E', 'T']
}

/// The method name of a form request.
pub open spec fn post_word() -> Seq<char> {
    seq!['P', 'O', 'S', 'T']
}

/// The method and target of a request line, if it has both and the method
/// is one the server knows.
pub open spec fn request_of(line: Seq<char>) -> Option<(HttpTypes, Seq<char>)> {
    let t0 = first_token(line);
    if t0 != get_word() && t0 != post_word() {
        None
    } else {
        match second_token(line) {
            None => None,
            Some(r) => Some((if t0 == get_word() { HttpTypes::Get } else { HttpTypes::Post }, r)),
        }
    }
}

/// The header fields of the given header lines: for each line whose first
/// two space-separated fields are both non-empty, the first without its last
/// character (the colon) names the field and the second is its value; a
/// later line replaces an earlier one of the same name.
pub open spec fn header_map(ls: Seq<Seq<char>>) -> Map<Seq<char>, Seq<char>>
    decreases ls.len(),
{
    if ls.len() == 0 {
        Map::empty()
    } else {
        let m = header_map(ls.drop_last());
        let l = ls.last();
        let x = first_token(l);
        let y = match second_token(l) {
            Some(t) => t,
            None => seq![],
        };
        if x.len() > 0 && y.len() > 0 {
            m.insert(x.drop_last(), y)
        } else {
            m
        }
    }
}

/// A request read from its text: the method, the target, the body and the
/// header fields.  The header part ends at the first line shorter than 3
/// bytes, which must exist; the header part is read again line by line, its
/// first line is the request line and the rest are header fields; the body
/// is the lines after the end of the header part, joined without line
/// breaks.
pub open spec fn parse_request(text: Seq<char>) -> Option<
    (HttpTypes, Seq<char>, Seq<char>, Map<Seq<char>, Seq<char>>),
> {
    let ls = lines(text);
    let h = header_end(ls);
    if h >= ls.len() {
        None
    } else {
        let hl = lines(join_lines(ls.take(h as int)));
        let body = concat_lines(ls.skip(h as int + 1));
        if hl.len() == 0 {
            Some((HttpTypes::Get, seq![], body, Map::empty()))
        } else {
            match request_of(hl[0]) {
                None => None,
                Some((t, r)) => Some((t, r, body, header_map(hl.skip(1)))),
            }
        }
    }
}

/// A request read from the bytes received: `None` unless they are UTF-8.
pub open spec fn parse_request_bytes(bytes: Seq<u8>) -> Option<
    (HttpTypes, Seq<char>, Seq<char>, Map<Seq<char>, Seq<char>>),
> {
    if valid_utf8(bytes) {
        parse_request(decode_utf8(bytes))
    } else {
        None
    }
}

// ----------------------------------------------------------------------------
// Header fields
// ----------------------------------------------------------------------------

/// The map that a list of `(name, value)` insertions leaves, later ones
/// replacing earlier ones.
pub open spec fn entries_map(e: Seq<(String, String)>) -> Map<Seq<char>, Seq<char>>
    decreases e.len(),
{
    if e.len() == 0 {
        Map::empty()
    } else {
        entries_map(e.drop_last()).insert(e.last().0@, e.last().1@)
    }
}

/// The header fields of a request, by name; no name is stored twice.
pub struct Headers {
    entries: Vec<(String, String)>,
}

impl View for Headers {
    type V = Map<Seq<char>, Seq<char>>;

    closed spec fn view(&self) -> Map<Seq<char>, Seq<char>> {
        entries_map(self.entries@)
    }
}

/// No two entries have the same name.
pub open spec fn distinct_names(e: Seq<(String, String)>) -> bool {
    forall|i: int, j: int| 0 <= i < e.len() && 0 <= j < e.len() && i != j ==> e[i].0@ != e[j].0@
}

proof fn lemma_entries_map_tail(e: Seq<(String, String)>, j: int, k: Seq<char>)
    requires
        0 <= j <= e.len(),
        forall|i: int| j <= i < e.len() ==> (#[trigger] e[i]).0@ != k,
    ensures
        entries_map(e).contains_key(k) == entries_map(e.take(j)).contains_key(k),
        entries_map(e).contains_key(k) ==> entries_map(e)[k] == entries_map(e.take(j))[k],
    decreases e.len() - j,
{
    if j < e.len() {
        let e2 = e.drop_last();
        assert(e2.take(j) =~= e.take(j));
        lemma_entries_map_tail(e2, j, k);
    } else {
        assert(e.take(j) =~= e);
    }
}

proof fn lemma_entries_map_replace(e: Seq<(String, String)>, idx: int, entry: (String, String))
    requires
        0 <= idx < e.len(),
        distinct_names(e),
        e[idx].0@ == entry.0@,
    ensures
        entries_map(e.update(idx, entry)) == entries_map(e).insert(entry.0@, entry.1@),
    decreases e.len(),
{
    let e2 = e.update(idx, entry);
    if idx == e.len() - 1 {
        assert(e2.drop_last() =~= e.drop_last());
        assert(entries_map(e2) =~= entries_map(e).insert(entry.0@, entry.1@));
    } else {
        let d = e.drop_last();
        assert(e2.drop_last() =~= d.update(idx, entry));
        assert(distinct_names(d)) by {
            assert forall|i: int, j: int| 0 <= i < d.len() && 0 <= j < d.len() && i != j implies d[i].0@
                != d[j].0@ by {
                assert(d[i] == e[i] && d[j] == e[j]);
            }
        }
        lemma_entries_map_replace(d, idx, entry);
        assert(e.last().0@ != entry.0@) by {
            assert(e[e.len() - 1].0@ != e[idx].0@);
        }
        assert(entries_map(e2) =~= entries_map(e).insert(entry.0@, entry.1@));
    }
}

impl Headers {
    #[verifier::type_invariant]
    spec fn names_are_distinct(self) -> bool {
        distinct_names(self.entries@)
    }

    /// No header fields.
    pub fn new() -> (h: Headers)
        ensures
            h@ == Map::<Seq<char>, Seq<char>>::empty(),
    {
        Headers { entries: Vec::new() }
    }

    /// Sets the field `name` to `value`, replacing any earlier value.
    pub fn insert(&mut self, name: String, value: String)
        ensures
            final(self)@ == old(self)@.insert(name@, value@),
    {
        proof {
            use_type_invariant(&*self);
        }
        let ghost old_e = self.entries@;
        let mut entries: Vec<(String, String)> = Vec::new();
        std::mem::swap(&mut entries, &mut self.entries);
        let mut i: usize = 0;
        while i < entries.len() && !(entries[i].0 == name)
            invariant
                i <= entries.len(),
                old_e == entries@,
                forall|j: int| 0 <= j < i ==> (#[trigger] old_e[j]).0@ != name@,
            decreases entries.len() - i,
        {
            i = i + 1;
        }
        if i < entries.len() {
            proof {
                lemma_entries_map_replace(old_e, i as int, (name, value));
            }
            let ghost new_e = old_e.update(i as int, (name, value));
            assert(distinct_names(new_e)) by {
                assert forall|a: int, b: int|
                    0 <= a < new_e.len() && 0 <= b < new_e.len() && a != b implies new_e[a].0@
                    != new_e[b].0@ by {
                    assert(old_e[i as int].0@ == name@);
                }
            }
            entries.set(i, (name, value));
        } else {
            let ghost new_e = old_e.push((name, value));
            assert(distinct_names(new_e));
            entries.push((name, value));
            assert(entries@.drop_last() =~= old_e);
        }
        self.entries = entries;
    }

    /// The value of the field `name`, if the request has one.
    pub fn get(&self, name: &String) -> (r: Option<&String>)
        ensures
            match r {
                Some(v) => self@.contains_key(name@) && self@[name@] == v@,
                None => !self@.contains_key(name@),
            },
    {
        let mut j = self.entries.len();
        while j > 0
            invariant
                j <= self.entries.len(),
                forall|i: int| j <= i < self.entries@.len() ==> (#[trigger] self.entries@[i]).0@
                    != name@,
            decreases j,
        {
            let entry = &self.entries[j - 1];
            if entry.0 == *name {
                proof {
                    lemma_entries_map_tail(self.entries@, j as int, name@);
                    let t = self.entries@.take(j as int);
                    assert(t.drop_last() =~= self.entries@.take(j - 1));
                }
                return Some(&entry.1);
            }
            j = j - 1;
        }
        proof {
            lemma_entries_map_tail(self.entries@, 0, name@);
        }
        None
    }
}

// ----------------------------------------------------------------------------
// Reading the text
// ----------------------------------------------------------------------------

/// The characters of a list of character vectors.
pub open spec fn views(ls: Seq<Vec<char>>) -> Seq<Seq<char>> {
    ls.map_values(|v: Vec<char>| v@)
}

/// `std::string::String::from_utf8`: the text that the bytes encode, or
/// `None` when they are not UTF-8 (its documentation: the bytes are checked
/// to be valid UTF-8 and then taken as the string's contents).
#[verifier::external_body]
fn utf8_decode(bytes: Vec<u8>) -> (r: Option<String>)
    ensures
        r is Some <==> valid_utf8(bytes@),
        r matches Some(s) ==> s@ == decode_utf8(bytes@),
{
    String::from_utf8(bytes).ok()
}

/// `std::iter::FromIterator<&char>` for `String`: the string of the given
/// characters, in order.
#[verifier::external_body]
fn string_from_chars(chars: &Vec<char>) -> (r: String)
    ensures
        r@ == chars@,
{
    chars.iter().collect()
}

/// The characters of a string, in order.
fn chars_of(s: &str) -> (v: Vec<char>)
    ensures
        v@ == s@,
{
    let mut v: Vec<char> = Vec::new();
    let mut it = s.chars();
    loop
        invariant
            v@ + vstd::std_specs::iter::IteratorSpec::remaining(&it) == s@,
        ensures
            v@ == s@,
        decreases s@.len() - v@.len(),
    {
        match it.next() {
            Some(c) => {
                v.push(c);
                assert(v@ + vstd::std_specs::iter::IteratorSpec::remaining(&it) =~= s@);
            },
            None => {
                assert(v@ =~= s@);
                break ;
            },
        }
    }
    v
}

proof fn lemma_find_char(s: Seq<char>, c: char)
    ensures
        find_char(s, c) <= s.len(),
        find_char(s, c) < s.len() ==> s[find_char(s, c) as int] == c,
        forall|i: int| 0 <= i < find_char(s, c) ==> s[i] != c,
    decreases s.len(),
{
    if s.len() > 0 && s[0] != c {
        lemma_find_char(s.drop_first(), c);
        assert forall|i: int| 0 <= i < find_char(s, c) implies s[i] != c by {
            if i > 0 {
                assert(s[i] == s.drop_first()[i - 1]);
            }
        }
    }
}

/// Offset of the first `c` at or after `from`, or the length when none.
fn find_from(v: &Vec<char>, from: usize, c: char) -> (k: usize)
    requires
        from <= v.len(),
    ensures
        from <= k <= v.len(),
        k - from == find_char(v@.skip(from as int), c),
{
    let mut j = from;
    while j < v.len() && v[j] != c
        invariant
            from <= j <= v.len(),
            find_char(v@.skip(from as int), c) == (j - from) + find_char(v@.skip(j as int), c),
        decreases v.len() - j,
    {
        assert(v@.skip(j as int).drop_first() =~= v@.skip(j + 1));
        j = j + 1;
    }
    j
}

/// The characters of `v` from `a` up to `b`.
fn copy_range(v: &Vec<char>, a: usize, b: usize) -> (r: Vec<char>)
    requires
        a <= b <= v.len(),
    ensures
        r@ == v@.subrange(a as int, b as int),
{
    let mut r: Vec<char> = Vec::new();
    let mut i = a;
    while i < b
        invariant
            a <= i <= b <= v.len(),
            r@ == v@.subrange(a as int, i as int),
        decreases b - i,
    {
        r.push(v[i]);
        i = i + 1;
        assert(r@ =~= v@.subrange(a as int, i as int));
    }
    r
}

/// Appends the characters of `src` to `dst`.
fn append_chars(dst: &mut Vec<char>, src: &Vec<char>)
    ensures
        final(dst)@ == old(dst)@ + src@,
{
    let ghost start = dst@;
    let mut i: usize = 0;
    while i < src.len()
        invariant
            i <= src.len(),
            dst@ == start + src@.take(i as int),
        decreases src.len() - i,
    {
        dst.push(src[i]);
        i = i + 1;
        assert(dst@ =~= start + src@.take(i as int));
    }
    assert(src@.take(i as int) =~= src@);
}

/// Whether two character vectors hold the same characters.
fn chars_eq(a: &Vec<char>, b: &Vec<char>) -> (r: bool)
    ensures
        r == (a@ == b@),
{
    if a.len() != b.len() {
        return false;
    }
    let mut i: usize = 0;
    while i < a.len()
        invariant
            i <= a.len() == b.len(),
            forall|j: int| 0 <= j < i ==> a@[j] == b@[j],
        decreases a.len() - i,
    {
        if a[i] != b[i] {
            return false;
        }
        i = i + 1;
    }
    assert(a@ =~= b@);
    true
}

/// The lines of a text (see `lines`).
fn split_lines(text: &Vec<char>) -> (ls: Vec<Vec<char>>)
    ensures
        views(ls@) == lines(text@),
{
    let mut ls: Vec<Vec<char>> = Vec::new();
    let mut p: usize = 0;
    assert(text@.skip(0) =~= text@);
    assert(views(ls@) + lines(text@) =~= lines(text@));
    while p < text.len()
        invariant
            p <= text.len(),
            lines(text@) == views(ls@) + lines(text@.skip(p as int)),
        decreases text.len() - p,
    {
        let ghost s = text@.skip(p as int);
        let ghost old_ls = ls@;
        let k = find_from(text, p, '\n');
        proof {
            lemma_find_char(s, '\n');
        }
        if k == text.len() {
            let line = copy_range(text, p, k);
            assert(line@ =~= s);
            ls.push(line);
            p = k;
            assert(views(ls@) =~= views(old_ls).push(s));
            assert(lines(text@.skip(p as int)) =~= Seq::<Seq<char>>::empty());
        } else {
            let ghost kk = k - p;
            let mut line = copy_range(text, p, k);
            assert(line@ =~= s.take(kk));
            if line.len() > 0 && line[line.len() - 1] == '\r' {
                line.pop();
            }
            assert(line@ == strip_cr(s.take(kk)));
            ls.push(line);
            p = k + 1;
            assert(s.skip(kk + 1) =~= text@.skip(p as int));
            assert(views(ls@) =~= views(old_ls).push(strip_cr(s.take(kk))));
        }
    }
    assert(text@.skip(p as int) =~= Seq::<char>::empty());
    assert(views(ls@) + Seq::<Seq<char>>::empty() =~= views(ls@));
    ls
}

proof fn lemma_utf8_len_prefix(s: Seq<char>, i: int)
    requires
        0 <= i <= s.len(),
    ensures
        utf8_len(s.take(i)) <= utf8_len(s),
    decreases s.len(),
{
    if i < s.len() {
        lemma_utf8_len_prefix(s.drop_last(), i);
        assert(s.drop_last().take(i) =~= s.take(i));
    } else {
        assert(s.take(i) =~= s);
    }
}


proof fn lemma_utf8_len_first(s: Seq<char>)
    requires
        s.len() > 0,
    ensures
        utf8_len(s) == char_utf8_len(s[0]) + utf8_len(s.drop_first()),
    decreases s.len(),
{
    if s.len() > 1 {
        lemma_utf8_len_first(s.drop_last());
        assert(s.drop_last().drop_first() =~= s.drop_first().drop_last());
        assert(s.drop_first().last() == s.last());
        assert(utf8_len(s.drop_first()) == utf8_len(s.drop_first().drop_last()) + char_utf8_len(
            s.last(),
        ));
        assert(s.drop_last()[0] == s[0]);
        assert(utf8_len(s) == utf8_len(s.drop_last()) + char_utf8_len(s.last()));
    } else {
        assert(s.drop_first().len() == 0);
        assert(s.drop_last().len() == 0);
        assert(utf8_len(s.drop_first()) == 0);
        assert(utf8_len(s.drop_last()) == 0);
        assert(s.last() == s[0]);
        assert(utf8_len(s) == utf8_len(s.drop_last()) + char_utf8_len(s.last()));
    }
}

/// `utf8_len` is the length of vstd's UTF-8 encoding.
proof fn lemma_utf8_len_encode(s: Seq<char>)
    ensures
        encode_utf8(s).len() == utf8_len(s),
    decreases s.len(),
{
    if s.len() > 0 {
        lemma_utf8_len_first(s);
        lemma_utf8_len_encode(s.drop_first());
        let c = s[0];
        char_is_scalar(c);
        let u = c as u32;
        if u < 0x80 {
            assert(encode_scalar(u).len() == 1);
        } else if u < 0x800 {
            assert(encode_scalar(u).len() == 2);
        } else if u < 0x10000 {
            assert(encode_scalar(u).len() == 3);
        } else {
            assert(encode_scalar(u).len() == 4);
        }
    }
}

/// Whether the UTF-8 encoding of the line is shorter than 3 bytes.
fn shorter_than_3_bytes(l: &Vec<char>) -> (r: bool)
    ensures
        r == (encode_utf8(l@).len() < 3),
{
    proof {
        lemma_utf8_len_encode(l@);
    }
    let mut n: usize = 0;
    let mut i: usize = 0;
    while i < l.len() && n < 3
        invariant
            i <= l.len(),
            n == utf8_len(l@.take(i as int)),
            n <= 6,
        decreases l.len() - i,
    {
        let c = l[i];
        let code = c as u32;
        let w: usize = if code < 0x80 {
            1
        } else if code < 0x800 {
            2
        } else if code < 0x10000 {
            3
        } else {
            4
        };
        n = n + w;
        i = i + 1;
        assert(l@.take(i as int).drop_last() =~= l@.take(i - 1));
    }
    proof {
        lemma_utf8_len_prefix(l@, i as int);
        if n < 3 {
            assert(l@.take(i as int) =~= l@);
        }
    }
    n < 3
}

/// The first field of a line split at spaces.
fn first_token_of(l: &Vec<char>) -> (t: Vec<char>)
    ensures
        t@ == first_token(l@),
{
    let k = find_from(l, 0, ' ');
    assert(l@.skip(0) =~= l@);
    let t = copy_range(l, 0, k);
    assert(t@ =~= first_token(l@));
    t
}

/// The second field of a line split at spaces, if there is one.
fn second_token_of(l: &Vec<char>) -> (t: Option<Vec<char>>)
    ensures
        match t {
            Some(v) => second_token(l@) == Some(v@),
            None => second_token(l@) is None,
        },
{
    let k = find_from(l, 0, ' ');
    assert(l@.skip(0) =~= l@);
    proof {
        lemma_find_char(l@, ' ');
    }
    if k == l.len() {
        None
    } else {
        let k2 = find_from(l, k + 1, ' ');
        let t = copy_range(l, k + 1, k2);
        let ghost r = l@.skip(k as int + 1);
        assert(t@ =~= r.take(find_char(r, ' ') as int));
        Some(t)
    }
}

/// Reads a request from the bytes received: its method and target, its
/// body and its header fields (see `parse_request`).
pub fn get_body_and_headers(bytes: Vec<u8>) -> (r: Option<(RequestType, String, Headers)>)
    ensures
        match r {
            None => parse_request_bytes(bytes@) is None,
            Some((req, body, headers)) => parse_request_bytes(bytes@) == Some(
                (req.http_type, req.request@, body@, headers@),
            ),
        },
{
    let text = match utf8_decode(bytes) {
        Some(t) => t,
        None => return None,
    };
    let chars = chars_of(text.as_str());
    let ls = split_lines(&chars);
    let ghost gl = views(ls@);
    let mut h: usize = 0;
    assert(gl.skip(0) =~= gl);
    while h < ls.len() && !shorter_than_3_bytes(&ls[h])
        invariant
            h <= ls.len(),
            gl == views(ls@),
            header_end(gl) == h + header_end(gl.skip(h as int)),
        decreases ls.len() - h,
    {
        assert(gl.skip(h as int).drop_first() =~= gl.skip(h + 1));
        h = h + 1;
    }
    if h == ls.len() {
        assert(gl.skip(h as int) =~= Seq::<Seq<char>>::empty());
        return None;
    }
    assert(header_end(gl) == h);
    let mut hs: Vec<char> = Vec::new();
    let mut i: usize = 0;
    assert(gl.take(0) =~= Seq::<Seq<char>>::empty());
    while i < h
        invariant
            i <= h < ls.len(),
            gl == views(ls@),
            hs@ == join_lines(gl.take(i as int)),
        decreases h - i,
    {
        append_chars(&mut hs, &ls[i]);
        hs.push('\n');
        assert(gl.take(i + 1).drop_last() =~= gl.take(i as int));
        i = i + 1;
    }
    let mut body_chars: Vec<char> = Vec::new();
    let mut j: usize = h + 1;
    assert(gl.subrange(h + 1, h + 1) =~= Seq::<Seq<char>>::empty());
    while j < ls.len()
        invariant
            h + 1 <= j <= ls.len(),
            gl == views(ls@),
            body_chars@ == concat_lines(gl.subrange(h + 1, j as int)),
        decreases ls.len() - j,
    {
        append_chars(&mut body_chars, &ls[j]);
        assert(gl.subrange(h + 1, j + 1).drop_last() =~= gl.subrange(h + 1, j as int));
        j = j + 1;
    }
    assert(gl.subrange(h + 1, ls.len() as int) =~= gl.skip(h + 1));
    let hl = split_lines(&hs);
    let ghost ghl = views(hl@);
    let body = string_from_chars(&body_chars);
    if hl.len() == 0 {
        return Some(
            (RequestType { http_type: HttpTypes::Get, request: String::new() }, body, Headers::new()),
        );
    }
    let t0 = first_token_of(&hl[0]);
    let get_word_chars = vec!['G', 'E', 'T'];
    let post_word_chars = vec!['P', 'O', 'S', 'T'];
    assert(get_word_chars@ =~= get_word());
    assert(post_word_chars@ =~= post_word());
    let http_type = if chars_eq(&t0, &get_word_chars) {
        HttpTypes::Get
    } else if chars_eq(&t0, &post_word_chars) {
        HttpTypes::Post
    } else {
        return None;
    };
    let target = match second_token_of(&hl[0]) {
        Some(t) => t,
        None => return None,
    };
    let mut headers = Headers::new();
    let mut k: usize = 1;
    assert(ghl.subrange(1, 1) =~= Seq::<Seq<char>>::empty());
    while k < hl.len()
        invariant
            1 <= k <= hl.len(),
            ghl == views(hl@),
            headers@ == header_map(ghl.subrange(1, k as int)),
        decreases hl.len() - k,
    {
        let mut x = first_token_of(&hl[k]);
        let y = match second_token_of(&hl[k]) {
            Some(t) => t,
            None => Vec::new(),
        };
        assert(ghl.subrange(1, k + 1).drop_last() =~= ghl.subrange(1, k as int));
        if x.len() > 0 && y.len() > 0 {
            x.pop();
            headers.insert(string_from_chars(&x), string_from_chars(&y));
        }
        k = k + 1;
    }
    assert(ghl.subrange(1, hl.len() as int) =~= ghl.skip(1));
    Some((RequestType { http_type, request: string_from_chars(&target) }, body, headers))
}

/// Whether the request asks to become a websocket: its `Upgrade` field is
/// `websocket`.
pub fn is_websocket_upgrade(headers: &Headers) -> (r: bool)
    ensures
        r == (headers@.contains_key("Upgrade"@) && headers@["Upgrade"@] == "websocket"@),
{
    let name = "Upgrade".to_string();
    match headers.get(&name) {
        Some(v) => *v == "websocket".to_string(),
        None => false,
    }
}

/// The decimal digits of `n`.
pub open spec fn decimal(n: nat) -> Seq<char>
    decreases n,
{
    if n < 10 {
        seq![((n + 48) as u8) as char]
    } else {
        decimal(n / 10) + seq![((n % 10 + 48) as u8) as char]
    }
}

fn push_decimal(n: usize, out: &mut Vec<char>)
    ensures
        final(out)@ == old(out)@ + decimal(n as nat),
    decreases n,
{
    if n >= 10 {
        push_decimal(n / 10, out);
    }
    let d = (n % 10) as u8;
    out.push((d + 48) as char);
    proof {
        assert(out@ =~= old(out)@ + decimal(n as nat));
    }
}

/// The answer to a page request: status line, the length in bytes of the
/// page, a blank line and the page.
pub open spec fn page_response_text(page: &str) -> Seq<char> {
    "HTTP/1.1 200 OK\r\nContent-Length: "@ + decimal(page.len() as nat) + "\r\n\r\n"@
        + page@
}

/// The answer to a page request (see `page_response_text`).
pub fn page_response(page: &str) -> (r: String)
    ensures
        r@ == page_response_text(page),
{
    let mut out = chars_of("HTTP/1.1 200 OK\r\nContent-Length: ");
    push_decimal(page.len(), &mut out);
    let blank = chars_of("\r\n\r\n");
    append_chars(&mut out, &blank);
    let body = chars_of(page);
    append_chars(&mut out, &body);
    string_from_chars(&out)
}

/// The answer to any other request: a success with an empty body.
pub fn empty_response() -> (r: String)
    ensures
        r@ == "HTTP/1.1 200 OK\r\nContent-Length: 0\r\n\r\n"@,
{
    let out = chars_of("HTTP/1.1 200 OK\r\nContent-Length: 0\r\n\r\n");
    string_from_chars(&out)
}

/// `find_char` is the first index holding `c`: an index before which no
/// character is `c` and that is the end or holds `c`.
proof fn lemma_find_char_at(s: Seq<char>, c: char, i: int)
    requires
        0 <= i <= s.len(),
        forall|j: int| 0 <= j < i ==> s[j] != c,
        i == s.len() || s[i] == c,
    ensures
        find_char(s, c) == i,
{
    lemma_find_char(s, c);
}

/// Splitting a line at spaces: for a line made of a field `a`, a space, a
/// field `t` and the rest of the line (nothing, or a space and more), where
/// neither field holds a space, the first field is `a` and the second is
/// `t`, whatever other characters they hold.
pub proof fn lemma_space_fields(a: Seq<char>, t: Seq<char>, rest: Seq<char>)
    requires
        !a.contains(' '),
        !t.contains(' '),
        rest.len() == 0 || rest[0] == ' ',
    ensures
        first_token(a + seq![' '] + t + rest) == a,
        second_token(a + seq![' '] + t + rest) == Some(t),
{
    let l = a + seq![' '] + t + rest;
    assert forall|j: int| 0 <= j < a.len() implies l[j] != ' ' by {
        assert(l[j] == a[j]);
    }
    assert(l[a.len() as int] == ' ');
    lemma_find_char_at(l, ' ', a.len() as int);
    assert(l.take(a.len() as int) =~= a);
    let r = l.skip(a.len() as int + 1);
    assert(r =~= t + rest);
    assert forall|j: int| 0 <= j < t.len() implies r[j] != ' ' by {
        assert(r[j] == t[j]);
    }
    lemma_find_char_at(r, ' ', t.len() as int);
    assert(r.take(t.len() as int) =~= t);
}

/// A header line `name: value` (optionally followed by a space and more)
/// sets the field `name` to the whole of `value`, the text between the
/// line's first and second spaces, whatever characters (such as `:`) it
/// holds; the fields of the earlier lines stay unless this one replaces
/// them.
pub proof fn lemma_header_line(ls: Seq<Seq<char>>, name: Seq<char>, value: Seq<char>, rest: Seq<char>)
    requires
        !name.contains(' '),
        value.len() > 0,
        !value.contains(' '),
        rest.len() == 0 || rest[0] == ' ',
    ensures
        header_map(ls.push(name + seq![':', ' '] + value + rest)) == header_map(ls).insert(
            name,
            value,
        ),
{
    let a = name + seq![':'];
    let l = name + seq![':', ' '] + value + rest;
    assert(l =~= a + seq![' '] + value + rest);
    assert(!a.contains(' ')) by {
        assert forall|j: int| 0 <= j < a.len() implies a[j] != ' ' by {
            if j < name.len() {
                assert(a[j] == name[j]);
            }
        }
    }
    lemma_space_fields(a, value, rest);
    assert(ls.push(l).drop_last() =~= ls);
    assert(ls.push(l).last() == l);
    assert(a.drop_last() =~= name);
}

/// Each line followed by `\r\n`, joined: the text of lines as a client
/// sends them.
pub open spec fn crlf_join(ls: Seq<Seq<char>>) -> Seq<char>
    decreases ls.len(),
{
    if ls.len() == 0 {
        seq![]
    } else {
        crlf_join(ls.drop_last()) + ls.last() + seq!['\r', '\n']
    }
}

/// A line and a line break at the front of a text come out as its first
/// line, less one trailing carriage return.
proof fn lemma_lines_cons(l: Seq<char>, tail: Seq<char>)
    requires
        !l.contains('\n'),
    ensures
        lines(l + seq!['\n'] + tail) == seq![strip_cr(l)] + lines(tail),
{
    let s = l + seq!['\n'] + tail;
    assert forall|j: int| 0 <= j < l.len() implies s[j] != '\n' by {
        assert(s[j] == l[j]);
    }
    lemma_find_char_at(s, '\n', l.len() as int);
    assert(s.take(l.len() as int) =~= l);
    assert(s.skip(l.len() as int + 1) =~= tail);
}

/// Lines sent with `\r\n` read back as the same lines.
proof fn lemma_lines_crlf(ls: Seq<Seq<char>>, tail: Seq<char>)
    requires
        forall|i: int| 0 <= i < ls.len() ==> !(#[trigger] ls[i]).contains('\n'),
    ensures
        lines(crlf_join(ls) + tail) == ls + lines(tail),
    decreases ls.len(),
{
    if ls.len() == 0 {
        assert(crlf_join(ls) + tail =~= tail);
        assert(ls + lines(tail) =~= lines(tail));
    } else {
        let d = ls.drop_last();
        let l = ls.last();
        let t2 = l + seq!['\r'] + seq!['\n'] + tail;
        assert(crlf_join(ls) + tail =~= crlf_join(d) + t2);
        assert forall|i: int| 0 <= i < d.len() implies !(#[trigger] d[i]).contains('\n') by {
            assert(d[i] == ls[i]);
        }
        lemma_lines_crlf(d, t2);
        assert(!ls[ls.len() - 1].contains('\n'));
        assert(!(l + seq!['\r']).contains('\n')) by {
            assert forall|j: int| 0 <= j < (l + seq!['\r']).len() implies (l + seq!['\r'])[j]
                != '\n' by {
                if j < l.len() {
                    assert((l + seq!['\r'])[j] == l[j]);
                }
            }
        }
        lemma_lines_cons(l + seq!['\r'], tail);
        assert(strip_cr(l + seq!['\r']) =~= l);
        assert(d + (seq![l] + lines(tail)) =~= ls + lines(tail));
    }
}

/// Lines joined with `\n` read back as the same lines, when none holds a
/// line break or a carriage return.
proof fn lemma_lines_join(ls: Seq<Seq<char>>, tail: Seq<char>)
    requires
        forall|i: int|
            0 <= i < ls.len() ==> !(#[trigger] ls[i]).contains('\n') && !ls[i].contains('\r'),
    ensures
        lines(join_lines(ls) + tail) == ls + lines(tail),
    decreases ls.len(),
{
    if ls.len() == 0 {
        assert(join_lines(ls) + tail =~= tail);
        assert(ls + lines(tail) =~= lines(tail));
    } else {
        let d = ls.drop_last();
        let l = ls.last();
        let t2 = l + seq!['\n'] + tail;
        assert(join_lines(ls) + tail =~= join_lines(d) + t2);
        assert forall|i: int|
            0 <= i < d.len() implies !(#[trigger] d[i]).contains('\n') && !d[i].contains('\r') by {
            assert(d[i] == ls[i]);
        }
        lemma_lines_join(d, t2);
        assert(!ls[ls.len() - 1].contains('\n') && !ls[ls.len() - 1].contains('\r'));
        lemma_lines_cons(l, tail);
        if l.len() > 0 {
            assert(l[l.len() - 1] != '\r');
        }
        assert(strip_cr(l) == l);
        assert(d + (seq![l] + lines(tail)) =~= ls + lines(tail));
    }
}

/// A text without a line break is one line, or none when empty.
proof fn lemma_lines_single(b: Seq<char>)
    requires
        !b.contains('\n'),
    ensures
        b.len() == 0 ==> lines(b) == Seq::<Seq<char>>::empty(),
        b.len() > 0 ==> lines(b) == seq![b],
        concat_lines(lines(b)) == b,
{
    if b.len() > 0 {
        assert forall|j: int| 0 <= j < b.len() implies b[j] != '\n' by {}
        lemma_find_char_at(b, '\n', b.len() as int);
        let one = seq![b];
        assert(one.drop_last() =~= Seq::<Seq<char>>::empty());
        assert(concat_lines(one.drop_last()) =~= Seq::<char>::empty());
        assert(concat_lines(one) =~= b);
    } else {
        assert(concat_lines(Seq::<Seq<char>>::empty()) =~= b);
    }
}

proof fn lemma_utf8_len_at_least(s: Seq<char>)
    ensures
        utf8_len(s) >= s.len(),
    decreases s.len(),
{
    if s.len() > 0 {
        lemma_utf8_len_at_least(s.drop_last());
    }
}

/// The header part ends at the first line shorter than 3 bytes.
proof fn lemma_header_end_at(ls: Seq<Seq<char>>, n: int)
    requires
        0 <= n < ls.len(),
        forall|i: int| 0 <= i < n ==> encode_utf8(#[trigger] ls[i]).len() >= 3,
        encode_utf8(ls[n]).len() < 3,
    ensures
        header_end(ls) == n,
    decreases n,
{
    if n > 0 {
        let d = ls.drop_first();
        assert forall|i: int| 0 <= i < n - 1 implies encode_utf8(#[trigger] d[i]).len() >= 3 by {
            assert(d[i] == ls[i + 1]);
        }
        assert(d[n - 1] == ls[n]);
        lemma_header_end_at(d, n - 1);
        assert(encode_utf8(ls[0]).len() >= 3);
    }
}

/// A request as a client sends it reads back as what it says: for a
/// request line and header lines of at least 3 characters, each sent with
/// `\r\n`, then an empty line and a body without line breaks, the method
/// and target are those of the request line, the body is the body, and the
/// header fields are those of the header lines (see `lemma_header_line`).
pub proof fn lemma_request_text(req: Seq<char>, headers: Seq<Seq<char>>, body: Seq<char>)
    requires
        req.len() >= 3,
        !req.contains('\n'),
        !req.contains('\r'),
        forall|i: int|
            0 <= i < headers.len() ==> (#[trigger] headers[i]).len() >= 3 && !headers[i].contains(
                '\n',
            ) && !headers[i].contains('\r'),
        !body.contains('\n'),
    ensures
        parse_request(crlf_join(seq![req] + headers) + seq!['\r', '\n'] + body) == match request_of(
            req,
        ) {
            None => None,
            Some((t, r)) => Some((t, r, body, header_map(headers))),
        },
{
    let hs = seq![req] + headers;
    let full = hs.push(seq![]);
    let text = crlf_join(seq![req] + headers) + seq!['\r', '\n'] + body;
    assert(full.drop_last() =~= hs);
    assert(crlf_join(full) =~= crlf_join(hs) + seq![] + seq!['\r', '\n']);
    assert(text =~= crlf_join(full) + body);
    assert forall|i: int|
        0 <= i < hs.len() implies !(#[trigger] hs[i]).contains('\n') && !hs[i].contains('\r')
        && hs[i].len() >= 3 by {
        if i > 0 {
            assert(hs[i] == headers[i - 1]);
        }
    }
    assert forall|i: int| 0 <= i < full.len() implies !(#[trigger] full[i]).contains('\n') by {
        if i < hs.len() {
            assert(full[i] == hs[i]);
        }
    }
    lemma_lines_crlf(full, body);
    let ls = lines(text);
    assert(ls == full + lines(body));
    let h = hs.len() as int;
    assert forall|i: int| 0 <= i < h implies encode_utf8(#[trigger] ls[i]).len() >= 3 by {
        assert(ls[i] == hs[i]);
        lemma_utf8_len_encode(hs[i]);
        lemma_utf8_len_at_least(hs[i]);
    }
    assert(ls[h] == Seq::<char>::empty());
    assert(encode_utf8(Seq::<char>::empty()) =~= Seq::<u8>::empty());
    lemma_header_end_at(ls, h);
    assert(ls.take(h) =~= hs);
    lemma_lines_join(hs, seq![]);
    assert(join_lines(hs) + seq![] =~= join_lines(hs));
    assert(lines(Seq::<char>::empty()) =~= Seq::<Seq<char>>::empty());
    let hl = lines(join_lines(ls.take(h)));
    assert(hl =~= hs);
    lemma_lines_single(body);
    assert(ls.skip(h + 1) =~= lines(body));
    assert(hl[0] == req);
    assert(hl.skip(1) =~= headers);
}

/// A request line `method target ...` names a page request when the method
/// is `GET`, a form request when it is `POST`, and nothing the server knows
/// otherwise; its target is the whole second field.
pub proof fn lemma_request_line(method: Seq<char>, target: Seq<char>, rest: Seq<char>)
    requires
        !method.contains(' '),
        !target.contains(' '),
        rest.len() == 0 || rest[0] == ' ',
    ensures
        request_of(method + seq![' '] + target + rest) == if method == get_word() {
            Some((HttpTypes::Get, target))
        } else if method == post_word() {
            Some((HttpTypes::Post, target))
        } else {
            None::<(HttpTypes, Seq<char>)>
        },
{
    lemma_space_fields(method, target, rest);
}

/// A header line without a space sets no field.
pub proof fn lemma_header_line_without_space(ls: Seq<Seq<char>>, l: Seq<char>)
    requires
        !l.contains(' '),
    ensures
        header_map(ls.push(l)) == header_map(ls),
{
    assert forall|j: int| 0 <= j < l.len() implies l[j] != ' ' by {}
    lemma_find_char_at(l, ' ', l.len() as int);
    assert(ls.push(l).drop_last() =~= ls);
    assert(ls.push(l).last() == l);
}

} // verus!
