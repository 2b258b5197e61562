use vstd::prelude::*;

use crate::text::{chars_eq, chars_of, is_white_space, is_whitespace, split_by, string_of};

verus! {

// ---------------------------------------------------------------------------
// Pieces of text
// ---------------------------------------------------------------------------

/// The part of `s` before the first `c` (all of `s` when it holds no `c`): the
/// first piece of `str::split`.
pub open spec fn before_first(s: Seq<char>, c: char) -> Seq<char>
    decreases s.len(),
{
    if s.len() == 0 || s[0] == c {
        Seq::empty()
    } else {
        seq![s[0]] + before_first(s.drop_first(), c)
    }
}

proof fn lemma_before_first(s: Seq<char>, c: char, i: int)
    requires
        0 <= i <= s.len(),
        forall|j: int| 0 <= j < i ==> s[j] != c,
        i < s.len() ==> s[i] == c,
    ensures
        before_first(s, c) == s.take(i),
    decreases i,
{
    if i == 0 {
        assert(s.take(0) =~= Seq::<char>::empty());
    } else {
        lemma_before_first(s.drop_first(), c, i - 1);
        assert(seq![s[0]] + s.drop_first().take(i - 1) =~= s.take(i));
    }
}

/// The part of a character vector before the first `c`.
fn before_first_exec(s: &Vec<char>, c: char) -> (res: Vec<char>)
    ensures
        res@ == before_first(s@, c),
{
    let mut res: Vec<char> = Vec::new();
    let mut i: usize = 0;
    while i < s.len() && s[i] != c
        invariant
            i <= s.len(),
            res@ == s@.take(i as int),
            forall|j: int| 0 <= j < i ==> s@[j] != c,
        decreases s.len() - i,
    {
        res.push(s[i]);
        assert(s@.take(i + 1) =~= s@.take(i as int).push(s@[i as int]));
        i = i + 1;
    }
    proof {
        lemma_before_first(s@, c, i as int);
    }
    res
}

/// The text `://` that ends a URL scheme.
pub open spec fn scheme_separator() -> Seq<char> {
    seq![':', '/', '/']
}

/// Whether `://` starts at position `j` of `s`.
pub open spec fn scheme_separator_at(s: Seq<char>, j: int) -> bool {
    0 <= j && j + 3 <= s.len() && s.subrange(j, j + 3) == scheme_separator()
}

/// The part of `s` after its last `://` (all of `s` when it holds none): the
/// last piece of `str::split("://")`, since two `://` cannot overlap.
pub open spec fn after_scheme(s: Seq<char>) -> Seq<char> {
    if exists|j: int| scheme_separator_at(s, j) {
        s.skip(
            (choose|j: int|
                scheme_separator_at(s, j) && forall|k: int| scheme_separator_at(s, k) ==> k <= j)
                + 3,
        )
    } else {
        s
    }
}

/// The first label of the host of a URL: what follows the last `://`, up to
/// the first `/`, up to the first `.`.
pub open spec fn first_subdomain_of(url: Seq<char>) -> Seq<char> {
    before_first(before_first(after_scheme(url), '/'), '.')
}

/// The position of the last `://` in `s`, if any.
fn last_scheme_separator(s: &Vec<char>) -> (res: Option<usize>)
    ensures
        match res {
            Some(j) => scheme_separator_at(s@, j as int) && forall|k: int|
                scheme_separator_at(s@, k) ==> k <= j,
            None => forall|k: int| !scheme_separator_at(s@, k),
        },
{
    let mut end: usize = s.len();
    while end >= 3
        invariant
            end <= s.len(),
            forall|k: int| k + 3 > end ==> !scheme_separator_at(s@, k),
        decreases end,
    {
        let j = end - 3;
        if s[j] == ':' && s[j + 1] == '/' && s[j + 2] == '/' {
            assert(s@.subrange(j as int, j + 3) =~= scheme_separator());
            return Some(j);
        }
        assert(!scheme_separator_at(s@, j as int)) by {
            if scheme_separator_at(s@, j as int) {
                assert(s@.subrange(j as int, j + 3)[0] == ':');
                assert(s@.subrange(j as int, j + 3)[1] == '/');
                assert(s@.subrange(j as int, j + 3)[2] == '/');
            }
        }
        end = end - 1;
    }
    None
}

/// The first label of the host of a URL (see `first_subdomain_of`).
pub fn first_subdomain(url: &str) -> (res: String)
    ensures
        res@ == first_subdomain_of(url@),
{
    let s = chars_of(url);
    let found = last_scheme_separator(&s);
    let rest = match found {
        Some(at) => {
            let n = s.len();
            assert(scheme_separator_at(s@, at as int));
            assert(at + 3 <= n);
            let mut rest: Vec<char> = Vec::new();
            let mut i: usize = at + 3;
            while i < s.len()
                invariant
                    at + 3 <= i <= s.len(),
                    rest@ == s@.subrange(at + 3, i as int),
                decreases s.len() - i,
            {
                rest.push(s[i]);
                assert(s@.subrange(at + 3, i + 1) =~= s@.subrange(at + 3, i as int).push(
                    s@[i as int],
                ));
                i = i + 1;
            }
            proof {
                let j = choose|j: int|
                    scheme_separator_at(s@, j) && forall|k: int| scheme_separator_at(s@, k) ==> k <= j;
                assert(scheme_separator_at(s@, at as int));
                assert(j == at);
                assert(rest@ =~= s@.skip(at + 3));
            }
            rest
        },
        None => s,
    };
    assert(rest@ == after_scheme(url@));
    let host = before_first_exec(&rest, '/');
    let label = before_first_exec(&host, '.');
    string_of(&label)
}

// ---------------------------------------------------------------------------
// Tracestate
// ---------------------------------------------------------------------------

/// `s` without leading white space.
pub open spec fn trim_start_ws(s: Seq<char>) -> Seq<char>
    decreases s.len(),
{
    if s.len() > 0 && is_white_space(s[0]) {
        trim_start_ws(s.drop_first())
    } else {
        s
    }
}

/// `s` without trailing white space.
pub open spec fn trim_end_ws(s: Seq<char>) -> Seq<char>
    decreases s.len(),
{
    if s.len() > 0 && is_white_space(s.last()) {
        trim_end_ws(s.drop_last())
    } else {
        s
    }
}

/// `str::trim`.
pub open spec fn trim_ws(s: Seq<char>) -> Seq<char> {
    trim_end_ws(trim_start_ws(s))
}

proof fn lemma_trim_start_ws(s: Seq<char>, i: int)
    requires
        0 <= i <= s.len(),
        forall|j: int| 0 <= j < i ==> is_white_space(s[j]),
        i < s.len() ==> !is_white_space(s[i]),
    ensures
        trim_start_ws(s) == s.skip(i),
    decreases i,
{
    if i == 0 {
        assert(s.skip(0) =~= s);
    } else {
        lemma_trim_start_ws(s.drop_first(), i - 1);
        assert(s.drop_first().skip(i - 1) =~= s.skip(i));
    }
}

proof fn lemma_trim_end_ws(s: Seq<char>, k: int)
    requires
        0 <= k <= s.len(),
        forall|j: int| k <= j < s.len() ==> is_white_space(s[j]),
        k > 0 ==> !is_white_space(s[k - 1]),
    ensures
        trim_end_ws(s) == s.take(k),
    decreases s.len() - k,
{
    if k == s.len() {
        assert(s.take(k) =~= s);
    } else {
        lemma_trim_end_ws(s.drop_last(), k);
        assert(s.drop_last().take(k) =~= s.take(k));
    }
}

/// `str::trim` on the characters `s[from..to]`.
pub fn trim_chars(s: &Vec<char>, from: usize, to: usize) -> (res: Vec<char>)
    requires
        from <= to <= s.len(),
    ensures
        res@ == trim_ws(s@.subrange(from as int, to as int)),
{
    let ghost t = s@.subrange(from as int, to as int);
    let mut a: usize = from;
    while a < to && is_whitespace(s[a])
        invariant
            from <= a <= to <= s.len(),
            forall|j: int| from <= j < a ==> is_white_space(s@[j]),
        decreases to - a,
    {
        a = a + 1;
    }
    let mut b: usize = to;
    while b > a && is_whitespace(s[b - 1])
        invariant
            from <= a <= b <= to <= s.len(),
            forall|j: int| b <= j < to ==> is_white_space(s@[j]),
        decreases b,
    {
        b = b - 1;
    }
    proof {
        lemma_trim_start_ws(t, a - from);
        let u = t.skip(a - from);
        lemma_trim_end_ws(u, b - a);
        assert(u.take(b - a) =~= s@.subrange(a as int, b as int));
    }
    let mut res: Vec<char> = Vec::new();
    let mut i: usize = a;
    while i < b
        invariant
            a <= i <= b <= s.len(),
            res@ == s@.subrange(a as int, i as int),
        decreases b - i,
    {
        res.push(s[i]);
        assert(s@.subrange(a as int, i + 1) =~= s@.subrange(a as int, i as int).push(s@[i as int]));
        i = i + 1;
    }
    res
}

/// The key under which Linkup puts the session name in `tracestate`.
pub open spec fn linkup_session_key() -> Seq<char> {
    seq!['l', 'i', 'n', 'k', 'u', 'p', '-', 's', 'e', 's', 's', 'i', 'o', 'n']
}

/// The session name a `tracestate` member gives, if it is the Linkup member:
/// a member `key=value` whose trimmed key (the text before its first `=`) is
/// `linkup-session` gives its trimmed value (the text after that `=`).
pub open spec fn session_of_member(member: Seq<char>) -> Option<Seq<char>> {
    if member.contains('=') {
        let key = before_first(member, '=');
        let value = member.skip(key.len() + 1int);
        if trim_ws(key) == linkup_session_key() {
            Some(trim_ws(value))
        } else {
            None
        }
    } else {
        None
    }
}

/// The session name of the first member that gives one, if any.
pub open spec fn first_session(members: Seq<Seq<char>>) -> Option<Seq<char>>
    decreases members.len(),
{
    if members.len() == 0 {
        None
    } else {
        match first_session(members.drop_last()) {
            Some(v) => Some(v),
            None => session_of_member(members.last()),
        }
    }
}

/// The session name a `tracestate` header carries (its members are separated
/// by `,`), or the empty text when no member gives one.
pub open spec fn tracestate_session(tracestate: Seq<char>) -> Seq<char> {
    match first_session(split_by(tracestate, |c: char| c == ',')) {
        Some(v) => v,
        None => Seq::empty(),
    }
}

/// The session name a `tracestate` member gives, if any (see
/// `session_of_member`).
fn session_of_member_exec(member: &Vec<char>) -> (res: Option<Vec<char>>)
    ensures
        match res {
            Some(v) => session_of_member(member@) == Some(v@),
            None => session_of_member(member@) is None,
        },
{
    let mut p: usize = 0;
    while p < member.len() && member[p] != '='
        invariant
            p <= member.len(),
            forall|j: int| 0 <= j < p ==> member@[j] != '=',
        decreases member.len() - p,
    {
        p = p + 1;
    }
    if p == member.len() {
        assert(!member@.contains('='));
        return None;
    }
    proof {
        lemma_before_first(member@, '=', p as int);
        assert(member@.take(p as int) =~= member@.subrange(0, p as int));
        assert(member@.skip(p + 1) =~= member@.subrange(p + 1, member@.len() as int));
    }
    let key = trim_chars(member, 0, p);
    let expected: Vec<char> = vec!['l', 'i', 'n', 'k', 'u', 'p', '-', 's', 'e', 's', 's', 'i', 'o', 'n'];
    assert(expected@ =~= linkup_session_key());
    if chars_eq(&key, &expected) {
        Some(trim_chars(member, p + 1, member.len()))
    } else {
        None
    }
}

/// The session name a `tracestate` header carries, or the empty text (see
/// `tracestate_session`).
pub fn extract_tracestate_session(tracestate: &str) -> (res: String)
    ensures
        res@ == tracestate_session(tracestate@),
{
    let s = chars_of(tracestate);
    let ghost comma = |c: char| c == ',';
    let mut found: Option<Vec<char>> = None;
    let mut member: Vec<char> = Vec::new();
    let mut i: usize = 0;
    assert(s@.take(0) =~= Seq::<char>::empty());
    assert(split_by(s@.take(0), comma) =~= seq![Seq::<char>::empty()]);
    while i < s.len()
        invariant
            i <= s.len(),
            comma == (|c: char| c == ','),
            split_by(s@.take(i as int), comma).len() >= 1,
            member@ == split_by(s@.take(i as int), comma).last(),
            match found {
                Some(v) => first_session(split_by(s@.take(i as int), comma).drop_last()) == Some(v@),
                None => first_session(split_by(s@.take(i as int), comma).drop_last()) is None,
            },
        decreases s.len() - i,
    {
        proof {
            crate::text::lemma_split_by_step(s@, i as int, comma);
        }
        let c = s[i];
        if c == ',' {
            let ghost pieces = split_by(s@.take(i as int), comma);
            if found.is_none() {
                found = session_of_member_exec(&member);
            }
            proof {
                let next = split_by(s@.take(i + 1), comma);
                assert(next.drop_last() =~= pieces);
                assert(pieces.drop_last() =~= pieces.drop_last());
                assert(pieces.last() == member@);
            }
            member = Vec::new();
        } else {
            member.push(c);
        }
        i = i + 1;
    }
    assert(s@.take(s.len() as int) =~= s@);
    if found.is_none() {
        found = session_of_member_exec(&member);
    }
    match found {
        Some(v) => string_of(&v),
        None => String::new(),
    }
}

// ---------------------------------------------------------------------------
// Headers
// ---------------------------------------------------------------------------

/// The headers that tell which session a request belongs to.
#[derive(Clone, Copy, Debug, PartialEq, Eq, Structural)]
pub enum HeaderName {
    ForwardedHost,
    Referer,
    Origin,
    TraceState,
}

/// The lowercase name of a header.
pub open spec fn header_name_text(h: HeaderName) -> Seq<char> {
    match h {
        HeaderName::ForwardedHost => seq![
            'x', '-', 'f', 'o', 'r', 'w', 'a', 'r', 'd', 'e', 'd', '-', 'h', 'o', 's', 't',
        ],
        HeaderName::Referer => seq!['r', 'e', 'f', 'e', 'r', 'e', 'r'],
        HeaderName::Origin => seq!['o', 'r', 'i', 'g', 'i', 'n'],
        HeaderName::TraceState => seq!['t', 'r', 'a', 'c', 'e', 's', 't', 'a', 't', 'e'],
    }
}

impl HeaderName {
    /// The lowercase name of the header.
    pub fn name(&self) -> (res: Vec<char>)
        ensures
            res@ == header_name_text(*self),
    {
        let res: Vec<char> = match self {
            HeaderName::ForwardedHost => vec![
                'x', '-', 'f', 'o', 'r', 'w', 'a', 'r', 'd', 'e', 'd', '-', 'h', 'o', 's', 't',
            ],
            HeaderName::Referer => vec!['r', 'e', 'f', 'e', 'r', 'e', 'r'],
            HeaderName::Origin => vec!['o', 'r', 'i', 'g', 'i', 'n'],
            HeaderName::TraceState => vec!['t', 'r', 'a', 'c', 'e', 's', 't', 'a', 't', 'e'],
        };
        assert(res@ =~= header_name_text(*self));
        res
    }
}

/// ASCII uppercase letters made lowercase; other characters kept.
pub open spec fn ascii_lower_char(c: char) -> char {
    if 'A' <= c && c <= 'Z' {
        ((c as u8) + 32) as char
    } else {
        c
    }
}

/// A header name as it is stored: ASCII letters lowercased (header names are
/// case-insensitive).
pub open spec fn header_key(name: Seq<char>) -> Seq<char> {
    name.map_values(|c: char| ascii_lower_char(c))
}

/// The value of the first entry with the given key.
pub open spec fn lookup_header(entries: Seq<(Seq<char>, Seq<char>)>, key: Seq<char>) -> Option<
    Seq<char>,
>
    decreases entries.len(),
{
    if entries.len() == 0 {
        None
    } else if entries[0].0 == key {
        Some(entries[0].1)
    } else {
        lookup_header(entries.drop_first(), key)
    }
}

/// The headers of a request, by lowercase name.
#[derive(Clone, Debug)]
pub struct HeaderMap {
    entries: Vec<(String, String)>,
}

impl View for HeaderMap {
    type V = Seq<(Seq<char>, Seq<char>)>;

    closed spec fn view(&self) -> Seq<(Seq<char>, Seq<char>)> {
        self.entries@.map_values(|e: (String, String)| (e.0@, e.1@))
    }
}

proof fn lemma_lookup_header_at(entries: Seq<(Seq<char>, Seq<char>)>, key: Seq<char>, i: int)
    requires
        0 <= i <= entries.len(),
        forall|j: int| 0 <= j < i ==> entries[j].0 != key,
    ensures
        lookup_header(entries, key) == lookup_header(entries.skip(i), key),
    decreases i,
{
    if i == 0 {
        assert(entries.skip(0) =~= entries);
    } else {
        lemma_lookup_header_at(entries.drop_first(), key, i - 1);
        assert(entries.drop_first().skip(i - 1) =~= entries.skip(i));
    }
}

impl HeaderMap {
    /// No headers.
    pub fn new() -> (res: HeaderMap)
        ensures
            res@ == Seq::<(Seq<char>, Seq<char>)>::empty(),
    {
        let res = HeaderMap { entries: Vec::new() };
        assert(res@ =~= Seq::<(Seq<char>, Seq<char>)>::empty());
        res
    }

    /// The position of the first entry with the given key, if any.
    fn find(&self, key: &Vec<char>) -> (res: Option<usize>)
        ensures
            match res {
                Some(i) => i < self@.len() && self@[i as int].0 == key@ && forall|j: int|
                    0 <= j < i ==> self@[j].0 != key@,
                None => forall|j: int| 0 <= j < self@.len() ==> self@[j].0 != key@,
            },
    {
        let mut i: usize = 0;
        while i < self.entries.len()
            invariant
                i <= self.entries.len(),
                forall|j: int| 0 <= j < i ==> self@[j].0 != key@,
            decreases self.entries.len() - i,
        {
            let k = chars_of(self.entries[i].0.as_str());
            if chars_eq(&k, key) {
                return Some(i);
            }
            i = i + 1;
        }
        None
    }

    /// Adds a header (its name is stored with ASCII letters lowercased); a
    /// header already there under that name gets the new value.
    pub fn insert(&mut self, name: &str, value: &str)
        ensures
            lookup_header(final(self)@, header_key(name@)) == Some(value@),
            forall|k: Seq<char>|
                k != header_key(name@) ==> #[trigger] lookup_header(final(self)@, k) == lookup_header(
                    old(self)@,
                    k,
                ),
    {
        let raw = chars_of(name);
        let mut key: Vec<char> = Vec::new();
        let mut i: usize = 0;
        while i < raw.len()
            invariant
                i <= raw.len(),
                key@ == header_key(raw@).take(i as int),
            decreases raw.len() - i,
        {
            let c = raw[i];
            let d = if 'A' <= c && c <= 'Z' {
                ((c as u8) + 32) as char
            } else {
                c
            };
            key.push(d);
            assert(key@ =~= header_key(raw@).take(i + 1));
            i = i + 1;
        }
        assert(header_key(raw@).take(raw.len() as int) =~= header_key(raw@));
        let ghost before = self@;
        let key_string = string_of(&key);
        let value_string = string_of(&chars_of(value));
        match self.find(&key) {
            Some(at) => {
                self.entries.set(at, (key_string, value_string));
                proof {
                    let after = self@;
                    assert(after =~= before.update(at as int, (key@, value@)));
                    lemma_lookup_header_at(after, key@, at as int);
                    assert(after.skip(at as int)[0] == (key@, value@));
                    assert forall|k: Seq<char>| k != header_key(name@) implies #[trigger] lookup_header(after, k)
                        == lookup_header(before, k) by {
                        lemma_lookup_header_equal_except(before, after, at as int, k);
                    }
                }
            },
            None => {
                self.entries.push((key_string, value_string));
                proof {
                    let after = self@;
                    assert(after =~= before.push((key@, value@)));
                    lemma_lookup_header_at(after, key@, before.len() as int);
                    assert(after.skip(before.len() as int)[0] == (key@, value@));
                    assert forall|k: Seq<char>| k != header_key(name@) implies #[trigger] lookup_header(after, k)
                        == lookup_header(before, k) by {
                        lemma_lookup_header_push(before, (key@, value@), k);
                    }
                }
            },
        }
    }

    /// The value of a header, if the request has it.
    pub fn get(&self, name: HeaderName) -> (res: Option<&str>)
        ensures
            match res {
                Some(v) => lookup_header(self@, header_name_text(name)) == Some(v@),
                None => lookup_header(self@, header_name_text(name)) is None,
            },
    {
        let key = name.name();
        match self.find(&key) {
            Some(i) => {
                proof {
                    lemma_lookup_header_at(self@, key@, i as int);
                    assert(self@.skip(i as int)[0] == self@[i as int]);
                }
                Some(self.entries[i].1.as_str())
            },
            None => {
                proof {
                    lemma_lookup_header_at(self@, key@, self@.len() as int);
                }
                None
            },
        }
    }
}

proof fn lemma_lookup_header_equal_except(
    before: Seq<(Seq<char>, Seq<char>)>,
    after: Seq<(Seq<char>, Seq<char>)>,
    at: int,
    k: Seq<char>,
)
    requires
        0 <= at < before.len(),
        after.len() == before.len(),
        forall|j: int| 0 <= j < before.len() && j != at ==> after[j] == before[j],
        after[at].0 == before[at].0,
        after[at].0 != k,
    ensures
        lookup_header(after, k) == lookup_header(before, k),
    decreases before.len(),
{
    if at > 0 {
        lemma_lookup_header_equal_except(before.drop_first(), after.drop_first(), at - 1, k);
    } else {
        assert(after.drop_first() =~= before.drop_first());
    }
}

proof fn lemma_lookup_header_push(
    before: Seq<(Seq<char>, Seq<char>)>,
    e: (Seq<char>, Seq<char>),
    k: Seq<char>,
)
    requires
        e.0 != k,
    ensures
        lookup_header(before.push(e), k) == lookup_header(before, k),
    decreases before.len(),
{
    if before.len() > 0 {
        lemma_lookup_header_push(before.drop_first(), e, k);
        assert(before.push(e)[0] == before[0]);
        assert(before.push(e).drop_first() =~= before.drop_first().push(e));
    } else {
        assert(before.push(e)[0] == e);
        assert(before.push(e).drop_first() =~= Seq::<(Seq<char>, Seq<char>)>::empty());
        assert(lookup_header(Seq::<(Seq<char>, Seq<char>)>::empty(), k) is None);
        assert(before =~= Seq::<(Seq<char>, Seq<char>)>::empty());
    }
}

// ---------------------------------------------------------------------------
// Session names of a request
// ---------------------------------------------------------------------------

/// The candidate session name a header gives, if the request has it.
pub open spec fn header_candidate(
    headers: Seq<(Seq<char>, Seq<char>)>,
    h: HeaderName,
) -> Seq<Seq<char>> {
    match lookup_header(headers, header_name_text(h)) {
        Some(v) => seq![first_subdomain_of(v)],
        None => Seq::empty(),
    }
}

/// The session names a request may belong to, in the order they are tried:
/// the first label of the URL's host; then that of the `x-forwarded-host`,
/// `referer` and `origin` headers, for those the request has; then the
/// session a `tracestate` header carries, if it has one.
pub open spec fn request_session_names(
    url: Seq<char>,
    headers: Seq<(Seq<char>, Seq<char>)>,
) -> Seq<Seq<char>> {
    seq![first_subdomain_of(url)] + header_candidate(headers, HeaderName::ForwardedHost)
        + header_candidate(headers, HeaderName::Referer) + header_candidate(
        headers,
        HeaderName::Origin,
    ) + match lookup_header(headers, header_name_text(HeaderName::TraceState)) {
        Some(v) => seq![tracestate_session(v)],
        None => Seq::empty(),
    }
}

/// The session names a request may belong to (see `request_session_names`).
pub fn session_names_from_request(url: &str, headers: &HeaderMap) -> (res: Vec<String>)
    ensures
        res@.map_values(|n: String| n@) == request_session_names(url@, headers@),
{
    let mut res: Vec<String> = Vec::new();
    res.push(first_subdomain(url));
    let ghost mut expected = seq![first_subdomain_of(url@)];
    assert(res@.map_values(|n: String| n@) =~= expected);
    let names = [HeaderName::ForwardedHost, HeaderName::Referer, HeaderName::Origin];
    let mut i: usize = 0;
    while i < 3
        invariant
            i <= 3,
            names@ == seq![HeaderName::ForwardedHost, HeaderName::Referer, HeaderName::Origin],
            res@.map_values(|n: String| n@) == expected,
            expected == seq![first_subdomain_of(url@)] + (if i >= 1 {
                header_candidate(headers@, HeaderName::ForwardedHost)
            } else {
                Seq::empty()
            }) + (if i >= 2 {
                header_candidate(headers@, HeaderName::Referer)
            } else {
                Seq::empty()
            }) + (if i >= 3 {
                header_candidate(headers@, HeaderName::Origin)
            } else {
                Seq::empty()
            }),
        decreases 3 - i,
    {
        let h = names[i];
        let ghost before = expected;
        match headers.get(h) {
            Some(v) => {
                res.push(first_subdomain(v));
                proof {
                    expected = before + header_candidate(headers@, h);
                }
            },
            None => {
                proof {
                    expected = before + header_candidate(headers@, h);
                }
            },
        }
        proof {
            assert(res@.map_values(|n: String| n@) =~= expected);
            if i == 0 {
                assert(expected =~= seq![first_subdomain_of(url@)] + header_candidate(
                    headers@,
                    HeaderName::ForwardedHost,
                ) + Seq::empty() + Seq::empty());
            } else if i == 1 {
                assert(expected =~= seq![first_subdomain_of(url@)] + header_candidate(
                    headers@,
                    HeaderName::ForwardedHost,
                ) + header_candidate(headers@, HeaderName::Referer) + Seq::empty());
            } else {
                assert(expected =~= seq![first_subdomain_of(url@)] + header_candidate(
                    headers@,
                    HeaderName::ForwardedHost,
                ) + header_candidate(headers@, HeaderName::Referer) + header_candidate(
                    headers@,
                    HeaderName::Origin,
                ));
            }
        }
        i = i + 1;
    }
    let ghost before = expected;
    match headers.get(HeaderName::TraceState) {
        Some(v) => {
            res.push(extract_tracestate_session(v));
        },
        None => {},
    }
    assert(res@.map_values(|n: String| n@) =~= request_session_names(url@, headers@));
    res
}

/// Each of the `x-forwarded-host`, `referer` and `origin` headers that a
/// request carries adds the first label of its value, whatever other headers
/// the request has, in that order after the label of the URL itself; a
/// `tracestate` header adds the session it carries last; nothing else is
/// added.
pub proof fn law_each_present_header_adds_a_name(url: Seq<char>, headers: Seq<(Seq<char>, Seq<char>)>)
    ensures
        ({
            let names = request_session_names(url, headers);
            let f = lookup_header(headers, header_name_text(HeaderName::ForwardedHost));
            let r = lookup_header(headers, header_name_text(HeaderName::Referer));
            let o = lookup_header(headers, header_name_text(HeaderName::Origin));
            let t = lookup_header(headers, header_name_text(HeaderName::TraceState));
            let nf: int = if f is Some { 1 } else { 0 };
            let nr: int = if r is Some { 1 } else { 0 };
            let no: int = if o is Some { 1 } else { 0 };
            let nt: int = if t is Some { 1 } else { 0 };
            &&& names.len() == 1 + nf + nr + no + nt
            &&& names[0] == first_subdomain_of(url)
            &&& (f matches Some(v) ==> names[1] == first_subdomain_of(v))
            &&& (r matches Some(v) ==> names[1 + nf] == first_subdomain_of(v))
            &&& (o matches Some(v) ==> names[1 + nf + nr] == first_subdomain_of(v))
            &&& (t matches Some(v) ==> names[names.len() - 1] == tracestate_session(v))
        }),
{
}

} // verus!
