use sha2::{Digest, Sha256};
use vstd::prelude::*;
use vstd::utf8::encode_utf8;

use crate::text::{
    chars_of, contains, contains_char, has_infix, is_white_space, is_whitespace, lemma_lex_le_antisymmetric,
    lemma_lex_le_total,
    lemma_lex_le_transitive, lemma_split_by_step, lex_le, lex_le_exec, lowercase, push_char, split_by,
    string_of, to_lowercase,
};

verus! {

// ---------------------------------------------------------------------------
// Hostname slug
// ---------------------------------------------------------------------------

/// The character a hostname character becomes in a slug: ASCII lowercase
/// letters and digits stay, everything else becomes `-`.
pub open spec fn slug_char(c: char) -> char {
    if ('a' <= c && c <= 'z') || ('0' <= c && c <= '9') {
        c
    } else {
        '-'
    }
}

/// `s` without the leading characters equal to `c`.
pub open spec fn trim_start_char(s: Seq<char>, c: char) -> Seq<char>
    decreases s.len(),
{
    if s.len() > 0 && s[0] == c {
        trim_start_char(s.drop_first(), c)
    } else {
        s
    }
}

/// `s` without the trailing characters equal to `c`.
pub open spec fn trim_end_char(s: Seq<char>, c: char) -> Seq<char>
    decreases s.len(),
{
    if s.len() > 0 && s.last() == c {
        trim_end_char(s.drop_last(), c)
    } else {
        s
    }
}

/// `str::trim_matches` with a character pattern.
pub open spec fn trim_char(s: Seq<char>, c: char) -> Seq<char> {
    trim_end_char(trim_start_char(s, c), c)
}

/// The slug of an already lowercased hostname.
pub open spec fn slug_of_lowercase(lower: Seq<char>) -> Seq<char> {
    trim_char(lower.map_values(|c: char| slug_char(c)), '-')
}

/// The slug of a hostname: lowercased, every character other than `a-z` and
/// `0-9` replaced by `-`, and the dashes at both ends removed.
pub open spec fn hostname_slug(hostname: Seq<char>) -> Seq<char> {
    slug_of_lowercase(lowercase(hostname))
}

proof fn lemma_trim_start(s: Seq<char>, c: char, i: int)
    requires
        0 <= i <= s.len(),
        forall|j: int| 0 <= j < i ==> s[j] == c,
        i < s.len() ==> s[i] != c,
    ensures
        trim_start_char(s, c) == s.skip(i),
    decreases i,
{
    if i == 0 {
        assert(s.skip(0) =~= s);
    } else {
        lemma_trim_start(s.drop_first(), c, i - 1);
        assert(s.drop_first().skip(i - 1) =~= s.skip(i));
    }
}

proof fn lemma_trim_end(s: Seq<char>, c: char, k: int)
    requires
        0 <= k <= s.len(),
        forall|j: int| k <= j < s.len() ==> s[j] == c,
        k > 0 ==> s[k - 1] != c,
    ensures
        trim_end_char(s, c) == s.take(k),
    decreases s.len() - k,
{
    if k == s.len() {
        assert(s.take(k) =~= s);
    } else {
        lemma_trim_end(s.drop_last(), c, k);
        assert(s.drop_last().take(k) =~= s.take(k));
    }
}

/// The slug of a string that is already lowercase.
fn slug_from_lowercase(lower: &str) -> (res: String)
    ensures
        res@ == slug_of_lowercase(lower@),
{
    let chars = chars_of(lower);
    let ghost mapped_spec = chars@.map_values(|c: char| slug_char(c));
    let mut mapped: Vec<char> = Vec::new();
    let mut i: usize = 0;
    while i < chars.len()
        invariant
            i <= chars.len(),
            mapped@ == mapped_spec.take(i as int),
            mapped_spec == chars@.map_values(|c: char| slug_char(c)),
        decreases chars.len() - i,
    {
        let c = chars[i];
        let d = if ('a' <= c && c <= 'z') || ('0' <= c && c <= '9') {
            c
        } else {
            '-'
        };
        mapped.push(d);
        assert(mapped_spec.take(i + 1) == mapped_spec.take(i as int).push(mapped_spec[i as int]));
        i = i + 1;
    }
    assert(mapped_spec.take(chars.len() as int) =~= mapped_spec);
    // first character that is not a dash
    let mut start: usize = 0;
    while start < mapped.len() && mapped[start] == '-'
        invariant
            start <= mapped.len(),
            forall|j: int| 0 <= j < start ==> mapped@[j] == '-',
        decreases mapped.len() - start,
    {
        start = start + 1;
    }
    // one past the last character that is not a dash
    let mut end: usize = mapped.len();
    while end > start && mapped[end - 1] == '-'
        invariant
            start <= end <= mapped.len(),
            forall|j: int| end <= j < mapped.len() ==> mapped@[j] == '-',
        decreases end,
    {
        end = end - 1;
    }
    proof {
        lemma_trim_start(mapped@, '-', start as int);
        let t = mapped@.skip(start as int);
        lemma_trim_end(t, '-', end - start);
        assert(t.take(end - start) =~= mapped@.subrange(start as int, end as int));
    }
    let mut res = String::new();
    let mut k: usize = start;
    while k < end
        invariant
            start <= k <= end <= mapped.len(),
            res@ == mapped@.subrange(start as int, k as int),
        decreases end - k,
    {
        push_char(&mut res, mapped[k]);
        assert(mapped@.subrange(start as int, k + 1) =~= mapped@.subrange(
            start as int,
            k as int,
        ).push(mapped@[k as int]));
        k = k + 1;
    }
    res
}

/// The slug of a hostname (see `hostname_slug`).
pub fn hostname_to_slug(hostname: &str) -> (res: String)
    ensures
        res@ == hostname_slug(hostname@),
{
    let lower = to_lowercase(hostname);
    slug_from_lowercase(lower.as_str())
}

// ---------------------------------------------------------------------------
// Hash prefix of the MAC addresses
// ---------------------------------------------------------------------------

/// The parts joined with `sep` between each two (`[T]::join`).
pub open spec fn join_with(parts: Seq<Seq<char>>, sep: Seq<char>) -> Seq<char>
    decreases parts.len(),
{
    if parts.len() == 0 {
        Seq::empty()
    } else if parts.len() == 1 {
        parts[0]
    } else {
        join_with(parts.drop_last(), sep) + sep + parts.last()
    }
}

/// What `Sha256` computes over the UTF-8 bytes of a text.
pub uninterp spec fn sha256_of_utf8(text: Seq<char>) -> Seq<u8>;

/// The lowercase hexadecimal digit for a value below 16.
pub open spec fn hex_digit(n: u8) -> char {
    if n < 10 {
        (n + 48) as char
    } else {
        (n + 87) as char
    }
}

/// Lowercase hexadecimal, two digits per byte, high nibble first.
pub open spec fn hex_lower(bytes: Seq<u8>) -> Seq<char>
    decreases bytes.len(),
{
    if bytes.len() == 0 {
        Seq::empty()
    } else {
        seq![hex_digit(bytes[0] / 16), hex_digit(bytes[0] % 16)] + hex_lower(bytes.drop_first())
    }
}

/// Whether `c` is a lowercase hexadecimal digit.
pub open spec fn is_lower_hex_digit(c: char) -> bool {
    ('0' <= c && c <= '9') || ('a' <= c && c <= 'f')
}

/// The views of a sequence of strings.
pub open spec fn string_views(s: Seq<String>) -> Seq<Seq<char>> {
    s.map_values(|m: String| m@)
}

/// The six hexadecimal digits that end a fingerprint: the first three bytes of
/// the SHA-256 hash of the MAC addresses joined with `|`.
pub open spec fn hash_prefix(mac_addresses: Seq<Seq<char>>) -> Seq<char> {
    hex_lower(sha256_of_utf8(join_with(mac_addresses, seq!['|'])).take(3))
}

/// Calls `Sha256` (new, update, finalize) on the UTF-8 bytes of `text`; a
/// SHA-256 digest has 32 bytes.
#[verifier::external_body]
fn sha256_digest(text: &str) -> (digest: Vec<u8>)
    ensures
        digest@ == sha256_of_utf8(text@),
        digest@.len() == 32,
{
    let mut hasher = Sha256::new();
    hasher.update(text.as_bytes());
    hasher.finalize().to_vec()
}

/// Calls `hex::encode`, which writes each byte as two lowercase hexadecimal
/// digits, high nibble first.
#[verifier::external_body]
fn hex_encode(bytes: &[u8]) -> (res: String)
    ensures
        res@ == hex_lower(bytes@),
{
    hex::encode(bytes)
}

pub proof fn lemma_hex_lower(bytes: Seq<u8>)
    ensures
        hex_lower(bytes).len() == 2 * bytes.len(),
        forall|i: int| 0 <= i < hex_lower(bytes).len() ==> is_lower_hex_digit(#[trigger] hex_lower(bytes)[i]),
    decreases bytes.len(),
{
    if bytes.len() > 0 {
        lemma_hex_lower(bytes.drop_first());
        let h = hex_lower(bytes);
        let t = hex_lower(bytes.drop_first());
        assert forall|i: int| 0 <= i < h.len() implies is_lower_hex_digit(#[trigger] h[i]) by {
            if i >= 2 {
                assert(h[i] == t[i - 2]);
            }
        }
    }
}

/// Joins strings with a separator (`[String]::join`).
fn join_strings(parts: &[String], sep: &str) -> (res: String)
    ensures
        res@ == join_with(string_views(parts@), sep@),
{
    let ghost views = string_views(parts@);
    let mut res = String::new();
    let mut i: usize = 0;
    while i < parts.len()
        invariant
            i <= parts.len(),
            views == string_views(parts@),
            res@ == join_with(views.take(i as int), sep@),
        decreases parts.len() - i,
    {
        if i > 0 {
            res.append(sep);
        }
        res.append(parts[i].as_str());
        proof {
            let next = views.take(i + 1);
            assert(next.drop_last() =~= views.take(i as int));
            if i == 0 {
                assert(next =~= seq![views[0]]);
            }
        }
        i = i + 1;
    }
    assert(views.take(parts.len() as int) =~= views);
    res
}

/// The six lowercase hexadecimal digits derived from the MAC addresses (see
/// `hash_prefix`).
pub fn generate_hash_prefix(mac_addresses: &[String]) -> (res: String)
    ensures
        res@ == hash_prefix(string_views(mac_addresses@)),
        res@.len() == 6,
        forall|i: int| 0 <= i < 6 ==> is_lower_hex_digit(#[trigger] res@[i]),
{
    let joined = join_strings(mac_addresses, "|");
    proof {
        reveal_strlit("|");
        assert("|"@ =~= seq!['|']);
    }
    let digest = sha256_digest(joined.as_str());
    let mut first: Vec<u8> = Vec::new();
    first.push(digest[0]);
    first.push(digest[1]);
    first.push(digest[2]);
    assert(first@ =~= digest@.take(3));
    let res = hex_encode(first.as_slice());
    proof {
        lemma_hex_lower(first@);
    }
    res
}

// ---------------------------------------------------------------------------
// Fingerprint
// ---------------------------------------------------------------------------

/// The fingerprint of a machine with the given hostname and MAC addresses:
/// `{hostname_slug}-{hash_prefix}`, where the hostname is lowercased first.
pub open spec fn fingerprint_of(hostname: Seq<char>, mac_addresses: Seq<Seq<char>>) -> Seq<char> {
    hostname_slug(lowercase(hostname)) + seq!['-'] + hash_prefix(mac_addresses)
}

/// Generates the fingerprint of a machine from its hostname and MAC addresses.
pub fn generate_fingerprint(hostname: &str, mac_addresses: &[String]) -> (res: String)
    ensures
        res@ == fingerprint_of(hostname@, string_views(mac_addresses@)),
        res@.len() >= 7,
        res@[res@.len() - 7] == '-',
        forall|i: int| res@.len() - 6 <= i < res@.len() ==> is_lower_hex_digit(#[trigger] res@[i]),
{
    let lower = to_lowercase(hostname);
    let mut res = hostname_to_slug(lower.as_str());
    push_char(&mut res, '-');
    let hash = generate_hash_prefix(mac_addresses);
    let ghost before = res@;
    res.append(hash.as_str());
    assert(res@.len() - 6 == before.len());
    assert forall|i: int| res@.len() - 6 <= i < res@.len() implies is_lower_hex_digit(#[trigger] res@[i]) by {
        assert(res@[i] == hash@[i - before.len()]);
    }
    res
}

/// What to do to obtain the fingerprint, given the stored one if it could be
/// read.
#[derive(Clone, Debug)]
pub enum FingerprintPlan {
    /// The stored fingerprint is the answer.
    UseStored(String),
    /// Generate a fingerprint (`generate_fingerprint`) and store it.
    GenerateAndStore,
}

/// A stored fingerprint is used as it is; without one, a new fingerprint is
/// generated and stored.
pub fn get_or_create_fingerprint(stored: Option<String>) -> (plan: FingerprintPlan)
    ensures
        match stored {
            Some(f) => plan == FingerprintPlan::UseStored(f),
            None => plan == FingerprintPlan::GenerateAndStore,
        },
{
    match stored {
        Some(fingerprint) => FingerprintPlan::UseStored(fingerprint),
        None => FingerprintPlan::GenerateAndStore,
    }
}


// ---------------------------------------------------------------------------
// MAC addresses from `ifconfig -a`
// ---------------------------------------------------------------------------

/// The text `ether`.
pub open spec fn ether() -> Seq<char> {
    seq!['e', 't', 'h', 'e', 'r']
}

/// The all-zero MAC address `00:00:00:00:00:00`.
pub open spec fn zero_mac() -> Seq<char> {
    Seq::new(17, |i: int| if i % 3 == 2 { ':' } else { '0' })
}

/// The UTF-8 length of one character.
pub open spec fn utf8_width(c: char) -> int {
    if (c as u32) <= 0x7F {
        1
    } else if (c as u32) <= 0x7FF {
        2
    } else if (c as u32) <= 0xFFFF {
        3
    } else {
        4
    }
}

/// The MAC address a word of a line stands for, if any: a word holding `:`
/// whose UTF-8 encoding has 17 bytes, lowercased, unless it is the all-zero
/// address.
pub open spec fn mac_of_word(word: Seq<char>) -> Seq<Seq<char>> {
    if word.contains(':') && encode_utf8(word).len() == 17 && lowercase(word) != zero_mac() {
        seq![lowercase(word)]
    } else {
        Seq::empty()
    }
}

/// The MAC addresses of a sequence of words, in order.
pub open spec fn macs_of_words(words: Seq<Seq<char>>) -> Seq<Seq<char>>
    decreases words.len(),
{
    if words.len() == 0 {
        Seq::empty()
    } else {
        macs_of_words(words.drop_last()) + mac_of_word(words.last())
    }
}

/// The MAC addresses on one line: none unless the line holds `ether`; else
/// those of its pieces between white space (`str::split_whitespace` drops the
/// empty pieces, which hold no `:` and so give no address).
pub open spec fn macs_of_line(line: Seq<char>) -> Seq<Seq<char>> {
    if has_infix(line, ether()) {
        macs_of_words(split_by(line, |c: char| is_white_space(c)))
    } else {
        Seq::empty()
    }
}

/// The MAC addresses of a sequence of lines, in order.
pub open spec fn macs_of_lines(lines: Seq<Seq<char>>) -> Seq<Seq<char>>
    decreases lines.len(),
{
    if lines.len() == 0 {
        Seq::empty()
    } else {
        macs_of_lines(lines.drop_last()) + macs_of_line(lines.last())
    }
}

/// The MAC addresses that `ifconfig -a` output lists, in the order of the
/// output. Lines are taken between `\n`s; a `\r` that `str::lines` would take
/// off a line's end is white space here and so changes no word.
pub open spec fn ifconfig_macs(output: Seq<char>) -> Seq<Seq<char>> {
    macs_of_lines(split_by(output, |c: char| c == '\n'))
}

/// Sorted in the order of `String`.
pub open spec fn sorted_lex(s: Seq<Seq<char>>) -> bool {
    forall|i: int, j: int| 0 <= i < j < s.len() ==> lex_le(#[trigger] s[i], #[trigger] s[j])
}

/// The views of a sequence of character vectors.
pub open spec fn char_vec_views(s: Seq<Vec<char>>) -> Seq<Seq<char>> {
    s.map_values(|v: Vec<char>| v@)
}

/// The UTF-8 length of a text, from its characters.
pub open spec fn utf8_len(s: Seq<char>) -> int
    decreases s.len(),
{
    if s.len() == 0 {
        0
    } else {
        utf8_width(s[0]) + utf8_len(s.drop_first())
    }
}

proof fn lemma_utf8_len(s: Seq<char>)
    ensures
        utf8_len(s) == encode_utf8(s).len(),
        utf8_len(s) >= s.len(),
    decreases s.len(),
{
    if s.len() > 0 {
        lemma_utf8_len(s.drop_first());
        let c = s[0];
        vstd::utf8::char_is_scalar(c);
    }
}

/// Whether the UTF-8 encoding of `word` has exactly 17 bytes.
fn has_mac_length(word: &Vec<char>) -> (res: bool)
    ensures
        res == (encode_utf8(word@).len() == 17),
{
    proof {
        lemma_utf8_len(word@);
    }
    if word.len() > 17 {
        proof {
            lemma_utf8_len(word@);
        }
        return false;
    }
    let mut total: usize = 0;
    let mut i: usize = word.len();
    assert(word@.skip(word.len() as int) =~= Seq::<char>::empty());
    while i > 0
        invariant
            i <= word.len() <= 17,
            total == utf8_len(word@.skip(i as int)),
            total <= 4 * (word.len() - i),
        decreases i,
    {
        let c = word[i - 1];
        let w: usize = if (c as u32) <= 0x7F {
            1
        } else if (c as u32) <= 0x7FF {
            2
        } else if (c as u32) <= 0xFFFF {
            3
        } else {
            4
        };
        assert(word@.skip(i - 1).drop_first() =~= word@.skip(i as int));
        total = total + w;
        i = i - 1;
    }
    assert(word@.skip(0) =~= word@);
    total == 17
}

/// Whether `m` is `00:00:00:00:00:00`.
fn is_zero_mac(m: &Vec<char>) -> (res: bool)
    ensures
        res == (m@ == zero_mac()),
{
    if m.len() != 17 {
        return false;
    }
    let mut i: usize = 0;
    while i < 17
        invariant
            m.len() == 17,
            i <= 17,
            forall|j: int| 0 <= j < i ==> m@[j] == zero_mac()[j],
        decreases 17 - i,
    {
        let expected = if i % 3 == 2 {
            ':'
        } else {
            '0'
        };
        if m[i] != expected {
            return false;
        }
        i = i + 1;
    }
    assert(m@ =~= zero_mac());
    true
}

/// The MAC address a word stands for, if any (see `mac_of_word`).
fn mac_of_word_exec(word: &Vec<char>) -> (res: Option<Vec<char>>)
    ensures
        match res {
            Some(m) => mac_of_word(word@) == seq![m@],
            None => mac_of_word(word@) == Seq::<Seq<char>>::empty(),
        },
{
    if !contains_char(word, ':') || !has_mac_length(word) {
        return None;
    }
    let text = string_of(word);
    let lower = to_lowercase(text.as_str());
    let mac = chars_of(lower.as_str());
    if is_zero_mac(&mac) {
        None
    } else {
        Some(mac)
    }
}

/// The MAC addresses on one line (see `macs_of_line`).
fn macs_of_line_exec(line: &Vec<char>, res: &mut Vec<Vec<char>>)
    ensures
        char_vec_views(final(res)@) == char_vec_views(old(res)@) + macs_of_line(line@),
{
    let ghost start = char_vec_views(res@);
    let ether_text: Vec<char> = vec!['e', 't', 'h', 'e', 'r'];
    assert(ether_text@ =~= ether());
    if !contains(line, &ether_text) {
        assert(char_vec_views(res@) =~= start + Seq::<Seq<char>>::empty());
        return;
    }
    let ghost ws = |c: char| is_white_space(c);
    let mut word: Vec<char> = Vec::new();
    let mut i: usize = 0;
    assert(line@.take(0) =~= Seq::<char>::empty());
    assert(split_by(line@.take(0), ws) =~= seq![Seq::<char>::empty()]);
    assert(char_vec_views(res@) =~= start + macs_of_words(split_by(line@.take(0), ws).drop_last()));
    while i < line.len()
        invariant
            i <= line.len(),
            ws == (|c: char| is_white_space(c)),
            split_by(line@.take(i as int), ws).len() >= 1,
            word@ == split_by(line@.take(i as int), ws).last(),
            char_vec_views(res@) == start + macs_of_words(
                split_by(line@.take(i as int), ws).drop_last(),
            ),
        decreases line.len() - i,
    {
        proof {
            lemma_split_by_step(line@, i as int, ws);
        }
        let c = line[i];
        if is_whitespace(c) {
            let ghost pieces = split_by(line@.take(i as int), ws);
            let found = mac_of_word_exec(&word);
            let ghost before = char_vec_views(res@);
            match found {
                Some(m) => {
                    res.push(m);
                },
                None => {},
            }
            proof {
                let next = split_by(line@.take(i + 1), ws);
                assert(next.drop_last() =~= pieces);
                assert(pieces =~= pieces.drop_last().push(pieces.last()));
                assert(macs_of_words(pieces) == macs_of_words(pieces.drop_last()) + mac_of_word(
                    pieces.last(),
                ));
                assert(char_vec_views(res@) =~= before + mac_of_word(word@));
                assert(next.last() =~= Seq::<char>::empty());
            }
            word = Vec::new();
        } else {
            word.push(c);
        }
        i = i + 1;
    }
    assert(line@.take(line.len() as int) =~= line@);
    let pieces = Ghost(split_by(line@, ws));
    let found = mac_of_word_exec(&word);
    let ghost before = char_vec_views(res@);
    match found {
        Some(m) => {
            res.push(m);
        },
        None => {},
    }
    proof {
        let p = pieces@;
        assert(p =~= p.drop_last().push(p.last()));
        assert(macs_of_words(p) == macs_of_words(p.drop_last()) + mac_of_word(p.last()));
        assert(char_vec_views(res@) =~= before + mac_of_word(word@));
    }
}

/// Sorts character vectors in the order of `String`.
fn sort_lex(v: Vec<Vec<char>>) -> (res: Vec<Vec<char>>)
    ensures
        sorted_lex(char_vec_views(res@)),
        char_vec_views(res@).to_multiset() == char_vec_views(v@).to_multiset(),
{
    broadcast use vstd::seq_lib::group_to_multiset_ensures;

    let mut input = v;
    let mut sorted: Vec<Vec<char>> = Vec::new();
    while input.len() > 0
        invariant
            sorted_lex(char_vec_views(sorted@)),
            char_vec_views(sorted@).to_multiset().add(char_vec_views(input@).to_multiset())
                == char_vec_views(v@).to_multiset(),
        decreases input.len(),
    {
        let ghost before_input = char_vec_views(input@);
        let x = input.pop().unwrap();
        assert(before_input =~= char_vec_views(input@).push(x@));
        let mut k: usize = 0;
        while k < sorted.len() && lex_le_exec(&sorted[k], &x)
            invariant
                k <= sorted.len(),
                forall|j: int| 0 <= j < k ==> lex_le(#[trigger] sorted@[j]@, x@),
            decreases sorted.len() - k,
        {
            k = k + 1;
        }
        let ghost s = char_vec_views(sorted@);
        proof {
            if k < sorted.len() {
                lemma_lex_le_total(s[k as int], x@);
            }
        }
        let ghost xv = x@;
        sorted.insert(k, x);
        proof {
            let t = char_vec_views(sorted@);
            assert(t =~= s.insert(k as int, xv));
            let ins = char_vec_views(input@);
            vstd::seq_lib::to_multiset_insert(s, k as int, xv);
            vstd::seq_lib::to_multiset_build(ins, xv);
            assert(t.to_multiset() == s.to_multiset().insert(xv));
            assert(before_input.to_multiset() == ins.to_multiset().insert(xv));
            assert(t.to_multiset().add(ins.to_multiset()) =~= s.to_multiset().add(
                before_input.to_multiset(),
            ));
            assert forall|a: int, b: int| 0 <= a < b < t.len() implies lex_le(
                #[trigger] t[a],
                #[trigger] t[b],
            ) by {
                if b < k {
                    assert(t[a] == s[a] && t[b] == s[b]);
                } else if b == k {
                    assert(t[a] == s[a]);
                    assert(lex_le(sorted@[a]@, x@));
                } else if a == k {
                    assert(t[b] == s[b - 1]);
                    if b - 1 > k {
                        lemma_lex_le_transitive(x@, s[k as int], s[b - 1]);
                    }
                } else if a < k {
                    assert(t[a] == s[a] && t[b] == s[b - 1]);
                } else {
                    assert(t[a] == s[a - 1] && t[b] == s[b - 1]);
                }
            }
        }
    }
    assert(char_vec_views(input@) =~= Seq::<Seq<char>>::empty());
    assert(char_vec_views(input@).to_multiset() =~= vstd::multiset::Multiset::empty());
    sorted
}

/// The MAC addresses listed in the output of `ifconfig -a`: on the lines that
/// hold `ether`, each white-space separated word that holds `:` and has 17
/// bytes, lowercased, without `00:00:00:00:00:00`; sorted.
pub fn parse_ifconfig_output(output: &str) -> (macs: Vec<String>)
    ensures
        sorted_lex(string_views(macs@)),
        string_views(macs@).to_multiset() == ifconfig_macs(output@).to_multiset(),
{
    let chars = chars_of(output);
    let ghost nl = |c: char| c == '\n';
    let mut collected: Vec<Vec<char>> = Vec::new();
    let mut line: Vec<char> = Vec::new();
    let mut i: usize = 0;
    assert(chars@.take(0) =~= Seq::<char>::empty());
    assert(split_by(chars@.take(0), nl) =~= seq![Seq::<char>::empty()]);
    assert(char_vec_views(collected@) =~= macs_of_lines(split_by(chars@.take(0), nl).drop_last()));
    while i < chars.len()
        invariant
            i <= chars.len(),
            nl == (|c: char| c == '\n'),
            split_by(chars@.take(i as int), nl).len() >= 1,
            line@ == split_by(chars@.take(i as int), nl).last(),
            char_vec_views(collected@) == macs_of_lines(
                split_by(chars@.take(i as int), nl).drop_last(),
            ),
        decreases chars.len() - i,
    {
        proof {
            lemma_split_by_step(chars@, i as int, nl);
        }
        let c = chars[i];
        if c == '\n' {
            let ghost pieces = split_by(chars@.take(i as int), nl);
            let ghost before = char_vec_views(collected@);
            macs_of_line_exec(&line, &mut collected);
            proof {
                let next = split_by(chars@.take(i + 1), nl);
                assert(next.drop_last() =~= pieces);
                assert(pieces =~= pieces.drop_last().push(pieces.last()));
                assert(macs_of_lines(pieces) == macs_of_lines(pieces.drop_last()) + macs_of_line(
                    pieces.last(),
                ));
                assert(next.last() =~= Seq::<char>::empty());
            }
            line = Vec::new();
        } else {
            line.push(c);
        }
        i = i + 1;
    }
    assert(chars@.take(chars.len() as int) =~= chars@);
    let ghost pieces = split_by(chars@, nl);
    macs_of_line_exec(&line, &mut collected);
    proof {
        assert(pieces =~= pieces.drop_last().push(pieces.last()));
        assert(macs_of_lines(pieces) == macs_of_lines(pieces.drop_last()) + macs_of_line(
            pieces.last(),
        ));
        assert(char_vec_views(collected@) == ifconfig_macs(output@));
    }
    let sorted = sort_lex(collected);
    let mut macs: Vec<String> = Vec::new();
    let mut j: usize = 0;
    while j < sorted.len()
        invariant
            j <= sorted.len(),
            string_views(macs@) == char_vec_views(sorted@).take(j as int),
        decreases sorted.len() - j,
    {
        let m = string_of(&sorted[j]);
        let ghost before = string_views(macs@);
        let ghost mv = m@;
        macs.push(m);
        assert(mv == char_vec_views(sorted@)[j as int]);
        assert(string_views(macs@) =~= before.push(mv));
        assert(char_vec_views(sorted@).take(j + 1) =~= char_vec_views(sorted@).take(j as int).push(
            mv,
        ));
        j = j + 1;
    }
    assert(string_views(macs@) =~= char_vec_views(sorted@));
    macs
}

// ---------------------------------------------------------------------------
// MAC addresses, or a random stand-in
// ---------------------------------------------------------------------------

/// The decimal digit for a value below 10.
pub open spec fn decimal_digit(n: nat) -> char {
    (n + 48) as char
}

/// The decimal notation of a number, as `u64`'s `Display` writes it.
pub open spec fn decimal(n: nat) -> Seq<char>
    decreases n,
{
    if n < 10 {
        seq![decimal_digit(n)]
    } else {
        decimal(n / 10).push(decimal_digit(n % 10))
    }
}

/// Writes a number in decimal.
pub fn u64_to_decimal(n: u64) -> (res: String)
    ensures
        res@ == decimal(n as nat),
{
    let mut digits: Vec<char> = Vec::new();
    let mut m: u64 = n;
    // digits holds the last digits of n, least significant first
    while m >= 10
        invariant
            decimal(n as nat) == decimal(m as nat) + digits@.reverse(),
        decreases m,
    {
        let d = (m % 10) as u8;
        let c = ((d + 48) as char);
        proof {
            assert(decimal(m as nat) == decimal((m / 10) as nat).push(decimal_digit((m % 10) as nat)));
        }
        let ghost before = digits@;
        digits.push(c);
        assert(digits@.reverse() =~= seq![c] + before.reverse());
        assert(decimal((m / 10) as nat).push(c) + before.reverse() =~= decimal((m / 10) as nat) + (
        seq![c] + before.reverse()));
        m = m / 10;
    }
    let mut res = String::new();
    push_char(&mut res, ((m as u8) + 48) as char);
    assert(res@ =~= decimal(m as nat));
    let mut i: usize = digits.len();
    while i > 0
        invariant
            i <= digits.len(),
            decimal(n as nat) == decimal(m as nat) + digits@.reverse(),
            res@ == decimal(m as nat) + digits@.subrange(i as int, digits.len() as int).reverse(),
        decreases i,
    {
        push_char(&mut res, digits[i - 1]);
        assert(digits@.subrange(i - 1, digits.len() as int).reverse() =~= digits@.subrange(
            i as int,
            digits.len() as int,
        ).reverse().push(digits@[i - 1]));
        i = i - 1;
    }
    assert(digits@.subrange(0, digits.len() as int) =~= digits@);
    res
}

/// Calls `rand::random::<u64>()`; any value may come back.
#[verifier::external_body]
fn random_u64() -> u64 {
    rand::random::<u64>()
}

/// The stand-in address used when `ifconfig` could not be read: `random-`
/// followed by a number in decimal.
pub open spec fn random_mac_stand_in(n: u64) -> Seq<char> {
    seq!['r', 'a', 'n', 'd', 'o', 'm', '-'] + decimal(n as nat)
}

/// The MAC addresses of the machine, from the text `ifconfig -a` printed when
/// it ran successfully; without that text, one random stand-in.
pub fn get_mac_addresses(ifconfig_output: Option<&str>) -> (macs: Vec<String>)
    ensures
        match ifconfig_output {
            Some(output) => {
                &&& sorted_lex(string_views(macs@))
                &&& string_views(macs@).to_multiset() == ifconfig_macs(output@).to_multiset()
            },
            None => macs@.len() == 1 && exists|n: u64| macs@[0]@ == random_mac_stand_in(n),
        },
{
    match ifconfig_output {
        Some(output) => parse_ifconfig_output(output),
        None => {
            let n = random_u64();
            let mut mac = String::new();
            push_char(&mut mac, 'r');
            push_char(&mut mac, 'a');
            push_char(&mut mac, 'n');
            push_char(&mut mac, 'd');
            push_char(&mut mac, 'o');
            push_char(&mut mac, 'm');
            push_char(&mut mac, '-');
            let digits = u64_to_decimal(n);
            mac.append(digits.as_str());
            assert(mac@ =~= random_mac_stand_in(n));
            let mut macs: Vec<String> = Vec::new();
            macs.push(mac);
            macs
        },
    }
}

/// Two sorted lists that hold the same addresses, as often each, are the
/// same list.
proof fn lemma_sorted_same_addresses_equal(a: Seq<Seq<char>>, b: Seq<Seq<char>>)
    requires
        sorted_lex(a),
        sorted_lex(b),
        a.to_multiset() == b.to_multiset(),
    ensures
        a == b,
    decreases a.len(),
{
    a.to_multiset_ensures();
    b.to_multiset_ensures();
    if a.len() == 0 {
        assert(b.len() == 0);
        assert(a =~= b);
    } else {
        assert(a.contains(a[0]));
        assert(a.to_multiset().count(a[0]) > 0);
        assert(b.to_multiset().count(a[0]) > 0);
        assert(b.contains(a[0]));
        let j = choose|j: int| 0 <= j < b.len() && b[j] == a[0];
        assert(b.contains(b[0]));
        assert(b.to_multiset().count(b[0]) > 0);
        assert(a.to_multiset().count(b[0]) > 0);
        assert(a.contains(b[0]));
        let k = choose|k: int| 0 <= k < a.len() && a[k] == b[0];
        if j > 0 {
            assert(lex_le(b[0], b[j]));
        } else {
            lemma_lex_le_total(b[0], a[0]);
        }
        if k > 0 {
            assert(lex_le(a[0], a[k]));
        } else {
            lemma_lex_le_total(a[0], b[0]);
        }
        lemma_lex_le_antisymmetric(a[0], b[0]);
        assert(a.remove(0) =~= a.drop_first());
        assert(b.remove(0) =~= b.drop_first());
        assert(a.drop_first().to_multiset() =~= b.drop_first().to_multiset());
        assert(sorted_lex(a.drop_first())) by {
            assert forall|i: int, l: int| 0 <= i < l < a.drop_first().len() implies lex_le(
                #[trigger] a.drop_first()[i],
                #[trigger] a.drop_first()[l],
            ) by {
                assert(lex_le(a[i + 1], a[l + 1]));
            }
        }
        assert(sorted_lex(b.drop_first())) by {
            assert forall|i: int, l: int| 0 <= i < l < b.drop_first().len() implies lex_le(
                #[trigger] b.drop_first()[i],
                #[trigger] b.drop_first()[l],
            ) by {
                assert(lex_le(b[i + 1], b[l + 1]));
            }
        }
        lemma_sorted_same_addresses_equal(a.drop_first(), b.drop_first());
        assert(a =~= b) by {
            assert forall|i: int| 0 <= i < a.len() implies a[i] == b[i] by {
                if i > 0 {
                    assert(a[i] == a.drop_first()[i - 1]);
                    assert(b[i] == b.drop_first()[i - 1]);
                }
            }
        }
    }
}

/// The fingerprint does not depend on the order in which the interfaces, and
/// so their addresses, are listed: two lists of addresses as
/// `get_mac_addresses` gives them (sorted) that hold the same addresses give
/// the same fingerprint.
pub proof fn law_fingerprint_ignores_address_order(
    hostname: Seq<char>,
    macs1: Seq<Seq<char>>,
    macs2: Seq<Seq<char>>,
)
    requires
        sorted_lex(macs1),
        sorted_lex(macs2),
        macs1.to_multiset() == macs2.to_multiset(),
    ensures
        fingerprint_of(hostname, macs1) == fingerprint_of(hostname, macs2),
{
    lemma_sorted_same_addresses_equal(macs1, macs2);
}

/// The number of dashes that `s` starts with.
spec fn leading_dashes(s: Seq<char>) -> nat
    decreases s.len(),
{
    if s.len() > 0 && s[0] == '-' {
        1 + leading_dashes(s.drop_first())
    } else {
        0
    }
}

proof fn lemma_leading_dashes(s: Seq<char>)
    ensures
        leading_dashes(s) <= s.len(),
        forall|j: int| 0 <= j < leading_dashes(s) ==> s[j] == '-',
        leading_dashes(s) < s.len() ==> s[leading_dashes(s) as int] != '-',
    decreases s.len(),
{
    if s.len() > 0 && s[0] == '-' {
        lemma_leading_dashes(s.drop_first());
        assert forall|j: int| 0 <= j < leading_dashes(s) implies s[j] == '-' by {
            if j > 0 {
                assert(s[j] == s.drop_first()[j - 1]);
            }
        }
    }
}

/// The length of `s` without the dashes it ends with.
spec fn without_trailing_dashes(s: Seq<char>) -> nat
    decreases s.len(),
{
    if s.len() > 0 && s.last() == '-' {
        without_trailing_dashes(s.drop_last())
    } else {
        s.len()
    }
}

proof fn lemma_without_trailing_dashes(s: Seq<char>)
    ensures
        without_trailing_dashes(s) <= s.len(),
        forall|j: int| without_trailing_dashes(s) <= j < s.len() ==> s[j] == '-',
        without_trailing_dashes(s) > 0 ==> s[without_trailing_dashes(s) - 1] != '-',
    decreases s.len(),
{
    if s.len() > 0 && s.last() == '-' {
        lemma_without_trailing_dashes(s.drop_last());
        assert forall|j: int| without_trailing_dashes(s) <= j < s.len() implies s[j] == '-' by {
            if j < s.len() - 1 {
                assert(s[j] == s.drop_last()[j]);
            }
        }
    }
}

/// The slug is a stretch of the lowercased hostname in which each ASCII
/// lowercase letter and digit is kept as it is and each other character
/// becomes a dash; what is cut off at both ends holds no letter or digit, and
/// the slug neither starts nor ends with a dash.
pub proof fn law_slug_keeps_letters_and_digits(hostname: Seq<char>)
    ensures
        ({
            let lower = lowercase(hostname);
            let slug = hostname_slug(hostname);
            exists|start: int|
                #![trigger lower.skip(start)]
                {
                    &&& 0 <= start
                    &&& slug.len() <= lower.skip(start).len()
                    &&& start + slug.len() <= lower.len()
                    &&& forall|j: int|
                        0 <= j < slug.len() ==> #[trigger] slug[j] == if ('a' <= lower[start + j]
                            && lower[start + j] <= 'z') || ('0' <= lower[start + j] && lower[start
                            + j] <= '9') {
                            lower[start + j]
                        } else {
                            '-'
                        }
                    &&& forall|i: int|
                        0 <= i < start ==> !(('a' <= #[trigger] lower[i] && lower[i] <= 'z') || ('0'
                            <= lower[i] && lower[i] <= '9'))
                    &&& forall|i: int|
                        start + slug.len() <= i < lower.len() ==> !(('a' <= #[trigger] lower[i]
                            && lower[i] <= 'z') || ('0' <= lower[i] && lower[i] <= '9'))
                }
        }),
        hostname_slug(hostname).len() > 0 ==> hostname_slug(hostname)[0] != '-' && hostname_slug(
            hostname,
        ).last() != '-',
{
    let lower = lowercase(hostname);
    let mapped = lower.map_values(|c: char| slug_char(c));
    lemma_leading_dashes(mapped);
    let start = leading_dashes(mapped) as int;
    lemma_trim_start(mapped, '-', start);
    let rest = mapped.skip(start);
    lemma_without_trailing_dashes(rest);
    let keep = without_trailing_dashes(rest) as int;
    lemma_trim_end(rest, '-', keep);
    let slug = hostname_slug(hostname);
    assert(slug == rest.take(keep));
    assert forall|j: int| 0 <= j < slug.len() implies #[trigger] slug[j] == if ('a' <= lower[start
        + j] && lower[start + j] <= 'z') || ('0' <= lower[start + j] && lower[start + j] <= '9') {
        lower[start + j]
    } else {
        '-'
    } by {
        assert(slug[j] == mapped[start + j]);
    }
    assert forall|i: int| 0 <= i < start implies !(('a' <= #[trigger] lower[i] && lower[i] <= 'z')
        || ('0' <= lower[i] && lower[i] <= '9')) by {
        assert(mapped[i] == '-');
    }
    assert forall|i: int| start + slug.len() <= i < lower.len() implies !(('a'
        <= #[trigger] lower[i] && lower[i] <= 'z') || ('0' <= lower[i] && lower[i] <= '9')) by {
        assert(rest[i - start] == mapped[i]);
    }
    if slug.len() > 0 {
        assert(slug[0] == rest[0]);
        assert(slug.last() == rest[keep - 1]);
    }
    assert(slug.len() <= lower.skip(start).len());
}

/// A hostname whose lowercase form holds only ASCII lowercase letters and
/// digits is its own slug, lowercased: `web01` gives `web01`.
pub proof fn law_alphanumeric_hostname_is_its_own_slug(hostname: Seq<char>)
    requires
        forall|i: int|
            0 <= i < lowercase(hostname).len() ==> ('a' <= #[trigger] lowercase(hostname)[i]
                && lowercase(hostname)[i] <= 'z') || ('0' <= lowercase(hostname)[i] && lowercase(
                hostname,
            )[i] <= '9'),
    ensures
        hostname_slug(hostname) == lowercase(hostname),
{
    let lower = lowercase(hostname);
    let mapped = lower.map_values(|c: char| slug_char(c));
    assert(mapped =~= lower);
    lemma_trim_start(mapped, '-', 0);
    assert(mapped.skip(0) =~= mapped);
    lemma_trim_end(mapped, '-', mapped.len() as int);
    assert(mapped.take(mapped.len() as int) =~= mapped);
}

} // verus!
