use vstd::prelude::*;

verus! {

/// Who a public key belongs to: a managed host's own server key, a
/// user's key, or a key discovered on a remote machine that has not
/// been assigned to anyone yet.
#[derive(Debug, Clone, Copy, PartialEq, Eq, Structural)]
pub enum KeyOwner {
    Host(i32),
    User(i32),
    Unowned,
}

/// One SSH public key in the `authorized_keys` text form
/// `type base64[ comment]`, plus ownership metadata.  The key type
/// and base64 material together are the key's identity; the comment
/// is descriptive only.
#[derive(Debug, Clone)]
pub struct SshPublicKey {
    pub key_type: String,
    pub key_base64: String,
    pub comment: Option<String>,
    pub owner: KeyOwner,
}

/// Abstract value of an `SshPublicKey`: the same fields with strings
/// taken as character sequences.
pub struct KeyAbs {
    pub key_type: Seq<char>,
    pub key_base64: Seq<char>,
    pub comment: Option<Seq<char>>,
    pub owner: KeyOwner,
}

impl View for SshPublicKey {
    type V = KeyAbs;

    open spec fn view(&self) -> KeyAbs {
        KeyAbs {
            key_type: self.key_type@,
            key_base64: self.key_base64@,
            comment: match self.comment {
                Option::Some(c) => Option::Some(c@),
                Option::None => Option::None,
            },
            owner: self.owner,
        }
    }
}

/// The identity of a key: its type and base64 material.  Two keys
/// with equal identity are the same key; comments do not count.
pub open spec fn key_ident(k: KeyAbs) -> (Seq<char>, Seq<char>) {
    (k.key_type, k.key_base64)
}

/// View of a sequence of keys.
pub open spec fn keys_view(s: Seq<SshPublicKey>) -> Seq<KeyAbs> {
    s.map_values(|k: SshPublicKey| k@)
}

/// A single-line parse failure.  Recoverable: multi-line parsing
/// skips the offending line.
#[derive(Debug)]
pub enum KeyParseError {
    Malformed,
}

/// `s` has no occurrence of `c` at any index in `[from, to)`.
pub open spec fn no_char_in(s: Seq<char>, c: char, from: int, to: int) -> bool {
    forall|k: int| from <= k < to ==> s[k] != c
}

/// Index of the first occurrence of `c` in `s` at or after `from`,
/// or `s.len()` if there is none.
pub open spec fn first_of_from(s: Seq<char>, c: char, from: int) -> int
    decreases s.len() - from,
{
    if from < 0 || from >= s.len() {
        s.len() as int
    } else if s[from] == c {
        from
    } else {
        first_of_from(s, c, from + 1)
    }
}

/// What `first_of_from` guarantees: its result is in `[from, len]`,
/// points at `c` unless it is `len`, and nothing before it matches.
pub proof fn lemma_first_of_from(s: Seq<char>, c: char, from: int)
    requires
        0 <= from <= s.len(),
    ensures
        from <= first_of_from(s, c, from) <= s.len(),
        first_of_from(s, c, from) < s.len() ==> s[first_of_from(s, c, from)] == c,
        no_char_in(s, c, from, first_of_from(s, c, from)),
    decreases s.len() - from,
{
    if from < s.len() && s[from] != c {
        lemma_first_of_from(s, c, from + 1);
    }
}

/// If `c` occurs first at `i` (no earlier occurrence from `from`),
/// then `first_of_from` returns `i`.
pub proof fn lemma_first_of_from_is(s: Seq<char>, c: char, from: int, i: int)
    requires
        0 <= from <= i < s.len(),
        s[i] == c,
        no_char_in(s, c, from, i),
    ensures
        first_of_from(s, c, from) == i,
    decreases i - from,
{
    if from < i {
        lemma_first_of_from_is(s, c, from + 1, i);
    }
}

/// If `c` does not occur at or after `from`, `first_of_from` is `len`.
pub proof fn lemma_first_of_from_none(s: Seq<char>, c: char, from: int)
    requires
        0 <= from <= s.len(),
        no_char_in(s, c, from, s.len() as int),
    ensures
        first_of_from(s, c, from) == s.len(),
    decreases s.len() - from,
{
    if from < s.len() {
        lemma_first_of_from_none(s, c, from + 1);
    }
}

/// Meaning of one `authorized_keys` line.  A line is well formed
/// when it holds a non-empty type token and a non-empty base64 token
/// separated by a single space; anything after a second space is a
/// free-text comment that may itself contain spaces.  A line missing
/// either token is malformed.
pub open spec fn spec_parse(line: Seq<char>) -> Option<KeyAbs> {
    let n = line.len() as int;
    let i = first_of_from(line, ' ', 0);
    if i == n || i == 0 {
        Option::None
    } else {
        let j = first_of_from(line, ' ', i + 1);
        if j == i + 1 {
            Option::None
        } else if j == n {
            Option::Some(
                KeyAbs {
                    key_type: line.subrange(0, i),
                    key_base64: line.subrange(i + 1, n),
                    comment: Option::None,
                    owner: KeyOwner::Unowned,
                },
            )
        } else {
            Option::Some(
                KeyAbs {
                    key_type: line.subrange(0, i),
                    key_base64: line.subrange(i + 1, j),
                    comment: Option::Some(line.subrange(j + 1, n)),
                    owner: KeyOwner::Unowned,
                },
            )
        }
    }
}

/// Inverse of `spec_parse`: `type base64` or `type base64 comment`.
pub open spec fn spec_serialize(k: KeyAbs) -> Seq<char> {
    match k.comment {
        Option::Some(c) => k.key_type + seq![' '] + k.key_base64 + seq![' '] + c,
        Option::None => k.key_type + seq![' '] + k.key_base64,
    }
}

/// Round trip: any line the parser accepts is reproduced exactly by
/// serializing the parsed key; in particular a two-token line parses
/// with no comment and serializes back to the same two tokens.
pub proof fn lemma_parse_serialize_round_trip(line: Seq<char>)
    requires
        spec_parse(line) is Some,
    ensures
        spec_serialize(spec_parse(line).unwrap()) == line,
{
    let n = line.len() as int;
    lemma_first_of_from(line, ' ', 0);
    let i = first_of_from(line, ' ', 0);
    lemma_first_of_from(line, ' ', i + 1);
    let j = first_of_from(line, ' ', i + 1);
    let k = spec_parse(line).unwrap();
    if j == n {
        assert(spec_serialize(k) =~= line);
    } else {
        assert(spec_serialize(k) =~= line);
    }
}

/// What `describe` prints for a key.
pub open spec fn spec_describe(k: KeyAbs) -> Seq<char> {
    match k.comment {
        Option::Some(c) => "Type: "@ + k.key_type + "; Comment: "@ + c + "; Base64: "@
            + k.key_base64,
        Option::None => "Type: "@ + k.key_type + "; Base64: "@ + k.key_base64,
    }
}

/// The converse round trip: serializing any key whose type and
/// base64 tokens are non-empty and free of spaces — as SSH key
/// tokens are — yields a line that parses back to exactly that key.
/// The comment may contain anything.
pub proof fn lemma_serialize_parse_round_trip(k: KeyAbs)
    requires
        k.key_type.len() > 0,
        k.key_base64.len() > 0,
        no_char_in(k.key_type, ' ', 0, k.key_type.len() as int),
        no_char_in(k.key_base64, ' ', 0, k.key_base64.len() as int),
        k.owner == KeyOwner::Unowned,
    ensures
        spec_parse(spec_serialize(k)) == Option::Some(k),
{
    let s = spec_serialize(k);
    let t = k.key_type.len() as int;
    let b = k.key_base64.len() as int;
    let n = s.len() as int;
    assert(s[t] == ' ');
    assert forall|x: int| 0 <= x < t implies s[x] != ' ' by {
        assert(s[x] == k.key_type[x]);
    }
    lemma_first_of_from_is(s, ' ', 0, t);
    match k.comment {
        Option::None => {
            assert forall|x: int| t + 1 <= x < n implies s[x] != ' ' by {
                assert(s[x] == k.key_base64[x - t - 1]);
            }
            lemma_first_of_from_none(s, ' ', t + 1);
            assert(s.subrange(0, t) =~= k.key_type);
            assert(s.subrange(t + 1, n) =~= k.key_base64);
        },
        Option::Some(c) => {
            assert(s[t + 1 + b] == ' ');
            assert forall|x: int| t + 1 <= x < t + 1 + b implies s[x] != ' ' by {
                assert(s[x] == k.key_base64[x - t - 1]);
            }
            lemma_first_of_from_is(s, ' ', t + 1, t + 1 + b);
            assert(s.subrange(0, t) =~= k.key_type);
            assert(s.subrange(t + 1, t + 1 + b) =~= k.key_base64);
            assert(s.subrange(t + 1 + b + 1, n) =~= c);
        },
    }
}

/// A comment line: its first character is `#`.
pub open spec fn is_comment_line(l: Seq<char>) -> bool {
    l.len() > 0 && l[0] == '#'
}

/// The lines of `s` from index `from` on, split on `'\n'`.  A line
/// ended by a newline drops one carriage return just before it, so
/// CRLF files read the same as LF files; a trailing newline ends the
/// last line rather than starting an empty one.
pub open spec fn spec_lines_from(s: Seq<char>, from: int) -> Seq<Seq<char>>
    decreases s.len() - from,
    via spec_lines_from_decreases
{
    if from < 0 || from >= s.len() {
        Seq::empty()
    } else {
        let i = first_of_from(s, '\n', from);
        if i == s.len() as int {
            seq![s.subrange(from, s.len() as int)]
        } else {
            let end = if i > from && s[i - 1] == '\r' {
                i - 1
            } else {
                i
            };
            seq![s.subrange(from, end)] + spec_lines_from(s, i + 1)
        }
    }
}

#[via_fn]
proof fn spec_lines_from_decreases(s: Seq<char>, from: int) {
    if 0 <= from < s.len() {
        lemma_first_of_from(s, '\n', from);
    }
}

/// The lines of `s`, split on `'\n'`.
pub open spec fn spec_lines(s: Seq<char>) -> Seq<Seq<char>> {
    spec_lines_from(s, 0)
}

/// Best-effort parse of a sequence of lines: comment lines are
/// skipped, malformed lines are dropped, parseable lines yield their
/// key, in order.
pub open spec fn spec_parse_many(lines: Seq<Seq<char>>) -> Seq<KeyAbs>
    decreases lines.len(),
{
    if lines.len() == 0 {
        Seq::empty()
    } else {
        let rest = spec_parse_many(lines.drop_first());
        if is_comment_line(lines.first()) {
            rest
        } else {
            match spec_parse(lines.first()) {
                Option::Some(k) => seq![k] + rest,
                Option::None => rest,
            }
        }
    }
}

/// What `from_lines` returns for a whole file.
pub open spec fn spec_from_lines(s: Seq<char>) -> Seq<KeyAbs> {
    spec_parse_many(spec_lines(s))
}

/// Unfolds `spec_parse_many` one line at a time.
pub proof fn lemma_parse_many_cons(l: Seq<char>, rest: Seq<Seq<char>>)
    ensures
        spec_parse_many(seq![l] + rest) == if is_comment_line(l) {
            spec_parse_many(rest)
        } else {
            match spec_parse(l) {
                Option::Some(k) => seq![k] + spec_parse_many(rest),
                Option::None => spec_parse_many(rest),
            }
        },
{
    let all = seq![l] + rest;
    assert(all.first() == l);
    assert(all.drop_first() =~= rest);
}

/// `spec_parse_many` distributes over concatenation of line lists.
pub proof fn lemma_parse_many_append(a: Seq<Seq<char>>, b: Seq<Seq<char>>)
    ensures
        spec_parse_many(a + b) == spec_parse_many(a) + spec_parse_many(b),
    decreases a.len(),
{
    if a.len() == 0 {
        assert(a + b =~= b);
        assert(spec_parse_many(a) + spec_parse_many(b) =~= spec_parse_many(b));
    } else {
        lemma_parse_many_append(a.drop_first(), b);
        assert((a + b).first() == a.first());
        assert((a + b).drop_first() =~= a.drop_first() + b);
        if is_comment_line(a.first()) {
        } else {
            match spec_parse(a.first()) {
                Option::Some(k) => {
                    assert(seq![k] + (spec_parse_many(a.drop_first()) + spec_parse_many(b)) =~= (
                    seq![k] + spec_parse_many(a.drop_first())) + spec_parse_many(b));
                },
                Option::None => {},
            }
        }
    }
}

/// Malformed-line isolation: one malformed, non-comment line in a
/// multi-line input is dropped, and the result is exactly the keys of
/// the surrounding lines, in their original order.
pub proof fn lemma_malformed_line_isolated(pre: Seq<Seq<char>>, bad: Seq<char>, post: Seq<
    Seq<char>,
>)
    requires
        !is_comment_line(bad),
        spec_parse(bad) is None,
    ensures
        spec_parse_many(pre + seq![bad] + post) == spec_parse_many(pre) + spec_parse_many(post),
{
    assert(pre + seq![bad] + post =~= pre + (seq![bad] + post));
    lemma_parse_many_append(pre, seq![bad] + post);
    lemma_parse_many_cons(bad, post);
}

/// Finds the first occurrence of `c` in `s` at or after index `from`.
pub(crate) fn find_char_from(s: &str, c: char, from: usize) -> (r: Option<usize>)
    requires
        from <= s@.len(),
    ensures
        match r {
            Option::Some(i) => from <= i < s@.len() && i as int == first_of_from(
                s@,
                c,
                from as int,
            ),
            Option::None => first_of_from(s@, c, from as int) == s@.len(),
        },
{
    let n = s.unicode_len();
    let mut i = from;
    while i < n
        invariant
            from <= i <= n,
            n == s@.len(),
            no_char_in(s@, c, from as int, i as int),
        decreases n - i,
    {
        if s.get_char(i) == c {
            proof {
                lemma_first_of_from_is(s@, c, from as int, i as int);
            }
            return Option::Some(i);
        }
        i = i + 1;
    }
    proof {
        lemma_first_of_from_none(s@, c, from as int);
    }
    Option::None
}

impl KeyParseError {
    /// Human-readable description of the failure.
    pub fn message(&self) -> (r: String)
        ensures
            r@ == "Failed to parse publickey"@,
    {
        "Failed to parse publickey".to_owned()
    }
}

impl SshPublicKey {
    /// Parses one `type base64[ comment]` line.  The parsed key is
    /// not yet assigned to anyone.  Fails exactly on lines that do
    /// not hold both a type token and a base64 token.
    pub fn parse(line: &str) -> (r: Result<SshPublicKey, KeyParseError>)
        ensures
            match r {
                Ok(k) => spec_parse(line@) == Option::Some(k@),
                Err(_) => spec_parse(line@) is None,
            },
    {
        let n = line.unicode_len();
        match find_char_from(line, ' ', 0) {
            Option::None => Err(KeyParseError::Malformed),
            Option::Some(i) => {
                if i == 0 {
                    return Err(KeyParseError::Malformed);
                }
                let key_type = line.substring_char(0, i).to_owned();
                match find_char_from(line, ' ', i + 1) {
                    Option::None => {
                        if i + 1 == n {
                            return Err(KeyParseError::Malformed);
                        }
                        let key_base64 = line.substring_char(i + 1, n).to_owned();
                        Ok(
                            SshPublicKey {
                                key_type,
                                key_base64,
                                comment: Option::None,
                                owner: KeyOwner::Unowned,
                            },
                        )
                    },
                    Option::Some(j) => {
                        if j == i + 1 {
                            return Err(KeyParseError::Malformed);
                        }
                        let key_base64 = line.substring_char(i + 1, j).to_owned();
                        let comment = line.substring_char(j + 1, n).to_owned();
                        Ok(
                            SshPublicKey {
                                key_type,
                                key_base64,
                                comment: Option::Some(comment),
                                owner: KeyOwner::Unowned,
                            },
                        )
                    },
                }
            },
        }
    }

    /// Best-effort parse of a whole `authorized_keys` file: comment
    /// lines (starting with `#`) are skipped and individually
    /// malformed lines are dropped; every parseable line yields one
    /// key, in file order.
    pub fn from_lines(lines: &str) -> (r: Vec<SshPublicKey>)
        ensures
            keys_view(r@) == spec_from_lines(lines@),
    {
        let n = lines.unicode_len();
        let mut out: Vec<SshPublicKey> = Vec::new();
        let mut pos: usize = 0;
        proof {
            assert(keys_view(out@) + spec_parse_many(spec_lines_from(lines@, 0)) =~= spec_from_lines(
                lines@,
            ));
        }
        while pos < n
            invariant
                pos <= n,
                n == lines@.len(),
                keys_view(out@) + spec_parse_many(spec_lines_from(lines@, pos as int))
                    == spec_from_lines(lines@),
            decreases n - pos,
        {
            let ghost prev_out = out@;
            let ghost prev_pos = pos as int;
            let (line_end, next_pos): (usize, usize) = match find_char_from(lines, '\n', pos) {
                Option::Some(i) => {
                    if i > pos && lines.get_char(i - 1) == '\r' {
                        (i - 1, i + 1)
                    } else {
                        (i, i + 1)
                    }
                },
                Option::None => (n, n),
            };
            let line = lines.substring_char(pos, line_end);
            proof {
                assert(spec_lines_from(lines@, prev_pos) =~= seq![line@] + spec_lines_from(
                    lines@,
                    next_pos as int,
                ));
            }
            let is_comment = if line.unicode_len() > 0 {
                line.get_char(0) == '#'
            } else {
                false
            };
            if !is_comment {
                match SshPublicKey::parse(line) {
                    Ok(k) => {
                        out.push(k);
                    },
                    Err(_) => {},
                }
            }
            pos = next_pos;
            proof {
                lemma_parse_many_cons(line@, spec_lines_from(lines@, pos as int));
                assert(keys_view(out@) + spec_parse_many(spec_lines_from(lines@, pos as int))
                    =~= keys_view(prev_out) + spec_parse_many(spec_lines_from(lines@, prev_pos)));
            }
        }
        proof {
            assert(keys_view(out@) =~= spec_from_lines(lines@));
        }
        out
    }

    /// A labelled, human-readable rendering of the key.
    pub fn describe(&self) -> (r: String)
        ensures
            r@ == spec_describe(self@),
    {
        let mut out = "Type: ".to_owned();
        out.append(self.key_type.as_str());
        match &self.comment {
            Option::Some(c) => {
                out.append("; Comment: ");
                out.append(c.as_str());
            },
            Option::None => {},
        }
        out.append("; Base64: ");
        out.append(self.key_base64.as_str());
        out
    }

    /// An explicit copy with the same abstract value.
    pub fn duplicate(&self) -> (r: SshPublicKey)
        ensures
            r@ == self@,
    {
        SshPublicKey {
            key_type: self.key_type.clone(),
            key_base64: self.key_base64.clone(),
            comment: match &self.comment {
                Option::Some(c) => Option::Some(c.clone()),
                Option::None => Option::None,
            },
            owner: self.owner,
        }
    }

    /// Writes the key back in the `type base64[ comment]` line form.
    pub fn serialize(&self) -> (r: String)
        ensures
            r@ == spec_serialize(self@),
    {
        let mut out = self.key_type.clone();
        out.append(" ");
        out.append(self.key_base64.as_str());
        match &self.comment {
            Option::Some(c) => {
                out.append(" ");
                out.append(c.as_str());
            },
            Option::None => {},
        }
        proof {
            reveal_strlit(" ");
            assert(" "@ =~= seq![' ']);
            assert(out@ =~= spec_serialize(self@));
        }
        out
    }
}

} // verus!
