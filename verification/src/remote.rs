use vstd::prelude::*;

use crate::errors::SshClientError;
use crate::keys::SshPublicKey;
use crate::keys::is_comment_line;
use crate::keys::spec_lines;
use crate::keys::spec_lines_from;
use crate::keys::spec_parse;
use crate::keys::find_char_from;

verus! {

/// The read command for a host's own installed server keys.
pub fn server_keys_command() -> (r: &'static str)
    ensures
        r@ == "cat /etc/ssh/ssh_host_*_key.pub"@,
{
    "cat /etc/ssh/ssh_host_*_key.pub"
}

/// The read command for the login user's authorized keys.
pub fn authorized_keys_command() -> (r: &'static str)
    ensures
        r@ == "cat ~/.ssh/authorized_keys"@,
{
    "cat ~/.ssh/authorized_keys"
}

/// Interprets a finished remote command: a non-zero exit status is an
/// execution error; a clean empty output is simply empty output,
/// never an error.
pub fn command_outcome(exit_status: u32, stdout: String) -> (r: Result<String, SshClientError>)
    ensures
        r is Ok <==> exit_status == 0,
        r matches Ok(s) ==> s == stdout,
        r matches Err(e) ==> e is ExecutionError,
{
    if exit_status == 0 {
        Ok(stdout)
    } else {
        Err(SshClientError::ExecutionError("Command exited with non-zero exit code".to_owned()))
    }
}

/// A line that removing key material `b64` deletes: a parseable,
/// non-comment line whose base64 field is exactly `b64`.  Comments
/// and unparseable lines are always kept.
pub open spec fn line_matches_key(l: Seq<char>, b64: Seq<char>) -> bool {
    &&& !is_comment_line(l)
    &&& match spec_parse(l) {
        Option::Some(k) => k.key_base64 == b64,
        Option::None => false,
    }
}

/// The lines kept when removing key material `b64`, in order.
pub open spec fn spec_remove_key(lines: Seq<Seq<char>>, b64: Seq<char>) -> Seq<Seq<char>>
    decreases lines.len(),
{
    if lines.len() == 0 {
        Seq::empty()
    } else {
        let rest = spec_remove_key(lines.drop_first(), b64);
        if line_matches_key(lines.first(), b64) {
            rest
        } else {
            seq![lines.first()] + rest
        }
    }
}

/// Unfolds `spec_remove_key` one line at a time.
pub proof fn lemma_remove_key_cons(l: Seq<char>, rest: Seq<Seq<char>>, b64: Seq<char>)
    ensures
        spec_remove_key(seq![l] + rest, b64) == if line_matches_key(l, b64) {
            spec_remove_key(rest, b64)
        } else {
            seq![l] + spec_remove_key(rest, b64)
        },
{
    let all = seq![l] + rest;
    assert(all.first() == l);
    assert(all.drop_first() =~= rest);
}

/// No kept line matches the removed key.
pub proof fn lemma_remove_key_complete(lines: Seq<Seq<char>>, b64: Seq<char>)
    ensures
        forall|i: int|
            0 <= i < spec_remove_key(lines, b64).len() ==> !line_matches_key(
                #[trigger] spec_remove_key(lines, b64)[i],
                b64,
            ),
    decreases lines.len(),
{
    if lines.len() > 0 {
        lemma_remove_key_complete(lines.drop_first(), b64);
        let rest = spec_remove_key(lines.drop_first(), b64);
        let kept = spec_remove_key(lines, b64);
        if !line_matches_key(lines.first(), b64) {
            assert forall|i: int| 0 <= i < kept.len() implies !line_matches_key(
                kept[i],
                b64,
            ) by {
                if i == 0 {
                    assert(kept[0] == lines.first());
                } else {
                    assert(kept[i] == rest[i - 1]);
                }
            }
        }
    }
}

/// Removing a key twice is the same as removing it once: the second
/// removal finds nothing left to delete and keeps every line.
pub proof fn lemma_remove_key_idempotent(lines: Seq<Seq<char>>, b64: Seq<char>)
    ensures
        spec_remove_key(spec_remove_key(lines, b64), b64) == spec_remove_key(lines, b64),
    decreases lines.len(),
{
    if lines.len() == 0 {
    } else {
        let rest = lines.drop_first();
        lemma_remove_key_idempotent(rest, b64);
        if line_matches_key(lines.first(), b64) {
        } else {
            lemma_remove_key_cons(lines.first(), spec_remove_key(rest, b64), b64);
        }
    }
}

/// Rewrites an `authorized_keys` file without the lines whose base64
/// field is `key_base64`, preserving every other line — comments and
/// unparseable lines included — in order.  Removal is idempotent and
/// succeeds whether or not the key is present.
pub fn remove_key_lines(content: &str, key_base64: &String) -> (r: Vec<String>)
    ensures
        r@.map_values(|s: String| s@) == spec_remove_key(spec_lines(content@), key_base64@),
{
    let n = content.unicode_len();
    let mut out: Vec<String> = Vec::new();
    let mut pos: usize = 0;
    proof {
        assert(out@.map_values(|s: String| s@) + spec_remove_key(
            spec_lines_from(content@, 0),
            key_base64@,
        ) =~= spec_remove_key(spec_lines(content@), key_base64@));
    }
    while pos < n
        invariant
            pos <= n,
            n == content@.len(),
            out@.map_values(|s: String| s@) + spec_remove_key(
                spec_lines_from(content@, pos as int),
                key_base64@,
            ) == spec_remove_key(spec_lines(content@), key_base64@),
        decreases n - pos,
    {
        let ghost prev_out = out@;
        let ghost prev_pos = pos as int;
        let (line_end, next_pos): (usize, usize) = match find_char_from(content, '\n', pos) {
            Option::Some(i) => {
                if i > pos && content.get_char(i - 1) == '\r' {
                    (i - 1, i + 1)
                } else {
                    (i, i + 1)
                }
            },
            Option::None => (n, n),
        };
        let line = content.substring_char(pos, line_end);
        proof {
            assert(spec_lines_from(content@, prev_pos) =~= seq![line@] + spec_lines_from(
                content@,
                next_pos as int,
            ));
        }
        let keep: bool = if line.unicode_len() > 0 && line.get_char(0) == '#' {
            true
        } else {
            match SshPublicKey::parse(line) {
                Ok(k) => !(k.key_base64 == *key_base64),
                Err(_) => true,
            }
        };
        if keep {
            out.push(line.to_owned());
        }
        pos = next_pos;
        proof {
            lemma_remove_key_cons(
                line@,
                spec_lines_from(content@, pos as int),
                key_base64@,
            );
            assert(out@.map_values(|s: String| s@) + spec_remove_key(
                spec_lines_from(content@, pos as int),
                key_base64@,
            ) =~= prev_out.map_values(|s: String| s@) + spec_remove_key(
                spec_lines_from(content@, prev_pos),
                key_base64@,
            ));
        }
    }
    proof {
        assert(out@.map_values(|s: String| s@) =~= spec_remove_key(
            spec_lines(content@),
            key_base64@,
        ));
    }
    out
}

} // verus!
