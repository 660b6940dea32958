use keywarden::keys::{KeyOwner, SshPublicKey};
use keywarden::remote::{command_outcome, remove_key_lines};
use keywarden::errors::SshClientError;

#[test]
fn parse_line_with_comment() {
    let k = SshPublicKey::parse("ssh-ed25519 AAAAC3Nza user@example").unwrap();
    assert_eq!(k.key_type, "ssh-ed25519");
    assert_eq!(k.key_base64, "AAAAC3Nza");
    assert_eq!(k.comment.as_deref(), Some("user@example"));
    assert!(matches!(k.owner, KeyOwner::Unowned));
}

#[test]
fn parse_line_without_comment() {
    let k = SshPublicKey::parse("ssh-rsa AAAAB3Nza").unwrap();
    assert_eq!(k.key_type, "ssh-rsa");
    assert_eq!(k.key_base64, "AAAAB3Nza");
    assert!(k.comment.is_none());
}

#[test]
fn parse_comment_keeps_inner_spaces() {
    let k = SshPublicKey::parse("ssh-rsa AAAA a comment with spaces").unwrap();
    assert_eq!(k.comment.as_deref(), Some("a comment with spaces"));
}

#[test]
fn parse_rejects_line_without_space() {
    assert!(SshPublicKey::parse("garbage").is_err());
    assert!(SshPublicKey::parse("").is_err());
}

#[test]
fn parse_rejects_empty_tokens() {
    // an empty type token
    assert!(SshPublicKey::parse(" AAAA").is_err());
    // an empty base64 token, with and without trailing text
    assert!(SshPublicKey::parse("ssh-rsa ").is_err());
    assert!(SshPublicKey::parse("ssh-rsa  comment").is_err());
}

#[test]
fn from_lines_strips_carriage_returns_before_newlines() {
    let keys = SshPublicKey::from_lines("ssh-rsa AAA alice\r\nssh-ed25519 BBB\r\n");
    assert_eq!(keys.len(), 2);
    assert_eq!(keys[0].key_base64, "AAA");
    assert_eq!(keys[0].comment.as_deref(), Some("alice"));
    assert_eq!(keys[1].key_base64, "BBB");
    assert!(keys[1].comment.is_none());
}

#[test]
fn remove_key_matches_keys_on_crlf_content() {
    let kept = remove_key_lines(
        "ssh-rsa AAA alice\r\nssh-ed25519 BBB bob\r\n",
        &"AAA".to_string(),
    );
    assert_eq!(kept, vec!["ssh-ed25519 BBB bob".to_string()]);
}

#[test]
fn round_trip_with_comment() {
    let line = "ssh-ed25519 AAAAC3Nza user@example";
    let k = SshPublicKey::parse(line).unwrap();
    assert_eq!(k.serialize(), line);
}

#[test]
fn round_trip_without_comment() {
    let line = "ssh-rsa AAAAB3Nza";
    let k = SshPublicKey::parse(line).unwrap();
    assert_eq!(k.serialize(), line);
}

#[test]
fn from_lines_drops_malformed_line_keeps_rest_in_order() {
    let input = "ssh-rsa AAA alice\nnot-a-key\nssh-ed25519 BBB bob";
    let keys = SshPublicKey::from_lines(input);
    assert_eq!(keys.len(), 2);
    assert_eq!(keys[0].key_base64, "AAA");
    assert_eq!(keys[1].key_base64, "BBB");
}

#[test]
fn from_lines_skips_comment_lines() {
    let input = "# a comment line\nssh-rsa AAA alice\n# another one\n";
    let keys = SshPublicKey::from_lines(input);
    assert_eq!(keys.len(), 1);
    assert_eq!(keys[0].key_type, "ssh-rsa");
}

#[test]
fn from_lines_empty_input_yields_no_keys() {
    assert!(SshPublicKey::from_lines("").is_empty());
    assert!(SshPublicKey::from_lines("\n\n").is_empty());
}

#[test]
fn command_outcome_zero_exit_is_ok_even_when_empty() {
    assert_eq!(command_outcome(0, String::new()).unwrap(), "");
    assert_eq!(command_outcome(0, "out".to_string()).unwrap(), "out");
}

#[test]
fn command_outcome_nonzero_exit_is_execution_error() {
    let e = command_outcome(1, "ignored".to_string()).unwrap_err();
    assert!(matches!(e, SshClientError::ExecutionError(_)));
}

#[test]
fn remove_key_removes_exactly_matching_lines() {
    let content = "ssh-rsa AAA alice\n# keep me\nnot a-real-key line\nssh-ed25519 BBB bob";
    let kept = remove_key_lines(content, &"AAA".to_string());
    assert_eq!(
        kept,
        vec![
            "# keep me".to_string(),
            "not a-real-key line".to_string(),
            "ssh-ed25519 BBB bob".to_string()
        ]
    );
}

#[test]
fn remove_key_twice_succeeds_and_changes_nothing_more() {
    let content = "ssh-rsa AAA alice\nssh-ed25519 BBB bob";
    let b64 = "AAA".to_string();
    let once = remove_key_lines(content, &b64);
    let again = remove_key_lines(once.join("\n").as_str(), &b64);
    assert_eq!(once, again);
    assert_eq!(once, vec!["ssh-ed25519 BBB bob".to_string()]);
}

#[test]
fn remove_key_absent_key_is_success_and_identity() {
    let content = "ssh-ed25519 BBB bob";
    let kept = remove_key_lines(content, &"ZZZ".to_string());
    assert_eq!(kept, vec!["ssh-ed25519 BBB bob".to_string()]);
}

#[test]
fn serialize_then_parse_returns_the_same_key() {
    let k = SshPublicKey {
        key_type: "ssh-ed25519".to_string(),
        key_base64: "AAAAC3Nza".to_string(),
        comment: Some("alice at home".to_string()),
        owner: KeyOwner::Unowned,
    };
    let back = SshPublicKey::parse(&k.serialize()).unwrap();
    assert_eq!(back.key_type, k.key_type);
    assert_eq!(back.key_base64, k.key_base64);
    assert_eq!(back.comment, k.comment);
}

#[test]
fn describe_labels_the_fields() {
    let k = SshPublicKey::parse("ssh-rsa AAA alice").unwrap();
    assert_eq!(k.describe(), "Type: ssh-rsa; Comment: alice; Base64: AAA");
    let k = SshPublicKey::parse("ssh-rsa AAA").unwrap();
    assert_eq!(k.describe(), "Type: ssh-rsa; Base64: AAA");
}

#[test]
fn parse_error_message() {
    let e = SshPublicKey::parse("nospace").unwrap_err();
    assert_eq!(e.message(), "Failed to parse publickey");
}
