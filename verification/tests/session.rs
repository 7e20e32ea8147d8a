use std::io::Read;
use tau_core::session::file::{
    archive_bytes, blob_for, check_crc, resolve_blob, unarchive_bytes, StoreError, DEFAULT_BLOB_THRESHOLD,
};
use tau_core::session::lines::{
    crc_text, entry_id, entry_lines, entry_number, fork_text, header_belongs, leaf_line, listed_id, next_number,
    range_lines, since_lines, with_header,
};
use tau_core::session::{crc32, new_session_id, session_id_from, SessionStore};

#[test]
fn crc32_table_matches_the_old_bitwise_values() {
    assert_eq!(crc32(b"123456789"), 0xCBF4_3926);
    assert_eq!(crc32(b""), 0);
    fn crc32_bitwise(data: &[u8]) -> u32 {
        let mut crc = 0xFFFF_FFFFu32;
        for &b in data {
            crc ^= u32::from(b);
            for _ in 0..8 {
                crc = (crc >> 1) ^ (0xEDB8_8320 & ((crc & 1) * 0xEDB8_8320));
            }
        }
        !crc
    }
    let mut data = Vec::new();
    let mut x: u64 = 0x9E37_79B9_7F4A_7C15;
    for i in 0..4096 {
        x = x.wrapping_mul(6_364_136_223_846_793_005).wrapping_add(i as u64);
        data.push((x >> 33) as u8);
    }
    assert_eq!(crc32(&data), crc32_bitwise(&data));
}

#[test]
fn session_session_ids_are_distinct_and_well_formed() {
    let a = new_session_id();
    let b = new_session_id();
    assert_ne!(a, b);
    assert_eq!(a.len(), 12);
    assert!(a.chars().all(|c| c.is_ascii_hexdigit()));
}

#[test]
fn tests_session_ids_are_distinct_and_well_formed() {
    let a = new_session_id();
    let b = new_session_id();
    assert_ne!(a, b);
    assert_eq!(a.len(), 12);
    assert!(a.chars().all(|c| c.is_ascii_hexdigit()));
}

#[test]
fn a_session_id_is_the_hex_of_its_bytes() {
    assert_eq!(session_id_from(&[0x00, 0x0f, 0xa0, 0xff, 0x12, 0x3c]), "000fa0ff123c");
}

#[test]
fn the_store_lives_under_the_workspace_tau_dir() {
    let s = SessionStore::for_workspace("/proj", "abc123");
    assert_eq!(s.id(), "abc123");
    assert_eq!(s.path(), "/proj/.tau/sessions/abc123.jsonl");
    assert_eq!(s.archive_path(), "/proj/.tau/archive/abc123.jsonl.zst");
    assert_eq!(s.created(), 0);
    assert_eq!(s.title(), None);
    assert_eq!(s.parent(), None);
    let t = SessionStore::for_workspace("/proj/", "x").with_fixed_time(5);
    assert_eq!(t.path(), "/proj/.tau/sessions/x.jsonl");
}

#[test]
fn a_store_refreshes_until_loaded_and_when_the_file_grows() {
    let mut s = SessionStore::for_workspace("/p", "id");
    assert!(s.refresh_if_grown(0));
    s.mark_loaded(100);
    assert!(!s.refresh_if_grown(100));
    assert!(s.refresh_if_grown(101));
    s.adopt_leaf("00000007");
    assert_eq!(s.id(), "id");
}


fn owned(v: &[&str]) -> Vec<String> {
    v.iter().map(|s| s.to_string()).collect()
}

#[test]
fn entry_ids_are_zero_padded_numbers() {
    assert_eq!(entry_id(0), "00000000");
    assert_eq!(entry_id(42), "00000042");
    assert_eq!(entry_id(123456789), "123456789");
    assert_eq!(entry_number("00000042"), 42);
    assert_eq!(entry_number("+7"), 7);
    assert_eq!(entry_number(""), 0);
    assert_eq!(entry_number("+"), 0);
    assert_eq!(entry_number("-1"), 0);
    assert_eq!(entry_number("4a"), 0);
    assert_eq!(entry_number("18446744073709551615"), u64::MAX);
    assert_eq!(entry_number("18446744073709551616"), 0);
}

#[test]
fn the_next_number_follows_the_largest_entry() {
    assert_eq!(next_number(&[]), 1);
    assert_eq!(next_number(&owned(&["00000000"])), 1);
    assert_eq!(next_number(&owned(&["00000000", "00000002", "00000001"])), 3);
    // A foreign id counts as number 0.
    assert_eq!(next_number(&owned(&["x", "00000004"])), 5);
}

#[test]
fn the_line_checksum_is_the_crc_in_hex() {
    assert_eq!(crc_text("123456789"), "cbf43926");
    assert_eq!(crc_text(""), "00000000");
}

#[test]
fn a_torn_tail_is_dropped_and_a_complete_one_kept() {
    let header = "{\"type\":\"session\"}";
    let raw = format!("{header}\n{{\"id\":\"00000000\"}}\n{{\"id\":\"000");
    let lines = entry_lines(&raw, |l: &str| l.ends_with('}'));
    assert_eq!(lines, owned(&[header, "{\"id\":\"00000000\"}"]));
    let raw = format!("{header}\n{{\"id\":\"00000000\"}}");
    let lines = entry_lines(&raw, |l: &str| l.ends_with('}'));
    assert_eq!(lines, owned(&[header, "{\"id\":\"00000000\"}"]));
    // A terminated file is taken whole; the parse is not consulted.
    let raw = format!("{header}\nbroken\n");
    let lines = entry_lines(&raw, |_: &str| false);
    assert_eq!(lines, owned(&[header, "broken"]));
    assert!(entry_lines("", |_: &str| false).is_empty());
}

#[test]
fn paged_reads_keep_the_slots_of_empty_lines() {
    let lines = owned(&["H", "a", "", "c", "d"]);
    let page: Vec<(usize, String)> = range_lines(&lines, 1, 3);
    assert_eq!(page, vec![(4, "c".to_owned())]);
    let all = range_lines(&lines, 0, usize::MAX);
    assert_eq!(all, vec![(2, "a".to_owned()), (4, "c".to_owned()), (5, "d".to_owned())]);
    assert!(range_lines(&[], 0, 5).is_empty());
}

#[test]
fn a_tail_read_starts_after_the_cursor_line() {
    let lines = owned(&["H", "{\"id\":\"00000000\",\"x\":1}", "", "{\"id\":\"00000002\"}", "{\"id\":\"00000003\"}"]);
    assert_eq!(since_lines(&lines, "00000000"), vec![(4, lines[3].clone()), (5, lines[4].clone())]);
    assert_eq!(since_lines(&lines, "00000003"), Vec::<(usize, String)>::new());
    assert!(since_lines(&lines, "00000009").is_empty());
}

#[test]
fn the_leaf_line_is_the_last_non_empty_entry_line() {
    assert_eq!(leaf_line(&owned(&["H", "a", "b", ""])), Some("b".to_owned()));
    assert_eq!(leaf_line(&owned(&["H"])), None);
    assert_eq!(leaf_line(&owned(&["H", ""])), None);
}

#[test]
fn a_header_rewrite_leaves_the_entry_lines_alone() {
    let before = "OLD\na\nb\n";
    let after = with_header(before, "NEW");
    assert_eq!(after, "NEW\na\nb\n");
    assert_eq!(before.split_once('\n').unwrap().1, after.split_once('\n').unwrap().1);
    assert_eq!(with_header("OLD", "NEW"), "NEW");
    assert_eq!(fork_text("OLD\r\na\nb", "NEW"), Some("NEW\na\nb\n".to_owned()));
    assert_eq!(fork_text("", "NEW"), None);
}

#[test]
fn listed_files_name_their_sessions() {
    assert_eq!(listed_id("abc.jsonl"), Some("abc".to_owned()));
    assert_eq!(listed_id("abc.jsonl.zst"), Some("abc".to_owned()));
    assert_eq!(listed_id("abc.json"), None);
    assert!(header_belongs("session", "abc", "abc"));
    assert!(!header_belongs("session", "abd", "abc"));
    assert!(!header_belongs("entry", "abc", "abc"));
}

/// A session file's text: the header and three message lines.
fn seeded_text() -> String {
    let mut t = String::from("{\"type\":\"session\",\"version\":1,\"id\":\"s1\",\"created\":0}\n");
    for (i, text) in ["one", "two", "three"].iter().enumerate() {
        t.push_str(&format!("{{\"id\":\"{:08}\",\"timestamp\":0,\"type\":\"message\",\"payload\":{{\"text\":\"{text}\"}}}}\n", i));
    }
    t
}

/// The first `cap` bytes an archive's stream decodes to.
fn bounded_decode(archived: &[u8], cap: u64) -> Vec<u8> {
    let mut buf = Vec::new();
    zstd::Decoder::new(archived).unwrap().take(cap).read_to_end(&mut buf).unwrap();
    buf
}

#[test]
fn session_small_payload_stays_inline() {
    let payload = serde_json::to_string(&serde_json::Value::String("y".repeat(50))).unwrap();
    assert!(blob_for("00000000", payload.as_bytes()).unwrap().is_none());
    let edge = vec![b'x'; DEFAULT_BLOB_THRESHOLD as usize];
    assert!(blob_for("00000000", &edge).unwrap().is_none());
}

#[test]
fn tests_small_payload_stays_inline() {
    let payload = serde_json::to_string(&serde_json::Value::String("y".repeat(50))).unwrap();
    assert!(blob_for("00000000", payload.as_bytes()).unwrap().is_none());
    let edge = vec![b'x'; DEFAULT_BLOB_THRESHOLD as usize];
    assert!(blob_for("00000000", &edge).unwrap().is_none());
}

#[test]
fn oversized_payload_becomes_a_sidecar_blob() {
    let payload = serde_json::to_string(&serde_json::Value::String("x".repeat(120_000))).unwrap();
    let (reference, compressed) = blob_for("00000000", payload.as_bytes()).unwrap().unwrap();
    assert_eq!(reference.id, "00000000");
    assert_eq!(reference.size, 120_002);
    assert_eq!(reference.hash, format!("{:016x}", xxhash_rust::xxh3::xxh3_64(payload.as_bytes())));
    let decoded = resolve_blob(&reference, &compressed).unwrap();
    assert_eq!(decoded, payload.as_bytes());
}

#[test]
fn a_blob_that_does_not_hash_to_its_reference_is_refused() {
    let payload = vec![b'a'; DEFAULT_BLOB_THRESHOLD as usize + 1];
    let (mut reference, compressed) = blob_for("00000007", &payload).unwrap().unwrap();
    reference.hash = "0000000000000000".into();
    match resolve_blob(&reference, &compressed) {
        Err(StoreError::Other(m)) => assert_eq!(m, "blob 00000007 hash mismatch"),
        other => panic!("expected a mismatch, got {other:?}"),
    }
    // Bytes that are not a frame do not decode.
    assert!(matches!(resolve_blob(&reference, b"not zstd"), Err(StoreError::Other(_))));
}

#[test]
fn archive_and_unarchive_round_trip() {
    let original = seeded_text().into_bytes();
    let archived = archive_bytes(&original).unwrap();
    assert_eq!(unarchive_bytes(&archived).unwrap(), original);
    assert!(matches!(unarchive_bytes(b"plain"), Err(StoreError::Io(_))));
}

#[test]
fn an_archive_header_read_needs_no_full_decode() {
    let mut text = seeded_text();
    // A body big enough that a full decode would be the obvious way to
    // read the header; the bounded read does not need it.
    for i in 0..200 {
        text.push_str(&format!("{{\"text\":\"entry {i} {}\"}}\n", "x".repeat(512)));
    }
    let archived = archive_bytes(text.as_bytes()).unwrap();
    let s = SessionStore::for_workspace("/w", "s1");
    let line = s.archive_header_from(&bounded_decode(&archived, 4096)).unwrap();
    let h: serde_json::Value = serde_json::from_str(&line).unwrap();
    assert_eq!(h["id"], "s1");
    assert_eq!(h["type"], "session");
    assert_eq!(h["version"], 1);
}

#[test]
fn an_archive_header_overflow_is_an_error() {
    // A first line over the cap with no newline: the bounded read stops
    // at the cap and reports the overflow instead of decoding on.
    let header = format!(
        "{{\"type\":\"session\",\"version\":1,\"id\":\"s1\",\"created\":0,\"title\":\"{}\"}}{}",
        "x".repeat(4500),
        "y".repeat(1000)
    );
    let archived = archive_bytes(header.as_bytes()).unwrap();
    let s = SessionStore::for_workspace("/w", "s1");
    assert!(s.archive_header_from(&bounded_decode(&archived, 4096)).is_err());
    match s.archive_header_from(&vec![b'h'; 4096]) {
        Err(StoreError::Other(m)) => assert_eq!(m, "archive s1 header exceeds the 4096-byte read"),
        other => panic!("{other:?}"),
    }
    match s.archive_header_from(b"no newline") {
        Err(StoreError::Other(m)) => assert_eq!(m, "archive s1 has no header line"),
        other => panic!("{other:?}"),
    }
    assert!(matches!(s.archive_header_from(&[0xff, b'\n']), Err(StoreError::Other(_))));
}

#[test]
fn archiving_twice_is_rejected() {
    let s = SessionStore::for_workspace("/w", "s1");
    // The first archive finds the live file and no archive.
    assert!(s.archive_refusal(true, false).is_none());
    // After it the live file is gone and the archive is there.
    assert!(s.archive_refusal(false, true).is_some());
}

#[test]
fn archiving_refusals_name_the_files() {
    let s = SessionStore::for_workspace("/w", "s1");
    match s.archive_refusal(false, false) {
        Some(StoreError::Other(m)) => assert_eq!(m, "cannot archive /w/.tau/sessions/s1.jsonl: not present"),
        other => panic!("{other:?}"),
    }
    match s.archive_refusal(true, true) {
        Some(StoreError::Other(m)) => assert_eq!(m, "archive /w/.tau/archive/s1.jsonl.zst already exists"),
        other => panic!("{other:?}"),
    }
    assert!(s.archive_refusal(true, false).is_none());
    match s.unarchive_refusal(true, true) {
        Some(StoreError::Other(m)) => assert_eq!(m, "live session already present"),
        other => panic!("{other:?}"),
    }
    match s.unarchive_refusal(false, false) {
        Some(StoreError::Other(m)) => assert_eq!(m, "archive /w/.tau/archive/s1.jsonl.zst not present"),
        other => panic!("{other:?}"),
    }
    assert!(s.unarchive_refusal(false, true).is_none());
    assert_eq!(s.blob_path("00000003"), "/w/.tau/blobs/00000003");
}

#[test]
fn a_checksum_mismatch_is_a_corrupt_line() {
    assert!(check_crc(2, "cbf43926", Some("cbf43926")).is_ok());
    match check_crc(3, "cbf43926", Some("cbf43927")) {
        Err(StoreError::Corrupt { line, expected, actual }) => {
            assert_eq!(line, 3);
            assert_eq!(expected, "cbf43926");
            assert_eq!(actual, "cbf43927");
        },
        other => panic!("expected Corrupt, got {other:?}"),
    }
    let missing = check_crc(4, "cbf43926", None).unwrap_err();
    assert_eq!(missing.message(), "corrupt session line 4: expected crc cbf43926, found ");
    assert_eq!(StoreError::Other("gone".into()).message(), "gone");
}

#[test]
fn session_unsupported_version_is_rejected() {
    let mut s = SessionStore::for_workspace("/w", "s1");
    match s.adopt_header("session", 9, "s1", 0, None, None, None) {
        Err(StoreError::Other(m)) => assert_eq!(m, "unsupported session file version 9"),
        other => panic!("{other:?}"),
    }
    match s.adopt_header("entry", 1, "s1", 0, None, None, None) {
        Err(StoreError::Other(m)) => assert_eq!(m, "first line is not a session header"),
        other => panic!("{other:?}"),
    }
    match s.adopt_header("session", 1, "s2", 0, None, None, None) {
        Err(StoreError::Other(m)) => assert_eq!(m, "header id s2 does not match file id s1"),
        other => panic!("{other:?}"),
    }
    assert!(s.adopt_header("session", 1, "s1", 42, Some("00000002".into()), Some("t".into()), None).is_ok());
    assert_eq!(s.created(), 42);
    assert_eq!(s.title(), Some("t"));
}

#[test]
fn tests_unsupported_version_is_rejected() {
    let mut s = SessionStore::for_workspace("/w", "s1");
    match s.adopt_header("session", 9, "s1", 0, None, None, None) {
        Err(StoreError::Other(m)) => assert_eq!(m, "unsupported session file version 9"),
        other => panic!("{other:?}"),
    }
    match s.adopt_header("entry", 1, "s1", 0, None, None, None) {
        Err(StoreError::Other(m)) => assert_eq!(m, "first line is not a session header"),
        other => panic!("{other:?}"),
    }
    match s.adopt_header("session", 1, "s2", 0, None, None, None) {
        Err(StoreError::Other(m)) => assert_eq!(m, "header id s2 does not match file id s1"),
        other => panic!("{other:?}"),
    }
    assert!(s.adopt_header("session", 1, "s1", 42, Some("00000002".into()), Some("t".into()), None).is_ok());
    assert_eq!(s.created(), 42);
    assert_eq!(s.title(), Some("t"));
}

#[test]
fn session_unknown_parent_is_rejected() {
    let mut s = SessionStore::for_workspace("/w", "s1");
    s.adopt_entries(owned(&["00000000", "00000002", "00000003"]));
    match s.parent_refusal(Some("99999999")) {
        Some(StoreError::Other(m)) => assert_eq!(m, "unknown parent 99999999"),
        other => panic!("{other:?}"),
    }
    assert!(s.parent_refusal(Some("00000002")).is_none());
    assert!(s.parent_refusal(None).is_none());
    match s.leaf_refusal("00000009") {
        Some(StoreError::Other(m)) => assert_eq!(m, "unknown leaf 00000009"),
        other => panic!("{other:?}"),
    }
    assert!(s.leaf_refusal("00000003").is_none());
}

#[test]
fn tests_unknown_parent_is_rejected() {
    let mut s = SessionStore::for_workspace("/w", "s1");
    s.adopt_entries(owned(&["00000000", "00000002", "00000003"]));
    match s.parent_refusal(Some("99999999")) {
        Some(StoreError::Other(m)) => assert_eq!(m, "unknown parent 99999999"),
        other => panic!("{other:?}"),
    }
    assert!(s.parent_refusal(Some("00000002")).is_none());
    assert!(s.parent_refusal(None).is_none());
    match s.leaf_refusal("00000009") {
        Some(StoreError::Other(m)) => assert_eq!(m, "unknown leaf 00000009"),
        other => panic!("{other:?}"),
    }
    assert!(s.leaf_refusal("00000003").is_none());
}

#[test]
fn appends_number_their_entries_past_the_loaded_ones() {
    let mut fresh = SessionStore::for_workspace("/w", "s1");
    // Before any load the first id is number 0.
    assert_eq!(fresh.next_entry_id(), "00000000");
    fresh.adopt_entries(Vec::new());
    assert_eq!(fresh.next_entry_id(), "00000001");
    let mut s = SessionStore::for_workspace("/w", "s1");
    s.adopt_entries(owned(&["00000000", "00000002", "00000003"]));
    let id = s.next_entry_id();
    assert_eq!(id, "00000004");
    assert!(!s.has_entry(&id));
    s.record_append(id.clone());
    assert!(s.has_entry(&id));
    assert_eq!(s.next_entry_id(), "00000005");
    assert_eq!(SessionStore::for_workspace("/w", "s1").with_fixed_time(7).now(), 7);
}

#[test]
fn the_cached_leaf_is_the_adopted_one_else_the_last_entry() {
    let mut s = SessionStore::for_workspace("/w", "s1");
    assert_eq!(s.cached_leaf_id(), None);
    s.adopt_entries(vec!["00000001".to_string(), "00000002".to_string()]);
    assert_eq!(s.cached_leaf_id().as_deref(), Some("00000002"));
    let path = s.path();
    s.adopt_leaf("00000001");
    assert_eq!(s.cached_leaf_id().as_deref(), Some("00000001"));
    assert_eq!(s.path(), path);
}
