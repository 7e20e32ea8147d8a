use tau_core::hashline::{anchors_from_bases, apply_edit, canon, line_hashes, normalize, render, Edit, EditError, HASH_SPACE};

#[test]
fn canon_strips_all_whitespace() {
    assert_eq!(canon("  a \t b \r\n "), "ab");
    assert_eq!(canon(""), "");
}

#[test]
fn duplicate_lines_get_distinct_anchors() {
    let content = "x\nx\nx\nx\ny\n";
    let hashes = line_hashes(content).unwrap();
    assert_eq!(hashes.len(), 5);
    assert_ne!(hashes[0], hashes[1]);
    assert_ne!(hashes[1], hashes[2]);
    assert_ne!(hashes[2], hashes[3]);
    assert_ne!(hashes[0], hashes[4]);
    let rendered: Vec<String> = render(content).unwrap();
    let mut sorted = rendered.clone();
    sorted.sort();
    sorted.dedup();
    assert_eq!(sorted.len(), rendered.len(), "anchors are unique per line");
}

#[test]
fn anchors_are_deterministic_per_content() {
    let a = line_hashes("one\ntwo\nthree\n").unwrap();
    let b = line_hashes("one\ntwo\nthree\n").unwrap();
    assert_eq!(a, b);
}

#[test]
fn survivor_anchors_stay_put_across_an_edit() {
    let content = "alpha\nbeta\ngamma\ndelta\n";
    let before = line_hashes(content).unwrap();
    let edit = Edit {
        from: before[1].clone(),
        to: before[1].clone(),
        content: "BETA".into(),
    };
    let edited = apply_edit(content, &edit).unwrap();
    assert_eq!(edited.content, "alpha\nBETA\ngamma\ndelta\n");
    assert_eq!(edited.hashes[0], before[0]);
    assert_eq!(edited.hashes[2], before[2]);
    assert_eq!(edited.hashes[3], before[3]);
    assert_ne!(edited.hashes[1], before[0]);
}

#[test]
fn stale_anchor_is_rejected_not_fuzzy_matched() {
    let content = "one\ntwo\n";
    let edit = Edit {
        from: "zzz".into(),
        to: "zzz".into(),
        content: "x".into(),
    };
    match apply_edit(content, &edit) {
        Err(EditError::Stale { anchor }) => assert_eq!(anchor, "zzz"),
        other => panic!("expected Stale, got {other:?}"),
    }
}

#[test]
fn malformed_anchor_is_rejected() {
    for bad in ["ab", "abcde", "ab│", ""] {
        let edit = Edit {
            from: bad.into(),
            to: bad.into(),
            content: "x".into(),
        };
        let result = apply_edit("one\ntwo\n", &edit);
        assert!(result.is_err(), "anchor {bad:?} must be rejected");
    }
}

#[test]
fn reversed_range_is_rejected() {
    let content = "one\ntwo\nthree\n";
    let hashes = line_hashes(content).unwrap();
    let edit = Edit {
        from: hashes[2].clone(),
        to: hashes[0].clone(),
        content: "x".into(),
    };
    assert!(matches!(
        apply_edit(content, &edit),
        Err(EditError::Reversed { .. })
    ));
}

#[test]
fn range_deletion_joins_the_surrounding_lines() {
    let content = "one\ntwo\nthree\n";
    let hashes = line_hashes(content).unwrap();
    let edit = Edit {
        from: hashes[1].clone(),
        to: hashes[1].clone(),
        content: String::new(),
    };
    let edited = apply_edit(content, &edit).unwrap();
    assert_eq!(edited.content, "one\nthree\n");
}

#[test]
fn whole_file_deletion_requires_write() {
    let content = "only line\n";
    let hashes = line_hashes(content).unwrap();
    let edit = Edit {
        from: hashes[0].clone(),
        to: hashes[0].clone(),
        content: String::new(),
    };
    assert!(matches!(
        apply_edit(content, &edit),
        Err(EditError::EmptyFile)
    ));
}

#[test]
fn edit_over_the_cap_is_diagnosed_as_too_large_not_a_bad_anchor() {
    let content = "x\n".repeat(HASH_SPACE + 1);
    let edit = Edit {
        from: "abc".into(),
        to: "abc".into(),
        content: "y".into(),
    };
    match apply_edit(&content, &edit) {
        Err(EditError::TooLarge) => {}
        other => panic!("expected TooLarge, got {other:?}"),
    }
}

#[test]
fn over_the_cap_falls_back_to_write() {
    let content = "x\n".repeat(HASH_SPACE + 1);
    assert!(line_hashes(&content).is_err());
}

#[test]
fn anchors_follow_the_canon_not_the_whitespace() {
    let base = "abc\nabc\nxyz";
    let padded = "  abc\t\n  abc\t\n  xyz\t";
    assert_eq!(line_hashes(base).unwrap(), line_hashes(padded).unwrap());
}

#[test]
fn every_anchor_is_three_alphabet_characters() {
    for h in line_hashes("a\nb\nc\na\nb\nc\n").unwrap() {
        assert_eq!(h.chars().count(), 3);
        assert!(h.chars().all(|c| c.is_ascii_alphanumeric()));
    }
}

#[test]
fn render_prefixes_each_line_with_its_anchor() {
    let content = "one\ntwo";
    let hashes = line_hashes(content).unwrap();
    let rows = render(content).unwrap();
    assert_eq!(rows, vec![format!("{}│one", hashes[0]), format!("{}│two", hashes[1])]);
}

#[test]
fn render_then_edit_reproduces_the_expected_content() {
    let lines = ["abc", "abc", "abc", "abc"];
    let content = lines.join("\n");
    let hashes = line_hashes(&content).unwrap();
    let edit = Edit {
        from: hashes[1].clone(),
        to: hashes[2].clone(),
        content: "xyz".into(),
    };
    let edited = apply_edit(&content, &edit).unwrap();
    assert_eq!(edited.content, "abc\nxyz\nabc");
    assert_eq!(edited.first_changed, 2);
    assert_eq!(edited.last_changed, 2);
    let mut re = edited.hashes.clone();
    re.sort();
    re.dedup();
    assert_eq!(re.len(), 3);
    assert_eq!(edited.hashes[0], hashes[0]);
}

#[test]
fn survivors_keep_their_anchor_in_a_file_of_identical_lines() {
    let content = vec!["abcd"; 9].join("\n");
    let hashes = line_hashes(&content).unwrap();
    for at in [0usize, 4, 8] {
        let edit = Edit {
            from: hashes[at].clone(),
            to: hashes[at].clone(),
            content: "wxyz".into(),
        };
        let edited = apply_edit(&content, &edit).unwrap();
        for i in 0..9 {
            if i != at {
                assert_eq!(edited.hashes[i], hashes[i]);
            }
        }
    }
}

#[test]
fn an_empty_file_has_no_anchor_to_edit() {
    let edit = Edit {
        from: "AAA".into(),
        to: "AAA".into(),
        content: "x".into(),
    };
    assert_eq!(
        apply_edit("", &edit).unwrap_err(),
        EditError::Stale { anchor: "AAA".into() }
    );
    assert_eq!(line_hashes("").unwrap().len(), 1);
}

#[test]
fn normalize_turns_crlf_and_cr_into_lf() {
    assert_eq!(normalize("a\r\nb\rc\n"), "a\nb\nc\n");
    assert_eq!(normalize("\r\r\n"), "\n\n");
}

#[test]
fn the_first_anchor_is_its_base_slot() {
    // The first line always gets its base slot: xxh32(canon) >> 14 mod 62³.
    let h = line_hashes("one").unwrap();
    let base = ((xxhash_rust::xxh32::xxh32(b"one", 0) >> 14) % HASH_SPACE as u32) as usize;
    const ALPHA: &[u8] = b"ABCDEFGHIJKLMNOPQRSTUVWXYZabcdefghijklmnopqrstuvwxyz0123456789";
    let expected: String = [base / 3844 % 62, base / 62 % 62, base % 62]
        .iter()
        .map(|&d| ALPHA[d] as char)
        .collect();
    assert_eq!(h[0], expected);
}

#[test]
fn a_malformed_anchor_is_refused_as_such() {
    let edit = Edit { from: "ab".into(), to: "ab".into(), content: "x".into() };
    assert_eq!(apply_edit("one\ntwo\n", &edit).err(), Some(EditError::BadAnchor("ab".into())));
    let hashes = line_hashes("one\ntwo\n").unwrap();
    let bad_to = Edit { from: hashes[0].clone(), to: "a-b".into(), content: "x".into() };
    assert_eq!(apply_edit("one\ntwo\n", &bad_to).err(), Some(EditError::BadAnchor("a-b".into())));
    // Even an empty file names the malformed anchor.
    assert_eq!(apply_edit("", &edit).err(), Some(EditError::BadAnchor("ab".into())));
}

#[test]
fn anchors_from_given_bases_keep_a_free_base_and_probe_a_taken_one() {
    let a = anchors_from_bases(&[5, 5, 7]).unwrap();
    assert_eq!(a.len(), 3);
    assert_eq!(a[0], anchors_from_bases(&[5]).unwrap()[0]);
    assert_eq!(a[2], anchors_from_bases(&[7]).unwrap()[0]);
    assert_ne!(a[1], a[0]);
    assert_ne!(a[1], a[2]);
    assert_eq!(anchors_from_bases(&[]).unwrap().len(), 0);
}

#[test]
fn an_edit_on_file_anchors_applies_and_reanchors_uniquely() {
    let content = "a\nb\nc\nd";
    let h = line_hashes(content).unwrap();
    let edit = Edit { from: h[1].clone(), to: h[2].clone(), content: "xyz".into() };
    let e = apply_edit(content, &edit).unwrap();
    assert_eq!(e.content, "a\nxyz\nd");
    let again = line_hashes(&e.content).unwrap();
    assert_eq!(again.len(), 3);
    assert!(again[0] != again[1] && again[1] != again[2] && again[0] != again[2]);
}
