use quiver::archive::QuiverCore;
use quiver::builder::{qvfrompdbs, stem_of_path};
use quiver::rename::rename_tags;
use quiver::scores::{extract_scores, is_decimal_str};
use quiver::splitter::{chunk_file_name, usize_to_decimal};
use quiver::QuiverError;

fn s(x: &str) -> String {
    x.to_string()
}

/// The lines of a file after the given text pieces were appended to it.
fn file_lines(pieces: &[String]) -> Vec<String> {
    let text: String = pieces.concat();
    text.lines().map(String::from).collect()
}

#[test]
fn open_requires_r_or_w() {
    let empty: Vec<String> = vec![];
    assert!(QuiverCore::new(s("a.qv"), s("r"), &empty).is_ok());
    assert!(QuiverCore::new(s("a.qv"), s("w"), &empty).is_ok());
    assert_eq!(
        QuiverCore::new(s("a.qv"), s("rw"), &empty).err(),
        Some(QuiverError::InvalidMode)
    );
    assert_eq!(
        QuiverCore::new(s("a.qv"), s(""), &empty).err(),
        Some(QuiverError::InvalidMode)
    );
}

#[test]
fn open_indexes_tags_in_file_order() {
    let lines = vec![
        s("QV_TAG alpha"),
        s("ATOM 1"),
        s("QV_SCORE alpha x=1.0"),
        s("QV_TAG beta"),
        s("ATOM 2"),
    ];
    let qv = QuiverCore::new(s("a.qv"), s("r"), &lines).unwrap();
    assert_eq!(qv.get_tags(), vec![s("alpha"), s("beta")]);
    assert_eq!(qv.size(), 2);
}

#[test]
fn append_keeps_insertion_order() {
    let empty: Vec<String> = vec![];
    let mut qv = QuiverCore::new(s("a.qv"), s("w"), &empty).unwrap();
    for tag in ["t1", "t2", "t3"] {
        let payload = vec![s("ATOM")];
        qv.add_pdb(&payload, tag, None).unwrap();
    }
    assert_eq!(qv.get_tags(), vec![s("t1"), s("t2"), s("t3")]);
    assert_eq!(qv.size(), 3);
}

#[test]
fn append_writes_declaration_score_and_payload() {
    let empty: Vec<String> = vec![];
    let mut qv = QuiverCore::new(s("a.qv"), s("w"), &empty).unwrap();
    let payload = vec![s("ATOM 1"), s("ATOM 2\n")];
    let pieces = qv.add_pdb(&payload, "t1", Some("x=1.0")).unwrap();
    assert_eq!(
        pieces,
        vec![
            s("QV_TAG t1\n"),
            s("QV_SCORE t1 x=1.0\n"),
            s("ATOM 1\n"),
            s("ATOM 2\n"),
        ]
    );
}

#[test]
fn append_duplicate_tag_changes_nothing() {
    let empty: Vec<String> = vec![];
    let mut qv = QuiverCore::new(s("a.qv"), s("w"), &empty).unwrap();
    let payload = vec![s("ATOM")];
    qv.add_pdb(&payload, "t1", None).unwrap();
    let r = qv.add_pdb(&payload, "t1", None);
    assert_eq!(r.err(), Some(QuiverError::DuplicateTag));
    assert_eq!(qv.size(), 1);
    assert_eq!(qv.get_tags(), vec![s("t1")]);
}

#[test]
fn append_requires_write_mode() {
    let empty: Vec<String> = vec![];
    let mut qv = QuiverCore::new(s("a.qv"), s("r"), &empty).unwrap();
    let payload = vec![s("ATOM")];
    assert_eq!(
        qv.add_pdb(&payload, "t1", None).err(),
        Some(QuiverError::WriteModeRequired)
    );
    assert_eq!(qv.size(), 0);
}

#[test]
fn read_returns_payload_newline_terminated() {
    let lines = vec![
        s("QV_TAG t1"),
        s("QV_SCORE t1 x=1.0"),
        s("ATOM 1"),
        s("ATOM 2"),
        s("QV_TAG t2"),
        s("ATOM 3"),
    ];
    let qv = QuiverCore::new(s("a.qv"), s("r"), &lines).unwrap();
    assert_eq!(
        qv.get_pdblines("t1", &lines).unwrap(),
        vec![s("ATOM 1\n"), s("ATOM 2\n")]
    );
    assert_eq!(qv.get_pdblines("t2", &lines).unwrap(), vec![s("ATOM 3\n")]);
}

#[test]
fn read_absent_tag_fails() {
    let lines = vec![s("QV_TAG t1"), s("ATOM 1")];
    let qv = QuiverCore::new(s("a.qv"), s("r"), &lines).unwrap();
    assert_eq!(
        qv.get_pdblines("nope", &lines).err(),
        Some(QuiverError::TagNotFound)
    );
}

#[test]
fn read_requires_read_mode() {
    let lines = vec![s("QV_TAG t1"), s("ATOM 1")];
    let qv = QuiverCore::new(s("a.qv"), s("w"), &lines).unwrap();
    assert_eq!(
        qv.get_pdblines("t1", &lines).err(),
        Some(QuiverError::ReadModeRequired)
    );
}

#[test]
fn end_to_end_append_then_reopen_and_read() {
    let empty: Vec<String> = vec![];
    let mut qv = QuiverCore::new(s("out.qv"), s("w"), &empty).unwrap();
    let payload = vec![s("LINE1"), s("LINE2")];
    let pieces = qv.add_pdb(&payload, "t1", None).unwrap();
    let lines = file_lines(&pieces);
    let qv2 = QuiverCore::new(s("out.qv"), s("r"), &lines).unwrap();
    assert_eq!(qv2.get_tags(), vec![s("t1")]);
    assert_eq!(
        qv2.get_pdblines("t1", &lines).unwrap(),
        vec![s("LINE1\n"), s("LINE2\n")]
    );
}

#[test]
fn subset_reproduces_full_records_in_file_order() {
    let lines = vec![
        s("QV_TAG a"),
        s("QV_SCORE a x=1.0"),
        s("ATOM a"),
        s("QV_TAG b"),
        s("ATOM b"),
        s("QV_TAG c"),
        s("ATOM c"),
    ];
    let qv = QuiverCore::new(s("a.qv"), s("r"), &lines).unwrap();
    let request = vec![s("c"), s("a"), s("missing")];
    let (text, found) = qv.get_struct_list(&request, &lines).unwrap();
    assert_eq!(found, vec![s("a"), s("c")]);
    assert_eq!(text, "QV_TAG a\nQV_SCORE a x=1.0\nATOM a\nQV_TAG c\nATOM c\n");
}

#[test]
fn subset_of_nothing_requested_is_empty() {
    let lines = vec![s("QV_TAG a"), s("ATOM a")];
    let qv = QuiverCore::new(s("a.qv"), s("r"), &lines).unwrap();
    let request: Vec<String> = vec![s("zzz")];
    let (text, found) = qv.get_struct_list(&request, &lines).unwrap();
    assert!(found.is_empty());
    assert!(text.is_empty());
}

#[test]
fn split_groups_records_and_keeps_order() {
    let lines = vec![
        s("QV_TAG a"),
        s("ATOM a"),
        s("QV_TAG b"),
        s("ATOM b"),
        s("QV_TAG c"),
        s("ATOM c"),
    ];
    let qv = QuiverCore::new(s("a.qv"), s("r"), &lines).unwrap();
    let chunks = qv.split(2, &lines).unwrap();
    assert_eq!(chunks.len(), 2);
    assert_eq!(
        chunks[0],
        vec![s("QV_TAG a"), s("ATOM a"), s("QV_TAG b"), s("ATOM b")]
    );
    assert_eq!(chunks[1], vec![s("QV_TAG c"), s("ATOM c")]);
    let rejoined: Vec<String> = chunks.concat();
    assert_eq!(rejoined, lines);
}

#[test]
fn split_makes_ceiling_many_files() {
    let mut lines: Vec<String> = Vec::new();
    for k in 0..5 {
        lines.push(format!("QV_TAG t{}", k));
        lines.push(format!("ATOM {}", k));
    }
    let qv = QuiverCore::new(s("a.qv"), s("r"), &lines).unwrap();
    let chunks = qv.split(2, &lines).unwrap();
    assert_eq!(chunks.len(), 3);
    assert_eq!(chunks[0].len(), 4);
    assert_eq!(chunks[1].len(), 4);
    assert_eq!(chunks[2].len(), 2);
    assert_eq!(chunks.concat(), lines);
}

#[test]
fn split_rejects_zero_chunk_size() {
    let lines = vec![s("QV_TAG a"), s("ATOM a")];
    let qv = QuiverCore::new(s("a.qv"), s("r"), &lines).unwrap();
    assert_eq!(qv.split(0, &lines).err(), Some(QuiverError::InvalidArgument));
}

#[test]
fn split_output_names_are_indexed() {
    assert_eq!(chunk_file_name("pre", 0), s("pre_0.qv"));
    assert_eq!(chunk_file_name("batch", 12), s("batch_12.qv"));
    assert_eq!(usize_to_decimal(0), s("0"));
    assert_eq!(usize_to_decimal(90210), s("90210"));
}

#[test]
fn rename_replaces_tag_and_score_tokens() {
    let lines = vec![
        s("QV_TAG old1"),
        s("QV_SCORE old1 x=1.5"),
        s("ATOM 1"),
        s("QV_TAG old2"),
        s("ATOM 2"),
    ];
    let out = rename_tags(&lines, &vec![s("new1"), s("new2")]).unwrap();
    assert_eq!(
        out,
        vec![
            s("QV_TAG new1"),
            s("QV_SCORE new1 x=1.5"),
            s("ATOM 1"),
            s("QV_TAG new2"),
            s("ATOM 2"),
        ]
    );
}

#[test]
fn rename_with_wrong_count_fails_cleanly() {
    let lines = vec![s("QV_TAG a"), s("ATOM 1"), s("QV_TAG b"), s("ATOM 2")];
    let r = rename_tags(&lines, &vec![s("only_one")]);
    assert_eq!(
        r.err(),
        Some(QuiverError::TagCountMismatch {
            in_file: 2,
            provided: 1
        })
    );
}

#[test]
fn rename_rejects_consecutive_tag_lines() {
    let lines = vec![s("QV_TAG a"), s("QV_TAG b"), s("ATOM")];
    let r = rename_tags(&lines, &vec![s("x"), s("y")]);
    assert_eq!(r.err(), Some(QuiverError::ConsecutiveTagLines));
}

#[test]
fn scores_build_sparse_table_with_nan() {
    let lines = vec![
        s("QV_SCORE A x=1.0|y=2.0"),
        s("QV_SCORE B x=3.0"),
    ];
    let (rows, dropped) = extract_scores(&lines).unwrap();
    assert_eq!(rows, vec![s("tag\tx\ty"), s("A\t1.0\t2.0"), s("B\t3.0\tNaN")]);
    assert!(dropped.is_empty());
}

#[test]
fn scores_drop_malformed_values_but_keep_record() {
    let lines = vec![s("QV_TAG C"), s("QV_SCORE C x=abc|y=1.25"), s("ATOM")];
    let (rows, dropped) = extract_scores(&lines).unwrap();
    assert_eq!(rows, vec![s("tag\ty"), s("C\t1.25")]);
    assert_eq!(dropped, vec![s("C")]);
}

#[test]
fn scores_without_score_lines_fail() {
    let lines = vec![s("QV_TAG a"), s("ATOM 1")];
    assert_eq!(extract_scores(&lines).err(), Some(QuiverError::EmptyResult));
}

#[test]
fn scores_later_entry_overrides_earlier() {
    let lines = vec![s("QV_SCORE A x=1.0|x=2.0")];
    let (rows, dropped) = extract_scores(&lines).unwrap();
    assert_eq!(rows, vec![s("tag\tx"), s("A\t2.0")]);
    assert!(dropped.is_empty());
}

#[test]
fn decimal_values_follow_the_float_grammar() {
    for ok in ["1", "1.0", "-2.5", "+0.125", ".5", "5.", "1e5", "1.5E-3", "468."] {
        assert!(is_decimal_str(ok), "{ok} should parse");
    }
    for bad in ["", "abc", ".", "+", "1e", "1e+", "--1", "1.2.3", "1 2"] {
        assert!(!is_decimal_str(bad), "{bad} should not parse");
    }
}

#[test]
fn decimal_rejects_words() {
    assert!(!is_decimal_str("inf"));
    assert!(!is_decimal_str("nan"));
    assert!(!is_decimal_str("1.0x"));
}

#[test]
fn rename_copies_score_line_without_entries() {
    let lines = vec![s("QV_TAG a"), s("QV_SCORE a"), s("ATOM")];
    let out = rename_tags(&lines, &vec![s("b")]).unwrap();
    assert_eq!(out, vec![s("QV_TAG b"), s("QV_SCORE a"), s("ATOM")]);
}

#[test]
fn rename_rejects_tag_line_without_token() {
    let lines = vec![s("QV_TAG"), s("ATOM")];
    let r = rename_tags(&lines, &vec![]);
    assert_eq!(r.err(), Some(QuiverError::MalformedTagLine));
}

#[test]
fn tag_marker_needs_no_space() {
    // A line is a declaration whenever it starts with the marker; the tag
    // is its second whitespace token.
    let lines = vec![s("QV_TAGX t9"), s("ATOM")];
    let qv = QuiverCore::new(s("a.qv"), s("r"), &lines).unwrap();
    assert_eq!(qv.get_tags(), vec![s("t9")]);
}

#[test]
fn split_drops_lines_before_first_record() {
    let lines = vec![s("junk"), s("QV_TAG a"), s("ATOM")];
    let qv = QuiverCore::new(s("a.qv"), s("r"), &lines).unwrap();
    let chunks = qv.split(1, &lines).unwrap();
    assert_eq!(chunks, vec![vec![s("QV_TAG a"), s("ATOM")]]);
}

#[test]
fn scores_skip_entries_that_are_not_one_pair() {
    let lines = vec![s("QV_SCORE A x|y=1=2|z=4.5")];
    let (rows, dropped) = extract_scores(&lines).unwrap();
    assert_eq!(rows, vec![s("tag\tz"), s("A\t4.5")]);
    assert!(dropped.is_empty());
}

#[test]
fn scores_need_an_entries_token() {
    let lines = vec![s("QV_SCORE onlytag")];
    assert_eq!(extract_scores(&lines).err(), Some(QuiverError::EmptyResult));
}

#[test]
fn build_from_files_derives_tag_from_stem() {
    let names = vec![s("foo.pdb")];
    let contents = vec![s("ATOM 1 ...\n")];
    let text = qvfrompdbs(&names, &contents);
    assert!(text.starts_with("QV_TAG foo\nATOM 1 ...\n"));
    assert_eq!(text, "QV_TAG foo\nATOM 1 ...\n");
}

#[test]
fn build_concatenates_inputs_in_order() {
    let names = vec![s("dir/a.pdb"), s("b.pdb")];
    let contents = vec![s("A\n"), s("B\n")];
    let text = qvfrompdbs(&names, &contents);
    assert_eq!(text, "QV_TAG a\nA\nQV_TAG b\nB\n");
}

#[test]
fn stems_follow_base_name_rules() {
    assert_eq!(stem_of_path("foo.pdb"), s("foo"));
    assert_eq!(stem_of_path("dir/sub/a.b.c"), s("a.b"));
    assert_eq!(stem_of_path(".bashrc"), s(".bashrc"));
    assert_eq!(stem_of_path("noext"), s("noext"));
    assert_eq!(stem_of_path("trailing.pdb/"), s("trailing"));
    assert_eq!(stem_of_path(""), s("UNKNOWN"));
    assert_eq!(stem_of_path(".."), s("UNKNOWN"));
}
