use linediff::diff::{Delta, Differ, apply_patch, parse_patch_file};
use linediff::document::{Document, apply_patch as apply_to_document, diff_lines};
use linediff::errors::{DiffError, PatchApplyError, PatchError, PatchParseError};
use linediff::patch::{Change, Patch};

fn doc(lines: &[&str]) -> Document {
    Document::from_lines(lines.iter().map(|l| String::from(*l)).collect())
}

#[test]
fn scenario_replace_middle() {
    let mut differ = Differ::new("a\nb\nc\nd\ne\nf\ng\n", "a\nb\nx\ny\nz\nd\ne\nf\ng\n");
    let deltas = differ.get_deltas().unwrap();
    assert_eq!(
        deltas,
        vec![Delta { old_start: 2, new_start: 2, removed_count: 1, added_count: 3 }]
    );
}

#[test]
fn scenario_create_from_empty() {
    let mut differ = Differ::new("", "a\nb\nc\n");
    let deltas = differ.get_deltas().unwrap();
    assert_eq!(
        deltas,
        vec![Delta { old_start: 0, new_start: 0, removed_count: 0, added_count: 3 }]
    );
}

#[test]
fn scenario_no_shared_lines() {
    let mut differ = Differ::new("a\nb\n", "c\nd\n");
    let deltas = differ.get_deltas().unwrap();
    assert_eq!(
        deltas,
        vec![Delta { old_start: 0, new_start: 0, removed_count: 2, added_count: 2 }]
    );
}

#[test]
fn scenario_drop_duplicate_head() {
    let mut differ = Differ::new("a\na\nb\nc\nd\ne\nf\n", "a\nb\nc\nd\ne\nf\n");
    let deltas = differ.get_deltas().unwrap();
    assert_eq!(
        deltas,
        vec![Delta { old_start: 0, new_start: 0, removed_count: 1, added_count: 0 }]
    );
}

#[test]
fn patch_text_is_exact() {
    let mut differ = Differ::new("a\nb\nc\nd\ne\nf\ng\n", "a\nb\nx\ny\nz\nd\ne\nf\ng\n");
    let text = differ.gen_patch().unwrap();
    assert_eq!(text, String::from("\u{0}2,1,3\nc\nx\ny\nz\n"));
}

#[test]
fn parse_recovers_serialized_patch() {
    let mut differ = Differ::new("a\nb\nc\nd\ne\nf\ng\n", "a\nb\nx\ny\nz\nd\ne\nf\ng\n");
    let text = differ.gen_patch().unwrap();
    let recs = parse_patch_file(text).unwrap();
    assert_eq!(recs.len(), 1);
    assert_eq!(recs[0].old_start, 2);
    assert_eq!(recs[0].removed_count, 1);
    assert_eq!(recs[0].added_count, 3);
    assert_eq!(recs[0].removed_lines, vec![String::from("c")]);
    assert_eq!(
        recs[0].added_lines,
        vec![String::from("x"), String::from("y"), String::from("z")]
    );
}

#[test]
fn diff_rejects_empty_new() {
    let old = doc(&["a", "b"]);
    let new = doc(&[]);
    assert_eq!(diff_lines(&old, &new).err(), Some(DiffError::EmptyInput));
}

#[test]
fn differ_signals_empty_new() {
    let mut differ = Differ::new("a\nb\n", "");
    assert!(differ.get_deltas().is_none());
    assert!(differ.gen_patch().is_none());
}

#[test]
fn identical_texts_need_no_patch() {
    let mut differ = Differ::new("a\nb\n", "a\nb\n");
    assert_eq!(differ.get_deltas().unwrap(), vec![]);
    assert!(differ.gen_patch().is_none());
}

#[test]
fn header_with_two_numbers_is_malformed() {
    let r = parse_patch_file(String::from("\u{0}1,2\n"));
    assert_eq!(r.err(), Some(PatchParseError::MalformedHeader));
}

#[test]
fn header_with_letters_is_malformed() {
    let r = parse_patch_file(String::from("\u{0}x,1,2\na\n"));
    assert_eq!(r.err(), Some(PatchParseError::MalformedHeader));
}

#[test]
fn header_with_huge_number_is_malformed() {
    let r = parse_patch_file(String::from("\u{0}99999999999999999999,1,1\na\nb\n"));
    assert_eq!(r.err(), Some(PatchParseError::MalformedHeader));
}

#[test]
fn content_before_any_header_is_unrecognized() {
    let r = parse_patch_file(String::from("hello\n"));
    assert_eq!(r.err(), Some(PatchParseError::UnrecognizedLine));
}

#[test]
fn content_beyond_both_counts_is_unrecognized() {
    let r = parse_patch_file(String::from("\u{0}0,1,1\na\nb\nc\n"));
    assert_eq!(r.err(), Some(PatchParseError::UnrecognizedLine));
}

#[test]
fn overlapping_changes_are_rejected() {
    let old = doc(&["a", "b", "c"]);
    let changes = vec![
        Change {
            old_start: 0,
            removed_count: 2,
            new_start: 0,
            added_count: 0,
            removed_lines: vec![String::from("a"), String::from("b")],
            added_lines: vec![],
        },
        Change {
            old_start: 1,
            removed_count: 1,
            new_start: 0,
            added_count: 0,
            removed_lines: vec![String::from("b")],
            added_lines: vec![],
        },
    ];
    let r = apply_to_document(&old, &Patch::from_vec(changes));
    assert_eq!(r.err(), Some(PatchApplyError::OutOfOrder));
}

#[test]
fn change_beyond_end_is_rejected() {
    let old = doc(&["a", "b", "c"]);
    let changes = vec![Change {
        old_start: 2,
        removed_count: 2,
        new_start: 2,
        added_count: 0,
        removed_lines: vec![String::from("c"), String::from("d")],
        added_lines: vec![],
    }];
    let r = apply_to_document(&old, &Patch::from_vec(changes));
    assert_eq!(r.err(), Some(PatchApplyError::OutOfBounds));
}

#[test]
fn text_apply_reports_bounds_error() {
    let r = apply_patch(String::from("a\nb\n"), String::from("\u{0}5,1,0\nb\n"));
    assert_eq!(r.err(), Some(PatchError::Apply(PatchApplyError::OutOfBounds)));
}

#[test]
fn text_apply_replaces_one_line() {
    let r = apply_patch(String::from("a\nb\nc\n"), String::from("\u{0}1,1,1\nb\nB\n")).unwrap();
    assert_eq!(r, String::from("a\nB\nc\n"));
}

#[test]
fn document_round_trip() {
    let old = doc(&["fn main() {", "    hello();", "}"]);
    let new = doc(&["fn main() {", "    hello();", "    bye();", "}"]);
    let patch = diff_lines(&old, &new).unwrap();
    let rebuilt = apply_to_document(&old, &patch).unwrap();
    assert_eq!(rebuilt.as_vec_ref(), new.as_vec_ref());
}

#[test]
fn document_renders_lines() {
    let d = doc(&["a", "b"]);
    assert_eq!(d.to_string(), String::from("a\nb\n"));
    assert_eq!(doc(&[]).to_string(), String::from(""));
}

#[test]
fn commons_cover_shared_run() {
    let mut differ = Differ::new("a\nb\nc\n", "a\nb\nc\n");
    let commons = differ.get_commons().unwrap();
    assert_eq!(commons.len(), 1);
    assert_eq!(commons[0].old_start, 0);
    assert_eq!(commons[0].new_start, 0);
    assert_eq!(commons[0].len, 3);
}

#[test]
fn diff_of_two_empty_documents_is_rejected() {
    assert_eq!(diff_lines(&doc(&[]), &doc(&[])).err(), Some(DiffError::EmptyInput));
    let mut differ = Differ::new("", "");
    assert!(differ.get_deltas().is_none());
    assert!(differ.gen_patch().is_none());
}

#[test]
fn empty_patch_changes_nothing() {
    let old = doc(&["a", "b"]);
    let rebuilt = apply_to_document(&old, &Patch::from_vec(vec![])).unwrap();
    assert_eq!(rebuilt.as_vec_ref(), old.as_vec_ref());
}

#[test]
fn removed_payload_is_carried_but_not_trusted() {
    // replay consumes counts and added lines only; the removed payload is
    // re-derived positionally from the old text
    let r = apply_patch(
        String::from("a\nb\nc\n"),
        String::from("\u{0}1,1,1\nWRONG\nB\n"),
    )
    .unwrap();
    assert_eq!(r, String::from("a\nB\nc\n"));
}
