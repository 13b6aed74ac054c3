use docsync::ChangeDocument;
use docsync::ChangeEvent;
use docsync::Document;
use docsync::DocumentError;
use docsync::OpenDocument;
use docsync::Position;
use docsync::Range;
use docsync::TDocument;

fn get_change_params(
    start_line: u32,
    start_char: u32,
    end_line: u32,
    end_char: u32,
    text: &str,
) -> ChangeDocument {
    ChangeDocument {
        content_changes: vec![ChangeEvent {
            range: Range {
                start: Position {
                    line: start_line,
                    character: start_char,
                },
                end: Position {
                    line: end_line,
                    character: end_char,
                },
            },
            text: text.to_string(),
        }],
    }
}

fn get_open_params() -> OpenDocument {
    OpenDocument {
        text: "this is the first line
                    don't fool the second line twice
                    third line is written by a third party"
            .to_string(),
    }
}

fn three_line_document() -> Document {
    let mut lib = Document::new();
    lib.content.push(String::from("this is the first line"));
    lib.content.push(String::from("don't fool the second line twice"));
    lib.content.push(String::from("third line is written by a third party"));
    lib
}

#[test]
fn did_change_document_oneline_test() {
    let mut lib = three_line_document();

    let params = get_change_params(0, 12, 0, 22, "this is a new text that is inserted");

    let _ = lib.change_document(params);

    assert_eq!(
        lib.content[0],
        "this is the this is a new text that is inserted"
    );
}

#[test]
fn did_change_document_delete_test() {
    let mut lib = three_line_document();

    let params = get_change_params(1, 0, 2, 0, "");

    let _ = lib.change_document(params);

    assert_eq!(lib.content.len(), 2);
}

#[test]
fn document_did_open_document_test() {
    let params = get_open_params();

    let mut lib = Document::new();

    let _ = lib.open_document(params);

    assert_eq!(lib.content.len(), 3);
}

#[test]
fn same_line_edit_keeps_row_count() {
    let mut lib = three_line_document();

    let params = get_change_params(1, 0, 1, 5, "a longer replacement\nstill one event");

    let res = lib.change_document(params);

    assert!(res.is_ok());
    assert_eq!(lib.content.len(), 3);
}

#[test]
fn delete_rows_shifts_tail() {
    let mut lib = three_line_document();

    lib.delete_rows(1, 2);

    assert_eq!(lib.content.len(), 2);
    assert_eq!(lib.content[0], "this is the first line");
    assert_eq!(lib.content[1], "third line is written by a third party");
}

#[test]
fn delete_event_shifts_rows_through_change() {
    let mut lib = three_line_document();

    let params = get_change_params(1, 0, 2, 0, "");
    let res = lib.change_document(params);

    assert!(res.is_ok());
    assert_eq!(lib.content.len(), 2);
    assert_eq!(lib.content[1], "third line is written by a third party");
}

#[test]
fn delete_rows_degenerate_span_is_noop() {
    let mut lib = three_line_document();

    lib.delete_rows(1, 1);

    assert_eq!(lib.content.len(), 3);
    assert_eq!(lib.content[1], "don't fool the second line twice");
}

#[test]
fn empty_change_batch_succeeds_and_changes_nothing() {
    let mut lib = three_line_document();

    let res = lib.change_document(ChangeDocument::new());

    assert!(res.is_ok());
    assert_eq!(lib.content.len(), 3);
}

#[test]
fn delete_rows_end_before_start_is_noop() {
    let mut lib = three_line_document();

    lib.delete_rows(2, 1);

    assert_eq!(lib.content.len(), 3);
}

#[test]
fn delete_rows_clamps_out_of_range_end() {
    let mut lib = three_line_document();

    lib.delete_rows(1, 10);

    assert_eq!(lib.content.len(), 1);
    assert_eq!(lib.content[0], "this is the first line");
}

#[test]
fn edit_line_substitution_and_inverse_restore_row() {
    let mut lib = three_line_document();
    let original = lib.content[1].clone();

    let res = lib.edit_line(1, 10, 16, "XYZ");
    assert!(res.is_ok());
    assert_eq!(lib.content[1], "don't foolXYZecond line twice");

    let displaced = &original[10..16];
    let res = lib.edit_line(1, 10, 13, displaced);
    assert!(res.is_ok());
    assert_eq!(lib.content[1], original);
}

#[test]
fn edit_line_end_before_start_fails_and_keeps_row() {
    let mut lib = three_line_document();

    let res = lib.edit_line(0, 7, 3, "anything");

    assert!(matches!(res, Err(DocumentError::EndBeforeStart)));
    assert_eq!(lib.content[0], "this is the first line");
    assert_eq!(lib.content.len(), 3);
}

#[test]
fn edit_line_missing_row_fails() {
    let mut lib = three_line_document();

    let res = lib.edit_line(5, 0, 0, "text");

    assert!(matches!(res, Err(DocumentError::LineOutOfRange(5, 3))));
}

#[test]
fn edit_line_end_past_row_end_fails() {
    let mut lib = three_line_document();

    let res = lib.edit_line(0, 0, 99, "text");

    assert!(matches!(res, Err(DocumentError::LineOutOfRange(99, 22))));
    assert_eq!(lib.content[0], "this is the first line");
}

#[test]
fn multi_line_replace_inserts_interior_rows() {
    let mut lib = Document::new();
    lib.content.push(String::from("alpha line"));
    lib.content.push(String::from("beta line"));
    lib.content.push(String::from("gamma line"));

    let params = get_change_params(0, 5, 1, 4, "X\nY\nZ");
    let res = lib.change_document(params);

    assert!(res.is_ok());
    assert_eq!(lib.content.len(), 4);
    assert_eq!(lib.content[0], "alphaX");
    assert_eq!(lib.content[1], "Y");
    assert_eq!(lib.content[2], "Z line");
    assert_eq!(lib.content[3], "gamma line");
}

#[test]
fn multi_line_replace_without_interior_rows() {
    let mut lib = Document::new();
    lib.content.push(String::from("alpha line"));
    lib.content.push(String::from("beta line"));
    lib.content.push(String::from("gamma line"));

    let params = get_change_params(0, 5, 2, 5, "A\nB");
    let res = lib.change_document(params);

    assert!(res.is_ok());
    assert_eq!(lib.content.len(), 3);
    assert_eq!(lib.content[0], "alphaA");
    assert_eq!(lib.content[1], "beta line");
    assert_eq!(lib.content[2], "B line");
}

#[test]
fn multi_line_replace_with_empty_text_is_internal_fault() {
    let mut lib = three_line_document();

    let range = Range {
        start: Position { line: 0, character: 0 },
        end: Position { line: 1, character: 0 },
    };
    let res = lib.edit_multiple_lines(range, "");

    assert!(matches!(res, Err(DocumentError::Other(_))));
    assert_eq!(lib.content.len(), 3);
}

#[test]
fn batch_events_apply_in_order() {
    let mut lib = Document::new();
    lib.content.push(String::from("one"));
    lib.content.push(String::from("two"));
    lib.content.push(String::from("three"));

    let params = ChangeDocument {
        content_changes: vec![
            ChangeEvent {
                range: Range {
                    start: Position { line: 0, character: 0 },
                    end: Position { line: 1, character: 0 },
                },
                text: String::new(),
            },
            ChangeEvent {
                range: Range {
                    start: Position { line: 0, character: 0 },
                    end: Position { line: 0, character: 3 },
                },
                text: String::from("TWO"),
            },
        ],
    };
    let res = lib.change_document(params);

    assert!(res.is_ok());
    assert_eq!(lib.content.len(), 2);
    assert_eq!(lib.content[0], "TWO");
    assert_eq!(lib.content[1], "three");
}

#[test]
fn batch_is_not_transactional() {
    let mut lib = Document::new();
    lib.content.push(String::from("one"));
    lib.content.push(String::from("two"));

    let params = ChangeDocument {
        content_changes: vec![
            ChangeEvent {
                range: Range {
                    start: Position { line: 0, character: 0 },
                    end: Position { line: 0, character: 3 },
                },
                text: String::from("ONE"),
            },
            ChangeEvent {
                range: Range {
                    start: Position { line: 9, character: 0 },
                    end: Position { line: 9, character: 0 },
                },
                text: String::from("nope"),
            },
        ],
    };
    let res = lib.change_document(params);

    assert!(matches!(res, Err(DocumentError::LineOutOfRange(9, 2))));
    assert_eq!(lib.content[0], "ONE");
    assert_eq!(lib.content[1], "two");
}

#[test]
fn from_text_splits_lines() {
    let doc = Document::from_text("a\nb\nc");
    assert_eq!(doc.version, 1);
    assert_eq!(doc.content, vec!["a", "b", "c"]);

    let rejoined = doc.content.join("\n");
    assert_eq!(rejoined, "a\nb\nc");
}

#[test]
fn from_text_edge_cases() {
    assert_eq!(Document::from_text("").content.len(), 0);
    assert_eq!(Document::from_text("a\n").content, vec!["a"]);
    assert_eq!(Document::from_text("\n").content, vec![""]);
    assert_eq!(Document::from_text("a\r\nb").content, vec!["a", "b"]);
    assert_eq!(Document::from_text("a\rb").content, vec!["a\rb"]);
}

#[test]
fn new_document_is_empty_at_version_one() {
    let doc = Document::new();
    assert_eq!(doc.version, 1);
    assert!(doc.content.is_empty());
}
