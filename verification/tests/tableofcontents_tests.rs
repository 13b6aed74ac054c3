use docsync::DocumentError;
use docsync::OpenDocument;
use docsync::Position;
use docsync::Range;
use docsync::RawChangeEvent;
use docsync::TableOfContents;
use docsync::TableOfContentsError;

fn get_open_text() -> &'static str {
    "this is the first line\ndon't fool the second line twice\nthird line is written by a third party"
}

fn get_change_events(
    start_line: u32,
    start_char: u32,
    end_line: u32,
    end_char: u32,
    text: &str,
) -> Vec<RawChangeEvent> {
    vec![RawChangeEvent {
        range: Some(Range {
            start: Position {
                line: start_line,
                character: start_char,
            },
            end: Position {
                line: end_line,
                character: end_char,
            },
        }),
        text: text.to_string(),
    }]
}

#[test]
fn tableofcontents_did_open_document_test() {
    let mut table = TableOfContents::new();

    let res = table.did_open_document(
        "path/myfile.rs".to_string(),
        OpenDocument::new(get_open_text()),
        1,
    );

    assert!(res.is_ok());
    assert_eq!(table.document_count(), 1);

    let doc = table.get_document("path/myfile.rs").unwrap();
    let second_row = &doc[1];
    assert_eq!(second_row, "don't fool the second line twice");
}

#[test]
fn change_unopened_doc_test() {
    let events = get_change_events(1, 0, 2, 0, "this is\na text");
    let mut table = TableOfContents::new();

    let res = table
        .did_change_document("path/myfile.rs", 2, events)
        .is_err_and(|e| match e {
            TableOfContentsError::ChangeOnUnopen => true,
            _ => false,
        });
    assert!(res);
}

#[test]
fn change_opened_doc_test() {
    let open_text = OpenDocument::new(get_open_text());
    let change_events = get_change_events(1, 0, 1, 26, "new text");

    let mut table = TableOfContents::new();

    let _ = table.did_open_document("path/myfile.rs".to_string(), open_text, 1);
    let _ = table.did_change_document("path/myfile.rs", 2, change_events);

    let doc = table.get_document("path/myfile.rs").unwrap();
    let second_row = &doc[1];
    assert_eq!(second_row, "new text twice");
}

#[test]
fn change_unopened_keeps_registry_empty() {
    let events = get_change_events(0, 0, 0, 0, "x");
    let mut table = TableOfContents::new();

    let res = table.did_change_document("path/other.rs", 7, events);

    assert!(matches!(res, Err(TableOfContentsError::ChangeOnUnopen)));
    assert_eq!(table.document_count(), 0);
}

#[test]
fn query_unopened_document_is_not_found() {
    let table = TableOfContents::new();

    assert!(table.get_document("path/never_opened.rs").is_none());
}

#[test]
fn open_delete_then_query_is_not_found() {
    let mut table = TableOfContents::new();

    let _ = table.did_open_document(
        "path/myfile.rs".to_string(),
        OpenDocument::new("one line"),
        1,
    );
    let removed = table.delete_document("path/myfile.rs");

    assert!(removed.is_some());
    assert_eq!(removed.unwrap().content, vec!["one line"]);
    assert!(table.get_document("path/myfile.rs").is_none());
    assert_eq!(table.document_count(), 0);
}

#[test]
fn delete_unopened_document_reports_absence() {
    let mut table = TableOfContents::new();

    assert!(table.delete_document("path/myfile.rs").is_none());
}

#[test]
fn reopen_replaces_document_and_version() {
    let mut table = TableOfContents::new();

    let _ = table.did_open_document(
        "path/myfile.rs".to_string(),
        OpenDocument::new("old text"),
        1,
    );
    let _ = table.did_open_document(
        "path/myfile.rs".to_string(),
        OpenDocument::new("new text"),
        5,
    );

    assert_eq!(table.document_count(), 1);
    let doc = table.delete_document("path/myfile.rs").unwrap();
    assert_eq!(doc.version, 5);
    assert_eq!(doc.content, vec!["new text"]);
}

#[test]
fn change_without_range_is_deprecated_and_updates_version() {
    let mut table = TableOfContents::new();

    let _ = table.did_open_document(
        "path/myfile.rs".to_string(),
        OpenDocument::new("one line"),
        1,
    );
    let events = vec![RawChangeEvent {
        range: None,
        text: "ignored".to_string(),
    }];
    let res = table.did_change_document("path/myfile.rs", 9, events);

    assert!(matches!(
        res,
        Err(TableOfContentsError::DocumentError(
            DocumentError::Deprecated(_)
        ))
    ));

    let doc = table.delete_document("path/myfile.rs").unwrap();
    assert_eq!(doc.version, 9);
    assert_eq!(doc.content, vec!["one line"]);
}

#[test]
fn change_updates_version_even_when_an_edit_fails() {
    let mut table = TableOfContents::new();

    let _ = table.did_open_document(
        "path/myfile.rs".to_string(),
        OpenDocument::new("one line"),
        1,
    );
    let events = get_change_events(4, 0, 4, 0, "x");
    let res = table.did_change_document("path/myfile.rs", 3, events);

    assert!(matches!(
        res,
        Err(TableOfContentsError::DocumentError(
            DocumentError::LineOutOfRange(4, 1)
        ))
    ));

    let doc = table.delete_document("path/myfile.rs").unwrap();
    assert_eq!(doc.version, 3);
    assert_eq!(doc.content, vec!["one line"]);
}

#[test]
fn registries_track_documents_independently() {
    let mut table = TableOfContents::new();

    let _ = table.did_open_document("a.rs".to_string(), OpenDocument::new("aaa"), 1);
    let _ = table.did_open_document("b.rs".to_string(), OpenDocument::new("bbb"), 2);

    assert_eq!(table.document_count(), 2);

    let events = get_change_events(0, 0, 0, 3, "AAA");
    let res = table.did_change_document("a.rs", 3, events);
    assert!(res.is_ok());

    assert_eq!(table.get_document("a.rs").unwrap()[0], "AAA");
    assert_eq!(table.get_document("b.rs").unwrap()[0], "bbb");
}
