use kroki_preprocessor::directive::DiagramContent;
use kroki_preprocessor::errors::{AddressError, ScanError};
use kroki_preprocessor::events::Event;
use kroki_preprocessor::render::process_render_response;
use kroki_preprocessor::tree::{
    apply_resolutions, document_at, scan_tree, write_back, DocumentNode, Resolution, TreeItem,
};

fn doc(events: Vec<Event>, source_path: Option<&str>, children: Vec<TreeItem>) -> TreeItem {
    TreeItem::Document(DocumentNode {
        events,
        content: String::new(),
        source_path: source_path.map(|s| s.to_string()),
        children,
    })
}

fn fence_directive(body: &str) -> Vec<Event> {
    vec![
        Event::FenceStart("kroki-mermaid".to_string()),
        Event::Text(body.to_string()),
        Event::FenceEnd,
    ]
}

fn plain(bodytext: &str) -> Vec<Event> {
    vec![
        Event::ParagraphStart,
        Event::Text(bodytext.to_string()),
        Event::ParagraphEnd,
    ]
}

#[test]
fn walker_stamps_addresses_in_preorder() {
    let items = vec![
        doc(
            fence_directive("graph A;"),
            Some("intro.md"),
            vec![
                TreeItem::Other,
                doc(fence_directive("graph B;"), Some("sub/child.md"), vec![]),
            ],
        ),
        TreeItem::Other,
        doc(fence_directive("graph C;"), None, vec![]),
    ];
    let (items2, dirs) = scan_tree(&items).unwrap();
    assert_eq!(dirs.len(), 3);
    assert_eq!(dirs[0].indices, vec![0]);
    assert_eq!(dirs[0].content, DiagramContent::Raw("graph A;".to_string()));
    assert_eq!(dirs[1].indices, vec![0, 1]);
    assert_eq!(dirs[1].content, DiagramContent::Raw("graph B;".to_string()));
    assert_eq!(dirs[2].indices, vec![2]);
    assert_eq!(dirs[2].content, DiagramContent::Raw("graph C;".to_string()));
    // each document's content now holds its own placeholder paragraph
    let first = document_at(&items2, &vec![0]).unwrap();
    assert_eq!(first.content, "%%kroki-diagram-0%%\n\n");
    let child = document_at(&items2, &vec![0, 1]).unwrap();
    assert_eq!(child.content, "%%kroki-diagram-0%%\n\n");
    assert_eq!(child.source_path, Some("sub/child.md".to_string()));
}

#[test]
fn placeholder_indices_restart_per_document() {
    let mut events = fence_directive("one");
    events.extend(fence_directive("two"));
    let items = vec![
        doc(events, None, vec![]),
        doc(fence_directive("three"), None, vec![]),
    ];
    let (_, dirs) = scan_tree(&items).unwrap();
    assert_eq!(dirs[0].replace_text, "%%kroki-diagram-0%%");
    assert_eq!(dirs[1].replace_text, "%%kroki-diagram-1%%");
    assert_eq!(dirs[2].replace_text, "%%kroki-diagram-0%%");
}

#[test]
fn scan_error_names_the_offending_document() {
    let items = vec![
        doc(plain("fine"), None, vec![]),
        doc(
            vec![Event::Html("<kroki path=\"p.puml\" />".to_string())],
            None,
            vec![],
        ),
    ];
    let err = scan_tree(&items).unwrap_err();
    assert_eq!(err.address, vec![1]);
    assert_eq!(err.error, ScanError::MissingTypeAttribute);
}

#[test]
fn failed_scan_aborts_before_any_resolution() {
    // a malformed tag in one document fails the whole extraction phase:
    // there is no directive list to resolve, so no render call is issued
    let items = vec![
        doc(fence_directive("graph A;"), None, vec![]),
        doc(
            vec![Event::Html("<kroki type=\"t\" />".to_string())],
            None,
            vec![],
        ),
    ];
    let r = scan_tree(&items);
    assert_eq!(
        r.unwrap_err().error,
        ScanError::MissingPathAttribute
    );
}

#[test]
fn document_at_reports_stale_and_non_document_addresses() {
    let items = vec![doc(plain("x"), None, vec![TreeItem::Other])];
    assert!(document_at(&items, &vec![0]).is_ok());
    assert_eq!(
        document_at(&items, &vec![3]).unwrap_err(),
        AddressError::StaleAddress
    );
    assert_eq!(
        document_at(&items, &vec![]).unwrap_err(),
        AddressError::StaleAddress
    );
    assert_eq!(
        document_at(&items, &vec![0, 0]).unwrap_err(),
        AddressError::NotADocumentNode
    );
    assert_eq!(
        document_at(&items, &vec![0, 5]).unwrap_err(),
        AddressError::StaleAddress
    );
}

#[test]
fn write_back_replaces_the_first_occurrence_only() {
    let mut items = vec![TreeItem::Document(DocumentNode {
        events: vec![],
        content: "a TOKEN b TOKEN".to_string(),
        source_path: None,
        children: vec![],
    })];
    write_back(&mut items, &vec![0], "TOKEN", "X").unwrap();
    let n = document_at(&items, &vec![0]).unwrap();
    assert_eq!(n.content, "a X b TOKEN");
}

#[test]
fn write_back_without_occurrence_leaves_content_alone() {
    let mut items = vec![TreeItem::Document(DocumentNode {
        events: vec![],
        content: "nothing here".to_string(),
        source_path: None,
        children: vec![],
    })];
    write_back(&mut items, &vec![0], "TOKEN", "X").unwrap();
    let n = document_at(&items, &vec![0]).unwrap();
    assert_eq!(n.content, "nothing here");
}

#[test]
fn write_back_on_a_bad_address_changes_nothing() {
    let mut items = vec![doc(plain("x"), None, vec![])];
    let before = format!("{items:?}");
    assert_eq!(
        write_back(&mut items, &vec![7], "a", "b").unwrap_err(),
        AddressError::StaleAddress
    );
    assert_eq!(format!("{items:?}"), before);
}

#[test]
fn concurrent_write_back_order_is_irrelevant() {
    // directives in three distinct documents; every resolution result is
    // tagged with the placeholder it was asked to resolve, and the merge
    // pass is run in two different orders over two copies of the tree
    let make_items = || {
        vec![
            doc(fence_directive("graph A;"), None, vec![]),
            doc(fence_directive("graph B;"), None, vec![]),
            doc(fence_directive("graph C;"), None, vec![]),
        ]
    };
    let (scanned, dirs) = scan_tree(&make_items()).unwrap();
    let resolutions: Vec<Resolution> = dirs
        .iter()
        .map(|d| Resolution {
            indices: d.indices.clone(),
            replace_text: d.replace_text.clone(),
            content: format!("rendered({}, {:?})", d.replace_text, d.indices),
        })
        .collect();

    let (mut forward, _) = scan_tree(&make_items()).unwrap();
    apply_resolutions(&mut forward, &resolutions).unwrap();

    let mut backwards_order: Vec<Resolution> = dirs
        .iter()
        .map(|d| Resolution {
            indices: d.indices.clone(),
            replace_text: d.replace_text.clone(),
            content: format!("rendered({}, {:?})", d.replace_text, d.indices),
        })
        .collect();
    backwards_order.reverse();
    let mut backward = scanned;
    apply_resolutions(&mut backward, &backwards_order).unwrap();

    assert_eq!(forward, backward);
    for (k, d) in dirs.iter().enumerate() {
        let n = document_at(&forward, &d.indices).unwrap();
        let expected = format!("rendered({}, {:?})\n\n", d.replace_text, d.indices);
        assert_eq!(n.content, expected, "document {k}");
    }
}

#[test]
fn apply_resolutions_reports_a_stale_address() {
    let mut items = vec![doc(plain("x"), None, vec![])];
    let rs = vec![Resolution {
        indices: vec![4],
        replace_text: "t".to_string(),
        content: "c".to_string(),
    }];
    assert_eq!(
        apply_resolutions(&mut items, &rs).unwrap_err(),
        AddressError::StaleAddress
    );
}

#[test]
fn full_run_on_one_fenced_diagram() {
    // one document with a fenced kroki block; a mock render response is
    // checked, framed and written back: the final content holds the
    // framed output exactly once and no placeholder remains
    let items = vec![doc(
        vec![
            Event::ParagraphStart,
            Event::Text("before".to_string()),
            Event::ParagraphEnd,
            Event::FenceStart("kroki-mermaid".to_string()),
            Event::Text("graph TD; A-->B;".to_string()),
            Event::FenceEnd,
        ],
        Some("chapter.md"),
        vec![],
    )];
    let (mut scanned, dirs) = scan_tree(&items).unwrap();
    assert_eq!(dirs.len(), 1);
    assert_eq!(dirs[0].diagram_type, "mermaid");
    assert_eq!(
        dirs[0].content,
        DiagramContent::Raw("graph TD; A-->B;".to_string())
    );

    let mock_response = "HTTP junk before the marker <svg><g>mock</g></svg>";
    let rendered = process_render_response(mock_response).unwrap();
    assert_eq!(rendered, "<pre><svg><g>mock</g></svg></pre>");

    let rs = vec![Resolution {
        indices: dirs[0].indices.clone(),
        replace_text: dirs[0].replace_text.clone(),
        content: rendered.clone(),
    }];
    apply_resolutions(&mut scanned, &rs).unwrap();

    let n = document_at(&scanned, &dirs[0].indices).unwrap();
    assert_eq!(n.content.matches(&rendered).count(), 1);
    assert_eq!(n.content.matches("%%kroki-diagram").count(), 0);
    assert_eq!(n.content, "before\n\n<pre><svg><g>mock</g></svg></pre>\n\n");
}
