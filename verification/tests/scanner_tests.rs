use kroki_preprocessor::directive::{DiagramContent, OutputFormat, PathRoot};
use kroki_preprocessor::errors::ScanError;
use kroki_preprocessor::events::{serialize_events, Event};
use kroki_preprocessor::scanner::scan_events;

fn text(s: &str) -> Event {
    Event::Text(s.to_string())
}

fn html(s: &str) -> Event {
    Event::Html(s.to_string())
}

#[test]
fn document_without_directives_passes_through() {
    let events = vec![
        Event::ParagraphStart,
        text("plain prose"),
        Event::ParagraphEnd,
        Event::FenceStart("rust".to_string()),
        text("fn main() {}\n"),
        Event::FenceEnd,
        Event::ImageStart("images/cat.png".to_string()),
        text("a cat"),
        Event::ImageEnd("images/cat.png".to_string()),
    ];
    let (out, dirs) = scan_events(&events).unwrap();
    assert_eq!(out, events);
    assert!(dirs.is_empty());
}

#[test]
fn fenced_block_becomes_inline_directive() {
    let events = vec![
        Event::FenceStart("kroki-mermaid".to_string()),
        text("graph TD; A-->B;"),
        Event::FenceEnd,
    ];
    let (out, dirs) = scan_events(&events).unwrap();
    assert_eq!(dirs.len(), 1);
    assert_eq!(dirs[0].diagram_type, "mermaid".to_string());
    assert_eq!(dirs[0].output_format, OutputFormat::Svg);
    assert_eq!(dirs[0].replace_text, "%%kroki-diagram-0%%".to_string());
    assert_eq!(
        dirs[0].content,
        DiagramContent::Raw("graph TD; A-->B;".to_string())
    );
    assert_eq!(
        out,
        vec![
            Event::ParagraphStart,
            text("%%kroki-diagram-0%%"),
            Event::ParagraphEnd,
        ]
    );
}

#[test]
fn fence_language_is_matched_case_insensitively() {
    let events = vec![
        Event::FenceStart("Kroki-Mermaid".to_string()),
        text("graph TD;"),
        Event::FenceEnd,
    ];
    let (_, dirs) = scan_events(&events).unwrap();
    assert_eq!(dirs[0].diagram_type, "mermaid".to_string());
}

#[test]
fn fence_with_other_language_is_kept() {
    let events = vec![
        Event::FenceStart("python".to_string()),
        text("print(1)\n"),
        Event::FenceEnd,
    ];
    let (out, dirs) = scan_events(&events).unwrap();
    assert_eq!(out, events);
    assert!(dirs.is_empty());
}

#[test]
fn self_closing_tag_declares_a_file_reference() {
    let events = vec![html(
        "<kroki type=\"ERD\" path=\"my/file.erd\" root=\"book\" format=\"png\" />",
    )];
    let (out, dirs) = scan_events(&events).unwrap();
    assert_eq!(dirs.len(), 1);
    assert_eq!(dirs[0].diagram_type, "erd".to_string());
    assert_eq!(dirs[0].output_format, OutputFormat::Png);
    assert_eq!(
        dirs[0].content,
        DiagramContent::Path {
            kind: PathRoot::Book,
            path: "my/file.erd".to_string(),
        }
    );
    assert_eq!(
        out,
        vec![
            Event::ParagraphStart,
            text("%%kroki-diagram-0%%"),
            Event::ParagraphEnd,
        ]
    );
}

#[test]
fn open_tag_discards_its_content_until_the_close() {
    let events = vec![
        html("<kroki type=\"pikchr\" path=\"d.pikchr\">"),
        text("this text is not the diagram source"),
        html("</kroki>"),
        Event::ParagraphStart,
        text("after"),
        Event::ParagraphEnd,
    ];
    let (out, dirs) = scan_events(&events).unwrap();
    assert_eq!(dirs.len(), 1);
    assert_eq!(
        dirs[0].content,
        DiagramContent::Path {
            kind: PathRoot::This,
            path: "d.pikchr".to_string(),
        }
    );
    assert_eq!(
        out,
        vec![
            Event::ParagraphStart,
            text("%%kroki-diagram-0%%"),
            Event::ParagraphEnd,
            Event::ParagraphStart,
            text("after"),
            Event::ParagraphEnd,
        ]
    );
}

#[test]
fn tag_missing_type_fails_the_scan() {
    let events = vec![html("<kroki path=\"d.puml\" />")];
    assert_eq!(scan_events(&events), Err(ScanError::MissingTypeAttribute));
}

#[test]
fn tag_missing_path_fails_the_scan() {
    let events = vec![html("<kroki type=\"plantuml\" />")];
    assert_eq!(scan_events(&events), Err(ScanError::MissingPathAttribute));
}

#[test]
fn tag_with_unknown_root_fails_the_scan() {
    let events = vec![html("<kroki type=\"t\" path=\"p\" root=\"attic\" />")];
    assert_eq!(scan_events(&events), Err(ScanError::UnrecognizedRootKind));
}

#[test]
fn tag_with_unknown_format_fails_the_scan() {
    let events = vec![html("<kroki type=\"t\" path=\"p\" format=\"bmp\" />")];
    assert_eq!(
        scan_events(&events),
        Err(ScanError::UnrecognizedOutputFormat)
    );
}

#[test]
fn system_root_with_relative_path_fails_the_scan() {
    let events = vec![html("<kroki type=\"t\" path=\"p.puml\" root=\"system\" />")];
    assert_eq!(scan_events(&events), Err(ScanError::InvalidPathForRoot));
}

#[test]
fn absolute_path_without_explicit_root_fails_the_scan() {
    let events = vec![html("<kroki type=\"t\" path=\"/p.puml\" />")];
    assert_eq!(
        scan_events(&events),
        Err(ScanError::AbsolutePathRequiresExplicitRoot)
    );
}

#[test]
fn unterminated_tag_fails_the_scan() {
    let events = vec![html("<kroki type=\"t\" path=\"p.puml\">"), text("inner")];
    assert_eq!(
        scan_events(&events),
        Err(ScanError::UnterminatedDirectiveTag)
    );
}

#[test]
fn unterminated_fenced_directive_fails_the_scan() {
    let events = vec![
        Event::FenceStart("kroki-mermaid".to_string()),
        text("graph TD;"),
    ];
    assert_eq!(
        scan_events(&events),
        Err(ScanError::UnterminatedDirectiveBlock)
    );
}

#[test]
fn unterminated_image_directive_fails_the_scan() {
    let events = vec![Event::ImageStart("kroki-pikchr:d.pikchr".to_string())];
    assert_eq!(
        scan_events(&events),
        Err(ScanError::UnterminatedImageDirective)
    );
}

#[test]
fn malformed_tag_fails_the_scan() {
    let events = vec![html("<kroki type=broken />")];
    assert_eq!(scan_events(&events), Err(ScanError::MalformedDirectiveTag));
}

#[test]
fn image_with_relative_path_resolves_against_this_document() {
    let events = vec![
        Event::ImageStart("kroki-Excalidraw:my/file.excalidraw".to_string()),
        text("alt text is discarded"),
        Event::ImageEnd("kroki-Excalidraw:my/file.excalidraw".to_string()),
    ];
    let (out, dirs) = scan_events(&events).unwrap();
    assert_eq!(dirs.len(), 1);
    assert_eq!(dirs[0].diagram_type, "excalidraw".to_string());
    assert_eq!(
        dirs[0].content,
        DiagramContent::Path {
            kind: PathRoot::This,
            path: "my/file.excalidraw".to_string(),
        }
    );
    assert_eq!(
        out,
        vec![
            Event::ParagraphStart,
            text("%%kroki-diagram-0%%"),
            Event::ParagraphEnd,
        ]
    );
}

#[test]
fn image_with_absolute_path_resolves_against_the_system_root() {
    let events = vec![
        Event::ImageStart("kroki-pikchr:/tmp/d.pikchr".to_string()),
        Event::ImageEnd("kroki-pikchr:/tmp/d.pikchr".to_string()),
    ];
    let (_, dirs) = scan_events(&events).unwrap();
    assert_eq!(
        dirs[0].content,
        DiagramContent::Path {
            kind: PathRoot::System,
            path: "/tmp/d.pikchr".to_string(),
        }
    );
}

#[test]
fn ordinary_image_is_kept() {
    let events = vec![
        Event::ImageStart("pictures/dog.png".to_string()),
        text("a dog"),
        Event::ImageEnd("pictures/dog.png".to_string()),
    ];
    let (out, dirs) = scan_events(&events).unwrap();
    assert_eq!(out, events);
    assert!(dirs.is_empty());
}

#[test]
fn placeholders_are_distinct_and_occur_once_each() {
    let mut events = Vec::new();
    for i in 0..12 {
        events.push(Event::FenceStart("kroki-mermaid".to_string()));
        events.push(text(&format!("graph {i};")));
        events.push(Event::FenceEnd);
    }
    let (out, dirs) = scan_events(&events).unwrap();
    assert_eq!(dirs.len(), 12);
    for a in 0..dirs.len() {
        assert_eq!(dirs[a].replace_text, format!("%%kroki-diagram-{a}%%"));
        for b in 0..a {
            assert_ne!(dirs[a].replace_text, dirs[b].replace_text);
        }
    }
    let content = serialize_events(&out);
    for d in &dirs {
        assert_eq!(content.matches(&d.replace_text).count(), 1);
    }
}

#[test]
fn raw_passthrough_suppresses_every_directive_syntax() {
    let events = vec![
        html("<pre>"),
        html("<kroki type=\"t\" path=\"p\" />"),
        Event::FenceStart("kroki-mermaid".to_string()),
        text("graph TD;"),
        Event::FenceEnd,
        Event::ImageStart("kroki-svgbob:art.bob".to_string()),
        Event::ImageEnd("kroki-svgbob:art.bob".to_string()),
        html("</pre>"),
    ];
    let (out, dirs) = scan_events(&events).unwrap();
    assert_eq!(out, events);
    assert!(dirs.is_empty());
}

#[test]
fn nested_raw_passthrough_is_balanced_to_depth_three() {
    let events = vec![
        html("<pre>"),
        html("<pre>"),
        html("<pre>"),
        html("<kroki type=\"t\" path=\"p\" />"),
        html("</pre>"),
        html("</pre>"),
        Event::FenceStart("kroki-mermaid".to_string()),
        text("still raw at depth one"),
        Event::FenceEnd,
        html("</pre>"),
        Event::FenceStart("kroki-mermaid".to_string()),
        text("graph TD;"),
        Event::FenceEnd,
    ];
    let (out, dirs) = scan_events(&events).unwrap();
    // only the fence after the raw span closes is a directive
    assert_eq!(dirs.len(), 1);
    assert_eq!(dirs[0].content, DiagramContent::Raw("graph TD;".to_string()));
    assert_eq!(out[..10].to_vec(), events[..10].to_vec());
}

#[test]
fn fenced_directive_concatenates_its_text_runs() {
    let events = vec![
        Event::FenceStart("kroki-plantuml".to_string()),
        text("a -> b\n"),
        text("b -> c\n"),
        Event::FenceEnd,
    ];
    let (_, dirs) = scan_events(&events).unwrap();
    assert_eq!(
        dirs[0].content,
        DiagramContent::Raw("a -> b\nb -> c\n".to_string())
    );
}

#[test]
fn serialization_renders_fences_and_images_canonically() {
    let events = vec![
        Event::ParagraphStart,
        text("hello"),
        Event::ParagraphEnd,
        Event::FenceStart("rust".to_string()),
        text("let x = 1;\n"),
        Event::FenceEnd,
        Event::ImageStart("u.png".to_string()),
        text("alt"),
        Event::ImageEnd("u.png".to_string()),
    ];
    let s = serialize_events(&events);
    assert_eq!(s, "hello\n\n```rust\nlet x = 1;\n```\n\n![alt](u.png)");
}
