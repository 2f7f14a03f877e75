use kroki_preprocessor::directive::{Diagram, DiagramContent, OutputFormat, PathRoot};
use kroki_preprocessor::errors::{PathError, RenderError};
use kroki_preprocessor::preprocessor::{
    default_endpoint, normalize_endpoint, KrokiPreprocessor,
};
use kroki_preprocessor::render::{
    directive_source, format_str, process_render_response, request_body, SourceRequest,
};

fn diagram(content: DiagramContent) -> Diagram {
    Diagram {
        diagram_type: "plantuml".to_string(),
        output_format: OutputFormat::Svg,
        replace_text: "%%kroki-diagram-0%%".to_string(),
        indices: vec![0],
        content,
    }
}

#[test]
fn response_is_trimmed_to_the_marker_and_framed() {
    let r = process_render_response("noise <svg>picture</svg>").unwrap();
    assert_eq!(r, "<pre><svg>picture</svg></pre>");
}

#[test]
fn response_starting_at_the_marker_is_framed_whole() {
    let r = process_render_response("<svg/>").unwrap();
    assert_eq!(r, "<pre><svg/></pre>");
}

#[test]
fn response_without_marker_is_rejected() {
    assert_eq!(
        process_render_response("an error page"),
        Err(RenderError::UnexpectedRenderResponse)
    );
}

#[test]
fn format_names_are_the_serialized_forms() {
    assert_eq!(format_str(OutputFormat::Svg), "svg");
    assert_eq!(format_str(OutputFormat::Png), "png");
    assert_eq!(format_str(OutputFormat::Jpeg), "jpeg");
    assert_eq!(format_str(OutputFormat::Pdf), "pdf");
}

#[test]
fn request_body_carries_the_directive_fields() {
    let d = diagram(DiagramContent::Raw("a -> b".to_string()));
    let b = request_body(&d, "a -> b".to_string());
    assert_eq!(b.diagram_source, "a -> b");
    assert_eq!(b.diagram_type, "plantuml");
    assert_eq!(b.output_format, "svg");
}

#[test]
fn inline_directive_needs_no_file() {
    let d = diagram(DiagramContent::Raw("a -> b".to_string()));
    let r = directive_source(&d, "/b", "src", &None).unwrap();
    assert_eq!(r, SourceRequest::Inline("a -> b".to_string()));
}

#[test]
fn file_reference_resolves_against_the_owning_document() {
    let d = diagram(DiagramContent::Path {
        kind: PathRoot::This,
        path: "d.puml".to_string(),
    });
    let r = directive_source(&d, "/b", "src", &Some("chapters/doc.md".to_string())).unwrap();
    assert_eq!(
        r,
        SourceRequest::ReadFile("/b/src/chapters/d.puml".to_string())
    );
}

#[test]
fn file_reference_without_source_path_is_an_error() {
    let d = diagram(DiagramContent::Path {
        kind: PathRoot::This,
        path: "d.puml".to_string(),
    });
    assert_eq!(
        directive_source(&d, "/b", "src", &None),
        Err(PathError::NoSourcePathForDocument)
    );
}

#[test]
fn top_level_document_resolves_below_the_source_root() {
    let d = diagram(DiagramContent::Path {
        kind: PathRoot::This,
        path: "d.puml".to_string(),
    });
    let r = directive_source(&d, "/b", "src", &Some("doc.md".to_string())).unwrap();
    assert_eq!(r, SourceRequest::ReadFile("/b/src/d.puml".to_string()));
}

#[test]
fn preprocessor_name_is_stable() {
    assert_eq!(KrokiPreprocessor.name(), "kroki-preprocessor");
}

#[test]
fn only_the_html_renderer_is_supported() {
    assert!(KrokiPreprocessor.supports_renderer("html"));
    assert!(!KrokiPreprocessor.supports_renderer("epub"));
}

#[test]
fn endpoint_normalization_appends_the_missing_separator() {
    assert_eq!(normalize_endpoint("http://localhost:8000"), "http://localhost:8000/");
    assert_eq!(normalize_endpoint("http://localhost:8000/"), "http://localhost:8000/");
}

#[test]
fn the_default_endpoint_is_the_public_service() {
    assert_eq!(default_endpoint(), "https://kroki.io/");
}
