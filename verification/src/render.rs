//! Resolution plumbing around the render service.
//!
//! The render call itself is the host's: it reads referenced files and
//! posts request bodies over the network. This module makes every
//! decision around that call — which file a directive needs or which
//! inline text it carries, the plain request fields to encode, and the
//! check and framing of the service's response.

use vstd::prelude::*;
use vstd::string::*;

use crate::directive::{Diagram, DiagramContent, DiagramContentV, OutputFormat};
use crate::errors::{PathError, RenderError};
use crate::paths::{parent_dir, parent_dir_seq, resolve, resolve_spec};
use crate::text::{find_first, first_occurrence, is_first_occurrence, lemma_first_occurrence_unique};
use crate::tree::opt_str_view;

verus! {

/// The serialized name of an output format.
pub open spec fn format_name(f: OutputFormat) -> Seq<char> {
    match f {
        OutputFormat::Svg => "svg"@,
        OutputFormat::Png => "png"@,
        OutputFormat::Jpeg => "jpeg"@,
        OutputFormat::Pdf => "pdf"@,
    }
}

/// The serialized name of an output format.
pub fn format_str(f: OutputFormat) -> (r: &'static str)
    ensures
        r@ == format_name(f),
{
    match f {
        OutputFormat::Svg => "svg",
        OutputFormat::Png => "png",
        OutputFormat::Jpeg => "jpeg",
        OutputFormat::Pdf => "pdf",
    }
}

/// The plain fields of one render request, for the host to encode and
/// post.
#[derive(Debug, PartialEq)]
pub struct KrokiRequestBody {
    /// The diagram source text.
    pub diagram_source: String,
    /// The diagram type, lower-cased.
    pub diagram_type: String,
    /// The serialized output format name.
    pub output_format: String,
}

/// Build the request body for a directive whose source text is in hand.
pub fn request_body(d: &Diagram, source: String) -> (r: KrokiRequestBody)
    ensures
        r.diagram_source == source,
        r.diagram_type@ == d.diagram_type@,
        r.output_format@ == format_name(d.output_format),
{
    KrokiRequestBody {
        diagram_source: source,
        diagram_type: d.diagram_type.clone(),
        output_format: String::from_str(format_str(d.output_format)),
    }
}

/// What the host must do to obtain one directive's source text.
#[derive(Debug, PartialEq)]
pub enum SourceRequest {
    /// The source is this text, given inline in the document.
    Inline(String),
    /// The source must be read from the file at this path.
    ReadFile(String),
}

/// View of `SourceRequest`.
#[verifier::ext_equal]
pub enum SourceRequestV {
    /// View of `SourceRequest::Inline`.
    Inline(Seq<char>),
    /// View of `SourceRequest::ReadFile`.
    ReadFile(Seq<char>),
}

impl View for SourceRequest {
    type V = SourceRequestV;

    open spec fn view(&self) -> SourceRequestV {
        match self {
            SourceRequest::Inline(s) => SourceRequestV::Inline(s@),
            SourceRequest::ReadFile(s) => SourceRequestV::ReadFile(s@),
        }
    }
}

/// The source request for a directive: inline text as it stands, a file
/// reference resolved against the owning document's directory.
pub open spec fn source_request_spec(
    content: DiagramContentV,
    book_root: Seq<char>,
    source_root: Seq<char>,
    source_path: Option<Seq<char>>,
) -> Result<SourceRequestV, PathError> {
    match content {
        DiagramContentV::Raw(s) => Ok(SourceRequestV::Inline(s)),
        DiagramContentV::Path { kind, path } => {
            let owner = match source_path {
                Some(p) => Some(parent_dir_seq(p)),
                None => None,
            };
            match resolve_spec(kind, path, book_root, source_root, owner) {
                Ok(p) => Ok(SourceRequestV::ReadFile(p)),
                Err(e) => Err(e),
            }
        },
    }
}

/// Decide how to obtain one directive's source text: inline directives
/// carry it, file references are resolved to the concrete path to read,
/// against the owning document's source path (its directory part) for
/// the owning-document root.
pub fn directive_source(
    d: &Diagram,
    book_root: &str,
    source_root: &str,
    source_path: &Option<String>,
) -> (r: Result<SourceRequest, PathError>)
    ensures
        match r {
            Ok(req) => source_request_spec(
                d.content@,
                book_root@,
                source_root@,
                opt_str_view(*source_path),
            ) == Ok::<_, PathError>(req@),
            Err(e) => source_request_spec(
                d.content@,
                book_root@,
                source_root@,
                opt_str_view(*source_path),
            ) == Err::<SourceRequestV, _>(e),
        },
{
    match &d.content {
        DiagramContent::Raw(s) => Ok(SourceRequest::Inline(s.clone())),
        DiagramContent::Path { kind, path } => {
            let r = match source_path {
                Some(p) => {
                    let dir = parent_dir(p.as_str());
                    resolve(*kind, path.as_str(), book_root, source_root, Some(dir.as_str()))
                },
                None => resolve(*kind, path.as_str(), book_root, source_root, None),
            };
            match r {
                Ok(p) => Ok(SourceRequest::ReadFile(p)),
                Err(e) => Err(e),
            }
        },
    }
}

/// A checked render response: everything before the first `<svg` marker
/// discarded, the rest wrapped in the neutral literal-block marker pair.
pub open spec fn process_response_spec(body: Seq<char>) -> Result<Seq<char>, RenderError> {
    match first_occurrence(body, "<svg"@) {
        Some(i) => Ok("<pre>"@ + body.subrange(i, body.len() as int) + "</pre>"@),
        None => Err(RenderError::UnexpectedRenderResponse),
    }
}

/// Check a render-service response and frame the rendered content.
///
/// The response is scanned for the rendered-content marker `<svg`;
/// everything before it is discarded and the rest is wrapped in
/// `<pre>`/`</pre>`, so that the document renderer will not reinterpret
/// it as markup. A response without the marker is exactly the error
/// `UnexpectedRenderResponse`.
pub fn process_render_response(body: &str) -> (r: Result<String, RenderError>)
    ensures
        match r {
            Ok(s) => process_response_spec(body@) == Ok::<_, RenderError>(s@),
            Err(e) => process_response_spec(body@) == Err::<Seq<char>, _>(e),
        },
{
    let n = body.unicode_len();
    match find_first(body, "<svg") {
        None => Err(RenderError::UnexpectedRenderResponse),
        Some(i) => {
            let tail = body.substring_char(i, n);
            let r = String::from_str("<pre>").concat(tail).concat("</pre>");
            proof {
                let i0 = choose|k: int| is_first_occurrence(body@, "<svg"@, k);
                lemma_first_occurrence_unique(body@, "<svg"@, i as int, i0);
            }
            Ok(r)
        },
    }
}

} // verus!
