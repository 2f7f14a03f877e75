//! Diagram directives.
//!
//! A directive is a self-contained instruction embedded in a document,
//! naming a diagram type, the diagram's source (inline text or a file
//! reference) and an output format. The scanner produces one `Diagram`
//! record per directive; the tree walker stamps each record with the
//! address of its owning document.

use vstd::prelude::*;

verus! {

/// The policy determining which base directory a file reference is
/// relative to.
#[derive(Debug, Clone, Copy, PartialEq, Eq, Structural)]
pub enum PathRoot {
    /// The path must be absolute and is used unchanged.
    System,
    /// Relative to the book's root directory.
    Book,
    /// Relative to the book's content-source directory.
    Source,
    /// Relative to the owning document's own directory.
    This,
}

/// The output format requested for a rendered diagram.
#[derive(Debug, Clone, Copy, PartialEq, Eq, Structural)]
pub enum OutputFormat {
    /// Scalable vector graphics (the default).
    Svg,
    /// Portable network graphics.
    Png,
    /// JPEG raster graphics.
    Jpeg,
    /// Portable document format.
    Pdf,
}

/// Where a directive's diagram source comes from.
#[derive(Debug, Clone, PartialEq)]
pub enum DiagramContent {
    /// The diagram source is given literally in the document.
    Raw(String),
    /// The diagram source must be read from a file.
    Path {
        /// Which base directory `path` is relative to.
        kind: PathRoot,
        /// The declared path, separated by `/`.
        path: String,
    },
}

/// One extracted diagram directive.
#[derive(Debug, Clone, PartialEq)]
pub struct Diagram {
    /// The diagram type, lower-cased.
    pub diagram_type: String,
    /// The requested output format.
    pub output_format: OutputFormat,
    /// The unique placeholder token standing in the owning document's
    /// rewritten content.
    pub replace_text: String,
    /// Address of the owning document: child indices from the tree root.
    pub indices: Vec<usize>,
    /// The diagram source.
    pub content: DiagramContent,
}

/// View of `DiagramContent`.
#[verifier::ext_equal]
pub enum DiagramContentV {
    /// View of `DiagramContent::Raw`.
    Raw(Seq<char>),
    /// View of `DiagramContent::Path`.
    Path {
        /// Which base directory `path` is relative to.
        kind: PathRoot,
        /// The declared path.
        path: Seq<char>,
    },
}

/// View of `Diagram`.
#[verifier::ext_equal]
pub struct DiagramV {
    /// View of `Diagram::diagram_type`.
    pub diagram_type: Seq<char>,
    /// View of `Diagram::output_format`.
    pub output_format: OutputFormat,
    /// View of `Diagram::replace_text`.
    pub replace_text: Seq<char>,
    /// View of `Diagram::indices`.
    pub indices: Seq<usize>,
    /// View of `Diagram::content`.
    pub content: DiagramContentV,
}

impl View for DiagramContent {
    type V = DiagramContentV;

    open spec fn view(&self) -> DiagramContentV {
        match self {
            DiagramContent::Raw(s) => DiagramContentV::Raw(s@),
            DiagramContent::Path { kind, path } => DiagramContentV::Path {
                kind: *kind,
                path: path@,
            },
        }
    }
}

impl View for Diagram {
    type V = DiagramV;

    open spec fn view(&self) -> DiagramV {
        DiagramV {
            diagram_type: self.diagram_type@,
            output_format: self.output_format,
            replace_text: self.replace_text@,
            indices: self.indices@,
            content: self.content@,
        }
    }
}

/// The views of a sequence of diagrams.
pub open spec fn diagrams_view(s: Seq<Diagram>) -> Seq<DiagramV> {
    s.map_values(|d: Diagram| d@)
}

} // verus!
