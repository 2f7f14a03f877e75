//! Error taxonomy.
//!
//! Scan errors abort the extraction phase for the whole run; path errors are
//! raised when a file-reference directive is resolved to a concrete path;
//! addressing errors signal that an address computed during extraction no
//! longer resolves; resolution errors belong to the per-directive render
//! phase (`SourceFileUnreadable` and `RenderServiceError` are produced by the
//! host around its file and network calls, `UnexpectedRenderResponse` by the
//! response check in this library).

use vstd::prelude::*;

verus! {

/// A malformed directive found while scanning a document's events.
#[derive(Debug, Clone, Copy, PartialEq, Eq, Structural)]
pub enum ScanError {
    /// A custom directive tag whose attribute syntax cannot be parsed.
    MalformedDirectiveTag,
    /// A custom directive tag without the required `type` attribute.
    MissingTypeAttribute,
    /// A custom directive tag without the required `path` attribute.
    MissingPathAttribute,
    /// A `root` attribute value naming no known root kind.
    UnrecognizedRootKind,
    /// A `format` attribute value naming no known output format.
    UnrecognizedOutputFormat,
    /// A relative path declared under the system root.
    InvalidPathForRoot,
    /// An absolute path declared without an explicit root.
    AbsolutePathRequiresExplicitRoot,
    /// A custom directive tag still open at the end of the document.
    UnterminatedDirectiveTag,
    /// A fenced directive block still open at the end of the document.
    UnterminatedDirectiveBlock,
    /// An image directive still open at the end of the document.
    UnterminatedImageDirective,
}

/// A failure to resolve a declared path against its root kind.
#[derive(Debug, Clone, Copy, PartialEq, Eq, Structural)]
pub enum PathError {
    /// The root kind demands an absolute path but the declared path is
    /// relative.
    InvalidPathForRoot,
    /// The declared path is absolute but no explicit root was given.
    AbsolutePathRequiresExplicitRoot,
    /// The owning document has no on-disk source path to resolve against.
    NoSourcePathForDocument,
}

/// A failure to locate a document by its address.
#[derive(Debug, Clone, Copy, PartialEq, Eq, Structural)]
pub enum AddressError {
    /// Some index of the address no longer names a tree item.
    StaleAddress,
    /// The addressed tree item is not a document.
    NotADocumentNode,
}

/// A failure while resolving one directive's rendered content.
#[derive(Debug, Clone, Copy, PartialEq, Eq, Structural)]
pub enum RenderError {
    /// The referenced source file could not be read.
    SourceFileUnreadable,
    /// The render service call failed in transport or returned a
    /// non-success status.
    RenderServiceError,
    /// The render service response does not contain the expected rendered
    /// content marker.
    UnexpectedRenderResponse,
}

/// A scan error together with the address of the document it was found in.
#[derive(Debug, Clone, PartialEq)]
pub struct TreeScanError {
    /// Address of the offending document.
    pub address: Vec<usize>,
    /// What was wrong with it.
    pub error: ScanError,
}

} // verus!
