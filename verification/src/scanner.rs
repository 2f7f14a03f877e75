//! The directive scanner.
//!
//! A single-pass state machine over one document's markup events. It
//! recognizes three directive syntaxes — the custom `<kroki>` tag, the
//! image form `![..](kroki-<type>:<path>)` and the fenced block form
//! ```` ```kroki-<type> ````, suppressed inside raw `<pre>` passthrough
//! spans — and rewrites each recognized span to a unique placeholder
//! token while every other event passes through verbatim.

use vstd::prelude::*;
use vstd::string::*;

use crate::directive::{
    Diagram, DiagramContent, DiagramContentV, DiagramV, OutputFormat, PathRoot, diagrams_view,
};
use crate::errors::ScanError;
use crate::events::{
    Event, EventV, clone_event, events_view, lemma_serialize_contains_text, serialize_spec,
};
use crate::paths::{is_absolute, is_absolute_seq};
use crate::text::{
    contains_seq, contains_str, count_occ, count_occ_upto, dec_seq, ends_with, is_digit_char,
    lemma_count_append, lemma_count_append_pct_free, lemma_dec_seq_digits,
    lemma_dec_seq_injective, lemma_dec_seq_len, lower_seq, lowercase, no_danger, occurs_at,
    pct_free, starts_with_seq, starts_with_str, str_eq, to_decimal,
};

verus! {

/// Whitespace inside a directive tag.
pub open spec fn is_ws(c: char) -> bool {
    c == ' ' || c == '\n' || c == '\t' || c == '\r'
}

/// A character that may stand in an attribute name.
pub open spec fn is_name_char(c: char) -> bool {
    !is_ws(c) && c != '=' && c != '>' && c != '/' && c != '"'
}

/// First position at or after `i` holding a non-whitespace character.
pub open spec fn skip_ws_spec(s: Seq<char>, i: int) -> int
    decreases s.len() - i,
    when 0 <= i <= s.len()
{
    if i < s.len() && is_ws(s[i]) {
        skip_ws_spec(s, i + 1)
    } else {
        i
    }
}

/// First position at or after `i` holding a non-name character.
pub open spec fn name_end_spec(s: Seq<char>, i: int) -> int
    decreases s.len() - i,
    when 0 <= i <= s.len()
{
    if i < s.len() && is_name_char(s[i]) {
        name_end_spec(s, i + 1)
    } else {
        i
    }
}

/// First position at or after `i` holding `c`, or the length of `s`.
pub open spec fn char_end_spec(s: Seq<char>, i: int, c: char) -> int
    decreases s.len() - i,
    when 0 <= i <= s.len()
{
    if i < s.len() && s[i] != c {
        char_end_spec(s, i + 1, c)
    } else {
        i
    }
}

/// `skip_ws_spec` stays within `[i, s.len()]`.
pub proof fn lemma_skip_ws_bounds(s: Seq<char>, i: int)
    requires
        0 <= i <= s.len(),
    ensures
        i <= skip_ws_spec(s, i) <= s.len(),
    decreases s.len() - i,
{
    if i < s.len() && is_ws(s[i]) {
        lemma_skip_ws_bounds(s, i + 1);
    }
}

/// `name_end_spec` stays within `[i, s.len()]`.
pub proof fn lemma_name_end_bounds(s: Seq<char>, i: int)
    requires
        0 <= i <= s.len(),
    ensures
        i <= name_end_spec(s, i) <= s.len(),
    decreases s.len() - i,
{
    if i < s.len() && is_name_char(s[i]) {
        lemma_name_end_bounds(s, i + 1);
    }
}

/// `char_end_spec` stays within `[i, s.len()]`.
pub proof fn lemma_char_end_bounds(s: Seq<char>, i: int, c: char)
    requires
        0 <= i <= s.len(),
    ensures
        i <= char_end_spec(s, i, c) <= s.len(),
    decreases s.len() - i,
{
    if i < s.len() && s[i] != c {
        lemma_char_end_bounds(s, i + 1, c);
    }
}

/// The attribute list of a directive tag, parsed from position `i` on:
/// whitespace-separated `name="value"` pairs, ending before `>` or `/`.
pub open spec fn parse_attrs_spec(s: Seq<char>, i: int) -> Result<
    Seq<(Seq<char>, Seq<char>)>,
    ScanError,
>
    decreases s.len() - i,
    when 0 <= i <= s.len()
    via parse_attrs_spec_decreases
{
    let j = skip_ws_spec(s, i);
    if j == s.len() {
        Err(ScanError::MalformedDirectiveTag)
    } else if s[j] == '>' || s[j] == '/' {
        Ok(Seq::empty())
    } else {
        let k = name_end_spec(s, j);
        if k == j || k == s.len() || s[k] != '=' || k + 1 == s.len() || s[k + 1] != '"' {
            Err(ScanError::MalformedDirectiveTag)
        } else {
            let v = char_end_spec(s, k + 2, '"');
            if v == s.len() {
                Err(ScanError::MalformedDirectiveTag)
            } else {
                match parse_attrs_spec(s, v + 1) {
                    Ok(rest) => Ok(seq![(s.subrange(j, k), s.subrange(k + 2, v))] + rest),
                    Err(e) => Err(e),
                }
            }
        }
    }
}

#[via_fn]
proof fn parse_attrs_spec_decreases(s: Seq<char>, i: int) {
    lemma_skip_ws_bounds(s, i);
    let j = skip_ws_spec(s, i);
    if j < s.len() && !(s[j] == '>' || s[j] == '/') {
        lemma_name_end_bounds(s, j);
        let k = name_end_spec(s, j);
        if !(k == j || k == s.len() || s[k] != '=' || k + 1 == s.len() || s[k + 1] != '"') {
            lemma_char_end_bounds(s, k + 2, '"');
        }
    }
}

/// The value of the first attribute named `name`, if any.
pub open spec fn attr_lookup(attrs: Seq<(Seq<char>, Seq<char>)>, name: Seq<char>) -> Option<
    Seq<char>,
>
    decreases attrs.len(),
{
    if attrs.len() == 0 {
        None
    } else if attrs[0].0 == name {
        Some(attrs[0].1)
    } else {
        attr_lookup(attrs.drop_first(), name)
    }
}

/// The root kind named by a `root` attribute value.
pub open spec fn root_kind_of(v: Seq<char>) -> Option<PathRoot> {
    if v == "system"@ {
        Some(PathRoot::System)
    } else if v == "book"@ {
        Some(PathRoot::Book)
    } else if v == "source"@ || v == "src"@ {
        Some(PathRoot::Source)
    } else if v == "this"@ || v == "."@ {
        Some(PathRoot::This)
    } else {
        None
    }
}

/// The output format named by a `format` attribute value.
pub open spec fn format_of(v: Seq<char>) -> Option<OutputFormat> {
    if v == "svg"@ {
        Some(OutputFormat::Svg)
    } else if v == "png"@ {
        Some(OutputFormat::Png)
    } else if v == "jpeg"@ {
        Some(OutputFormat::Jpeg)
    } else if v == "pdf"@ {
        Some(OutputFormat::Pdf)
    } else {
        None
    }
}

/// What a well-formed directive tag declares.
#[verifier::ext_equal]
pub struct TagInfoV {
    /// The declared diagram type, lower-cased.
    pub diagram_type: Seq<char>,
    /// The declared or default output format.
    pub output_format: OutputFormat,
    /// The declared or default root kind.
    pub kind: PathRoot,
    /// The declared path.
    pub path: Seq<char>,
    /// Whether the tag closes itself within this event.
    pub closed: bool,
}

/// Parse and validate a directive tag event: its attributes, the required
/// `type` and `path`, the optional `root` and `format`, and the
/// consistency of path and root.
pub open spec fn tag_info_spec(s: Seq<char>) -> Result<TagInfoV, ScanError> {
    match parse_attrs_spec(s, 6) {
        Err(e) => Err(e),
        Ok(attrs) => match attr_lookup(attrs, "type"@) {
            None => Err(ScanError::MissingTypeAttribute),
            Some(ty) => match attr_lookup(attrs, "path"@) {
                None => Err(ScanError::MissingPathAttribute),
                Some(path) => {
                    let kind = match attr_lookup(attrs, "root"@) {
                        None => Some(PathRoot::This),
                        Some(rv) => root_kind_of(rv),
                    };
                    match kind {
                        None => Err(ScanError::UnrecognizedRootKind),
                        Some(kind) => {
                            let fmt = match attr_lookup(attrs, "format"@) {
                                None => Some(OutputFormat::Svg),
                                Some(fv) => format_of(fv),
                            };
                            match fmt {
                                None => Err(ScanError::UnrecognizedOutputFormat),
                                Some(fmt) => {
                                    if kind is System && !is_absolute_seq(path) {
                                        Err(ScanError::InvalidPathForRoot)
                                    } else if kind is This && is_absolute_seq(path) {
                                        Err(ScanError::AbsolutePathRequiresExplicitRoot)
                                    } else {
                                        Ok(
                                            TagInfoV {
                                                diagram_type: lower_seq(ty),
                                                output_format: fmt,
                                                kind: kind,
                                                path: path,
                                                closed: contains_seq(s, "/>"@) || contains_seq(
                                                    s,
                                                    "</kroki>"@,
                                                ),
                                            },
                                        )
                                    }
                                },
                            }
                        },
                    }
                },
            },
        },
    }
}

/// The diagram type and path declared by an image directive URL of the
/// form `kroki-<type>:<path>`, if the URL has that form.
pub open spec fn image_directive_spec(url: Seq<char>) -> Option<(Seq<char>, Seq<char>)> {
    if starts_with_seq(url, "kroki-"@) {
        let c = char_end_spec(url, 6, ':');
        if c == url.len() || c == 6 || c + 1 == url.len() {
            None
        } else {
            Some((lower_seq(url.subrange(6, c)), url.subrange(c + 1, url.len() as int)))
        }
    } else {
        None
    }
}

/// The diagram type declared by a fenced block language tag of the form
/// `kroki-<type>`, matched case-insensitively, if the tag has that form.
pub open spec fn fence_directive_spec(lang: Seq<char>) -> Option<Seq<char>> {
    let l = lower_seq(lang);
    if starts_with_seq(l, "kroki-"@) && l.len() > 6 {
        Some(l.subrange(6, l.len() as int))
    } else {
        None
    }
}

/// The reserved placeholder marker.
pub open spec fn marker_seq() -> Seq<char> {
    "%%kroki-diagram-"@
}

/// The placeholder token for the `n`-th directive of a document: the
/// reserved marker around the zero-based decimal index.
pub open spec fn placeholder_seq(n: nat) -> Seq<char> {
    marker_seq() + dec_seq(n) + "%%"@
}

/// Build the placeholder token for directive index `n`.
pub fn make_placeholder(n: usize) -> (r: String)
    ensures
        r@ == placeholder_seq(n as nat),
{
    let d = to_decimal(n);
    let r = String::from_str("%%kroki-diagram-").concat(d.as_str()).concat("%%");
    assert(r@ =~= placeholder_seq(n as nat));
    r
}

/// Distinct directive indices get distinct placeholder tokens.
pub proof fn lemma_placeholder_injective(a: nat, b: nat)
    requires
        placeholder_seq(a) == placeholder_seq(b),
    ensures
        a == b,
{
    let m = marker_seq().len() as int;
    let la = dec_seq(a).len() as int;
    let lb = dec_seq(b).len() as int;
    assert(placeholder_seq(a).len() == m + la + "%%"@.len());
    assert(placeholder_seq(b).len() == m + lb + "%%"@.len());
    assert(la == lb);
    assert(dec_seq(a) =~= placeholder_seq(a).subrange(m, m + la));
    assert(dec_seq(b) =~= placeholder_seq(b).subrange(m, m + lb));
    lemma_dec_seq_injective(a, b);
}

/// Every placeholder token begins with the reserved marker.
pub proof fn lemma_placeholder_has_marker(n: nat)
    ensures
        occurs_at(placeholder_seq(n), marker_seq(), 0),
{
    assert(placeholder_seq(n).subrange(0, marker_seq().len() as int) =~= marker_seq());
}

/// The scanner's state between two events.
#[verifier::ext_equal]
pub enum ScanStateV {
    /// No directive span is open.
    Outside,
    /// Inside a raw `<pre>` passthrough span of the given nesting depth.
    InsidePre {
        /// Nesting depth, at least one.
        depth: nat,
    },
    /// Inside a custom directive tag that has not closed yet.
    InsideTag {
        /// The declared diagram type, lower-cased.
        diagram_type: Seq<char>,
        /// The declared or default output format.
        output_format: OutputFormat,
        /// The declared or default root kind.
        kind: PathRoot,
        /// The declared path.
        path: Seq<char>,
    },
    /// Inside a fenced directive block, collecting its text content.
    InsideFence {
        /// The diagram type from the language tag, lower-cased.
        diagram_type: Seq<char>,
        /// The text collected so far.
        buffer: Seq<char>,
    },
    /// Inside an image directive, discarding its alt text.
    InsideImage {
        /// The diagram type from the URL, lower-cased.
        diagram_type: Seq<char>,
        /// The path from the URL, taken verbatim.
        path: Seq<char>,
    },
}

/// The scanner's partial result: its state, the rewritten events emitted
/// so far and the directives extracted so far.
#[verifier::ext_equal]
pub struct ScanPartV {
    /// The state between events.
    pub state: ScanStateV,
    /// The rewritten events emitted so far.
    pub output: Seq<EventV>,
    /// The directives extracted so far, in discovery order.
    pub directives: Seq<DiagramV>,
}

/// The scanner's starting point.
pub open spec fn init_part() -> ScanPartV {
    ScanPartV { state: ScanStateV::Outside, output: Seq::empty(), directives: Seq::empty() }
}

/// The events a directive's span is rewritten to: the placeholder token
/// for directive index `n` inside a neutral paragraph wrapper.
pub open spec fn placeholder_events(n: nat) -> Seq<EventV> {
    seq![EventV::ParagraphStart, EventV::Text(placeholder_seq(n)), EventV::ParagraphEnd]
}

/// The directive record for directive index `n`; its owning address is
/// stamped later by the tree walker.
pub open spec fn mk_diagram(
    diagram_type: Seq<char>,
    output_format: OutputFormat,
    content: DiagramContentV,
    n: nat,
) -> DiagramV {
    DiagramV {
        diagram_type,
        output_format,
        replace_text: placeholder_seq(n),
        indices: Seq::empty(),
        content,
    }
}

/// `p` after passing `e` through verbatim and moving to state `st`.
pub open spec fn pass(p: ScanPartV, e: EventV, st: ScanStateV) -> ScanPartV {
    ScanPartV { state: st, output: p.output.push(e), directives: p.directives }
}

/// `p` after extracting one directive: its span is rewritten to the next
/// placeholder and the record is appended.
pub open spec fn emit(
    p: ScanPartV,
    diagram_type: Seq<char>,
    output_format: OutputFormat,
    content: DiagramContentV,
) -> ScanPartV {
    ScanPartV {
        state: ScanStateV::Outside,
        output: p.output + placeholder_events(p.directives.len()),
        directives: p.directives.push(
            mk_diagram(diagram_type, output_format, content, p.directives.len()),
        ),
    }
}

/// One transition of the scanner: what the partial result `p` becomes
/// after the next event `e`.
///
/// Raw-passthrough toggling short-circuits everything while its depth is
/// at least one; otherwise the custom tag, the image pattern and the
/// fenced-block language are recognized, in that order, at most one per
/// event. A malformed tag fails the whole scan.
pub open spec fn scan_step(p: ScanPartV, e: EventV) -> Result<ScanPartV, ScanError> {
    match p.state {
        ScanStateV::Outside => match e {
            EventV::Html(s) => {
                if s == "<pre>"@ {
                    Ok(pass(p, e, ScanStateV::InsidePre { depth: 1 }))
                } else if starts_with_seq(s, "<kroki"@) {
                    match tag_info_spec(s) {
                        Err(err) => Err(err),
                        Ok(info) => {
                            if info.closed {
                                Ok(
                                    emit(
                                        p,
                                        info.diagram_type,
                                        info.output_format,
                                        DiagramContentV::Path { kind: info.kind, path: info.path },
                                    ),
                                )
                            } else {
                                Ok(
                                    ScanPartV {
                                        state: ScanStateV::InsideTag {
                                            diagram_type: info.diagram_type,
                                            output_format: info.output_format,
                                            kind: info.kind,
                                            path: info.path,
                                        },
                                        output: p.output,
                                        directives: p.directives,
                                    },
                                )
                            }
                        },
                    }
                } else {
                    Ok(pass(p, e, ScanStateV::Outside))
                }
            },
            EventV::ImageStart(url) => match image_directive_spec(url) {
                Some(tp) => Ok(
                    ScanPartV {
                        state: ScanStateV::InsideImage { diagram_type: tp.0, path: tp.1 },
                        output: p.output,
                        directives: p.directives,
                    },
                ),
                None => Ok(pass(p, e, ScanStateV::Outside)),
            },
            EventV::FenceStart(lang) => match fence_directive_spec(lang) {
                Some(ty) => Ok(
                    ScanPartV {
                        state: ScanStateV::InsideFence { diagram_type: ty, buffer: Seq::empty() },
                        output: p.output,
                        directives: p.directives,
                    },
                ),
                None => Ok(pass(p, e, ScanStateV::Outside)),
            },
            _ => Ok(pass(p, e, ScanStateV::Outside)),
        },
        ScanStateV::InsidePre { depth } => match e {
            EventV::Html(s) => {
                if s == "<pre>"@ {
                    Ok(pass(p, e, ScanStateV::InsidePre { depth: depth + 1 }))
                } else if s == "</pre>"@ {
                    if depth <= 1 {
                        Ok(pass(p, e, ScanStateV::Outside))
                    } else {
                        Ok(pass(p, e, ScanStateV::InsidePre { depth: (depth - 1) as nat }))
                    }
                } else {
                    Ok(pass(p, e, ScanStateV::InsidePre { depth }))
                }
            },
            _ => Ok(pass(p, e, ScanStateV::InsidePre { depth })),
        },
        ScanStateV::InsideTag { diagram_type, output_format, kind, path } => match e {
            EventV::Html(s) => {
                if contains_seq(s, "</kroki>"@) {
                    Ok(
                        emit(
                            p,
                            diagram_type,
                            output_format,
                            DiagramContentV::Path { kind, path },
                        ),
                    )
                } else {
                    Ok(p)
                }
            },
            _ => Ok(p),
        },
        ScanStateV::InsideFence { diagram_type, buffer } => match e {
            EventV::Text(s) => Ok(
                ScanPartV {
                    state: ScanStateV::InsideFence { diagram_type, buffer: buffer + s },
                    output: p.output,
                    directives: p.directives,
                },
            ),
            EventV::FenceEnd => Ok(
                emit(p, diagram_type, OutputFormat::Svg, DiagramContentV::Raw(buffer)),
            ),
            _ => Ok(p),
        },
        ScanStateV::InsideImage { diagram_type, path } => match e {
            EventV::ImageEnd(_) => Ok(
                emit(
                    p,
                    diagram_type,
                    OutputFormat::Svg,
                    DiagramContentV::Path {
                        kind: if is_absolute_seq(path) {
                            PathRoot::System
                        } else {
                            PathRoot::This
                        },
                        path,
                    },
                ),
            ),
            _ => Ok(p),
        },
    }
}

/// The scanner folded over `es`, starting from `p0`.
pub open spec fn scan_fold_from(p0: ScanPartV, es: Seq<EventV>) -> Result<ScanPartV, ScanError>
    decreases es.len(),
{
    if es.len() == 0 {
        Ok(p0)
    } else {
        match scan_fold_from(p0, es.drop_last()) {
            Err(e) => Err(e),
            Ok(p) => scan_step(p, es.last()),
        }
    }
}

/// The whole scan of one document's events: the rewritten events and the
/// extracted directives, or the first scan error. A directive span still
/// open at the end of the document is an error; an open raw-passthrough
/// span is not.
pub open spec fn scan_spec(es: Seq<EventV>) -> Result<(Seq<EventV>, Seq<DiagramV>), ScanError> {
    match scan_fold_from(init_part(), es) {
        Err(e) => Err(e),
        Ok(p) => match p.state {
            ScanStateV::Outside => Ok((p.output, p.directives)),
            ScanStateV::InsidePre { .. } => Ok((p.output, p.directives)),
            ScanStateV::InsideTag { .. } => Err(ScanError::UnterminatedDirectiveTag),
            ScanStateV::InsideFence { .. } => Err(ScanError::UnterminatedDirectiveBlock),
            ScanStateV::InsideImage { .. } => Err(ScanError::UnterminatedImageDirective),
        },
    }
}

/// Once the fold has failed, the rest of the events change nothing.
proof fn lemma_fold_err_persists(es: Seq<EventV>, i: int)
    requires
        0 <= i <= es.len(),
        scan_fold_from(init_part(), es.subrange(0, i)) is Err,
    ensures
        scan_fold_from(init_part(), es) == scan_fold_from(init_part(), es.subrange(0, i)),
    decreases es.len() - i,
{
    if i < es.len() {
        assert(es.subrange(0, i + 1).drop_last() =~= es.subrange(0, i));
        lemma_fold_err_persists(es, i + 1);
    } else {
        assert(es.subrange(0, es.len() as int) =~= es);
    }
}

/// An event that opens a directive span when seen outside every other
/// span: a custom tag, a matching image URL, or a matching fence language.
pub open spec fn directive_opener(e: EventV) -> bool {
    match e {
        EventV::Html(s) => starts_with_seq(s, "<kroki"@),
        EventV::ImageStart(u) => image_directive_spec(u) is Some,
        EventV::FenceStart(l) => fence_directive_spec(l) is Some,
        _ => false,
    }
}

proof fn lemma_no_openers_fold(es: Seq<EventV>, p0: ScanPartV)
    requires
        p0.state is Outside || p0.state is InsidePre,
        forall|k: int| 0 <= k < es.len() ==> !directive_opener(#[trigger] es[k]),
    ensures
        scan_fold_from(p0, es) == Ok::<_, ScanError>(
            ScanPartV {
                state: scan_fold_from(p0, es)->Ok_0.state,
                output: p0.output + es,
                directives: p0.directives,
            },
        ),
        scan_fold_from(p0, es)->Ok_0.state is Outside || scan_fold_from(p0, es)->Ok_0.state
            is InsidePre,
    decreases es.len(),
{
    if es.len() == 0 {
        assert(p0.output + es =~= p0.output);
    } else {
        assert(forall|k: int|
            0 <= k < es.drop_last().len() ==> !directive_opener(#[trigger] es.drop_last()[k]));
        lemma_no_openers_fold(es.drop_last(), p0);
        let p = scan_fold_from(p0, es.drop_last())->Ok_0;
        assert((p0.output + es.drop_last()).push(es.last()) =~= p0.output + es);
    }
}

/// Scanning a document that contains no directive at all succeeds,
/// extracts nothing, and reproduces the event stream verbatim — so the
/// scan only ever changes what it extracts.
pub proof fn lemma_scan_without_directives(es: Seq<EventV>)
    requires
        forall|k: int| 0 <= k < es.len() ==> !directive_opener(#[trigger] es[k]),
    ensures
        scan_spec(es) == Ok::<_, ScanError>((es, Seq::<DiagramV>::empty())),
{
    lemma_no_openers_fold(es, init_part());
    assert(Seq::<EventV>::empty() + es =~= es);
}

/// How one event changes the raw-passthrough depth.
pub open spec fn pre_step_depth(d: nat, e: EventV) -> nat {
    match e {
        EventV::Html(s) => {
            if s == "<pre>"@ {
                d + 1
            } else if s == "</pre>"@ {
                if d <= 1 {
                    0
                } else {
                    (d - 1) as nat
                }
            } else {
                d
            }
        },
        _ => d,
    }
}

/// The raw-passthrough depth after `es`, starting from depth `d`.
pub open spec fn depth_after(es: Seq<EventV>, d: nat) -> nat
    decreases es.len(),
{
    if es.len() == 0 {
        d
    } else {
        pre_step_depth(depth_after(es.drop_last(), d), es.last())
    }
}

/// Starting from depth `d`, the depth stays at least one after every
/// prefix of `es`.
pub open spec fn stays_raw(es: Seq<EventV>, d: nat) -> bool {
    d >= 1 && forall|k: int| 0 < k <= es.len() ==> depth_after(#[trigger] es.subrange(0, k), d)
        >= 1
}

proof fn lemma_raw_fold(es: Seq<EventV>, p0: ScanPartV, d: nat)
    requires
        p0.state == (ScanStateV::InsidePre { depth: d }),
        stays_raw(es, d),
    ensures
        scan_fold_from(p0, es) == Ok::<_, ScanError>(
            ScanPartV {
                state: ScanStateV::InsidePre { depth: depth_after(es, d) },
                output: p0.output + es,
                directives: p0.directives,
            },
        ),
    decreases es.len(),
{
    if es.len() == 0 {
        assert(p0.output + es =~= p0.output);
    } else {
        assert(stays_raw(es.drop_last(), d)) by {
            assert(forall|k: int|
                0 < k <= es.drop_last().len() ==> #[trigger] es.drop_last().subrange(0, k)
                    =~= es.subrange(0, k));
        }
        lemma_raw_fold(es.drop_last(), p0, d);
        let dmid = depth_after(es.drop_last(), d);
        assert(dmid >= 1) by {
            if es.len() == 1 {
                assert(es.drop_last() =~= es.subrange(0, 0));
            } else {
                assert(es.drop_last() =~= es.subrange(0, es.len() - 1));
            }
        }
        assert(depth_after(es, d) >= 1) by {
            assert(es.subrange(0, es.len() as int) =~= es);
        }
        assert((p0.output + es.drop_last()).push(es.last()) =~= p0.output + es);
    }
}

/// Whatever stands inside a raw span — nested raw spans of any depth
/// included — passes through verbatim, and no directive is extracted
/// from it: wrapping literal examples of directive syntax in a raw span
/// suppresses them.
pub proof fn lemma_raw_passthrough(inner: Seq<EventV>)
    requires
        stays_raw(inner, 1),
        depth_after(inner, 1) == 1,
    ensures
        scan_spec(
            seq![EventV::Html("<pre>"@)] + inner + seq![EventV::Html("</pre>"@)],
        ) == Ok::<_, ScanError>(
            (
                seq![EventV::Html("<pre>"@)] + inner + seq![EventV::Html("</pre>"@)],
                Seq::<DiagramV>::empty(),
            ),
        ),
{
    reveal_strlit("<pre>");
    reveal_strlit("</pre>");
    let open = seq![EventV::Html("<pre>"@)];
    let close = seq![EventV::Html("</pre>"@)];
    let es = open + inner + close;
    assert("<pre>"@ != "</pre>"@) by {
        assert("<pre>"@.len() == 5);
        assert("</pre>"@.len() == 6);
    }
    assert(scan_fold_from(init_part(), Seq::<EventV>::empty()) == Ok::<_, ScanError>(
        init_part(),
    ));
    lemma_fold_append(init_part(), open, inner);
    lemma_fold_append(init_part(), open + inner, close);
    assert(scan_fold_from(init_part(), open) == Ok::<_, ScanError>(
        ScanPartV {
            state: ScanStateV::InsidePre { depth: 1 },
            output: open,
            directives: Seq::empty(),
        },
    )) by {
        assert(open.drop_last() =~= Seq::<EventV>::empty());
        assert(open.last() == EventV::Html("<pre>"@));
        assert(scan_fold_from(init_part(), open) == scan_step(init_part(), open.last()));
        assert(scan_step(init_part(), open.last()) == Ok::<_, ScanError>(
            pass(init_part(), open.last(), ScanStateV::InsidePre { depth: 1 }),
        ));
        assert(init_part().output.push(open.last()) =~= open);
    }
    let p1 = ScanPartV {
        state: ScanStateV::InsidePre { depth: 1 },
        output: open,
        directives: Seq::<DiagramV>::empty(),
    };
    lemma_raw_fold(inner, p1, 1);
    let p2 = ScanPartV {
        state: ScanStateV::InsidePre { depth: 1 },
        output: open + inner,
        directives: Seq::<DiagramV>::empty(),
    };
    assert(scan_fold_from(p2, close) == Ok::<_, ScanError>(
        ScanPartV {
            state: ScanStateV::Outside,
            output: (open + inner).push(close.last()),
            directives: Seq::<DiagramV>::empty(),
        },
    )) by {
        assert(close.drop_last() =~= Seq::<EventV>::empty());
        assert(close.last() == EventV::Html("</pre>"@));
        assert(scan_fold_from(p2, Seq::<EventV>::empty()) == Ok::<_, ScanError>(p2));
        assert(scan_fold_from(p2, close) == scan_step(p2, close.last()));
        assert(scan_step(p2, close.last()) == Ok::<_, ScanError>(
            pass(p2, close.last(), ScanStateV::Outside),
        ));
    }
    assert((open + inner).push(close.last()) =~= es);
}

/// Folding over a concatenation folds over the parts in turn.
pub proof fn lemma_fold_append(p0: ScanPartV, es1: Seq<EventV>, es2: Seq<EventV>)
    ensures
        scan_fold_from(p0, es1 + es2) == match scan_fold_from(p0, es1) {
            Err(e) => Err(e),
            Ok(p) => scan_fold_from(p, es2),
        },
    decreases es2.len(),
{
    if es2.len() == 0 {
        assert(es1 + es2 =~= es1);
    } else {
        assert((es1 + es2).drop_last() =~= es1 + es2.drop_last());
        lemma_fold_append(p0, es1, es2.drop_last());
    }
}

/// How many events of `es` equal `t`.
pub open spec fn count_matching(es: Seq<EventV>, t: EventV) -> nat
    decreases es.len(),
{
    if es.len() == 0 {
        0
    } else {
        count_matching(es.drop_last(), t) + (if es.last() == t {
            1nat
        } else {
            0
        })
    }
}

proof fn lemma_count_pos(es: Seq<EventV>, t: EventV)
    requires
        count_matching(es, t) > 0,
    ensures
        exists|k: int| 0 <= k < es.len() && es[k] == t,
    decreases es.len(),
{
    if es.last() == t {
        assert(es[es.len() - 1] == t);
    } else {
        lemma_count_pos(es.drop_last(), t);
        let k = choose|k: int| 0 <= k < es.drop_last().len() && es.drop_last()[k] == t;
        assert(es[k] == t);
    }
}

proof fn lemma_count_push(s: Seq<EventV>, x: EventV, t: EventV)
    ensures
        count_matching(s.push(x), t) == count_matching(s, t) + (if x == t {
            1nat
        } else {
            0
        }),
{
    assert(s.push(x).drop_last() =~= s);
}

/// A text event whose payload holds the reserved placeholder marker.
pub open spec fn mentions_marker(e: EventV) -> bool {
    match e {
        EventV::Text(s) => contains_seq(s, marker_seq()),
        _ => false,
    }
}

spec fn placeholder_inv(p: ScanPartV) -> bool {
    &&& forall|a: int|
        0 <= a < p.directives.len() ==> #[trigger] p.directives[a].replace_text
            == placeholder_seq(a as nat)
    &&& forall|a: int|
        0 <= a < p.directives.len() ==> count_matching(
            p.output,
            EventV::Text(#[trigger] placeholder_seq(a as nat)),
        ) == 1
    &&& forall|a: int|
        a >= p.directives.len() ==> count_matching(
            p.output,
            EventV::Text(#[trigger] placeholder_seq(a as nat)),
        ) == 0
}

proof fn lemma_pass_inv(p: ScanPartV, e: EventV, st: ScanStateV)
    requires
        placeholder_inv(p),
        !mentions_marker(e),
    ensures
        placeholder_inv(pass(p, e, st)),
{
    assert forall|a: int| true implies e != EventV::Text(#[trigger] placeholder_seq(a as nat)) by {
        if e == EventV::Text(placeholder_seq(a as nat)) {
            lemma_placeholder_has_marker(a as nat);
        }
    }
    assert forall|a: int| true implies count_matching(
        p.output.push(e),
        EventV::Text(#[trigger] placeholder_seq(a as nat)),
    ) == count_matching(p.output, EventV::Text(placeholder_seq(a as nat))) by {
        lemma_count_push(p.output, e, EventV::Text(placeholder_seq(a as nat)));
    }
}

proof fn lemma_emit_inv(
    p: ScanPartV,
    diagram_type: Seq<char>,
    output_format: OutputFormat,
    content: DiagramContentV,
)
    requires
        placeholder_inv(p),
    ensures
        placeholder_inv(emit(p, diagram_type, output_format, content)),
{
    let n = p.directives.len();
    let q = emit(p, diagram_type, output_format, content);
    assert forall|a: int| a >= 0 && a != n implies #[trigger] placeholder_seq(a as nat)
        != placeholder_seq(n) by {
        if placeholder_seq(a as nat) == placeholder_seq(n) {
            lemma_placeholder_injective(a as nat, n);
        }
    }
    assert forall|a: int| a >= 0 implies count_matching(
        q.output,
        EventV::Text(#[trigger] placeholder_seq(a as nat)),
    ) == count_matching(p.output, EventV::Text(placeholder_seq(a as nat))) + (if a == n {
        1int
    } else {
        0
    }) by {
        let t = EventV::Text(placeholder_seq(a as nat));
        reveal_strlit("\n\n");
    let mid1 = p.output.push(EventV::ParagraphStart);
        let mid2 = mid1.push(EventV::Text(placeholder_seq(n)));
        assert(q.output =~= mid2.push(EventV::ParagraphEnd));
        lemma_count_push(p.output, EventV::ParagraphStart, t);
        lemma_count_push(mid1, EventV::Text(placeholder_seq(n)), t);
        lemma_count_push(mid2, EventV::ParagraphEnd, t);
    }
}

proof fn lemma_step_inv(p: ScanPartV, e: EventV, q: ScanPartV)
    requires
        scan_step(p, e) == Ok::<ScanPartV, ScanError>(q),
        placeholder_inv(p),
        !mentions_marker(e),
    ensures
        placeholder_inv(q),
{
    match p.state {
        ScanStateV::Outside => match e {
            EventV::Html(s) => {
                if s == "<pre>"@ {
                    lemma_pass_inv(p, e, ScanStateV::InsidePre { depth: 1 });
                } else if starts_with_seq(s, "<kroki"@) {
                    match tag_info_spec(s) {
                        Err(_) => (),
                        Ok(info) => {
                            if info.closed {
                                lemma_emit_inv(
                                    p,
                                    info.diagram_type,
                                    info.output_format,
                                    DiagramContentV::Path { kind: info.kind, path: info.path },
                                );
                            }
                        },
                    }
                } else {
                    lemma_pass_inv(p, e, ScanStateV::Outside);
                }
            },
            EventV::ImageStart(url) => {
                if image_directive_spec(url) is None {
                    lemma_pass_inv(p, e, ScanStateV::Outside);
                }
            },
            EventV::FenceStart(lang) => {
                if fence_directive_spec(lang) is None {
                    lemma_pass_inv(p, e, ScanStateV::Outside);
                }
            },
            _ => {
                lemma_pass_inv(p, e, ScanStateV::Outside);
            },
        },
        ScanStateV::InsidePre { depth } => {
            lemma_pass_inv(p, e, q.state);
        },
        ScanStateV::InsideTag { diagram_type, output_format, kind, path } => match e {
            EventV::Html(s) => {
                if contains_seq(s, "</kroki>"@) {
                    lemma_emit_inv(
                        p,
                        diagram_type,
                        output_format,
                        DiagramContentV::Path { kind, path },
                    );
                }
            },
            _ => (),
        },
        ScanStateV::InsideFence { diagram_type, buffer } => match e {
            EventV::FenceEnd => {
                lemma_emit_inv(p, diagram_type, OutputFormat::Svg, DiagramContentV::Raw(buffer));
            },
            _ => (),
        },
        ScanStateV::InsideImage { diagram_type, path } => match e {
            EventV::ImageEnd(_) => {
                lemma_emit_inv(
                    p,
                    diagram_type,
                    OutputFormat::Svg,
                    DiagramContentV::Path {
                        kind: if is_absolute_seq(path) {
                            PathRoot::System
                        } else {
                            PathRoot::This
                        },
                        path,
                    },
                );
            },
            _ => (),
        },
    }
}

proof fn lemma_fold_inv(es: Seq<EventV>)
    requires
        scan_fold_from(init_part(), es) is Ok,
        forall|k: int| 0 <= k < es.len() ==> !mentions_marker(#[trigger] es[k]),
    ensures
        placeholder_inv(scan_fold_from(init_part(), es)->Ok_0),
    decreases es.len(),
{
    if es.len() == 0 {
    } else {
        assert(forall|k: int|
            0 <= k < es.drop_last().len() ==> !mentions_marker(#[trigger] es.drop_last()[k]));
        lemma_fold_inv(es.drop_last());
        lemma_step_inv(
            scan_fold_from(init_part(), es.drop_last())->Ok_0,
            es.last(),
            scan_fold_from(init_part(), es)->Ok_0,
        );
    }
}

/// When a document whose own text never holds the reserved marker scans
/// successfully, the placeholders of its directives are pairwise
/// distinct — the token of the `a`-th directive is the one for index
/// `a` — each occurs in exactly one rewritten event, and each occurs in
/// the serialized rewritten content.
pub proof fn lemma_placeholder_uniqueness(es: Seq<EventV>, out: Seq<EventV>, dirs: Seq<DiagramV>)
    requires
        scan_spec(es) == Ok::<_, ScanError>((out, dirs)),
        forall|k: int| 0 <= k < es.len() ==> !mentions_marker(#[trigger] es[k]),
    ensures
        forall|a: int|
            0 <= a < dirs.len() ==> #[trigger] dirs[a].replace_text == placeholder_seq(a as nat),
        forall|a: int, b: int|
            0 <= a < dirs.len() && 0 <= b < dirs.len() && a != b ==> dirs[a].replace_text != dirs[
                b
            ].replace_text,
        forall|a: int|
            0 <= a < dirs.len() ==> count_matching(
                out,
                EventV::Text(#[trigger] dirs[a].replace_text),
            ) == 1,
        forall|a: int|
            0 <= a < dirs.len() ==> contains_seq(
                serialize_spec(out),
                #[trigger] dirs[a].replace_text,
            ),
{
    lemma_fold_inv(es);
    assert forall|a: int| 0 <= a < dirs.len() implies contains_seq(
        serialize_spec(out),
        #[trigger] dirs[a].replace_text,
    ) by {
        lemma_count_pos(out, EventV::Text(placeholder_seq(a as nat)));
        let k = choose|k: int|
            0 <= k < out.len() && out[k] == EventV::Text(placeholder_seq(a as nat));
        lemma_serialize_contains_text(out, k);
    }
    assert forall|a: int, b: int|
        0 <= a < dirs.len() && 0 <= b < dirs.len() && a != b implies dirs[a].replace_text != dirs[
        b
    ].replace_text by {
        if dirs[a].replace_text == dirs[b].replace_text {
            lemma_placeholder_injective(a as nat, b as nat);
        }
    }
}

/// An event whose payloads never use the `%` character, out of which
/// the reserved placeholder marker is built.
pub open spec fn event_pct_free(e: EventV) -> bool {
    match e {
        EventV::Text(s) => pct_free(s),
        EventV::Html(s) => pct_free(s),
        EventV::ParagraphStart => true,
        EventV::ParagraphEnd => true,
        EventV::FenceStart(l) => pct_free(l),
        EventV::FenceEnd => true,
        EventV::ImageStart(u) => pct_free(u),
        EventV::ImageEnd(u) => pct_free(u),
        EventV::Other(s) => pct_free(s),
    }
}

proof fn lemma_piece_pct_free(e: EventV)
    requires
        event_pct_free(e),
    ensures
        pct_free(crate::events::piece(e)),
{
    reveal_strlit("\n\n");
    reveal_strlit("```");
    reveal_strlit("\n");
    reveal_strlit("```\n\n");
    reveal_strlit("![");
    reveal_strlit("](");
    reveal_strlit(")");
}

/// Character-level shape of a placeholder token: long enough, `%` at
/// both ends and right inside them, nowhere else, and no line break.
proof fn lemma_ph_chars(a: nat)
    ensures
        placeholder_seq(a).len() >= 19,
        placeholder_seq(a).len() == 18 + dec_seq(a).len(),
        placeholder_seq(a)[0] == '%',
        placeholder_seq(a).last() == '%',
        placeholder_seq(a)[2] == 'k',
        forall|i: int|
            0 <= i < placeholder_seq(a).len() ==> ((#[trigger] placeholder_seq(a)[i] == '%') <==> (
            i == 0 || i == 1 || i == placeholder_seq(a).len() - 2 || i == placeholder_seq(a).len()
                - 1)),
        forall|i: int|
            0 <= i < placeholder_seq(a).len() ==> #[trigger] placeholder_seq(a)[i] != '\n',
{
    reveal_strlit("%%kroki-diagram-");
    reveal_strlit("%%");
    lemma_dec_seq_len(a);
    lemma_dec_seq_digits(a);
    assert(marker_seq() =~= seq![
        '%', '%', 'k', 'r', 'o', 'k', 'i', '-', 'd', 'i', 'a', 'g', 'r', 'a', 'm', '-'
    ]);
    let d = dec_seq(a);
    let ph = placeholder_seq(a);
    let l = ph.len() as int;
    assert forall|i: int| 0 <= i < l implies ((#[trigger] ph[i] == '%') <==> (i == 0 || i == 1 || i
        == l - 2 || i == l - 1)) && ph[i] != '\n' by {
        if i < 16 {
            assert(ph[i] == marker_seq()[i]);
        } else if i < 16 + d.len() {
            assert(ph[i] == d[i - 16]);
            assert(is_digit_char(d[i - 16]));
        } else {
            assert(ph[i] == "%%"@[i - 16 - d.len()]);
        }
    }
}

/// One placeholder token occurs in another exactly when they are the
/// same token.
proof fn lemma_count_ph_in_ph(a: nat, b: nat)
    ensures
        count_occ(placeholder_seq(b), placeholder_seq(a)) == if a == b {
            1nat
        } else {
            0
        },
{
    lemma_ph_chars(a);
    lemma_ph_chars(b);
    let pa = placeholder_seq(a);
    let pb = placeholder_seq(b);
    let la = pa.len() as int;
    let lb = pb.len() as int;
    assert forall|p: int| 0 <= p < lb - la + 1 && !(p == 0 && a == b) implies !occurs_at(
        pb,
        pa,
        p,
    ) by {
        if occurs_at(pb, pa, p) {
            assert(forall|t: int|
                0 <= t < la ==> #[trigger] pa[t] == pb.subrange(p, p + la)[t] && pb.subrange(
                    p,
                    p + la,
                )[t] == pb[p + t]);
            if p == 0 {
                if la == lb {
                    assert(pa =~= pb);
                    lemma_placeholder_injective(a, b);
                } else {
                    assert(pb[la - 1] == pa[la - 1]);
                    assert(pa[la - 1] == '%');
                    assert(la - 1 == lb - 2);
                    assert(pb[la - 2] == pa[la - 2]);
                    assert(pa[la - 2] == '%');
                    assert(false);
                }
            } else {
                assert(pb[p + 0] == pa[0]);
                assert(pb[p] == '%');
                assert(p == 1 || p == lb - 2 || p == lb - 1);
                assert(p + la <= lb);
                assert(p == 1);
                assert(pb[p + 1] == pa[1]);
                assert(false);
            }
        }
    }
    if a == b {
        assert(occurs_at(pb, pa, 0)) by {
            assert(pb.subrange(0, la) =~= pa);
        }
        assert(count_occ_upto(pb, pa, 0) == 0);
        assert(count_occ_upto(pb, pa, 1) == 1);
        crate::text::lemma_count_upto_flat_pub(pb, pa, 1, lb - la + 1);
    } else {
        if lb - la + 1 > 0 {
            crate::text::lemma_count_upto_flat_pub(pb, pa, 0, lb - la + 1);
        }
    }
}

spec fn content_inv(p: ScanPartV) -> bool {
    &&& forall|a: nat|
        count_occ(serialize_spec(p.output), #[trigger] placeholder_seq(a)) == count_matching(
            p.output,
            EventV::Text(placeholder_seq(a)),
        )
    &&& forall|a: nat| no_danger(serialize_spec(p.output), #[trigger] placeholder_seq(a))
}

proof fn lemma_pass_content(p: ScanPartV, e: EventV, st: ScanStateV)
    requires
        content_inv(p),
        event_pct_free(e),
    ensures
        content_inv(pass(p, e, st)),
{
    let s0 = serialize_spec(p.output);
    let q = pass(p, e, st);
    assert(serialize_spec(q.output) == s0 + crate::events::piece(e)) by {
        assert(p.output.push(e).drop_last() =~= p.output);
    }
    lemma_piece_pct_free(e);
    assert forall|a: nat| #![trigger placeholder_seq(a)] true implies count_occ(
        serialize_spec(q.output),
        placeholder_seq(a),
    ) == count_matching(q.output, EventV::Text(placeholder_seq(a))) && no_danger(
        serialize_spec(q.output),
        placeholder_seq(a),
    ) by {
        lemma_ph_chars(a);
        lemma_count_append_pct_free(s0, crate::events::piece(e), placeholder_seq(a));
        lemma_count_push(p.output, e, EventV::Text(placeholder_seq(a)));
        if e == EventV::Text(placeholder_seq(a)) {
            assert(placeholder_seq(a)[0] == '%');
        }
    }
}

proof fn lemma_emit_content(
    p: ScanPartV,
    diagram_type: Seq<char>,
    output_format: OutputFormat,
    content: DiagramContentV,
)
    requires
        content_inv(p),
    ensures
        content_inv(emit(p, diagram_type, output_format, content)),
{
    let n = p.directives.len();
    let s0 = serialize_spec(p.output);
    let q = emit(p, diagram_type, output_format, content);
    reveal_strlit("\n\n");
    let mid1 = p.output.push(EventV::ParagraphStart);
    let mid2 = mid1.push(EventV::Text(placeholder_seq(n)));
    assert(q.output =~= mid2.push(EventV::ParagraphEnd));
    assert(serialize_spec(mid1) == s0) by {
        assert(mid1.drop_last() =~= p.output);
        assert(s0 + crate::events::piece(EventV::ParagraphStart) =~= s0);
    }
    assert(serialize_spec(mid2) == s0 + placeholder_seq(n)) by {
        assert(mid2.drop_last() =~= mid1);
    }
    let s2 = s0 + placeholder_seq(n);
    assert(serialize_spec(q.output) == s2 + "\n\n"@) by {
        assert(q.output.drop_last() =~= mid2);
    }
    assert(pct_free("\n\n"@)) by {
        reveal_strlit("\n\n");
    }
    lemma_ph_chars(n);
    assert forall|a: nat| #![trigger placeholder_seq(a)] true implies count_occ(
        serialize_spec(q.output),
        placeholder_seq(a),
    ) == count_matching(q.output, EventV::Text(placeholder_seq(a))) && no_danger(
        serialize_spec(q.output),
        placeholder_seq(a),
    ) by {
        lemma_ph_chars(a);
        lemma_count_append(s0, placeholder_seq(n), placeholder_seq(a));
        lemma_count_ph_in_ph(a, n);
        lemma_count_append_pct_free(s2, "\n\n"@, placeholder_seq(a));
        lemma_count_push(p.output, EventV::ParagraphStart, EventV::Text(placeholder_seq(a)));
        lemma_count_push(mid1, EventV::Text(placeholder_seq(n)), EventV::Text(placeholder_seq(a)));
        lemma_count_push(mid2, EventV::ParagraphEnd, EventV::Text(placeholder_seq(a)));
        if a != n && placeholder_seq(a) == placeholder_seq(n) {
            lemma_placeholder_injective(a, n);
        }
        // nothing dangerous can end in a line break, and the new content
        // ends with two of them
        assert forall|j: int| 1 <= j < placeholder_seq(a).len() implies !ends_with(
            serialize_spec(q.output),
            #[trigger] placeholder_seq(a).take(j),
        ) by {
            if ends_with(serialize_spec(q.output), placeholder_seq(a).take(j)) {
                let sq = serialize_spec(q.output);
                let lq = sq.len() as int;
                assert(sq[lq - 1] == placeholder_seq(a).take(j)[j - 1]) by {
                    assert(sq.subrange(lq - j, lq)[j - 1] == sq[lq - 1]);
                }
                assert(lq == s2.len() + 2);
                assert(sq[lq - 1] == "\n\n"@[1]);
            }
        }
    }
}

proof fn lemma_step_content(p: ScanPartV, e: EventV, q: ScanPartV)
    requires
        scan_step(p, e) == Ok::<ScanPartV, ScanError>(q),
        content_inv(p),
        event_pct_free(e),
    ensures
        content_inv(q),
{
    match p.state {
        ScanStateV::Outside => match e {
            EventV::Html(s) => {
                if s == "<pre>"@ {
                    lemma_pass_content(p, e, ScanStateV::InsidePre { depth: 1 });
                } else if starts_with_seq(s, "<kroki"@) {
                    match tag_info_spec(s) {
                        Err(_) => (),
                        Ok(info) => {
                            if info.closed {
                                lemma_emit_content(
                                    p,
                                    info.diagram_type,
                                    info.output_format,
                                    DiagramContentV::Path { kind: info.kind, path: info.path },
                                );
                            }
                        },
                    }
                } else {
                    lemma_pass_content(p, e, ScanStateV::Outside);
                }
            },
            EventV::ImageStart(url) => {
                if image_directive_spec(url) is None {
                    lemma_pass_content(p, e, ScanStateV::Outside);
                }
            },
            EventV::FenceStart(lang) => {
                if fence_directive_spec(lang) is None {
                    lemma_pass_content(p, e, ScanStateV::Outside);
                }
            },
            _ => {
                lemma_pass_content(p, e, ScanStateV::Outside);
            },
        },
        ScanStateV::InsidePre { depth } => {
            lemma_pass_content(p, e, q.state);
        },
        ScanStateV::InsideTag { diagram_type, output_format, kind, path } => match e {
            EventV::Html(s) => {
                if contains_seq(s, "</kroki>"@) {
                    lemma_emit_content(
                        p,
                        diagram_type,
                        output_format,
                        DiagramContentV::Path { kind, path },
                    );
                }
            },
            _ => (),
        },
        ScanStateV::InsideFence { diagram_type, buffer } => match e {
            EventV::FenceEnd => {
                lemma_emit_content(
                    p,
                    diagram_type,
                    OutputFormat::Svg,
                    DiagramContentV::Raw(buffer),
                );
            },
            _ => (),
        },
        ScanStateV::InsideImage { diagram_type, path } => match e {
            EventV::ImageEnd(_) => {
                lemma_emit_content(
                    p,
                    diagram_type,
                    OutputFormat::Svg,
                    DiagramContentV::Path {
                        kind: if is_absolute_seq(path) {
                            PathRoot::System
                        } else {
                            PathRoot::This
                        },
                        path,
                    },
                );
            },
            _ => (),
        },
    }
}

proof fn lemma_fold_content(es: Seq<EventV>)
    requires
        scan_fold_from(init_part(), es) is Ok,
        forall|k: int| 0 <= k < es.len() ==> event_pct_free(#[trigger] es[k]),
    ensures
        content_inv(scan_fold_from(init_part(), es)->Ok_0),
    decreases es.len(),
{
    if es.len() == 0 {
        assert(content_inv(init_part())) by {
            assert forall|a: nat| #![trigger placeholder_seq(a)] true implies count_occ(
                serialize_spec(Seq::<EventV>::empty()),
                placeholder_seq(a),
            ) == 0 && no_danger(serialize_spec(Seq::<EventV>::empty()), placeholder_seq(a)) by {
                lemma_ph_chars(a);
            }
        }
    } else {
        assert(forall|k: int|
            0 <= k < es.drop_last().len() ==> event_pct_free(#[trigger] es.drop_last()[k]));
        lemma_fold_content(es.drop_last());
        lemma_step_content(
            scan_fold_from(init_part(), es.drop_last())->Ok_0,
            es.last(),
            scan_fold_from(init_part(), es)->Ok_0,
        );
    }
}

/// When no payload of a document's own events uses the `%` character,
/// every placeholder of a successful scan occurs in the serialized
/// rewritten content exactly once.
pub proof fn lemma_placeholder_unique_in_content(
    es: Seq<EventV>,
    out: Seq<EventV>,
    dirs: Seq<DiagramV>,
)
    requires
        scan_spec(es) == Ok::<_, ScanError>((out, dirs)),
        forall|k: int| 0 <= k < es.len() ==> event_pct_free(#[trigger] es[k]),
    ensures
        forall|a: int|
            0 <= a < dirs.len() ==> count_occ(
                serialize_spec(out),
                #[trigger] dirs[a].replace_text,
            ) == 1,
{
    assert forall|k: int| 0 <= k < es.len() implies !mentions_marker(#[trigger] es[k]) by {
        reveal_strlit("%%kroki-diagram-");
        match es[k] {
            EventV::Text(s) => {
                if contains_seq(s, marker_seq()) {
                    let i = choose|i: int| occurs_at(s, marker_seq(), i);
                    assert(s[i + 0] == marker_seq()[0]) by {
                        assert(s.subrange(i, i + marker_seq().len() as int)[0] == s[i + 0]);
                    }
                }
            },
            _ => (),
        }
    }
    lemma_fold_inv(es);
    lemma_fold_content(es);
}

fn is_ws_exec(c: char) -> (r: bool)
    ensures
        r == is_ws(c),
{
    c == ' ' || c == '\n' || c == '\t' || c == '\r'
}

fn is_name_char_exec(c: char) -> (r: bool)
    ensures
        r == is_name_char(c),
{
    !is_ws_exec(c) && c != '=' && c != '>' && c != '/' && c != '"'
}

fn skip_ws(s: &str, i: usize) -> (r: usize)
    requires
        i <= s@.len(),
    ensures
        r == skip_ws_spec(s@, i as int),
        i <= r <= s@.len(),
{
    let n = s.unicode_len();
    let mut k = i;
    while k < n && is_ws_exec(s.get_char(k))
        invariant
            n == s@.len(),
            i <= k <= n,
            skip_ws_spec(s@, i as int) == skip_ws_spec(s@, k as int),
        decreases n - k,
    {
        k += 1;
    }
    k
}

fn name_end(s: &str, i: usize) -> (r: usize)
    requires
        i <= s@.len(),
    ensures
        r == name_end_spec(s@, i as int),
        i <= r <= s@.len(),
{
    let n = s.unicode_len();
    let mut k = i;
    while k < n && is_name_char_exec(s.get_char(k))
        invariant
            n == s@.len(),
            i <= k <= n,
            name_end_spec(s@, i as int) == name_end_spec(s@, k as int),
        decreases n - k,
    {
        k += 1;
    }
    k
}

fn char_end(s: &str, i: usize, c: char) -> (r: usize)
    requires
        i <= s@.len(),
    ensures
        r == char_end_spec(s@, i as int, c),
        i <= r <= s@.len(),
{
    let n = s.unicode_len();
    let mut k = i;
    while k < n && s.get_char(k) != c
        invariant
            n == s@.len(),
            i <= k <= n,
            char_end_spec(s@, i as int, c) == char_end_spec(s@, k as int, c),
        decreases n - k,
    {
        k += 1;
    }
    k
}

/// The views of an attribute list.
pub open spec fn attrs_view(attrs: Seq<(String, String)>) -> Seq<(Seq<char>, Seq<char>)> {
    attrs.map_values(|a: (String, String)| (a.0@, a.1@))
}

fn parse_attrs(s: &str, i: usize) -> (r: Result<Vec<(String, String)>, ScanError>)
    requires
        i <= s@.len(),
    ensures
        match r {
            Ok(attrs) => parse_attrs_spec(s@, i as int) == Ok::<_, ScanError>(
                attrs_view(attrs@),
            ),
            Err(e) => parse_attrs_spec(s@, i as int) == Err::<Seq<(Seq<char>, Seq<char>)>, _>(e),
        },
    decreases s@.len() - i,
{
    let n = s.unicode_len();
    let j = skip_ws(s, i);
    if j == n {
        return Err(ScanError::MalformedDirectiveTag);
    }
    let cj = s.get_char(j);
    if cj == '>' || cj == '/' {
        assert(parse_attrs_spec(s@, i as int) == Ok::<_, ScanError>(
            Seq::<(Seq<char>, Seq<char>)>::empty(),
        ));
        assert(attrs_view(Seq::empty()) =~= Seq::<(Seq<char>, Seq<char>)>::empty());
        return Ok(Vec::new());
    }
    let k = name_end(s, j);
    if k == j || k == n || s.get_char(k) != '=' || k + 1 == n || s.get_char(k + 1) != '"' {
        return Err(ScanError::MalformedDirectiveTag);
    }
    let v = char_end(s, k + 2, '"');
    if v == n {
        return Err(ScanError::MalformedDirectiveTag);
    }
    let name = s.substring_char(j, k).to_owned();
    let value = s.substring_char(k + 2, v).to_owned();
    match parse_attrs(s, v + 1) {
        Err(e) => Err(e),
        Ok(rest) => {
            let ghost rest0 = rest@;
            let ghost namev = name@;
            let ghost valuev = value@;
            let mut out: Vec<(String, String)> = Vec::new();
            out.push((name, value));
            proof {
                assert(out@[0].0@ == namev);
                assert(out@[0].1@ == valuev);
            }
            let ghost pre = out@;
            let mut rest = rest;
            out.append(&mut rest);
            assert(attrs_view(out@) =~= seq![(namev, valuev)] + attrs_view(rest0)) by {
                assert(out@ == pre + rest0);
                assert(forall|x: int| 0 <= x < rest0.len() ==> out@[1 + x] == rest0[x]);
            }
            Ok(out)
        },
    }
}

fn attr_get(attrs: &Vec<(String, String)>, name: &str) -> (r: Option<String>)
    ensures
        match r {
            Some(v) => attr_lookup(attrs_view(attrs@), name@) == Some(v@),
            None => attr_lookup(attrs_view(attrs@), name@) is None,
        },
{
    let n = attrs.len();
    let mut i: usize = 0;
    assert(attrs_view(attrs@).skip(0) =~= attrs_view(attrs@));
    while i < n
        invariant
            n == attrs@.len(),
            i <= n,
            attr_lookup(attrs_view(attrs@), name@) == attr_lookup(
                attrs_view(attrs@).skip(i as int),
                name@,
            ),
        decreases n - i,
    {
        if str_eq(attrs[i].0.as_str(), name) {
            return Some(attrs[i].1.clone());
        }
        assert(attrs_view(attrs@).skip(i as int).drop_first() =~= attrs_view(attrs@).skip(
            i + 1,
        ));
        i += 1;
    }
    None
}

fn root_kind_exec(v: &str) -> (r: Option<PathRoot>)
    ensures
        r == root_kind_of(v@),
{
    if str_eq(v, "system") {
        Some(PathRoot::System)
    } else if str_eq(v, "book") {
        Some(PathRoot::Book)
    } else if str_eq(v, "source") || str_eq(v, "src") {
        Some(PathRoot::Source)
    } else if str_eq(v, "this") || str_eq(v, ".") {
        Some(PathRoot::This)
    } else {
        None
    }
}

fn format_exec(v: &str) -> (r: Option<OutputFormat>)
    ensures
        r == format_of(v@),
{
    if str_eq(v, "svg") {
        Some(OutputFormat::Svg)
    } else if str_eq(v, "png") {
        Some(OutputFormat::Png)
    } else if str_eq(v, "jpeg") {
        Some(OutputFormat::Jpeg)
    } else if str_eq(v, "pdf") {
        Some(OutputFormat::Pdf)
    } else {
        None
    }
}

/// What a well-formed directive tag declares.
pub struct TagInfo {
    /// The declared diagram type, lower-cased.
    pub diagram_type: String,
    /// The declared or default output format.
    pub output_format: OutputFormat,
    /// The declared or default root kind.
    pub kind: PathRoot,
    /// The declared path.
    pub path: String,
    /// Whether the tag closes itself within this event.
    pub closed: bool,
}

impl View for TagInfo {
    type V = TagInfoV;

    open spec fn view(&self) -> TagInfoV {
        TagInfoV {
            diagram_type: self.diagram_type@,
            output_format: self.output_format,
            kind: self.kind,
            path: self.path@,
            closed: self.closed,
        }
    }
}

fn parse_kroki_tag(s: &str) -> (r: Result<TagInfo, ScanError>)
    requires
        starts_with_seq(s@, "<kroki"@),
    ensures
        match r {
            Ok(info) => tag_info_spec(s@) == Ok::<_, ScanError>(info@),
            Err(e) => tag_info_spec(s@) == Err::<TagInfoV, _>(e),
        },
{
    proof {
        reveal_strlit("<kroki");
    }
    let attrs = match parse_attrs(s, 6) {
        Err(e) => {
            return Err(e);
        },
        Ok(attrs) => attrs,
    };
    let ty = match attr_get(&attrs, "type") {
        None => {
            return Err(ScanError::MissingTypeAttribute);
        },
        Some(ty) => ty,
    };
    let path = match attr_get(&attrs, "path") {
        None => {
            return Err(ScanError::MissingPathAttribute);
        },
        Some(path) => path,
    };
    let kind = match attr_get(&attrs, "root") {
        None => PathRoot::This,
        Some(rv) => match root_kind_exec(rv.as_str()) {
            None => {
                return Err(ScanError::UnrecognizedRootKind);
            },
            Some(kind) => kind,
        },
    };
    let fmt = match attr_get(&attrs, "format") {
        None => OutputFormat::Svg,
        Some(fv) => match format_exec(fv.as_str()) {
            None => {
                return Err(ScanError::UnrecognizedOutputFormat);
            },
            Some(fmt) => fmt,
        },
    };
    let absolute = is_absolute(path.as_str());
    if matches!(kind, PathRoot::System) && !absolute {
        return Err(ScanError::InvalidPathForRoot);
    }
    if matches!(kind, PathRoot::This) && absolute {
        return Err(ScanError::AbsolutePathRequiresExplicitRoot);
    }
    let closed = contains_str(s, "/>") || contains_str(s, "</kroki>");
    Ok(
        TagInfo {
            diagram_type: lowercase(ty.as_str()),
            output_format: fmt,
            kind,
            path,
            closed,
        },
    )
}

fn image_directive_exec(url: &str) -> (r: Option<(String, String)>)
    ensures
        match r {
            Some(tp) => image_directive_spec(url@) == Some((tp.0@, tp.1@)),
            None => image_directive_spec(url@) is None,
        },
{
    if !starts_with_str(url, "kroki-") {
        return None;
    }
    proof {
        reveal_strlit("kroki-");
    }
    let n = url.unicode_len();
    let c = char_end(url, 6, ':');
    if c == n || c == 6 || c + 1 == n {
        return None;
    }
    let ty = lowercase(url.substring_char(6, c));
    let path = url.substring_char(c + 1, n).to_owned();
    Some((ty, path))
}

fn fence_directive_exec(lang: &str) -> (r: Option<String>)
    ensures
        match r {
            Some(ty) => fence_directive_spec(lang@) == Some(ty@),
            None => fence_directive_spec(lang@) is None,
        },
{
    let l = lowercase(lang);
    let n = l.as_str().unicode_len();
    if starts_with_str(l.as_str(), "kroki-") && n > 6 {
        Some(l.as_str().substring_char(6, n).to_owned())
    } else {
        None
    }
}

fn push_through(out: &mut Vec<Event>, e: &Event)
    ensures
        events_view(final(out)@) == events_view(old(out)@).push(e@),
{
    out.push(clone_event(e));
    assert(events_view(out@) =~= events_view(old(out)@).push(e@));
}

fn emit_directive(
    out: &mut Vec<Event>,
    dirs: &mut Vec<Diagram>,
    diagram_type: String,
    output_format: OutputFormat,
    content: DiagramContent,
)
    ensures
        events_view(final(out)@) == events_view(old(out)@) + placeholder_events(
            old(dirs)@.len() as nat,
        ),
        diagrams_view(final(dirs)@) == diagrams_view(old(dirs)@).push(
            mk_diagram(diagram_type@, output_format, content@, old(dirs)@.len() as nat),
        ),
{
    let ghost tyv = diagram_type@;
    let ghost contentv = content@;
    let ph = make_placeholder(dirs.len());
    out.push(Event::ParagraphStart);
    out.push(Event::Text(ph.clone()));
    out.push(Event::ParagraphEnd);
    dirs.push(
        Diagram {
            diagram_type,
            output_format,
            replace_text: ph,
            indices: Vec::new(),
            content,
        },
    );
    assert(events_view(out@) =~= events_view(old(out)@) + placeholder_events(
        old(dirs)@.len() as nat,
    ));
    assert(diagrams_view(dirs@) =~= diagrams_view(old(dirs)@).push(
        mk_diagram(tyv, output_format, contentv, old(dirs)@.len() as nat),
    ));
}

enum ScanState {
    Outside,
    InsidePre { depth: usize },
    InsideTag { diagram_type: String, output_format: OutputFormat, kind: PathRoot, path: String },
    InsideFence { diagram_type: String, buffer: String },
    InsideImage { diagram_type: String, path: String },
}

spec fn state_view(st: &ScanState) -> ScanStateV {
    match st {
        ScanState::Outside => ScanStateV::Outside,
        ScanState::InsidePre { depth } => ScanStateV::InsidePre { depth: *depth as nat },
        ScanState::InsideTag { diagram_type, output_format, kind, path } => ScanStateV::InsideTag {
            diagram_type: diagram_type@,
            output_format: *output_format,
            kind: *kind,
            path: path@,
        },
        ScanState::InsideFence { diagram_type, buffer } => ScanStateV::InsideFence {
            diagram_type: diagram_type@,
            buffer: buffer@,
        },
        ScanState::InsideImage { diagram_type, path } => ScanStateV::InsideImage {
            diagram_type: diagram_type@,
            path: path@,
        },
    }
}

/// Scan one document's events.
///
/// On success, returns the rewritten events — every recognized directive
/// span replaced by a placeholder paragraph, everything else verbatim —
/// and the extracted directives in discovery order, exactly as
/// `scan_spec` prescribes; the directives' owning addresses are left
/// empty for the tree walker to stamp. On the first malformed or
/// unterminated directive, returns exactly the error `scan_spec`
/// prescribes.
#[verifier::rlimit(60)]
pub fn scan_events(events: &Vec<Event>) -> (r: Result<(Vec<Event>, Vec<Diagram>), ScanError>)
    ensures
        r matches Ok(p) ==> scan_spec(events_view(events@)) == Ok::<_, ScanError>(
            (events_view(p.0@), diagrams_view(p.1@)),
        ),
        r matches Err(e) ==> scan_spec(events_view(events@)) == Err::<
            (Seq<EventV>, Seq<DiagramV>),
            _,
        >(e),
{
    let ghost ev = events_view(events@);
    let mut out: Vec<Event> = Vec::new();
    let mut dirs: Vec<Diagram> = Vec::new();
    let mut state = ScanState::Outside;
    let n = events.len();
    proof {
        assert(ev.subrange(0, 0) =~= Seq::<EventV>::empty());
        assert(events_view(out@) =~= Seq::<EventV>::empty());
        assert(diagrams_view(dirs@) =~= Seq::<DiagramV>::empty());
    }
    let mut i: usize = 0;
    while i < n
        invariant
            n == events@.len(),
            ev == events_view(events@),
            i <= n,
            scan_fold_from(init_part(), ev.subrange(0, i as int)) == Ok::<_, ScanError>(
                ScanPartV {
                    state: state_view(&state),
                    output: events_view(out@),
                    directives: diagrams_view(dirs@),
                },
            ),
            state matches ScanState::InsidePre { depth } ==> 1 <= depth <= i,
        decreases n - i,
    {
        proof {
            assert(ev.subrange(0, i + 1).drop_last() =~= ev.subrange(0, i as int));
            assert(ev.subrange(0, i + 1).last() == ev[i as int]);
            assert(ev[i as int] == events@[i as int]@);
        }
        let ghost prev = ScanPartV {
            state: state_view(&state),
            output: events_view(out@),
            directives: diagrams_view(dirs@),
        };
        let e = &events[i];
        let cur = state;
        match cur {
            ScanState::Outside => match e {
                Event::Html(s) => {
                    if str_eq(s.as_str(), "<pre>") {
                        push_through(&mut out, e);
                        state = ScanState::InsidePre { depth: 1 };
                    } else if starts_with_str(s.as_str(), "<kroki") {
                        match parse_kroki_tag(s.as_str()) {
                            Err(err) => {
                                proof {
                                    lemma_fold_err_persists(ev, i + 1);
                                }
                                return Err(err);
                            },
                            Ok(info) => {
                                if info.closed {
                                    emit_directive(
                                        &mut out,
                                        &mut dirs,
                                        info.diagram_type,
                                        info.output_format,
                                        DiagramContent::Path { kind: info.kind, path: info.path },
                                    );
                                    state = ScanState::Outside;
                                } else {
                                    state = ScanState::InsideTag {
                                        diagram_type: info.diagram_type,
                                        output_format: info.output_format,
                                        kind: info.kind,
                                        path: info.path,
                                    };
                                }
                            },
                        }
                    } else {
                        push_through(&mut out, e);
                        state = ScanState::Outside;
                    }
                },
                Event::ImageStart(url) => match image_directive_exec(url.as_str()) {
                    Some(tp) => {
                        state = ScanState::InsideImage { diagram_type: tp.0, path: tp.1 };
                    },
                    None => {
                        push_through(&mut out, e);
                        state = ScanState::Outside;
                    },
                },
                Event::FenceStart(lang) => match fence_directive_exec(lang.as_str()) {
                    Some(ty) => {
                        state = ScanState::InsideFence { diagram_type: ty, buffer: String::new() };
                    },
                    None => {
                        push_through(&mut out, e);
                        state = ScanState::Outside;
                    },
                },
                _ => {
                    push_through(&mut out, e);
                    state = ScanState::Outside;
                },
            },
            ScanState::InsidePre { depth } => {
                let mut nd = depth;
                match e {
                    Event::Html(s) => {
                        if str_eq(s.as_str(), "<pre>") {
                            nd = depth + 1;
                        } else if str_eq(s.as_str(), "</pre>") {
                            nd = depth - 1;
                        }
                    },
                    _ => {},
                }
                push_through(&mut out, e);
                if nd == 0 {
                    state = ScanState::Outside;
                } else {
                    state = ScanState::InsidePre { depth: nd };
                }
            },
            ScanState::InsideTag { diagram_type, output_format, kind, path } => {
                let mut close = false;
                match e {
                    Event::Html(s) => {
                        if contains_str(s.as_str(), "</kroki>") {
                            close = true;
                        }
                    },
                    _ => {},
                }
                if close {
                    emit_directive(
                        &mut out,
                        &mut dirs,
                        diagram_type,
                        output_format,
                        DiagramContent::Path { kind, path },
                    );
                    state = ScanState::Outside;
                } else {
                    state = ScanState::InsideTag { diagram_type, output_format, kind, path };
                }
            },
            ScanState::InsideFence { diagram_type, buffer } => match e {
                Event::Text(s) => {
                    let mut buffer = buffer;
                    buffer.append(s.as_str());
                    state = ScanState::InsideFence { diagram_type, buffer };
                },
                Event::FenceEnd => {
                    emit_directive(
                        &mut out,
                        &mut dirs,
                        diagram_type,
                        OutputFormat::Svg,
                        DiagramContent::Raw(buffer),
                    );
                    state = ScanState::Outside;
                },
                _ => {
                    state = ScanState::InsideFence { diagram_type, buffer };
                },
            },
            ScanState::InsideImage { diagram_type, path } => match e {
                Event::ImageEnd(_) => {
                    let kind = if is_absolute(path.as_str()) {
                        PathRoot::System
                    } else {
                        PathRoot::This
                    };
                    emit_directive(
                        &mut out,
                        &mut dirs,
                        diagram_type,
                        OutputFormat::Svg,
                        DiagramContent::Path { kind, path },
                    );
                    state = ScanState::Outside;
                },
                _ => {
                    state = ScanState::InsideImage { diagram_type, path };
                },
            },
        }
        assert(scan_step(prev, ev[i as int]) == Ok::<_, ScanError>(
            ScanPartV {
                state: state_view(&state),
                output: events_view(out@),
                directives: diagrams_view(dirs@),
            },
        ));
        i += 1;
    }
    proof {
        assert(ev.subrange(0, n as int) =~= ev);
    }
    match state {
        ScanState::Outside => Ok((out, dirs)),
        ScanState::InsidePre { .. } => Ok((out, dirs)),
        ScanState::InsideTag { .. } => Err(ScanError::UnterminatedDirectiveTag),
        ScanState::InsideFence { .. } => Err(ScanError::UnterminatedDirectiveBlock),
        ScanState::InsideImage { .. } => Err(ScanError::UnterminatedImageDirective),
    }
}

} // verus!
