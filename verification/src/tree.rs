//! The document tree: addressing, walking, and write-back.
//!
//! A run works on an ordered forest of tree items; a document node carries
//! its markup events, its serialized text content, an optional on-disk
//! source path and its ordered children. Every document is addressed by
//! the sequence of child indices from the root; addresses are computed by
//! the walker during extraction and used again during write-back, after
//! resolution. The walker is single-threaded; resolution may happen
//! concurrently outside the tree, and the merge pass applies the results
//! one by one.

use vstd::prelude::*;

use crate::directive::{Diagram, DiagramV, diagrams_view};
use crate::errors::{AddressError, ScanError, TreeScanError};
use crate::events::{Event, EventV, events_view, serialize_events, serialize_spec};
use crate::scanner::{scan_events, scan_spec};
use crate::text::{replace_first, replace_first_seq};

verus! {

/// One item of the forest: a document, or something that is not a
/// document (a separator, say) and is carried through unchanged.
#[derive(Debug, PartialEq)]
pub enum TreeItem {
    /// A document node.
    Document(DocumentNode),
    /// A non-document item.
    Other,
}

/// One document of the tree.
#[derive(Debug, PartialEq)]
pub struct DocumentNode {
    /// The document's markup, as events from the host's tokenizer.
    pub events: Vec<Event>,
    /// The document's text content; the scan phase fills it with the
    /// serialized rewritten events, the write-back phase splices resolved
    /// content into it.
    pub content: String,
    /// The document's on-disk source path, `/`-separated, if it has one.
    pub source_path: Option<String>,
    /// The document's ordered children.
    pub children: Vec<TreeItem>,
}

/// View of `TreeItem`.
#[verifier::ext_equal]
pub enum TreeItemV {
    /// View of `TreeItem::Document`.
    Document(NodeV),
    /// View of `TreeItem::Other`.
    Other,
}

/// View of `DocumentNode`.
#[verifier::ext_equal]
pub struct NodeV {
    /// View of `DocumentNode::events`.
    pub events: Seq<EventV>,
    /// View of `DocumentNode::content`.
    pub content: Seq<char>,
    /// View of `DocumentNode::source_path`.
    pub source_path: Option<Seq<char>>,
    /// View of `DocumentNode::children`.
    pub children: Seq<TreeItemV>,
}

/// The view of an optional string.
pub open spec fn opt_str_view(o: Option<String>) -> Option<Seq<char>> {
    match o {
        Some(s) => Some(s@),
        None => None,
    }
}

/// The view of a tree item.
pub open spec fn item_view(t: TreeItem) -> TreeItemV
    decreases t,
{
    match t {
        TreeItem::Document(n) => TreeItemV::Document(node_view(n)),
        TreeItem::Other => TreeItemV::Other,
    }
}

/// The view of a document node.
pub open spec fn node_view(n: DocumentNode) -> NodeV
    decreases n,
{
    NodeV {
        events: events_view(n.events@),
        content: n.content@,
        source_path: opt_str_view(n.source_path),
        children: forest_view(n.children@),
    }
}

/// The views of a forest of tree items.
pub open spec fn forest_view(items: Seq<TreeItem>) -> Seq<TreeItemV>
    decreases items,
{
    if items.len() == 0 {
        Seq::empty()
    } else {
        forest_view(items.drop_last()).push(item_view(items.last()))
    }
}

/// A forest's view has one item view per item.
pub proof fn lemma_forest_view(items: Seq<TreeItem>)
    ensures
        forest_view(items).len() == items.len(),
        forall|i: int| 0 <= i < items.len() ==> #[trigger] forest_view(items)[i] == item_view(
            items[i],
        ),
    decreases items.len(),
{
    if items.len() > 0 {
        lemma_forest_view(items.drop_last());
        assert forall|i: int| 0 <= i < items.len() implies #[trigger] forest_view(items)[i]
            == item_view(items[i]) by {
            if i < items.len() - 1 {
                assert(items.drop_last()[i] == items[i]);
                assert(forest_view(items)[i] == forest_view(items.drop_last())[i]);
            } else {
                assert(items.last() == items[i]);
            }
        }
    }
}

/// The document at `addr`, looked up from position `d` of the address.
pub open spec fn document_at_spec(
    items: Seq<TreeItemV>,
    addr: Seq<usize>,
    d: int,
) -> Result<NodeV, AddressError>
    decreases addr.len() - d,
{
    if d < 0 || d >= addr.len() {
        Err(AddressError::StaleAddress)
    } else if addr[d] >= items.len() {
        Err(AddressError::StaleAddress)
    } else {
        match items[addr[d] as int] {
            TreeItemV::Other => Err(AddressError::NotADocumentNode),
            TreeItemV::Document(n) => {
                if d == addr.len() - 1 {
                    Ok(n)
                } else {
                    document_at_spec(n.children, addr, d + 1)
                }
            },
        }
    }
}

fn document_at_from<'a>(items: &'a Vec<TreeItem>, addr: &Vec<usize>, d: usize) -> (r: Result<
    &'a DocumentNode,
    AddressError,
>)
    requires
        d <= addr@.len(),
    ensures
        match r {
            Ok(n) => document_at_spec(forest_view(items@), addr@, d as int) == Ok::<
                _,
                AddressError,
            >(node_view(*n)),
            Err(e) => document_at_spec(forest_view(items@), addr@, d as int) == Err::<NodeV, _>(
                e,
            ),
        },
    decreases addr@.len() - d,
{
    if d == addr.len() {
        return Err(AddressError::StaleAddress);
    }
    let idx = addr[d];
    proof {
        lemma_forest_view(items@);
    }
    if idx >= items.len() {
        return Err(AddressError::StaleAddress);
    }
    match &items[idx] {
        TreeItem::Other => Err(AddressError::NotADocumentNode),
        TreeItem::Document(n) => {
            if d + 1 == addr.len() {
                Ok(n)
            } else {
                document_at_from(&n.children, addr, d + 1)
            }
        },
    }
}

/// Look up the document a (non-empty) address names.
///
/// Returns `StaleAddress` when some index of the address does not name an
/// item, and `NotADocumentNode` when the named item is not a document.
pub fn document_at<'a>(items: &'a Vec<TreeItem>, addr: &Vec<usize>) -> (r: Result<
    &'a DocumentNode,
    AddressError,
>)
    ensures
        match r {
            Ok(n) => document_at_spec(forest_view(items@), addr@, 0) == Ok::<_, AddressError>(
                node_view(*n),
            ),
            Err(e) => document_at_spec(forest_view(items@), addr@, 0) == Err::<NodeV, _>(e),
        },
{
    document_at_from(items, addr, 0)
}

/// The forest after replacing, in the document at `addr`, the first
/// occurrence of `pat` by `repl` — looked up from position `d` on.
pub open spec fn write_back_spec(
    items: Seq<TreeItemV>,
    addr: Seq<usize>,
    d: int,
    pat: Seq<char>,
    repl: Seq<char>,
) -> Result<Seq<TreeItemV>, AddressError>
    decreases addr.len() - d,
{
    if d < 0 || d >= addr.len() {
        Err(AddressError::StaleAddress)
    } else if addr[d] >= items.len() {
        Err(AddressError::StaleAddress)
    } else {
        match items[addr[d] as int] {
            TreeItemV::Other => Err(AddressError::NotADocumentNode),
            TreeItemV::Document(n) => {
                if d == addr.len() - 1 {
                    Ok(
                        items.update(
                            addr[d] as int,
                            TreeItemV::Document(
                                NodeV {
                                    content: replace_first_seq(n.content, pat, repl),
                                    ..n
                                },
                            ),
                        ),
                    )
                } else {
                    match write_back_spec(n.children, addr, d + 1, pat, repl) {
                        Err(e) => Err(e),
                        Ok(ch2) => Ok(
                            items.update(
                                addr[d] as int,
                                TreeItemV::Document(NodeV { children: ch2, ..n }),
                            ),
                        ),
                    }
                }
            },
        }
    }
}

fn write_back_from(
    items: &mut Vec<TreeItem>,
    addr: &Vec<usize>,
    d: usize,
    pat: &str,
    repl: &str,
) -> (r: Result<(), AddressError>)
    requires
        d <= addr@.len(),
    ensures
        match r {
            Ok(_) => write_back_spec(forest_view(old(items)@), addr@, d as int, pat@, repl@)
                == Ok::<_, AddressError>(forest_view(final(items)@)),
            Err(e) => write_back_spec(forest_view(old(items)@), addr@, d as int, pat@, repl@)
                == Err::<Seq<TreeItemV>, _>(e) && forest_view(final(items)@) == forest_view(
                old(items)@,
            ),
        },
    decreases addr@.len() - d,
{
    if d == addr.len() {
        return Err(AddressError::StaleAddress);
    }
    let idx = addr[d];
    proof {
        lemma_forest_view(items@);
    }
    if idx >= items.len() {
        return Err(AddressError::StaleAddress);
    }
    let ghost items0 = items@;
    let item = items.remove(idx);
    match item {
        TreeItem::Other => {
            items.insert(idx, TreeItem::Other);
            proof {
                lemma_remove_insert(items0, idx as int, TreeItem::Other);
                assert(items@ =~= items0);
            }
            Err(AddressError::NotADocumentNode)
        },
        TreeItem::Document(node) => {
            let ghost nodev = node_view(node);
            if d + 1 == addr.len() {
                let mut node = node;
                let new_content = replace_first(node.content.as_str(), pat, repl);
                node.content = new_content;
                let ghost nodev2 = node_view(node);
                let ghost item2 = TreeItem::Document(node);
                items.insert(idx, TreeItem::Document(node));
                proof {
                    assert(nodev2 =~= NodeV {
                        content: replace_first_seq(nodev.content, pat@, repl@),
                        ..nodev
                    });
                    lemma_remove_insert(items0, idx as int, item2);
                    assert(items@ == items0.update(idx as int, item2));
                    lemma_forest_view(items@);
                    lemma_forest_view(items0);
                    assert(forest_view(items@) =~= forest_view(items0).update(
                        idx as int,
                        TreeItemV::Document(nodev2),
                    ));
                }
                Ok(())
            } else {
                let mut node = node;
                let r = write_back_from(&mut node.children, addr, d + 1, pat, repl);
                match r {
                    Err(e) => {
                        let ghost nodev2 = node_view(node);
                        let ghost item2 = TreeItem::Document(node);
                        items.insert(idx, TreeItem::Document(node));
                        proof {
                            assert(nodev2 =~= nodev);
                            lemma_remove_insert(items0, idx as int, item2);
                            assert(items@ == items0.update(idx as int, item2));
                            lemma_forest_view(items@);
                            lemma_forest_view(items0);
                            assert(forest_view(items@) =~= forest_view(items0));
                        }
                        Err(e)
                    },
                    Ok(_) => {
                        let ghost ch2 = forest_view(node.children@);
                        let ghost nodev2 = node_view(node);
                        let ghost item2 = TreeItem::Document(node);
                        items.insert(idx, TreeItem::Document(node));
                        proof {
                            assert(nodev2 =~= NodeV { children: ch2, ..nodev });
                            lemma_remove_insert(items0, idx as int, item2);
                            assert(items@ == items0.update(idx as int, item2));
                            lemma_forest_view(items@);
                            lemma_forest_view(items0);
                            assert(forest_view(items@) =~= forest_view(items0).update(
                                idx as int,
                                TreeItemV::Document(nodev2),
                            ));
                        }
                        Ok(())
                    },
                }
            }
        },
    }
}

/// Removing an element and inserting another at the same position is an
/// update.
proof fn lemma_remove_insert<A>(s: Seq<A>, i: int, x: A)
    requires
        0 <= i < s.len(),
    ensures
        s.remove(i).insert(i, x) == s.update(i, x),
{
    assert(s.remove(i).insert(i, x) =~= s.update(i, x));
}

/// Replace, in the document at `addr`, the first occurrence of `pat` by
/// `repl`. On an addressing error the forest is left unchanged.
pub fn write_back(items: &mut Vec<TreeItem>, addr: &Vec<usize>, pat: &str, repl: &str) -> (r:
    Result<(), AddressError>)
    ensures
        match r {
            Ok(_) => write_back_spec(forest_view(old(items)@), addr@, 0, pat@, repl@) == Ok::<
                _,
                AddressError,
            >(forest_view(final(items)@)),
            Err(e) => write_back_spec(forest_view(old(items)@), addr@, 0, pat@, repl@) == Err::<
                Seq<TreeItemV>,
                _,
            >(e) && forest_view(final(items)@) == forest_view(old(items)@),
        },
{
    write_back_from(items, addr, 0, pat, repl)
}

proof fn lemma_forest_view_push(s: Seq<TreeItem>, x: TreeItem)
    ensures
        forest_view(s.push(x)) == forest_view(s).push(item_view(x)),
{
    assert(s.push(x).drop_last() =~= s);
}

/// A vector of indices equal to the given one.
pub fn clone_indices(v: &Vec<usize>) -> (r: Vec<usize>)
    ensures
        r@ == v@,
{
    let mut r: Vec<usize> = Vec::new();
    let n = v.len();
    let mut i: usize = 0;
    while i < n
        invariant
            n == v@.len(),
            i <= n,
            r@ == v@.subrange(0, i as int),
        decreases n - i,
    {
        r.push(v[i]);
        assert(r@ =~= v@.subrange(0, i + 1));
        i += 1;
    }
    assert(v@.subrange(0, n as int) =~= v@);
    r
}

/// The directives `ds`, each stamped with the owning address `addr`.
pub open spec fn stamp(ds: Seq<DiagramV>, addr: Seq<usize>) -> Seq<DiagramV> {
    ds.map_values(
        |dv: DiagramV|
            DiagramV {
                diagram_type: dv.diagram_type,
                output_format: dv.output_format,
                replace_text: dv.replace_text,
                indices: addr,
                content: dv.content,
            },
    )
}

fn stamp_exec(ds: Vec<Diagram>, addr: &Vec<usize>) -> (r: Vec<Diagram>)
    ensures
        diagrams_view(r@) == stamp(diagrams_view(ds@), addr@),
{
    let ghost ds0 = ds@;
    let mut rest = ds;
    let mut out: Vec<Diagram> = Vec::new();
    while rest.len() > 0
        invariant
            out@.len() + rest@.len() == ds0.len(),
            rest@ == ds0.skip(out@.len() as int),
            diagrams_view(out@) == stamp(diagrams_view(ds0), addr@).take(out@.len() as int),
        decreases rest@.len(),
    {
        let ghost k = out@.len() as int;
        let d = rest.remove(0);
        proof {
            assert(d == ds0[k]);
            assert(rest@ =~= ds0.skip(k + 1));
        }
        let Diagram { diagram_type, output_format, replace_text, indices: _, content } = d;
        out.push(
            Diagram {
                diagram_type,
                output_format,
                replace_text,
                indices: clone_indices(addr),
                content,
            },
        );
        assert(diagrams_view(out@) =~= stamp(diagrams_view(ds0), addr@).take(k + 1));
    }
    assert(stamp(diagrams_view(ds0), addr@).take(ds0.len() as int) =~= stamp(
        diagrams_view(ds0),
        addr@,
    ));
    out
}

/// Walk one tree item: a document is scanned and rewritten, anything
/// else is carried through.
pub open spec fn walk_item_spec(t: TreeItemV, addr: Seq<usize>) -> Result<
    (TreeItemV, Seq<DiagramV>),
    (Seq<usize>, ScanError),
>
    decreases t,
{
    match t {
        TreeItemV::Other => Ok((TreeItemV::Other, Seq::empty())),
        TreeItemV::Document(n) => match walk_node_spec(n, addr) {
            Err(e) => Err(e),
            Ok(r) => Ok((TreeItemV::Document(r.0), r.1)),
        },
    }
}

/// Walk one document at address `addr`: scan its events, replace its
/// content by the serialized rewritten events, stamp its directives with
/// `addr`, then walk its children; the document's own directives come
/// before its children's.
pub open spec fn walk_node_spec(n: NodeV, addr: Seq<usize>) -> Result<
    (NodeV, Seq<DiagramV>),
    (Seq<usize>, ScanError),
>
    decreases n,
{
    match scan_spec(n.events) {
        Err(e) => Err((addr, e)),
        Ok(res) => match walk_forest_spec(n.children, addr) {
            Err(e) => Err(e),
            Ok(ch) => Ok(
                (
                    NodeV {
                        events: res.0,
                        content: serialize_spec(res.0),
                        source_path: n.source_path,
                        children: ch.0,
                    },
                    stamp(res.1, addr) + ch.1,
                ),
            ),
        },
    }
}

/// Walk a forest whose items stand under the address `addr`: item `i`
/// has address `addr` extended by `i`; documents are visited in order,
/// depth first, each before its children.
pub open spec fn walk_forest_spec(items: Seq<TreeItemV>, addr: Seq<usize>) -> Result<
    (Seq<TreeItemV>, Seq<DiagramV>),
    (Seq<usize>, ScanError),
>
    decreases items,
{
    if items.len() == 0 {
        Ok((Seq::empty(), Seq::empty()))
    } else {
        match walk_forest_spec(items.drop_last(), addr) {
            Err(e) => Err(e),
            Ok(prev) => match walk_item_spec(
                items.last(),
                addr.push((items.len() - 1) as usize),
            ) {
                Err(e) => Err(e),
                Ok(r) => Ok((prev.0.push(r.0), prev.1 + r.1)),
            },
        }
    }
}

proof fn lemma_walk_forest_err_persists(items: Seq<TreeItemV>, addr: Seq<usize>, i: int)
    requires
        0 <= i <= items.len(),
        walk_forest_spec(items.subrange(0, i), addr) is Err,
    ensures
        walk_forest_spec(items, addr) == walk_forest_spec(items.subrange(0, i), addr),
    decreases items.len() - i,
{
    if i < items.len() {
        assert(items.subrange(0, i + 1).drop_last() =~= items.subrange(0, i));
        lemma_walk_forest_err_persists(items, addr, i + 1);
    } else {
        assert(items.subrange(0, items.len() as int) =~= items);
    }
}

fn walk_item_exec(t: &TreeItem, addr: &Vec<usize>) -> (r: Result<
    (TreeItem, Vec<Diagram>),
    TreeScanError,
>)
    ensures
        match r {
            Ok(p) => walk_item_spec(item_view(*t), addr@) == Ok::<_, (Seq<usize>, ScanError)>(
                (item_view(p.0), diagrams_view(p.1@)),
            ),
            Err(e) => walk_item_spec(item_view(*t), addr@) == Err::<
                (TreeItemV, Seq<DiagramV>),
                _,
            >((e.address@, e.error)),
        },
    decreases *t,
{
    match t {
        TreeItem::Other => {
            let r = (TreeItem::Other, Vec::<Diagram>::new());
            assert(diagrams_view(r.1@) =~= Seq::<DiagramV>::empty());
            Ok(r)
        },
        TreeItem::Document(n) => match walk_node_exec(n, addr) {
            Err(e) => Err(e),
            Ok(p) => Ok((TreeItem::Document(p.0), p.1)),
        },
    }
}

fn walk_node_exec(n: &DocumentNode, addr: &Vec<usize>) -> (r: Result<
    (DocumentNode, Vec<Diagram>),
    TreeScanError,
>)
    ensures
        match r {
            Ok(p) => walk_node_spec(node_view(*n), addr@) == Ok::<_, (Seq<usize>, ScanError)>(
                (node_view(p.0), diagrams_view(p.1@)),
            ),
            Err(e) => walk_node_spec(node_view(*n), addr@) == Err::<(NodeV, Seq<DiagramV>), _>(
                (e.address@, e.error),
            ),
        },
    decreases *n,
{
    match scan_events(&n.events) {
        Err(e) => Err(TreeScanError { address: clone_indices(addr), error: e }),
        Ok(scanned) => {
            let (out_events, ds) = scanned;
            let stamped = stamp_exec(ds, addr);
            match walk_forest_exec(&n.children, addr) {
                Err(e) => Err(e),
                Ok(walked) => {
                    let (children2, child_ds) = walked;
                    let content = serialize_events(&out_events);
                    let source_path = match &n.source_path {
                        Some(s) => Some(s.clone()),
                        None => None,
                    };
                    let mut dirs = stamped;
                    let mut child_ds = child_ds;
                    let ghost dirs0 = dirs@;
                    let ghost child0 = child_ds@;
                    dirs.append(&mut child_ds);
                    assert(diagrams_view(dirs@) =~= diagrams_view(dirs0) + diagrams_view(
                        child0,
                    ));
                    let node2 = DocumentNode {
                        events: out_events,
                        content,
                        source_path,
                        children: children2,
                    };
                    assert(node_view(node2) =~= walk_node_spec(node_view(*n), addr@)->Ok_0.0);
                    Ok((node2, dirs))
                },
            }
        },
    }
}

fn walk_forest_exec(items: &Vec<TreeItem>, addr: &Vec<usize>) -> (r: Result<
    (Vec<TreeItem>, Vec<Diagram>),
    TreeScanError,
>)
    ensures
        match r {
            Ok(p) => walk_forest_spec(forest_view(items@), addr@) == Ok::<
                _,
                (Seq<usize>, ScanError),
            >((forest_view(p.0@), diagrams_view(p.1@))),
            Err(e) => walk_forest_spec(forest_view(items@), addr@) == Err::<
                (Seq<TreeItemV>, Seq<DiagramV>),
                _,
            >((e.address@, e.error)),
        },
    decreases *items,
{
    let ghost fv = forest_view(items@);
    proof {
        lemma_forest_view(items@);
    }
    let mut out_items: Vec<TreeItem> = Vec::new();
    let mut out_dirs: Vec<Diagram> = Vec::new();
    let n = items.len();
    proof {
        assert(fv.subrange(0, 0) =~= Seq::<TreeItemV>::empty());
        assert(forest_view(out_items@) =~= Seq::<TreeItemV>::empty());
        assert(diagrams_view(out_dirs@) =~= Seq::<DiagramV>::empty());
    }
    let mut i: usize = 0;
    while i < n
        invariant
            n == items@.len(),
            fv == forest_view(items@),
            fv.len() == n,
            forall|j: int| 0 <= j < n ==> #[trigger] fv[j] == item_view(items@[j]),
            i <= n,
            walk_forest_spec(fv.subrange(0, i as int), addr@) == Ok::<
                _,
                (Seq<usize>, ScanError),
            >((forest_view(out_items@), diagrams_view(out_dirs@))),
        decreases n - i,
    {
        proof {
            assert(fv.subrange(0, i + 1).drop_last() =~= fv.subrange(0, i as int));
            assert(fv.subrange(0, i + 1).last() == fv[i as int]);
        }
        let mut addr2 = clone_indices(addr);
        addr2.push(i);
        match walk_item_exec(&items[i], &addr2) {
            Err(e) => {
                proof {
                    lemma_walk_forest_err_persists(fv, addr@, i + 1);
                }
                return Err(e);
            },
            Ok(p) => {
                let (it2, ds2) = p;
                let ghost oi0 = out_items@;
                let ghost od0 = out_dirs@;
                out_items.push(it2);
                let mut ds2 = ds2;
                let ghost ds20 = ds2@;
                out_dirs.append(&mut ds2);
                proof {
                    lemma_forest_view_push(oi0, out_items@.last());
                    assert(out_items@ =~= oi0.push(out_items@.last()));
                    assert(diagrams_view(out_dirs@) =~= diagrams_view(od0) + diagrams_view(
                        ds20,
                    ));
                }
            },
        }
        i += 1;
    }
    proof {
        assert(fv.subrange(0, n as int) =~= fv);
    }
    Ok((out_items, out_dirs))
}

/// Scan every document of the tree, in a single depth-first, pre-order
/// pass: document `i` at the root has address `[i]`, its `j`-th child
/// `[i, j]`, and so on. Each document's content is replaced by its
/// rewritten serialized markup, and every extracted directive is stamped
/// with its owning document's address. The first scan error aborts the
/// whole pass, naming the offending document; no resolution should be
/// attempted after a failed scan.
pub fn scan_tree(items: &Vec<TreeItem>) -> (r: Result<
    (Vec<TreeItem>, Vec<Diagram>),
    TreeScanError,
>)
    ensures
        match r {
            Ok(p) => walk_forest_spec(forest_view(items@), Seq::empty()) == Ok::<
                _,
                (Seq<usize>, ScanError),
            >((forest_view(p.0@), diagrams_view(p.1@))),
            Err(e) => walk_forest_spec(forest_view(items@), Seq::empty()) == Err::<
                (Seq<TreeItemV>, Seq<DiagramV>),
                _,
            >((e.address@, e.error)),
        },
{
    let root: Vec<usize> = Vec::new();
    walk_forest_exec(items, &root)
}

/// One directive's resolved content, keyed by its placeholder and its
/// owning document's address.
#[derive(Debug, PartialEq)]
pub struct Resolution {
    /// Address of the owning document.
    pub indices: Vec<usize>,
    /// The placeholder token to replace.
    pub replace_text: String,
    /// The resolved content to splice in.
    pub content: String,
}

/// View of `Resolution`.
#[verifier::ext_equal]
pub struct ResolutionV {
    /// View of `Resolution::indices`.
    pub indices: Seq<usize>,
    /// View of `Resolution::replace_text`.
    pub replace_text: Seq<char>,
    /// View of `Resolution::content`.
    pub content: Seq<char>,
}

impl View for Resolution {
    type V = ResolutionV;

    open spec fn view(&self) -> ResolutionV {
        ResolutionV {
            indices: self.indices@,
            replace_text: self.replace_text@,
            content: self.content@,
        }
    }
}

/// The views of a sequence of resolutions.
pub open spec fn resolutions_view(rs: Seq<Resolution>) -> Seq<ResolutionV> {
    rs.map_values(|r: Resolution| r@)
}

/// The forest after applying the resolutions one by one, in order: each
/// write-back replaces, in the document the resolution addresses, the
/// first occurrence of its placeholder by its content.
pub open spec fn apply_spec(items: Seq<TreeItemV>, rs: Seq<ResolutionV>) -> Result<
    Seq<TreeItemV>,
    AddressError,
>
    decreases rs.len(),
{
    if rs.len() == 0 {
        Ok(items)
    } else {
        match apply_spec(items, rs.drop_last()) {
            Err(e) => Err(e),
            Ok(its) => write_back_spec(
                its,
                rs.last().indices,
                0,
                rs.last().replace_text,
                rs.last().content,
            ),
        }
    }
}

proof fn lemma_apply_err_persists(items: Seq<TreeItemV>, rs: Seq<ResolutionV>, i: int)
    requires
        0 <= i <= rs.len(),
        apply_spec(items, rs.subrange(0, i)) is Err,
    ensures
        apply_spec(items, rs) == apply_spec(items, rs.subrange(0, i)),
    decreases rs.len() - i,
{
    if i < rs.len() {
        assert(rs.subrange(0, i + 1).drop_last() =~= rs.subrange(0, i));
        lemma_apply_err_persists(items, rs, i + 1);
    } else {
        assert(rs.subrange(0, rs.len() as int) =~= rs);
    }
}

/// The merge pass: apply every resolution to the tree, one by one.
///
/// Write-back order is irrelevant for resolutions addressing distinct
/// documents (see `lemma_concurrent_write_back`). On the first
/// addressing error the pass stops; earlier write-backs stay applied —
/// no rollback is performed.
pub fn apply_resolutions(items: &mut Vec<TreeItem>, rs: &Vec<Resolution>) -> (r: Result<
    (),
    AddressError,
>)
    ensures
        match r {
            Ok(_) => apply_spec(forest_view(old(items)@), resolutions_view(rs@)) == Ok::<
                _,
                AddressError,
            >(forest_view(final(items)@)),
            Err(e) => apply_spec(forest_view(old(items)@), resolutions_view(rs@)) == Err::<
                Seq<TreeItemV>,
                _,
            >(e),
        },
{
    let ghost rsv = resolutions_view(rs@);
    let n = rs.len();
    proof {
        assert(rsv.subrange(0, 0) =~= Seq::<ResolutionV>::empty());
    }
    let mut k: usize = 0;
    while k < n
        invariant
            n == rs@.len(),
            rsv == resolutions_view(rs@),
            k <= n,
            apply_spec(forest_view(old(items)@), rsv.subrange(0, k as int)) == Ok::<
                _,
                AddressError,
            >(forest_view(items@)),
        decreases n - k,
    {
        proof {
            assert(rsv.subrange(0, k + 1).drop_last() =~= rsv.subrange(0, k as int));
            assert(rsv.subrange(0, k + 1).last() == rsv[k as int]);
            assert(rsv[k as int] == rs@[k as int]@);
        }
        let res = &rs[k];
        match write_back(items, &res.indices, res.replace_text.as_str(), res.content.as_str()) {
            Ok(_) => (),
            Err(e) => {
                proof {
                    lemma_apply_err_persists(forest_view(old(items)@), rsv, k + 1);
                }
                return Err(e);
            },
        }
        k += 1;
    }
    proof {
        assert(rsv.subrange(0, n as int) =~= rsv);
    }
    Ok(())
}

/// Two lookup outcomes that agree document-content-wise: both fail the
/// same way, or both succeed with the same content.
pub open spec fn same_doc_outcome(
    r1: Result<NodeV, AddressError>,
    r2: Result<NodeV, AddressError>,
) -> bool {
    match (r1, r2) {
        (Ok(a), Ok(b)) => a.content == b.content,
        (Err(e1), Err(e2)) => e1 == e2,
        _ => false,
    }
}

proof fn lemma_same_doc_outcome_refl(r: Result<NodeV, AddressError>)
    ensures
        same_doc_outcome(r, r),
{
}

proof fn lemma_same_doc_outcome_trans(
    r1: Result<NodeV, AddressError>,
    r2: Result<NodeV, AddressError>,
    r3: Result<NodeV, AddressError>,
)
    requires
        same_doc_outcome(r1, r2),
        same_doc_outcome(r2, r3),
    ensures
        same_doc_outcome(r1, r3),
{
}

/// A successful write-back found its document, and afterwards that
/// document's content is the first-occurrence replacement of what it was.
proof fn lemma_write_back_effects(
    items: Seq<TreeItemV>,
    addr: Seq<usize>,
    d: int,
    pat: Seq<char>,
    repl: Seq<char>,
    items2: Seq<TreeItemV>,
)
    requires
        write_back_spec(items, addr, d, pat, repl) == Ok::<_, AddressError>(items2),
    ensures
        document_at_spec(items, addr, d) is Ok,
        document_at_spec(items2, addr, d) is Ok,
        document_at_spec(items2, addr, d)->Ok_0.content == replace_first_seq(
            document_at_spec(items, addr, d)->Ok_0.content,
            pat,
            repl,
        ),
    decreases addr.len() - d,
{
    let idx = addr[d] as int;
    let n = items[idx]->Document_0;
    if d < addr.len() - 1 {
        let ch2 = write_back_spec(n.children, addr, d + 1, pat, repl)->Ok_0;
        lemma_write_back_effects(n.children, addr, d + 1, pat, repl, ch2);
    }
}

/// A successful write-back leaves the content of every other document
/// unchanged, and the outcome of every other lookup as it was.
proof fn lemma_write_back_frame(
    items: Seq<TreeItemV>,
    addr: Seq<usize>,
    d: int,
    pat: Seq<char>,
    repl: Seq<char>,
    items2: Seq<TreeItemV>,
    addr2: Seq<usize>,
)
    requires
        write_back_spec(items, addr, d, pat, repl) == Ok::<_, AddressError>(items2),
        addr.subrange(d, addr.len() as int) != addr2.subrange(d, addr2.len() as int),
        0 <= d,
    ensures
        same_doc_outcome(
            document_at_spec(items2, addr2, d),
            document_at_spec(items, addr2, d),
        ),
    decreases addr.len() - d,
{
    let idx = addr[d] as int;
    let n = items[idx]->Document_0;
    if d >= addr2.len() {
        // both lookups fail with a stale address
    } else {
        let idx2 = addr2[d] as int;
        if idx2 >= items.len() {
        } else if idx2 != idx {
            lemma_same_doc_outcome_refl(document_at_spec(items, addr2, d));
        } else {
            if d == addr.len() - 1 {
                if d == addr2.len() - 1 {
                    assert(addr.subrange(d, addr.len() as int) =~= addr2.subrange(
                        d,
                        addr2.len() as int,
                    ));
                } else {
                    // the lookup continues below the rewritten document,
                    // whose children are untouched
                    lemma_same_doc_outcome_refl(document_at_spec(items, addr2, d));
                }
            } else {
                let ch2 = write_back_spec(n.children, addr, d + 1, pat, repl)->Ok_0;
                if d == addr2.len() - 1 {
                    // the lookup ends at an ancestor of the rewritten
                    // document: its children changed, its content did not
                } else {
                    assert(addr.subrange(d + 1, addr.len() as int) != addr2.subrange(
                        d + 1,
                        addr2.len() as int,
                    )) by {
                        if addr.subrange(d + 1, addr.len() as int) == addr2.subrange(
                            d + 1,
                            addr2.len() as int,
                        ) {
                            let sa = addr.subrange(d, addr.len() as int);
                            let sb = addr2.subrange(d, addr2.len() as int);
                            assert(addr.subrange(d + 1, addr.len() as int).len() == addr.len() - d
                                - 1);
                            assert(addr2.subrange(d + 1, addr2.len() as int).len() == addr2.len()
                                - d - 1);
                            assert(sa.len() == sb.len());
                            assert forall|x: int| 0 <= x < sa.len() implies sa[x] == sb[x] by {
                                if x > 0 {
                                    assert(sa[x] == addr[d + x]);
                                    assert(addr.subrange(d + 1, addr.len() as int)[x - 1]
                                        == addr[d + x]);
                                    assert(addr2.subrange(d + 1, addr2.len() as int)[x - 1]
                                        == addr2[d + x]);
                                    assert(sb[x] == addr2[d + x]);
                                }
                            }
                            assert(sa =~= sb);
                        }
                    }
                    lemma_write_back_frame(n.children, addr, d + 1, pat, repl, ch2, addr2);
                }
            }
        }
    }
}

/// When resolutions address pairwise distinct documents, the merge pass
/// gives every addressed document the first-occurrence replacement of
/// its own placeholder by its own resolved content — a result stated
/// solely against the starting tree, so it does not depend on the order
/// the resolutions arrive in — and leaves the content of every other
/// document unchanged.
pub proof fn lemma_concurrent_write_back(
    items: Seq<TreeItemV>,
    rs: Seq<ResolutionV>,
    items2: Seq<TreeItemV>,
)
    requires
        apply_spec(items, rs) == Ok::<_, AddressError>(items2),
        forall|a: int, b: int|
            0 <= a < rs.len() && 0 <= b < rs.len() && a != b ==> rs[a].indices != rs[b].indices,
    ensures
        forall|k: int|
            0 <= k < rs.len() ==> document_at_spec(items, #[trigger] rs[k].indices, 0) is Ok,
        forall|k: int|
            0 <= k < rs.len() ==> document_at_spec(items2, #[trigger] rs[k].indices, 0) is Ok
                && document_at_spec(items2, rs[k].indices, 0)->Ok_0.content == replace_first_seq(
                document_at_spec(items, rs[k].indices, 0)->Ok_0.content,
                rs[k].replace_text,
                rs[k].content,
            ),
        forall|addr2: Seq<usize>|
            (forall|k: int| 0 <= k < rs.len() ==> rs[k].indices != addr2)
                ==> same_doc_outcome(
                #[trigger] document_at_spec(items2, addr2, 0),
                document_at_spec(items, addr2, 0),
            ),
    decreases rs.len(),
{
    if rs.len() == 0 {
        assert forall|addr2: Seq<usize>|
            (forall|k: int| 0 <= k < rs.len() ==> rs[k].indices != addr2) implies same_doc_outcome(
            #[trigger] document_at_spec(items2, addr2, 0),
            document_at_spec(items, addr2, 0),
        ) by {
            lemma_same_doc_outcome_refl(document_at_spec(items, addr2, 0));
        }
    } else {
        let rs0 = rs.drop_last();
        let r = rs.last();
        let mid = apply_spec(items, rs0)->Ok_0;
        assert(forall|a: int, b: int|
            0 <= a < rs0.len() && 0 <= b < rs0.len() && a != b ==> rs0[a].indices != rs0[
                b
            ].indices);
        lemma_concurrent_write_back(items, rs0, mid);
        lemma_write_back_effects(mid, r.indices, 0, r.replace_text, r.content, items2);
        assert(r.indices.subrange(0, r.indices.len() as int) =~= r.indices);

        // the last resolution's own document: untouched by the earlier
        // write-backs, then rewritten once
        assert(forall|k: int| 0 <= k < rs0.len() ==> rs0[k].indices != r.indices);
        assert(same_doc_outcome(
            document_at_spec(mid, r.indices, 0),
            document_at_spec(items, r.indices, 0),
        ));

        // the earlier resolutions' documents: rewritten before, untouched
        // by the last write-back
        assert forall|k: int| 0 <= k < rs.len() implies document_at_spec(
            items,
            #[trigger] rs[k].indices,
            0,
        ) is Ok && document_at_spec(items2, rs[k].indices, 0) is Ok && document_at_spec(
            items2,
            rs[k].indices,
            0,
        )->Ok_0.content == replace_first_seq(
            document_at_spec(items, rs[k].indices, 0)->Ok_0.content,
            rs[k].replace_text,
            rs[k].content,
        ) by {
            if k < rs0.len() {
                assert(rs[k].indices == rs0[k].indices);
                assert(rs[k].indices != r.indices);
                assert(rs[k].indices.subrange(0, rs[k].indices.len() as int) =~= rs[k].indices);
                lemma_write_back_frame(
                    mid,
                    r.indices,
                    0,
                    r.replace_text,
                    r.content,
                    items2,
                    rs[k].indices,
                );
            }
        }

        // every other document: untouched throughout
        assert forall|addr2: Seq<usize>|
            (forall|k: int| 0 <= k < rs.len() ==> rs[k].indices != addr2) implies same_doc_outcome(
            #[trigger] document_at_spec(items2, addr2, 0),
            document_at_spec(items, addr2, 0),
        ) by {
            assert(forall|k: int| 0 <= k < rs0.len() ==> rs0[k].indices != addr2);
            assert(r.indices != addr2);
            assert(addr2.subrange(0, addr2.len() as int) =~= addr2);
            lemma_write_back_frame(
                mid,
                r.indices,
                0,
                r.replace_text,
                r.content,
                items2,
                addr2,
            );
            lemma_same_doc_outcome_trans(
                document_at_spec(items2, addr2, 0),
                document_at_spec(mid, addr2, 0),
                document_at_spec(items, addr2, 0),
            );
        }
    }
}

} // verus!