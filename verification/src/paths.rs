//! The path resolver.
//!
//! A pure mapping from a directive's declared root policy and path to the
//! concrete file-system path the host should read, stated over `/`-separated
//! path strings. No file system is touched here.

use vstd::prelude::*;
use vstd::string::*;

use crate::directive::PathRoot;
use crate::errors::PathError;

verus! {

/// A path is absolute when it begins with the separator.
pub open spec fn is_absolute_seq(p: Seq<char>) -> bool {
    p.len() > 0 && p[0] == '/'
}

/// `p` with every leading separator removed.
pub open spec fn strip_slashes_seq(p: Seq<char>) -> Seq<char>
    decreases p.len(),
{
    if p.len() > 0 && p[0] == '/' {
        strip_slashes_seq(p.drop_first())
    } else {
        p
    }
}

/// `base` extended by the component `comp`: leading separators of `comp`
/// are stripped, and nothing is appended when nothing remains.
pub open spec fn append_component_seq(base: Seq<char>, comp: Seq<char>) -> Seq<char> {
    if strip_slashes_seq(comp).len() == 0 {
        base
    } else {
        base + seq!['/'] + strip_slashes_seq(comp)
    }
}

/// The owning-document directory as an optional view.
pub open spec fn owner_view(o: Option<&str>) -> Option<Seq<char>> {
    match o {
        Some(s) => Some(s@),
        None => None,
    }
}

/// The concrete path for a declared path under a root kind.
///
/// `SystemRoot` demands an absolute path and uses it unchanged; `BookRoot`
/// and `SourceRoot` reinterpret an absolute path as relative by stripping
/// its leading separators; `ThisDocument` demands a relative path and a
/// known owning-document directory.
pub open spec fn resolve_spec(
    kind: PathRoot,
    declared: Seq<char>,
    book_root: Seq<char>,
    source_root: Seq<char>,
    owner: Option<Seq<char>>,
) -> Result<Seq<char>, PathError> {
    match kind {
        PathRoot::System => {
            if is_absolute_seq(declared) {
                Ok(declared)
            } else {
                Err(PathError::InvalidPathForRoot)
            }
        },
        PathRoot::Book => Ok(append_component_seq(book_root, declared)),
        PathRoot::Source => Ok(
            append_component_seq(append_component_seq(book_root, source_root), declared),
        ),
        PathRoot::This => {
            if is_absolute_seq(declared) {
                Err(PathError::AbsolutePathRequiresExplicitRoot)
            } else {
                match owner {
                    None => Err(PathError::NoSourcePathForDocument),
                    Some(dir) => Ok(
                        append_component_seq(
                            append_component_seq(
                                append_component_seq(book_root, source_root),
                                dir,
                            ),
                            declared,
                        ),
                    ),
                }
            }
        },
    }
}

/// Position of the last separator in `p`, if any.
pub open spec fn last_slash_seq(p: Seq<char>) -> Option<int>
    decreases p.len(),
{
    if p.len() == 0 {
        None
    } else if p.last() == '/' {
        Some(p.len() - 1)
    } else {
        last_slash_seq(p.drop_last())
    }
}

/// The directory part of `p`: everything before the last separator, or the
/// empty (relative) directory when `p` has no separator.
pub open spec fn parent_dir_seq(p: Seq<char>) -> Seq<char> {
    match last_slash_seq(p) {
        None => Seq::empty(),
        Some(i) => p.subrange(0, i),
    }
}

/// Is `p` absolute?
pub fn is_absolute(p: &str) -> (r: bool)
    ensures
        r == is_absolute_seq(p@),
{
    let n = p.unicode_len();
    n > 0 && p.get_char(0) == '/'
}

/// `p` with every leading separator removed.
pub fn strip_slashes<'a>(p: &'a str) -> (r: &'a str)
    ensures
        r@ == strip_slashes_seq(p@),
{
    let n = p.unicode_len();
    assert(p@.subrange(0, n as int) =~= p@);
    let mut k: usize = 0;
    while k < n && p.get_char(k) == '/'
        invariant
            n == p@.len(),
            k <= n,
            strip_slashes_seq(p@) == strip_slashes_seq(p@.subrange(k as int, n as int)),
        decreases n - k,
    {
        assert(p@.subrange(k as int, n as int).drop_first() =~= p@.subrange(k + 1, n as int));
        k += 1;
    }
    let r = p.substring_char(k, n);
    assert(strip_slashes_seq(p@.subrange(k as int, n as int)) == p@.subrange(k as int, n as int));
    r
}

/// `base` extended by the component `comp`.
pub fn append_component(base: String, comp: &str) -> (r: String)
    ensures
        r@ == append_component_seq(base@, comp@),
{
    let stripped = strip_slashes(comp);
    if stripped.unicode_len() == 0 {
        assert(strip_slashes_seq(comp@) =~= Seq::<char>::empty());
        base
    } else {
        let r = base.concat("/").concat(stripped);
        proof {
            reveal_strlit("/");
            assert(r@ =~= append_component_seq(base@, comp@));
        }
        r
    }
}

/// Resolve a declared path against its root kind.
///
/// Returns the concrete path the host should read, or exactly the error the
/// root policy prescribes: `InvalidPathForRoot` for a relative path under
/// the system root, `AbsolutePathRequiresExplicitRoot` for an absolute path
/// under the owning-document root, and `NoSourcePathForDocument` when the
/// owning-document root is used but no owning directory is known.
pub fn resolve(
    kind: PathRoot,
    declared: &str,
    book_root: &str,
    source_root: &str,
    owning_dir: Option<&str>,
) -> (r: Result<String, PathError>)
    ensures
        match r {
            Ok(p) => resolve_spec(kind, declared@, book_root@, source_root@, owner_view(owning_dir))
                == Ok::<Seq<char>, PathError>(p@),
            Err(e) => resolve_spec(
                kind,
                declared@,
                book_root@,
                source_root@,
                owner_view(owning_dir),
            ) == Err::<Seq<char>, PathError>(e),
        },
{
    match kind {
        PathRoot::System => {
            if is_absolute(declared) {
                Ok(declared.to_owned())
            } else {
                Err(PathError::InvalidPathForRoot)
            }
        },
        PathRoot::Book => Ok(append_component(book_root.to_owned(), declared)),
        PathRoot::Source => Ok(
            append_component(append_component(book_root.to_owned(), source_root), declared),
        ),
        PathRoot::This => {
            if is_absolute(declared) {
                Err(PathError::AbsolutePathRequiresExplicitRoot)
            } else {
                match owning_dir {
                    None => Err(PathError::NoSourcePathForDocument),
                    Some(dir) => Ok(
                        append_component(
                            append_component(
                                append_component(book_root.to_owned(), source_root),
                                dir,
                            ),
                            declared,
                        ),
                    ),
                }
            }
        },
    }
}

/// The directory part of a document's source path.
pub fn parent_dir(p: &str) -> (r: String)
    ensures
        r@ == parent_dir_seq(p@),
{
    let n = p.unicode_len();
    assert(p@.subrange(0, n as int) =~= p@);
    let mut k: usize = n;
    while k > 0 && p.get_char(k - 1) != '/'
        invariant
            n == p@.len(),
            k <= n,
            last_slash_seq(p@) == last_slash_seq(p@.subrange(0, k as int)),
        decreases k,
    {
        assert(p@.subrange(0, k as int).drop_last() =~= p@.subrange(0, k - 1));
        k -= 1;
    }
    if k == 0 {
        assert(last_slash_seq(p@.subrange(0, 0)) is None);
        assert(p@.subrange(0, 0) =~= Seq::<char>::empty());
        String::new()
    } else {
        assert(p@.subrange(0, k as int).last() == p@[k - 1]);
        let r = p.substring_char(0, k - 1).to_owned();
        assert(p@.subrange(0, k as int).len() - 1 == k - 1);
        assert(r@ =~= parent_dir_seq(p@));
        r
    }
}

} // verus!
