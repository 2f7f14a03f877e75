use kroki_preprocessor::directive::PathRoot;
use kroki_preprocessor::errors::PathError;
use kroki_preprocessor::paths::{parent_dir, resolve};

#[test]
fn system_root_keeps_absolute_path() {
    let r = resolve(PathRoot::System, "/x.puml", "/b", "src", Some("/chapters"));
    assert_eq!(r, Ok("/x.puml".to_string()));
}

#[test]
fn system_root_rejects_relative_path() {
    let r = resolve(PathRoot::System, "x.puml", "/b", "src", Some("/chapters"));
    assert_eq!(r, Err(PathError::InvalidPathForRoot));
}

#[test]
fn book_root_strips_leading_separator() {
    let r = resolve(PathRoot::Book, "/a/b.puml", "/b", "src", Some("/chapters"));
    assert_eq!(r, Ok("/b/a/b.puml".to_string()));
}

#[test]
fn source_root_joins_below_source_dir() {
    let r = resolve(PathRoot::Source, "c.puml", "/b", "src", Some("/chapters"));
    assert_eq!(r, Ok("/b/src/c.puml".to_string()));
}

#[test]
fn this_document_joins_below_owning_dir() {
    let r = resolve(PathRoot::This, "d.puml", "/b", "src", Some("/chapters"));
    assert_eq!(r, Ok("/b/src/chapters/d.puml".to_string()));
}

#[test]
fn this_document_rejects_absolute_path() {
    let r = resolve(PathRoot::This, "/d.puml", "/b", "src", Some("/chapters"));
    assert_eq!(r, Err(PathError::AbsolutePathRequiresExplicitRoot));
}

#[test]
fn this_document_needs_a_source_path() {
    let r = resolve(PathRoot::This, "d.puml", "/b", "src", None);
    assert_eq!(r, Err(PathError::NoSourcePathForDocument));
}

#[test]
fn book_root_keeps_relative_path() {
    let r = resolve(PathRoot::Book, "a/b.puml", "/b", "src", None);
    assert_eq!(r, Ok("/b/a/b.puml".to_string()));
}

#[test]
fn parent_dir_takes_everything_before_last_separator() {
    assert_eq!(parent_dir("chapters/doc.md"), "chapters".to_string());
    assert_eq!(parent_dir("a/b/c.md"), "a/b".to_string());
}

#[test]
fn parent_dir_of_bare_file_name_is_empty() {
    assert_eq!(parent_dir("doc.md"), String::new());
}
