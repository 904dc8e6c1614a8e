//! Paths of the host system that source paths are placed under.
use vstd::prelude::*;

use std::path::{Path, PathBuf};

verus! {

#[verifier::external_type_specification]
#[verifier::external_body]
pub struct ExPath(Path);

#[verifier::external_type_specification]
#[verifier::external_body]
pub struct ExPathBuf(PathBuf);

/// `std::path::Path::join`: `tail` appended to `prefix` with the host's
/// separator. Nothing is claimed of the result.
#[verifier::external_body]
pub(crate) fn host_join(prefix: &Path, tail: &PathBuf) -> (r: PathBuf) {
    prefix.join(tail)
}

/// `std::path::PathBuf::new`: an empty host path. Nothing is claimed of
/// the result.
#[verifier::external_body]
pub(crate) fn host_path_buf() -> (r: PathBuf) {
    PathBuf::new()
}

/// `std::path::PathBuf::push`: appends `component` to `buf`. Nothing is
/// claimed of the result.
#[verifier::external_body]
pub(crate) fn host_push(buf: &mut PathBuf, component: &str) {
    buf.push(component)
}

/// `std::path::Path::to_string_lossy`: the text of `path`, anything that is
/// not UTF-8 replaced. Nothing is claimed of the result.
#[verifier::external_body]
fn host_path_text(path: &Path) -> (r: String) {
    path.to_string_lossy().into_owned()
}

/// `std::path::PathBuf::from`: the host path whose text is `text`. Nothing
/// is claimed of the result.
#[verifier::external_body]
fn host_path_from_text(text: String) -> (r: PathBuf) {
    PathBuf::from(text)
}

/// `std::path::PathBuf::as_path`: the path that `buf` holds. Nothing is
/// claimed of the result.
#[verifier::external_body]
fn host_as_path(buf: &PathBuf) -> (r: &Path) {
    buf.as_path()
}

/// The text of `path` and `other` joined by a slash; the root `/` is not
/// doubled.
pub open spec fn xdvdfs_join_text(path: Seq<char>, other: Seq<char>) -> Seq<char> {
    if path == seq!['/'] {
        seq!['/'] + other
    } else {
        path + seq!['/'] + other
    }
}

/// The text of `path` and `other` joined by a slash; the root `/` is not
/// doubled.
pub fn join_xdvdfs_text(path: &str, other: &str) -> (r: String)
    ensures
        r@ == xdvdfs_join_text(path@, other@),
{
    let n = path.unicode_len();
    let root = n == 1 && path.get_char(0) == '/';
    proof {
        reveal_strlit("/");
        if n == 1 && path@[0] == '/' {
            assert(path@ =~= seq!['/']);
        }
    }
    let mut out = String::new();
    if !root {
        out.append(path);
    }
    out.append("/");
    out.append(other);
    proof {
        if root {
            assert(out@ =~= seq!['/'] + other@);
        } else {
            assert(out@ =~= path@ + seq!['/'] + other@);
        }
    }
    out
}

/// Host paths that image paths can be joined onto with a forward slash,
/// whatever the host's separator.
pub trait PathUnix {
    /// `other` joined onto this path with a slash; a path that is the root
    /// `/` is not doubled.
    fn join_xdvdfs(&self, other: &str) -> PathBuf;
}

impl PathUnix for Path {
    fn join_xdvdfs(&self, other: &str) -> PathBuf {
        let text = host_path_text(self);
        host_path_from_text(join_xdvdfs_text(text.as_str(), other))
    }
}

impl PathUnix for PathBuf {
    fn join_xdvdfs(&self, other: &str) -> PathBuf {
        host_as_path(self).join_xdvdfs(other)
    }
}

} // verus!
