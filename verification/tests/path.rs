use std::cmp::Ordering;
use std::path::{Path, PathBuf};

use xdvdfs::path::borrow::PathCow;
use xdvdfs::path::host::{join_xdvdfs_text, PathUnix};
use xdvdfs::path::pathref::{PathRef, PathRefIter};
use xdvdfs::path::pathvec::PathVec;

fn parts(it: PathRefIter) -> Vec<String> {
    it.collect_components()
        .into_iter()
        .map(|c| c.to_owned())
        .collect()
}

fn ref_parts(path: &PathRef) -> Vec<String> {
    parts(path.iter())
}

fn vec_parts(path: &PathVec) -> Vec<String> {
    parts(PathRefIter::Base(path.iter()))
}

// PathVec

#[test]
fn test_pathvec_from_iter() {
    let path = &["hello", "world"];
    let path = PathVec::from_iter(path);
    let components = vec_parts(&path);

    assert_eq!(components, &["hello", "world",]);
}

#[test]
fn test_pathvec_into_iterator() {
    let path = &["hello", "world"];
    let path = PathVec::from_iter(path);
    let components = vec_parts(&path);

    assert_eq!(components, &["hello", "world",]);
}

#[test]
fn test_pathvec_from_str() {
    let path = "/hello/world";
    let path = PathVec::from(path);
    let components = vec_parts(&path);

    assert_eq!(components, &["hello", "world",]);
}

#[test]
fn test_pathvec_is_root_root_path() {
    let path = PathVec::default();
    assert!(path.is_root());
}

#[test]
fn test_pathvec_is_root_non_root_path() {
    let path = PathVec::default();
    let path = PathVec::from_base(path, "nonroot");
    assert!(!path.is_root());
}

#[test]
fn test_pathvec_base_root() {
    assert_eq!(PathVec::default().base(), None);
}

#[test]
fn test_pathvec_base_non_root() {
    let path = PathVec::default();
    let path = PathVec::from_base(path, "nonroot");

    assert_eq!(path.base(), Some(PathVec::default()));
}

#[test]
fn test_pathvec_suffix() {
    let root = PathVec::default();
    let prefix = PathVec::from_base(root, "foo");
    let path = PathVec::from_base(prefix.clone(), "bar");
    let path = PathVec::from_base(path, "baz");

    let suffix = path.suffix(&prefix);
    assert_eq!(suffix, PathVec::from_iter(&["bar", "baz",]));
}

#[test]
fn test_pathvec_to_string() {
    let root = PathVec::default();
    let path = PathVec::from_base(root, "hello");
    let path = PathVec::from_base(path, "world");

    assert_eq!(path.as_string(), "/hello/world");
}

#[test]
fn test_pathvec_to_string_root() {
    let root = PathVec::default();
    assert_eq!(root.as_string(), "/");
}

#[test]
fn test_pathvec_from_iter_skips_empty() {
    let path = PathVec::from_iter(&["", "a", "", "b", ""]);
    assert_eq!(path.as_str(), "a/b");
}

#[test]
fn test_pathvec_from_str_normalizes_slashes() {
    let path = PathVec::from("//a///b/");
    assert_eq!(path.as_str(), "a/b");
}

#[test]
fn test_pathvec_base_nested() {
    let path = PathVec::from("/a/b/c");
    assert_eq!(path.base().unwrap().as_str(), "a/b");
}

#[test]
fn test_pathvec_suffix_longer_prefix() {
    let path = PathVec::from("/a");
    let prefix = PathVec::from("/a/b");
    assert!(path.suffix(&prefix).is_root());
}

#[test]
fn test_pathvec_is_root_single_slash() {
    let path = PathVec::from_base(PathVec::default(), "/");
    assert!(path.is_root());
    let path = PathVec::from_base(path, "x");
    assert_eq!(path.as_str(), "/x");
}

// PathCow

#[test]
fn test_pathcow_eq_pathcow() {
    let p1: PathRef = "/abc/def".into();
    let p1: PathCow = p1.into();
    let p2: PathRef = "/abc/def".into();
    let p2: PathCow = p2.into();

    assert_eq!(p1, p2);
}

#[test]
fn test_pathcow_eq_pathref() {
    let p1: PathRef = "/abc/def".into();
    let p1: PathCow = p1.into();
    let p2: PathRef = "/abc/def".into();

    assert_eq!(p1, p2);
}

#[test]
fn test_pathcow_eq_pathvec() {
    let p1: PathRef = "/abc/def".into();
    let p1: PathCow = p1.into();
    let p2: PathRef = "/abc/def".into();
    let p2: PathVec = p2.into();

    assert_eq!(p1, p2);
}

#[test]
fn test_pathcow_cmp() {
    let p1: PathRef = "/abc/def".into();
    let p1: PathVec = p1.into();
    let p1: PathCow = p1.into();
    let p2: PathRef = "/abc/def".into();
    let p2: PathCow = p2.into();

    assert_eq!(p1.partial_cmp(&p2), Some(Ordering::Equal));
    assert_eq!(p1.partial_cmp(&p2), Some(Ordering::Equal));
}

#[test]
fn test_pathcow_display_pathref() {
    let p1: PathRef = "/abc/def".into();
    let p1: PathCow = p1.into();

    assert_eq!(p1.to_string().as_str(), "/abc/def");
}

#[test]
fn test_pathcow_display_pathvec() {
    let p1: PathRef = "/abc/def".into();
    let p1: PathVec = p1.into();
    let p1: PathCow = p1.into();

    assert_eq!(p1.to_string().as_str(), "/abc/def");
}

#[test]
fn test_pathcow_into_pathref_ref() {
    let p1: PathRef = "/abc/def".into();
    let p1_cow: PathCow = p1.into();

    assert_eq!(p1, p1_cow.path_ref());
}

#[test]
fn test_pathcow_into_pathref_vec() {
    let p1: PathRef = "/abc/def".into();
    let p1: PathVec = p1.into();
    let p1_cow: PathCow = p1.clone().into();

    assert_eq!(p1.as_path_ref(), p1_cow.path_ref());
}

#[test]
fn test_pathcow_into_pathvec_ref() {
    let p1: PathRef = "/abc/def".into();
    let p1_cow: PathCow = p1.into();

    assert_eq!(p1, p1_cow.to_owned().as_path_ref());
}

#[test]
fn test_pathcow_into_pathvec_vec() {
    let p1: PathRef = "/abc/def".into();
    let p1: PathVec = p1.into();
    let p1_cow: PathCow = p1.clone().into();

    assert_eq!(p1, p1_cow.to_owned());
}

// PathRef: conversions

#[test]
fn from_test_str_to_pathref() {
    let path = "/hello/world/";
    let path: PathRef = path.into();
    assert_eq!(ref_parts(&path), &["hello", "world",]);
}

#[test]
fn from_test_slice_to_pathref() {
    let path = &["hello", "world"].as_slice();
    let path: PathRef = (*path).into();
    assert_eq!(ref_parts(&path), &["hello", "world",]);
}

#[test]
fn from_test_pathvec_to_pathref() {
    let path = PathVec::from_base(PathVec::default(), "hello");
    let path = PathVec::from_base(path.clone(), "world");
    let path: PathRef = path.as_path_ref();
    assert_eq!(ref_parts(&path), &["hello", "world",]);
}

#[test]
fn from_test_pathref_to_pathvec_string() {
    let path = "/hello/world";
    let path: PathRef = path.into();
    let path: PathVec = path.into();
    assert_eq!(vec_parts(&path), &["hello", "world",]);
}

#[test]
fn from_test_pathref_to_pathvec_slice() {
    let path = &["hello", "world"].as_slice();
    let path: PathRef = (*path).into();
    let path: PathVec = path.into();
    assert_eq!(vec_parts(&path), &["hello", "world",]);
}

#[test]
fn from_test_pathref_to_pathvec_pathvec() {
    let path = PathVec::from("/hello/world");
    let path: PathRef = path.as_path_ref();
    let path: PathVec = path.into();
    assert_eq!(vec_parts(&path), &["hello", "world",]);
}

#[test]
fn pathref_test_str_to_pathref() {
    let path = "/hello/world/";
    let path: PathRef = path.into();
    assert_eq!(ref_parts(&path), &["hello", "world",]);
}

#[test]
fn pathref_test_slice_to_pathref() {
    let path = &["hello", "world"].as_slice();
    let path: PathRef = (*path).into();
    assert_eq!(ref_parts(&path), &["hello", "world",]);
}

#[test]
fn pathref_test_pathvec_to_pathref() {
    let path = PathVec::from_base(PathVec::default(), "hello");
    let path = PathVec::from_base(path, "world");
    let path: PathRef = (&path).into();
    assert_eq!(ref_parts(&path), &["hello", "world",]);
}

#[test]
fn pathref_test_pathref_to_pathvec_string() {
    let path = "/hello/world";
    let path: PathRef = path.into();
    let path: PathVec = path.into();
    assert_eq!(vec_parts(&path), &["hello", "world",]);
}

#[test]
fn pathref_test_pathref_to_pathvec_slice() {
    let path = &["hello", "world"].as_slice();
    let path: PathRef = (*path).into();
    let path: PathVec = path.into();
    assert_eq!(vec_parts(&path), &["hello", "world",]);
}

#[test]
fn pathref_test_pathref_to_pathvec_pathvec() {
    let path = PathVec::from("/hello/world");
    let path: PathRef = (&path).into();
    let path: PathVec = path.into();
    assert_eq!(vec_parts(&path), &["hello", "world",]);
}

#[test]
fn pathref_test_pathref_to_pathvec_join() {
    let path = "/hello/world";
    let path: PathRef = path.into();
    let path = path.join("abc");
    let path: PathVec = path.into();
    assert_eq!(vec_parts(&path), &["hello", "world", "abc"]);
}

#[test]
fn mod_test_pathref_to_pathvec_join() {
    let path = "/hello/world";
    let path: PathRef = path.into();
    let path = path.join("abc");
    let path: PathVec = path.into();
    assert_eq!(vec_parts(&path), &["hello", "world", "abc"]);
}

// PathRef: iteration

#[test]
fn pathref_test_pathref_iter_join_single() {
    let path = "/hello";
    let path: PathRef = path.into();
    let path = path.join("world");
    assert_eq!(ref_parts(&path), &["hello", "world"]);
}

#[test]
fn pathref_test_pathref_iter_join_depth() {
    let path = "/hello";
    let path: PathRef = path.into();
    let path = path.join("world");
    let path = path.join("abc");
    assert_eq!(ref_parts(&path), &["hello", "world", "abc"]);
}

#[test]
fn joined_test_pathref_iter_join_single() {
    let path = "/hello";
    let path: PathRef = path.into();
    let path = path.join("world");
    assert_eq!(ref_parts(&path), &["hello", "world"]);
}

#[test]
fn joined_test_pathref_iter_join_depth() {
    let path = "/hello";
    let path: PathRef = path.into();
    let path = path.join("world");
    let path = path.join("abc");
    assert_eq!(ref_parts(&path), &["hello", "world", "abc"]);
}

#[test]
fn test_pathref_into_iterator() {
    let path: PathRef = "/abc/def".into();
    let components: Vec<_> = path.to_components();

    assert_eq!(components, &["abc", "def"]);
}

#[test]
fn test_pathref_iter_deep_join_keeps_empty_tail() {
    let base: PathRef = "a".into();
    let p1 = base.join("");
    let p2 = p1.join("b");
    assert_eq!(ref_parts(&p2), &["a", "", "b"]);
}

#[test]
fn test_pathref_slice_keeps_empty_components() {
    let items: &[&str] = &["", "a"];
    let path: PathRef = items.into();
    assert_eq!(ref_parts(&path), &["", "a"]);
    assert!(!path.is_root());
}

// PathRef: root

#[test]
fn test_pathref_is_root_str() {
    let root: PathRef = "/".into();
    let non_root: PathRef = "/abc".into();

    assert!(root.is_root());
    assert!(!non_root.is_root());
}

#[test]
fn test_pathref_is_root_slice() {
    let root: PathRef = [].as_slice().into();
    let non_root: PathRef = ["abc"].as_slice().into();

    assert!(root.is_root());
    assert!(!non_root.is_root());
}

#[test]
fn test_pathref_is_root_pathvec() {
    let root = PathVec::default();
    let non_root = PathVec::from_base(root.clone(), "abc");
    let non_root: PathRef = (&non_root).into();
    let root: PathRef = root.as_path_ref();

    assert!(root.is_root());
    assert!(!non_root.is_root());
}

#[test]
fn test_pathref_is_root_joined() {
    let root: PathRef = "/".into();
    let non_root: PathRef = root.join("abc");

    assert!(!non_root.is_root());
}

// PathRef: order

#[test]
fn test_pathref_cmp_non_joined_equal() {
    let path1: PathRef = "/hello/world".into();
    let path2: PathRef = "/hello/world".into();

    assert_eq!(path1.partial_cmp(&path2), Some(Ordering::Equal));
}

#[test]
fn test_pathref_cmp_non_joined_lt() {
    let path1: PathRef = "/hello/world".into();
    let path2: PathRef = "/hello/worlds".into();

    assert!(path1 < path2);
}

#[test]
fn test_pathref_cmp_non_joined_lt_component() {
    let path1: PathRef = "/hello".into();
    let path2: PathRef = "/hello/world".into();

    assert!(path1 < path2);
}

#[test]
fn test_pathref_cmp_non_joined_gt_component() {
    let path1: PathRef = "/hello/world".into();
    let path2: PathRef = "/hello".into();

    assert!(path1 > path2);
}

#[test]
fn test_pathref_cmp_joined_eq() {
    let hello = PathRef::from("hello");
    let path1 = PathRef::Join(&hello, "world");
    let path2 = PathRef::Join(&hello, "world");

    assert_eq!(path1.partial_cmp(&path2), Some(Ordering::Equal));
}

#[test]
fn test_pathref_cmp_joined_lt_tail() {
    let hello = PathRef::from("hello");
    let path1 = PathRef::Join(&hello, "world");
    let path2 = PathRef::Join(&hello, "worlds");

    assert!(path1 < path2);
}

#[test]
fn test_pathref_cmp_joined_gt_base() {
    let hello = PathRef::from("hello");
    let path1 = PathRef::Join(&hello, "world");
    let greetings = PathRef::from("greetings");
    let path2 = PathRef::Join(&greetings, "world");

    assert!(path1 > path2);
}

#[test]
fn test_pathref_cmp_joins_of_different_depths_by_components() {
    let a = PathRef::from("/a");
    let ab = PathRef::from("/a/b");
    let short = PathRef::Join(&a, "z");
    let long = PathRef::Join(&ab, "c");
    let plain = PathRef::from("/a/b/c/d");

    assert!(short > long);
    assert!(long < plain);
    assert!(short > plain);
    assert_eq!(short.partial_cmp(&PathRef::from("/a/z")), Some(Ordering::Equal));
}

#[test]
fn test_pathref_cmp_non_ascii_by_code_point() {
    let path1: PathRef = "/z".into();
    let path2: PathRef = "/\u{e9}".into();

    assert!(path1 < path2);
    assert_eq!("z".cmp("\u{e9}"), Ordering::Less);
}

// PathRef: display

#[test]
fn test_pathref_display_str_root() {
    let empty_root: PathRef = "".into();
    let root: PathRef = "/".into();

    assert_eq!(empty_root.to_string(), "/");
    assert_eq!(root.to_string(), "/");
}

#[test]
fn test_pathref_display_str() {
    let path: PathRef = "/abc/def".into();
    assert_eq!(path.to_string(), "/abc/def");
}

#[test]
fn test_pathref_display_slice_root() {
    let path: PathRef = [].as_slice().into();
    assert_eq!(path.to_string(), "/");
}

#[test]
fn test_pathref_display_slice() {
    let path: PathRef = ["abc", "def"].as_slice().into();
    assert_eq!(path.to_string(), "/abc/def");
}

#[test]
fn test_pathref_display_pathvec() {
    let path = PathVec::default();
    let path = PathVec::from_base(path, "abc");
    let path = PathVec::from_base(path, "def");
    let path: PathRef = path.as_path_ref();
    assert_eq!(path.to_string(), "/abc/def");
}

#[test]
fn test_pathref_display_join() {
    let path: PathRef = "/abc".into();
    let path = path.join("def");
    assert_eq!(path.to_string(), "/abc/def");
}

#[test]
fn test_pathref_display_relative_str() {
    let path: PathRef = "abc/def".into();
    assert_eq!(path.to_string(), "/abc/def");
}

// PathRef: equality

#[test]
fn eq_test_pathref_eq_equal() {
    let p1: PathRef = "/hello/world".into();
    let p2: PathRef = "/hello/world".into();

    assert_eq!(p1, p2);
}

#[test]
fn eq_test_pathref_eq_unequal_components() {
    let p1: PathRef = "/hello/world".into();
    let p2: PathRef = "/hello/universe".into();

    assert_ne!(p1, p2);
}

#[test]
fn eq_test_pathref_eq_unequal_lengths() {
    let p1: PathRef = "/hello/world".into();
    let p2: PathRef = "/hello".into();

    assert_ne!(p1, p2);
}

#[test]
fn eq_test_pathref_eq_both_joined() {
    let hello: PathRef = "/hello/".into();
    let p1 = hello.join("world");
    let p2 = hello.join("world");

    assert_eq!(p1, p2);
}

#[test]
fn eq_test_pathref_eq_one_joined() {
    let hello: PathRef = "/hello/".into();
    let p1 = hello.join("world");
    let p2: PathRef = "/hello/world".into();

    assert_eq!(p1, p2);
    assert_eq!(p2, p1);
}

#[test]
fn eq_test_pathref_eq_both_joined_depth() {
    let hello: PathRef = "/hello/".into();
    let p1 = hello.join("world");
    let p1 = p1.join("abc");
    let p2 = hello.join("world");
    let p2 = p2.join("abc");

    assert_eq!(p1, p2);
}

#[test]
fn eq_test_pathref_str_eq() {
    let hello: PathRef = "/hello/world".into();

    assert_eq!(hello, "/hello/world");
}

#[test]
fn eq_test_pathref_slice_eq() {
    let hello: PathRef = "/hello/world".into();
    assert_eq!(hello, ["hello", "world"].as_slice());
}

#[test]
fn test_pathref_pathvec_eq() {
    let hello: PathRef = "/hello/world".into();
    let hello_pv: PathVec = "/hello/world".into();
    assert_eq!(hello, hello_pv);
}

#[test]
fn pathref_test_pathref_eq_equal() {
    let p1: PathRef = "/hello/world".into();
    let p2: PathRef = "/hello/world".into();

    assert_eq!(p1, p2);
}

#[test]
fn pathref_test_pathref_eq_unequal_components() {
    let p1: PathRef = "/hello/world".into();
    let p2: PathRef = "/hello/universe".into();

    assert_ne!(p1, p2);
}

#[test]
fn pathref_test_pathref_eq_unequal_lengths() {
    let p1: PathRef = "/hello/world".into();
    let p2: PathRef = "/hello".into();

    assert_ne!(p1, p2);
}

#[test]
fn pathref_test_pathref_eq_both_joined() {
    let hello: PathRef = "/hello/".into();
    let p1 = hello.join("world");
    let p2 = hello.join("world");

    assert_eq!(p1, p2);
}

#[test]
fn pathref_test_pathref_eq_one_joined() {
    let hello: PathRef = "/hello/".into();
    let p1 = hello.join("world");
    let p2: PathRef = "/hello/world".into();

    assert_eq!(p1, p2);
    assert_eq!(p2, p1);
}

#[test]
fn pathref_test_pathref_eq_both_joined_depth() {
    let hello: PathRef = "/hello/".into();
    let p1 = hello.join("world");
    let p1 = p1.join("abc");
    let p2 = hello.join("world");
    let p2 = p2.join("abc");

    assert_eq!(p1, p2);
}

#[test]
fn pathref_test_pathref_str_eq() {
    let hello: PathRef = "/hello/world".into();

    assert_eq!(hello, "/hello/world");
}

#[test]
fn pathref_test_pathref_slice_eq() {
    let hello: PathRef = "/hello/world".into();
    assert_eq!(hello, ["hello", "world"].as_slice());
}

#[test]
fn test_pathref_to_std_pathbuf() {
    let base = PathBuf::from("/base/path");
    let path: PathRef = "/joined/path".into();
    let path = path.as_path_buf(&base);

    assert_eq!(path, Path::new("/base/path/joined/path"));
}

#[test]
fn test_pathvec_to_path_buf() {
    let path = PathVec::default();
    let path = PathVec::from_base(path, "nonroot");
    let base = PathBuf::from("test");

    let path = path.as_path_buf(&base);
    assert_eq!(path, base.join("nonroot"));
}

#[test]
fn path_unix_join_xdvdfs() {
    assert_eq!(Path::new("/").join_xdvdfs("a"), PathBuf::from("/a"));
    assert_eq!(Path::new("/x/y").join_xdvdfs("a"), PathBuf::from("/x/y/a"));
    assert_eq!(PathBuf::from("rel").join_xdvdfs("b/c"), PathBuf::from("rel/b/c"));
    assert_eq!(join_xdvdfs_text("", "a"), "/a");
    assert_eq!(join_xdvdfs_text("/", "a"), "/a");
    assert_eq!(join_xdvdfs_text("dir", "a"), "dir/a");
}
