use xdvdfs::fs::memory::MemoryFilesystem;
use xdvdfs::fs::remap::{
    InvalidRewriteSubstitutionKind, RemapOverlayConfig, RemapOverlayError,
    RemapOverlayFilesystem, RemapOverlayFilesystemBuildingError,
};
use xdvdfs::fs::{FileEntry, FileType, FilesystemCopier, FilesystemHierarchy};
use xdvdfs::path::pathvec::PathVec;

fn host() -> MemoryFilesystem {
    let mut memfs = MemoryFilesystem::default();
    memfs.create("/bin/default.xbe".into(), &[1, 2, 3]);
    memfs.create("/assets/a.png".into(), &[4]);
    memfs.create("/sound/priority.wav".into(), &[5]);
    memfs.create("/sound/x.a".into(), &[6]);
    memfs.create("/sound/excluded.a".into(), &[7]);
    memfs.create("/sound/excluded.c".into(), &[8, 9]);
    memfs
}

fn rules(pairs: &[(&str, &str)]) -> RemapOverlayConfig {
    RemapOverlayConfig {
        map_rules: pairs
            .iter()
            .map(|(a, b)| (a.to_string(), b.to_string()))
            .collect(),
    }
}

fn readme_rules() -> RemapOverlayConfig {
    rules(&[
        ("bin", "/"),
        ("assets/**", "/assets/{1}"),
        ("sound/priority.*", "/{0}"),
        ("sound/*.{a,b,c}", "/{2}/{1}"),
        ("!sound/excluded.*", ""),
        ("sound/excluded.c", "/c/excluded"),
    ])
}

fn names(listing: &[FileEntry]) -> Vec<String> {
    listing.iter().map(|e| e.name.clone()).collect()
}

#[test]
fn remap_places_files_by_rules_in_order() {
    let mut fs = RemapOverlayFilesystem::new(host(), readme_rules()).expect("rules should build");

    let root = fs.read_dir("/".into()).expect("root should be listed");
    assert_eq!(names(&root), ["a", "c", "sound", "assets", "default.xbe"]);

    let a = fs.read_dir("/a".into()).expect("/a should be listed");
    assert_eq!(names(&a), ["x"]);
    assert_eq!(a[0].file_type, FileType::File);

    let c = fs.read_dir("/c".into()).expect("/c should be listed");
    assert_eq!(names(&c), ["excluded"]);
    assert_eq!(c[0].len, 2);

    let sound = fs.read_dir("/sound".into()).expect("/sound should be listed");
    assert_eq!(names(&sound), ["priority.wav"]);

    let assets = fs.read_dir("/assets".into()).expect("/assets should be listed");
    assert_eq!(names(&assets), ["a.png"]);
}

#[test]
fn remap_copies_from_the_host_path() {
    let mut fs = RemapOverlayFilesystem::new(host(), readme_rules()).expect("rules should build");
    let mut buf = [0u8; 4];
    assert!(matches!(fs.copy_file_in("/default.xbe".into(), &mut buf[..], 0, 0, 4), Ok(4)));
    assert_eq!(buf, [1, 2, 3, 0]);

    let missing = fs.copy_file_in("/nothing".into(), &mut buf[..], 0, 0, 4);
    assert!(matches!(missing, Err(RemapOverlayError::NoSuchFile(p)) if p == "/nothing"));

    let dir = fs.copy_file_in("/a".into(), &mut buf[..], 0, 0, 4);
    assert!(matches!(dir, Err(RemapOverlayError::NoSuchFile(_))));
}

#[test]
fn remap_dump_lists_host_and_image_paths() {
    let fs = RemapOverlayFilesystem::new(host(), readme_rules()).expect("rules should build");
    let mut dump = fs.dump();
    dump.sort();
    let expected: Vec<(PathVec, PathVec)> = vec![
        ("assets/a.png".into(), "assets/a.png".into()),
        ("bin/default.xbe".into(), "default.xbe".into()),
        ("sound/excluded.c".into(), "c/excluded".into()),
        ("sound/priority.wav".into(), "sound/priority.wav".into()),
        ("sound/x.a".into(), "a/x".into()),
    ];
    assert_eq!(dump, expected);
}

#[test]
fn remap_reports_missing_directory() {
    let mut fs = RemapOverlayFilesystem::new(host(), readme_rules()).expect("rules should build");
    let missing = fs.read_dir("/nowhere".into());
    assert!(matches!(missing, Err(RemapOverlayError::NoSuchFile(p)) if p == "/nowhere"));
}

#[test]
fn remap_rejects_malformed_rewrites() {
    let unclosed = RemapOverlayFilesystem::new(host(), rules(&[("bin", "/{1")]));
    assert!(matches!(
        unclosed,
        Err(RemapOverlayFilesystemBuildingError::InvalidRewriteSubstitution(
            2,
            _,
            InvalidRewriteSubstitutionKind::UnclosedBrace
        ))
    ));

    let non_digit = RemapOverlayFilesystem::new(host(), rules(&[("bin", "/{a}")]));
    assert!(matches!(
        non_digit,
        Err(RemapOverlayFilesystemBuildingError::InvalidRewriteSubstitution(
            2,
            _,
            InvalidRewriteSubstitutionKind::NonDigitCharacter
        ))
    ));

    let bad_glob = RemapOverlayFilesystem::new(host(), rules(&[("bin/[", "/")]));
    assert!(matches!(
        bad_glob,
        Err(RemapOverlayFilesystemBuildingError::GlobBuildingError(_))
    ));
}

#[test]
fn find_match_indices_reads_fields() {
    let f = RemapOverlayFilesystem::<MemoryFilesystem>::find_match_indices::<()>("/{12}/x{0}{3}");
    assert_eq!(f.ok(), Some(vec![12, 0, 3]));
    let none = RemapOverlayFilesystem::<MemoryFilesystem>::find_match_indices::<()>("/plain");
    assert_eq!(none.ok(), Some(vec![]));
}

#[test]
fn test_empty_glob_set_matches_only_the_empty_path() {
    let keys: Vec<xdvdfs::fs::remap::GlobKey> = Vec::new();
    let set = xdvdfs::fs::remap::GlobSet::new(keys.as_slice()).expect("no globs combine");
    assert!(set.is_match(""));
    assert!(!set.is_match("a"));
}
