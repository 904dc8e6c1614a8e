use xdvdfs::fs::memory::MemoryFilesystem;
use xdvdfs::sector_linear::deferred_reader::DeferredFileRead;

#[test]
fn test_deferred_reader_commit_empty() {
    let mut memfs = MemoryFilesystem::default();
    let mut dfr = DeferredFileRead::default();
    let mut buffer = vec![0; 512];

    assert_eq!(dfr.commit(&mut memfs, &mut buffer), Ok(()));
}

#[test]
fn test_deferred_reader_push_commit() {
    let mut memfs = MemoryFilesystem::default();
    memfs.create("/a/b".into(), &[1, 2, 3, 4, 5]);

    let mut dfr = DeferredFileRead::default();
    let mut buffer = vec![0; 5];

    let result = dfr.push_file(&mut memfs, &mut buffer, "/a/b".into(), 0, 3, 1, 1);

    // Assert read is deferred
    assert_eq!(result, Ok(()));
    assert_eq!(buffer, [0, 0, 0, 0, 0]);

    assert_eq!(dfr.commit(&mut memfs, &mut buffer), Ok(()));
    assert_eq!(buffer, [0, 2, 3, 4, 0]);
}

#[test]
fn test_deferred_reader_multi_sector() {
    let mut memfs = MemoryFilesystem::default();
    memfs.create("/a/b".into(), &vec![10; 4096]);

    let mut dfr = DeferredFileRead::default();
    let mut buffer = vec![0; 4096];

    let result = dfr.push_file(
        &mut memfs,
        &mut buffer,
        "/a/b".into(),
        /*sector_idx=*/ 0,
        /*to_read=*/ 2048,
        /*buffer_idx=*/ 0,
        /*position=*/ 0,
    );
    assert_eq!(result, Ok(()));
    assert!(buffer.iter().all(|x| *x == 0));

    let result = dfr.push_file(
        &mut memfs,
        &mut buffer,
        "/a/b".into(),
        /*sector_idx=*/ 1,
        /*to_read=*/ 2048,
        /*buffer_idx=*/ 2048,
        /*position=*/ 0,
    );
    assert_eq!(result, Ok(()));
    assert!(buffer.iter().all(|x| *x == 0));

    assert_eq!(dfr.commit(&mut memfs, &mut buffer), Ok(()));
    assert!(buffer.iter().all(|x| *x == 10));
}

#[test]
fn test_deferred_reader_switch_file() {
    let mut memfs = MemoryFilesystem::default();
    memfs.create("/a/b".into(), &vec![10; 2048]);
    memfs.create("/a/c".into(), &vec![15; 2048]);

    let mut dfr = DeferredFileRead::default();
    let mut buffer = vec![0; 4096];

    let result = dfr.push_file(
        &mut memfs,
        &mut buffer,
        "/a/b".into(),
        /*sector_idx=*/ 0,
        /*to_read=*/ 2048,
        /*buffer_idx=*/ 0,
        /*position=*/ 0,
    );
    assert_eq!(result, Ok(()));
    assert!(buffer.iter().all(|x| *x == 0));

    let result = dfr.push_file(
        &mut memfs,
        &mut buffer,
        "/a/c".into(),
        /*sector_idx=*/ 0,
        /*to_read=*/ 2048,
        /*buffer_idx=*/ 2048,
        /*position=*/ 0,
    );
    assert_eq!(result, Ok(()));

    // Previous read is applied
    assert!(buffer[0..2048].iter().all(|x| *x == 10));
    assert!(buffer[2048..].iter().all(|x| *x == 0));

    // Current read is applied
    assert_eq!(dfr.commit(&mut memfs, &mut buffer), Ok(()));
    assert!(buffer[0..2048].iter().all(|x| *x == 10));
    assert!(buffer[2048..].iter().all(|x| *x == 15));
}

#[test]
fn test_deferred_reader_pending_state() {
    let mut memfs = MemoryFilesystem::default();
    memfs.create("/f".into(), &vec![7; 8192]);
    let mut dfr = DeferredFileRead::default();
    let mut buffer = vec![0; 8192];

    dfr.push_file(&mut memfs, &mut buffer, "/f".into(), 2, 2048, 0, 16).unwrap();
    let d = dfr.0.as_ref().unwrap();
    assert_eq!((d.index, d.offset, d.size, d.prev_sector_idx), (0, 16 + 2 * 2048, 2048, 2));
    assert_eq!(d.path.as_string(), "/f");

    // The same file, but not the next sector: the pending read is issued.
    dfr.push_file(&mut memfs, &mut buffer, "/f".into(), 5, 100, 2048, 0).unwrap();
    assert!(buffer[..2048].iter().all(|x| *x == 7));
    let d = dfr.0.as_ref().unwrap();
    assert_eq!((d.index, d.offset, d.size, d.prev_sector_idx), (2048, 5 * 2048, 100, 5));
}

#[test]
fn test_deferred_reader_commit_error_keeps_pending() {
    let mut memfs = MemoryFilesystem::default();
    let mut dfr = DeferredFileRead::default();
    let mut buffer = vec![3; 16];
    dfr.push_file(&mut memfs, &mut buffer, "/missing".into(), 0, 8, 4, 0).unwrap();
    assert_eq!(dfr.commit(&mut memfs, &mut buffer), Err(()));
    assert!(dfr.0.is_some());
    assert_eq!(buffer, vec![3; 16]);
}
