use sumi_kernel::fs::fd_table::{FdKind, FdTable, FileDescriptor};

fn file(fh: u64) -> FileDescriptor {
    FileDescriptor { kind: FdKind::File { fuse_fh: fh, fuse_nodeid: 1, offset: 0, size: 10 }, flags: 0 }
}

#[test]
fn console_fds_preallocated() {
    let table = FdTable::new();
    for fd in 0..3 {
        assert_eq!(table.get(fd).unwrap().kind, FdKind::Console);
    }
    assert!(table.get(3).is_none());
    assert!(table.get(u64::MAX).is_none());
}

#[test]
fn alloc_free_lowest() {
    let mut table = FdTable::new();
    let desc = FileDescriptor { kind: FdKind::Console, flags: 0 };
    let fd = table.allocate(desc);
    assert_eq!(fd, 3);
    assert_eq!(table.free(fd), Some(desc));
    assert!(table.get(fd).is_none());
    assert_eq!(table.allocate(desc), 3);
    assert_eq!(table.allocate(desc), 4);
    table.free(1);
    assert_eq!(table.allocate(desc), 1);
}

#[test]
fn put_opens_the_named_descriptor() {
    let mut table = FdTable::new();
    assert_eq!(table.put(100, file(7)), None);
    assert_eq!(table.get(100), Some(file(7)));
    assert!(table.get(99).is_none());
    assert_eq!(table.put(100, file(8)), Some(file(7)));
    assert_eq!(table.allocate(file(9)), 3);
    assert_eq!(table.free(200), None);
}

#[test]
fn references_count_by_object() {
    let mut table = FdTable::new();
    table.allocate(file(7));
    table.allocate(file(7));
    table.allocate(file(8));
    table.allocate(FileDescriptor { kind: FdKind::Pipe { id: 0, write_end: true }, flags: 0 });
    table.allocate(FileDescriptor { kind: FdKind::Pipe { id: 0, write_end: false }, flags: 0 });
    assert_eq!(table.count_refs(&file(7).kind), 2);
    assert_eq!(table.count_refs(&file(8).kind), 1);
    assert_eq!(table.count_refs(&FdKind::Directory { fuse_fh: 7, fuse_nodeid: 2, offset: 0 }), 2);
    assert_eq!(table.count_refs(&FdKind::Pipe { id: 0, write_end: true }), 1);
    assert_eq!(table.count_refs(&FdKind::Console), 0);
}
