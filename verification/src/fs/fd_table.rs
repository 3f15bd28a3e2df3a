//! The table of open file descriptors.

use vstd::prelude::*;

verus! {

/// What a descriptor refers to.
#[derive(Clone, Copy, Debug, PartialEq, Eq, Structural)]
pub enum FdKind {
    File { fuse_fh: u64, fuse_nodeid: u64, offset: u64, size: u64 },
    Directory { fuse_fh: u64, fuse_nodeid: u64, offset: u64 },
    Console,
    Socket { id: usize },
    Epoll { id: usize },
    Pipe { id: usize, write_end: bool },
}

/// An open file descriptor.
#[derive(Clone, Copy, Debug, PartialEq, Eq, Structural)]
pub struct FileDescriptor {
    pub kind: FdKind,
    pub flags: u32,
}

impl FdKind {
    /// Closing `self` may only tear down its object if no other descriptor refers to the same one.
    pub open spec fn same_object(self, other: FdKind) -> bool {
        match (self, other) {
            (FdKind::File { fuse_fh: a, .. }, FdKind::File { fuse_fh: b, .. }) => a == b,
            (FdKind::File { fuse_fh: a, .. }, FdKind::Directory { fuse_fh: b, .. }) => a == b,
            (FdKind::Directory { fuse_fh: a, .. }, FdKind::File { fuse_fh: b, .. }) => a == b,
            (FdKind::Directory { fuse_fh: a, .. }, FdKind::Directory { fuse_fh: b, .. }) => a == b,
            (FdKind::Socket { id: a }, FdKind::Socket { id: b }) => a == b,
            (FdKind::Epoll { id: a }, FdKind::Epoll { id: b }) => a == b,
            (FdKind::Pipe { id: a, write_end: v }, FdKind::Pipe { id: b, write_end: w }) => a == b && v == w,
            _ => false,
        }
    }

    fn refers_to_same(&self, other: &FdKind) -> (r: bool)
        ensures
            r == self.same_object(*other),
    {
        match (*self, *other) {
            (FdKind::File { fuse_fh: a, .. }, FdKind::File { fuse_fh: b, .. }) => a == b,
            (FdKind::File { fuse_fh: a, .. }, FdKind::Directory { fuse_fh: b, .. }) => a == b,
            (FdKind::Directory { fuse_fh: a, .. }, FdKind::File { fuse_fh: b, .. }) => a == b,
            (FdKind::Directory { fuse_fh: a, .. }, FdKind::Directory { fuse_fh: b, .. }) => a == b,
            (FdKind::Socket { id: a }, FdKind::Socket { id: b }) => a == b,
            (FdKind::Epoll { id: a }, FdKind::Epoll { id: b }) => a == b,
            (FdKind::Pipe { id: a, write_end: v }, FdKind::Pipe { id: b, write_end: w }) => a == b && v == w,
            _ => false,
        }
    }
}

/// How many of the first `n` descriptors refer to the same object as `kind`.
pub open spec fn count_refs(fds: Seq<Option<FileDescriptor>>, kind: FdKind, n: int) -> int
    decreases n,
{
    if n <= 0 {
        0
    } else {
        count_refs(fds, kind, n - 1) + match fds[n - 1] {
            Some(d) => if kind.same_object(d.kind) { 1int } else { 0int },
            None => 0int,
        }
    }
}

/// The lowest free descriptor, from `from` on.
pub open spec fn lowest_free(fds: Seq<Option<FileDescriptor>>, from: int) -> int
    decreases fds.len() - from,
{
    if from >= 0 && from < fds.len() && fds[from] is Some {
        lowest_free(fds, from + 1)
    } else {
        from
    }
}

/// The table with `desc` as descriptor `fd`, extended by free descriptors as needed.
pub open spec fn with_fd(fds: Seq<Option<FileDescriptor>>, fd: int, desc: FileDescriptor) -> Seq<Option<FileDescriptor>> {
    Seq::new(
        if fd < fds.len() { fds.len() } else { (fd + 1) as nat },
        |k: int| if k == fd { Some(desc) } else if k < fds.len() { fds[k] } else { None },
    )
}

/// The descriptor `fd` of the table.
pub open spec fn lookup(fds: Seq<Option<FileDescriptor>>, fd: u64) -> Option<FileDescriptor> {
    if fd < fds.len() { fds[fd as int] } else { None }
}

/// The table of open file descriptors.
pub struct FdTable {
    fds: Vec<Option<FileDescriptor>>,
}

impl View for FdTable {
    type V = Seq<Option<FileDescriptor>>;

    closed spec fn view(&self) -> Seq<Option<FileDescriptor>> {
        self.fds@
    }
}

impl FdTable {
    /// A table with standard input, output and error open on the console.
    pub fn new() -> (r: Self)
        ensures
            r@ == Seq::new(3, |k: int| Some(FileDescriptor { kind: FdKind::Console, flags: 0 })),
    {
        let console = FileDescriptor { kind: FdKind::Console, flags: 0 };
        let mut fds: Vec<Option<FileDescriptor>> = Vec::new();
        fds.push(Some(console));
        fds.push(Some(console));
        fds.push(Some(console));
        let r = FdTable { fds };
        assert(r@ =~= Seq::new(3, |k: int| Some(FileDescriptor { kind: FdKind::Console, flags: 0 })));
        r
    }

    /// The descriptor `fd`, if it is open.
    pub fn get(&self, fd: u64) -> (r: Option<FileDescriptor>)
        ensures
            r == lookup(self@, fd),
    {
        let n: usize = self.fds.len();
        if fd < n as u64 { self.fds[fd as usize] } else { None }
    }

    /// Puts `desc` in place of the open descriptor `fd`.
    pub fn set(&mut self, fd: u64, desc: FileDescriptor)
        requires
            lookup(old(self)@, fd) is Some,
        ensures
            final(self)@ == old(self)@.update(fd as int, Some(desc)),
    {
        let _n: usize = self.fds.len();
        self.fds.set(fd as usize, Some(desc));
    }

    /// Opens the lowest free descriptor.
    pub fn allocate(&mut self, desc: FileDescriptor) -> (fd: u64)
        ensures
            fd == lowest_free(old(self)@, 0),
            final(self)@ == with_fd(old(self)@, fd as int, desc),
    {
        let mut i: usize = 0;
        while i < self.fds.len()
            invariant
                i <= self@.len(),
                self@ == old(self)@,
                lowest_free(self@, 0) == lowest_free(self@, i as int),
            decreases self@.len() - i,
        {
            if self.fds[i].is_none() {
                self.fds.set(i, Some(desc));
                assert(self@ =~= with_fd(old(self)@, i as int, desc));
                return i as u64;
            }
            i += 1;
        }
        self.fds.push(Some(desc));
        assert(self@ =~= with_fd(old(self)@, i as int, desc));
        i as u64
    }

    /// Closes descriptor `fd`, and gives back what it was.
    pub fn free(&mut self, fd: u64) -> (r: Option<FileDescriptor>)
        ensures
            r == lookup(old(self)@, fd),
            final(self)@ == (if fd < old(self)@.len() { old(self)@.update(fd as int, None) } else { old(self)@ }),
    {
        let n: usize = self.fds.len();
        if fd < n as u64 {
            let old_desc: Option<FileDescriptor> = self.fds[fd as usize];
            self.fds.set(fd as usize, None);
            old_desc
        } else {
            None
        }
    }

    /// Makes `desc` the descriptor `fd`, and gives back what was there.
    pub fn put(&mut self, fd: u64, desc: FileDescriptor) -> (r: Option<FileDescriptor>)
        requires
            fd < usize::MAX,
        ensures
            r == lookup(old(self)@, fd),
            final(self)@ == with_fd(old(self)@, fd as int, desc),
    {
        let old_desc: Option<FileDescriptor> = self.get(fd);
        while self.fds.len() <= fd as usize
            invariant
                fd < usize::MAX,
                old(self)@.len() <= self@.len(),
                self@.len() <= (if fd < old(self)@.len() { old(self)@.len() as int } else { fd + 1 }),
                forall|k: int| 0 <= k < old(self)@.len() ==> self@[k] == old(self)@[k],
                forall|k: int| old(self)@.len() <= k < self@.len() ==> self@[k] is None,
            decreases fd + 1 - self@.len(),
        {
            self.fds.push(None);
        }
        self.fds.set(fd as usize, Some(desc));
        assert(self@ =~= with_fd(old(self)@, fd as int, desc));
        old_desc
    }

    /// How many descriptors refer to the same object as `kind`.
    pub fn count_refs(&self, kind: &FdKind) -> (n: usize)
        ensures
            n == count_refs(self@, *kind, self@.len() as int),
    {
        let mut n: usize = 0;
        let mut i: usize = 0;
        while i < self.fds.len()
            invariant
                i <= self@.len(),
                n <= i,
                n == count_refs(self@, *kind, i as int),
            decreases self@.len() - i,
        {
            if let Some(d) = self.fds[i] {
                if kind.refers_to_same(&d.kind) {
                    n += 1;
                }
            }
            i += 1;
        }
        n
    }
}

/// The lowest free descriptor is not open, and every one below it is.
pub proof fn law_lowest_free(fds: Seq<Option<FileDescriptor>>, from: int)
    requires
        0 <= from <= fds.len(),
        forall|k: int| 0 <= k < from ==> (#[trigger] fds[k]) is Some,
    ensures
        ({
            let fd = lowest_free(fds, from);
            &&& from <= fd <= fds.len()
            &&& fd < fds.len() ==> fds[fd] is None
            &&& forall|k: int| 0 <= k < fd ==> (#[trigger] fds[k]) is Some
        }),
    decreases fds.len() - from,
{
    if from < fds.len() && fds[from] is Some {
        law_lowest_free(fds, from + 1);
    }
}

/// A descriptor closed right after it was opened is the next one opened.
pub proof fn law_closed_fd_is_reused(fds: Seq<Option<FileDescriptor>>, desc: FileDescriptor)
    ensures
        ({
            let fd = lowest_free(fds, 0);
            lowest_free(with_fd(fds, fd, desc).update(fd, None), 0) == fd
        }),
{
    law_lowest_free(fds, 0);
    let fd = lowest_free(fds, 0);
    lemma_lowest_free_is(with_fd(fds, fd, desc).update(fd, None), 0, fd);
}

proof fn lemma_lowest_free_is(fds: Seq<Option<FileDescriptor>>, from: int, fd: int)
    requires
        0 <= from <= fd < fds.len(),
        fds[fd] is None,
        forall|k: int| 0 <= k < fd ==> (#[trigger] fds[k]) is Some,
    ensures
        lowest_free(fds, from) == fd,
    decreases fd - from,
{
    if from < fd {
        lemma_lowest_free_is(fds, from + 1, fd);
    }
}

} // verus!
