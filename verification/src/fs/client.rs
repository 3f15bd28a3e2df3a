//! The client of the host's file system, and the record of what was asked of it.

use vstd::prelude::*;

use crate::address::PhysicalAddr;

verus! {

/// What the host knows of a file.
#[derive(Clone, Copy, Debug, PartialEq, Eq, Structural)]
pub struct FuseAttr {
    pub ino: u64,
    pub size: u64,
    pub blocks: u64,
    pub atime: u64,
    pub mtime: u64,
    pub ctime: u64,
    pub atimensec: u32,
    pub mtimensec: u32,
    pub ctimensec: u32,
    pub mode: u32,
    pub nlink: u32,
    pub uid: u32,
    pub gid: u32,
    pub rdev: u32,
    pub blksize: u32,
}

/// Number of the root directory's node, which is never forgotten.
pub const FUSE_ROOT_ID: u64 = 1;

/// The requests that the host's file system serves. What it answers is its own affair:
/// an error is a negated error number.
pub trait FuseClient: Sized {
    fn resolve_path(&mut self, path: &[u8]) -> Result<u64, i32>;

    fn getattr(&mut self, nodeid: u64) -> Result<FuseAttr, i32>;

    fn setattr_size(&mut self, nodeid: u64, fh: Option<u64>, size: u64) -> Result<(), i32>;

    fn forget(&mut self, nodeid: u64, lookups: u64);

    fn open(&mut self, nodeid: u64, flags: u32) -> Result<u64, i32>;

    fn opendir(&mut self, nodeid: u64) -> Result<u64, i32>;

    /// The new node, and the handle it is open under.
    fn create(&mut self, parent: u64, name: &[u8], flags: u32, mode: u32) -> Result<(u64, u64), i32>;

    fn mkdir(&mut self, parent: u64, name: &[u8], mode: u32) -> Result<u64, i32>;

    fn rmdir(&mut self, parent: u64, name: &[u8]) -> Result<(), i32>;

    fn unlink(&mut self, parent: u64, name: &[u8]) -> Result<(), i32>;

    fn rename(&mut self, parent: u64, name: &[u8], new_parent: u64, new_name: &[u8]) -> Result<(), i32>;

    /// Moves up to `count` bytes of the file to physical memory.
    fn read(&mut self, fh: u64, offset: u64, paddr: PhysicalAddr, count: u32) -> Result<u32, i32>;

    /// Moves up to `count` bytes of physical memory to the file.
    fn write(&mut self, fh: u64, offset: u64, paddr: PhysicalAddr, count: u32) -> Result<u32, i32>;

    fn readdir(&mut self, nodeid: u64, fh: u64, offset: u64, size: u32) -> Result<Vec<u8>, i32>;

    fn release(&mut self, fh: u64);

    fn releasedir(&mut self, fh: u64);

    fn fsync(&mut self, fh: u64, datasync: bool) -> Result<(), i32>;

    fn setup_mapping(&mut self, fh: u64, offset: u64, len: u64, dax_offset: u64, flags: u64) -> Result<(), i32>;

    fn remove_mapping(&mut self, dax_offset: u64, len: u64) -> Result<(), i32>;

    fn flush_write_cache(&mut self, fh: u64) -> Result<(), i32>;

    fn flush_all_write_caches(&mut self) -> Result<(), i32>;

    fn invalidate_file_read_cache(&mut self, nodeid: u64);
}

/// An answer that holds bytes.
pub open spec fn bytes_reply(r: Result<Vec<u8>, i32>) -> Result<Seq<u8>, i32> {
    match r {
        Ok(data) => Ok(data@),
        Err(e) => Err(e),
    }
}

/// One request, and the answer to it.
#[allow(inconsistent_fields)]
pub enum FsEvent {
    ResolvePath { path: Seq<u8>, reply: Result<u64, i32> },
    GetAttr { nodeid: u64, reply: Result<FuseAttr, i32> },
    SetAttrSize { nodeid: u64, fh: Option<u64>, size: u64, reply: Result<(), i32> },
    Forget { nodeid: u64, lookups: u64 },
    Open { nodeid: u64, flags: u32, reply: Result<u64, i32> },
    OpenDir { nodeid: u64, reply: Result<u64, i32> },
    Create { parent: u64, name: Seq<u8>, flags: u32, mode: u32, reply: Result<(u64, u64), i32> },
    MkDir { parent: u64, name: Seq<u8>, mode: u32, reply: Result<u64, i32> },
    RmDir { parent: u64, name: Seq<u8>, reply: Result<(), i32> },
    Unlink { parent: u64, name: Seq<u8>, reply: Result<(), i32> },
    Rename { parent: u64, name: Seq<u8>, new_parent: u64, new_name: Seq<u8>, reply: Result<(), i32> },
    Read { fh: u64, offset: u64, paddr: u64, count: u32, reply: Result<u32, i32> },
    Write { fh: u64, offset: u64, paddr: u64, count: u32, reply: Result<u32, i32> },
    ReadDir { nodeid: u64, fh: u64, offset: u64, size: u32, reply: Result<Seq<u8>, i32> },
    Release { fh: u64 },
    ReleaseDir { fh: u64 },
    Fsync { fh: u64, datasync: bool, reply: Result<(), i32> },
    SetupMapping { fh: u64, offset: u64, len: u64, dax_offset: u64, flags: u64, reply: Result<(), i32> },
    RemoveMapping { dax_offset: u64, len: u64, reply: Result<(), i32> },
    FlushWriteCache { fh: u64, reply: Result<(), i32> },
    FlushAllWriteCaches { reply: Result<(), i32> },
    InvalidateReadCache { nodeid: u64 },
}

/// A client together with the record of its requests, in order.
pub struct Fs<C: FuseClient> {
    client: C,
    log: Ghost<Seq<FsEvent>>,
}

/// The requests made between two states of a record.
pub open spec fn since(before: Seq<FsEvent>, after: Seq<FsEvent>) -> Seq<FsEvent> {
    after.skip(before.len() as int)
}

/// Nothing of the record `before` was changed.
pub open spec fn extends(before: Seq<FsEvent>, after: Seq<FsEvent>) -> bool {
    before.len() <= after.len() && after.take(before.len() as int) == before
}

/// Every record continues itself, by nothing.
pub broadcast proof fn lemma_extends_itself(log: Seq<FsEvent>)
    ensures
        #[trigger] extends(log, log),
        since(log, log) == Seq::<FsEvent>::empty(),
{
    assert(log.take(log.len() as int) =~= log);
    assert(since(log, log) =~= Seq::<FsEvent>::empty());
}

/// One more request is one more item since any earlier state.
pub broadcast proof fn lemma_extends_push(before: Seq<FsEvent>, after: Seq<FsEvent>, e: FsEvent)
    requires
        #[trigger] extends(before, after),
    ensures
        extends(before, #[trigger] after.push(e)),
        since(before, after.push(e)) == since(before, after).push(e),
{
    assert(after.push(e).take(before.len() as int) =~= after.take(before.len() as int));
    assert(since(before, after.push(e)) =~= since(before, after).push(e));
}

/// More requests are more items since any earlier state.
pub broadcast proof fn lemma_extends_add(before: Seq<FsEvent>, after: Seq<FsEvent>, more: Seq<FsEvent>)
    requires
        #[trigger] extends(before, after),
    ensures
        extends(before, #[trigger] (after + more)),
        since(before, after + more) == since(before, after) + more,
{
    assert((after + more).take(before.len() as int) =~= after.take(before.len() as int));
    assert(since(before, after + more) =~= since(before, after) + more);
}

/// A record that continues one that continues a third continues the third.
pub proof fn lemma_extends_trans(a: Seq<FsEvent>, b: Seq<FsEvent>, c: Seq<FsEvent>)
    requires
        extends(a, b),
        extends(b, c),
    ensures
        extends(a, c),
        since(a, c) == since(a, b) + since(b, c),
{
    assert(c =~= b + since(b, c));
    lemma_extends_add(a, b, since(b, c));
}

pub broadcast group group_log {
    lemma_extends_itself,
    lemma_extends_push,
    lemma_extends_add,
}

/// Forgetting a node, unless it is the root.
pub open spec fn forget_events(nodeid: u64) -> Seq<FsEvent> {
    if nodeid == FUSE_ROOT_ID { seq![] } else { seq![FsEvent::Forget { nodeid, lookups: 1 }] }
}

impl<C: FuseClient> Fs<C> {
    pub closed spec fn log(&self) -> Seq<FsEvent> {
        self.log@
    }

    /// The client behind the record.
    pub closed spec fn inner(&self) -> C {
        self.client
    }

    /// A client of which nothing was asked yet.
    pub fn new(client: C) -> (r: Self)
        ensures
            r.log() == Seq::<FsEvent>::empty(),
            r.inner() == client,
    {
        Fs { client, log: Ghost(Seq::empty()) }
    }

    /// The client itself.
    pub fn client(&self) -> (r: &C)
        ensures
            *r == self.inner(),
    {
        &self.client
    }

    pub fn resolve_path(&mut self, path: &[u8]) -> (r: Result<u64, i32>)
        ensures
            final(self).log() == old(self).log().push(FsEvent::ResolvePath { path: path@, reply: r }),
    {
        let r = self.client.resolve_path(path);
        proof {
            self.log@ = self.log@.push(FsEvent::ResolvePath { path: path@, reply: r });
        }
        r
    }

    pub fn getattr(&mut self, nodeid: u64) -> (r: Result<FuseAttr, i32>)
        ensures
            final(self).log() == old(self).log().push(FsEvent::GetAttr { nodeid, reply: r }),
    {
        let r = self.client.getattr(nodeid);
        proof {
            self.log@ = self.log@.push(FsEvent::GetAttr { nodeid, reply: r });
        }
        r
    }

    pub fn setattr_size(&mut self, nodeid: u64, fh: Option<u64>, size: u64) -> (r: Result<(), i32>)
        ensures
            final(self).log() == old(self).log().push(FsEvent::SetAttrSize { nodeid, fh, size, reply: r }),
    {
        let r = self.client.setattr_size(nodeid, fh, size);
        proof {
            self.log@ = self.log@.push(FsEvent::SetAttrSize { nodeid, fh, size, reply: r });
        }
        r
    }

    pub fn forget(&mut self, nodeid: u64, lookups: u64)
        ensures
            final(self).log() == old(self).log().push(FsEvent::Forget { nodeid, lookups }),
    {
        self.client.forget(nodeid, lookups);
        proof {
            self.log@ = self.log@.push(FsEvent::Forget { nodeid, lookups });
        }
    }

    pub fn open(&mut self, nodeid: u64, flags: u32) -> (r: Result<u64, i32>)
        ensures
            final(self).log() == old(self).log().push(FsEvent::Open { nodeid, flags, reply: r }),
    {
        let r = self.client.open(nodeid, flags);
        proof {
            self.log@ = self.log@.push(FsEvent::Open { nodeid, flags, reply: r });
        }
        r
    }

    pub fn opendir(&mut self, nodeid: u64) -> (r: Result<u64, i32>)
        ensures
            final(self).log() == old(self).log().push(FsEvent::OpenDir { nodeid, reply: r }),
    {
        let r = self.client.opendir(nodeid);
        proof {
            self.log@ = self.log@.push(FsEvent::OpenDir { nodeid, reply: r });
        }
        r
    }

    pub fn create(&mut self, parent: u64, name: &[u8], flags: u32, mode: u32) -> (r: Result<(u64, u64), i32>)
        ensures
            final(self).log() == old(self).log().push(FsEvent::Create { parent, name: name@, flags, mode, reply: r }),
    {
        let r = self.client.create(parent, name, flags, mode);
        proof {
            self.log@ = self.log@.push(FsEvent::Create { parent, name: name@, flags, mode, reply: r });
        }
        r
    }

    pub fn mkdir(&mut self, parent: u64, name: &[u8], mode: u32) -> (r: Result<u64, i32>)
        ensures
            final(self).log() == old(self).log().push(FsEvent::MkDir { parent, name: name@, mode, reply: r }),
    {
        let r = self.client.mkdir(parent, name, mode);
        proof {
            self.log@ = self.log@.push(FsEvent::MkDir { parent, name: name@, mode, reply: r });
        }
        r
    }

    pub fn rmdir(&mut self, parent: u64, name: &[u8]) -> (r: Result<(), i32>)
        ensures
            final(self).log() == old(self).log().push(FsEvent::RmDir { parent, name: name@, reply: r }),
    {
        let r = self.client.rmdir(parent, name);
        proof {
            self.log@ = self.log@.push(FsEvent::RmDir { parent, name: name@, reply: r });
        }
        r
    }

    pub fn unlink(&mut self, parent: u64, name: &[u8]) -> (r: Result<(), i32>)
        ensures
            final(self).log() == old(self).log().push(FsEvent::Unlink { parent, name: name@, reply: r }),
    {
        let r = self.client.unlink(parent, name);
        proof {
            self.log@ = self.log@.push(FsEvent::Unlink { parent, name: name@, reply: r });
        }
        r
    }

    pub fn rename(&mut self, parent: u64, name: &[u8], new_parent: u64, new_name: &[u8]) -> (r: Result<(), i32>)
        ensures
            final(self).log() == old(self).log().push(FsEvent::Rename { parent, name: name@, new_parent, new_name: new_name@, reply: r }),
    {
        let r = self.client.rename(parent, name, new_parent, new_name);
        proof {
            self.log@ = self.log@.push(FsEvent::Rename { parent, name: name@, new_parent, new_name: new_name@, reply: r });
        }
        r
    }

    pub fn read(&mut self, fh: u64, offset: u64, paddr: PhysicalAddr, count: u32) -> (r: Result<u32, i32>)
        ensures
            final(self).log() == old(self).log().push(FsEvent::Read { fh, offset, paddr: paddr.0, count, reply: r }),
    {
        let r = self.client.read(fh, offset, paddr, count);
        proof {
            self.log@ = self.log@.push(FsEvent::Read { fh, offset, paddr: paddr.0, count, reply: r });
        }
        r
    }

    pub fn write(&mut self, fh: u64, offset: u64, paddr: PhysicalAddr, count: u32) -> (r: Result<u32, i32>)
        ensures
            final(self).log() == old(self).log().push(FsEvent::Write { fh, offset, paddr: paddr.0, count, reply: r }),
    {
        let r = self.client.write(fh, offset, paddr, count);
        proof {
            self.log@ = self.log@.push(FsEvent::Write { fh, offset, paddr: paddr.0, count, reply: r });
        }
        r
    }

    pub fn release(&mut self, fh: u64)
        ensures
            final(self).log() == old(self).log().push(FsEvent::Release { fh }),
    {
        self.client.release(fh);
        proof {
            self.log@ = self.log@.push(FsEvent::Release { fh });
        }
    }

    pub fn releasedir(&mut self, fh: u64)
        ensures
            final(self).log() == old(self).log().push(FsEvent::ReleaseDir { fh }),
    {
        self.client.releasedir(fh);
        proof {
            self.log@ = self.log@.push(FsEvent::ReleaseDir { fh });
        }
    }

    pub fn fsync(&mut self, fh: u64, datasync: bool) -> (r: Result<(), i32>)
        ensures
            final(self).log() == old(self).log().push(FsEvent::Fsync { fh, datasync, reply: r }),
    {
        let r = self.client.fsync(fh, datasync);
        proof {
            self.log@ = self.log@.push(FsEvent::Fsync { fh, datasync, reply: r });
        }
        r
    }

    pub fn setup_mapping(&mut self, fh: u64, offset: u64, len: u64, dax_offset: u64, flags: u64) -> (r: Result<(), i32>)
        ensures
            final(self).log() == old(self).log().push(FsEvent::SetupMapping { fh, offset, len, dax_offset, flags, reply: r }),
    {
        let r = self.client.setup_mapping(fh, offset, len, dax_offset, flags);
        proof {
            self.log@ = self.log@.push(FsEvent::SetupMapping { fh, offset, len, dax_offset, flags, reply: r });
        }
        r
    }

    pub fn remove_mapping(&mut self, dax_offset: u64, len: u64) -> (r: Result<(), i32>)
        ensures
            final(self).log() == old(self).log().push(FsEvent::RemoveMapping { dax_offset, len, reply: r }),
    {
        let r = self.client.remove_mapping(dax_offset, len);
        proof {
            self.log@ = self.log@.push(FsEvent::RemoveMapping { dax_offset, len, reply: r });
        }
        r
    }

    pub fn flush_write_cache(&mut self, fh: u64) -> (r: Result<(), i32>)
        ensures
            final(self).log() == old(self).log().push(FsEvent::FlushWriteCache { fh, reply: r }),
    {
        let r = self.client.flush_write_cache(fh);
        proof {
            self.log@ = self.log@.push(FsEvent::FlushWriteCache { fh, reply: r });
        }
        r
    }

    pub fn flush_all_write_caches(&mut self) -> (r: Result<(), i32>)
        ensures
            final(self).log() == old(self).log().push(FsEvent::FlushAllWriteCaches { reply: r }),
    {
        let r = self.client.flush_all_write_caches();
        proof {
            self.log@ = self.log@.push(FsEvent::FlushAllWriteCaches { reply: r });
        }
        r
    }

    pub fn invalidate_file_read_cache(&mut self, nodeid: u64)
        ensures
            final(self).log() == old(self).log().push(FsEvent::InvalidateReadCache { nodeid }),
    {
        self.client.invalidate_file_read_cache(nodeid);
        proof {
            self.log@ = self.log@.push(FsEvent::InvalidateReadCache { nodeid });
        }
    }

    pub fn readdir(&mut self, nodeid: u64, fh: u64, offset: u64, size: u32) -> (r: Result<Vec<u8>, i32>)
        ensures
            final(self).log() == old(self).log().push(
                FsEvent::ReadDir {
                    nodeid,
                    fh,
                    offset,
                    size,
                    reply: bytes_reply(r),
                },
            ),
    {
        let r = self.client.readdir(nodeid, fh, offset, size);
        proof {
            self.log@ = self.log@.push(FsEvent::ReadDir { nodeid, fh, offset, size, reply: bytes_reply(r) });
        }
        r
    }

    /// Forgets a node, unless it is the root.
    pub fn forget_if_not_root(&mut self, nodeid: u64)
        ensures
            final(self).log() == old(self).log() + forget_events(nodeid),
    {
        if nodeid != FUSE_ROOT_ID {
            self.forget(nodeid, 1);
        }
        assert(self.log() =~= old(self).log() + forget_events(nodeid));
    }
}

} // verus!
