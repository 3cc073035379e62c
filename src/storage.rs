//! Block storage: file handles, the error taxonomy, and an in-memory
//! backend that enforces the block-write rules.
use vstd::arithmetic::power2::is_pow2;
use vstd::prelude::*;
use vstd::string::StringExecFns;

verus! {

/// An increment-only counter, usable from several threads to hand out
/// unique identifiers.
pub struct AtomicIncrementOnlyI64 {
    value: std::sync::atomic::AtomicI64,
}

impl AtomicIncrementOnlyI64 {
    /// A counter that starts at 0.
    pub fn new() -> (r: Self) {
        AtomicIncrementOnlyI64 { value: std::sync::atomic::AtomicI64::new(0) }
    }

    /// Adds one and returns the previous value.  Other threads may
    /// increment concurrently, so nothing is promised of the value.
    pub fn increment(&self) -> (r: i64) {
        self.value.fetch_add(1, std::sync::atomic::Ordering::Relaxed)
    }
}

/// A file that can be written to.
pub struct FileHandle(pub i64);

/// A completed file that can be read from.
pub struct ImmutableFileHandle(pub i64);

impl FileHandle {
    pub fn id(&self) -> (r: i64)
        ensures
            r == self.0,
    {
        self.0
    }
}

impl ImmutableFileHandle {
    pub fn id(&self) -> (r: i64)
        ensures
            r == self.0,
    {
        self.0
    }
}

/// An error of the storage backend.
#[derive(Debug)]
pub enum StorageError {
    /// An I/O error, by its kind and operating-system code.
    StdIo { kind: String, os_error: Option<i32> },
    /// The range to be written overlaps a previous write.
    OverlappingWrites,
    /// The read would have returned less data than requested.
    ShortRead,
}

/// An empty buffer with room for a block of `sz` bytes.
pub fn allocate_buffer(sz: usize) -> (r: Vec<u8>)
    ensures
        r@.len() == 0,
{
    Vec::with_capacity(sz)
}

/// The alignment of block offsets.
pub const BLOCK_ALIGNMENT: u64 = 4096;

/// The model of a stored file.
pub struct FileModel {
    pub name: Seq<char>,
    pub data: Seq<u8>,
    /// The `[start, end)` ranges written so far.
    pub extents: Seq<(int, int)>,
    pub completed: bool,
    pub deleted: bool,
}

/// `[a, b)` and `[c, d)` share a byte.
pub open spec fn overlaps(a: int, b: int, c: int, d: int) -> bool {
    a < d && c < b
}

/// Some previous write of `f` overlaps `[start, end)`.
pub open spec fn overlaps_any(f: FileModel, start: int, end: int) -> bool {
    exists|i: int| 0 <= i < f.extents.len() && overlaps(#[trigger] f.extents[i].0, f.extents[i].1, start, end)
}

/// The file after writing `bytes` at `offset`: bytes past the old end and
/// before `offset` read as zero.
pub open spec fn file_written(f: FileModel, offset: int, bytes: Seq<u8>) -> FileModel {
    let end = offset + bytes.len();
    let len = if end > f.data.len() { end } else { f.data.len() as int };
    FileModel {
        name: f.name,
        data: Seq::new(
            len as nat,
            |i: int|
                if offset <= i < end {
                    bytes[i - offset]
                } else if i < f.data.len() {
                    f.data[i]
                } else {
                    0u8
                },
        ),
        extents: f.extents.push((offset, end)),
        completed: f.completed,
        deleted: f.deleted,
    }
}

struct MemFile {
    name: String,
    data: Vec<u8>,
    extents: Vec<(u64, u64)>,
    completed: bool,
    deleted: bool,
}

impl MemFile {
    closed spec fn model(&self) -> FileModel {
        FileModel {
            name: self.name@,
            data: self.data@,
            extents: self.extents@.map_values(|e: (u64, u64)| (e.0 as int, e.1 as int)),
            completed: self.completed,
            deleted: self.deleted,
        }
    }
}

/// Relies on uuid's `Uuid::now_v7`: a fresh time-ordered identifier, in
/// its hyphenated text form (36 characters).
#[verifier::external_body]
fn fresh_uuid_text() -> (r: String)
    ensures
        r@.len() == 36,
{
    uuid::Uuid::now_v7().hyphenated().to_string()
}

/// A storage backend that keeps its files in memory.
pub struct MemoryBackend {
    files: Vec<MemFile>,
}

impl View for MemoryBackend {
    type V = Seq<FileModel>;

    closed spec fn view(&self) -> Seq<FileModel> {
        self.files@.map_values(|f: MemFile| f.model())
    }
}

impl MemoryBackend {
    fn index_of(&self, id: i64) -> (r: usize)
        requires
            0 <= id < self@.len(),
        ensures
            r == id,
            r < self.files@.len(),
    {
        let n = self.files.len();
        id as usize
    }

    /// A file that can be written: created, not completed, not deleted.
    pub open spec fn writable(&self, fd: &FileHandle) -> bool {
        0 <= fd.0 < self@.len() && !self@[fd.0 as int].completed && !self@[fd.0 as int].deleted
    }

    /// A file that can be read: completed, not deleted.
    pub open spec fn readable(&self, fd: &ImmutableFileHandle) -> bool {
        0 <= fd.0 < self@.len() && self@[fd.0 as int].completed && !self@[fd.0 as int].deleted
    }

    pub fn new() -> (r: Self)
        ensures
            r@ == Seq::<FileModel>::empty(),
    {
        let r = MemoryBackend { files: Vec::new() };
        assert(r@ =~= Seq::<FileModel>::empty());
        r
    }

    /// Creates an empty file named `name`.
    pub fn create_named(&mut self, name: &str) -> (r: Result<FileHandle, StorageError>)
        requires
            old(self)@.len() < i64::MAX,
        ensures
            r matches Ok(fd) && fd.0 == old(self)@.len(),
            final(self)@ == old(self)@.push(
                FileModel {
                    name: name@,
                    data: Seq::empty(),
                    extents: Seq::empty(),
                    completed: false,
                    deleted: false,
                },
            ),
    {
        let id = self.files.len() as i64;
        let f = MemFile {
            name: String::from_str(name),
            data: Vec::new(),
            extents: Vec::new(),
            completed: false,
            deleted: false,
        };
        let ghost before = self@;
        self.files.push(f);
        proof {
            assert(f.model().extents =~= Seq::<(int, int)>::empty());
            assert(self@ =~= before.push(f.model()));
        }
        Ok(FileHandle(id))
    }

    /// Creates an empty file with a fresh unique name.
    pub fn create(&mut self) -> (r: Result<FileHandle, StorageError>)
        requires
            old(self)@.len() < i64::MAX,
        ensures
            r matches Ok(fd) && fd.0 == old(self)@.len(),
            final(self)@.len() == old(self)@.len() + 1,
            forall|i: int| 0 <= i < old(self)@.len() ==> #[trigger] final(self)@[i] == old(self)@[i],
            final(self)@.last().name.len() == 44,
            final(self)@.last().data.len() == 0,
            !final(self)@.last().completed && !final(self)@.last().deleted,
    {
        let name = fresh_uuid_text().concat(".feldera");
        proof {
            reveal_strlit(".feldera");
        }
        self.create_named(name.as_str())
    }

    /// Writes `data` at `offset`, unless that overlaps a previous write.
    pub fn write_block(&mut self, fd: &FileHandle, offset: u64, data: &[u8]) -> (r: Result<(), StorageError>)
        requires
            old(self).writable(fd),
            offset % BLOCK_ALIGNMENT == 0,
            data@.len() >= 512,
            is_pow2(data@.len() as int),
            offset + data@.len() <= usize::MAX,
        ensures
            match r {
                Ok(()) => !overlaps_any(old(self)@[fd.0 as int], offset as int, offset + data@.len())
                    && final(self)@ == old(self)@.update(fd.0 as int, file_written(old(self)@[fd.0 as int], offset as int, data@)),
                Err(e) => e is OverlappingWrites && overlaps_any(old(self)@[fd.0 as int], offset as int, offset + data@.len())
                    && final(self)@ == old(self)@,
            },
    {
        let idx = self.index_of(fd.0);
        let end = offset + data.len() as u64;
        let ghost f0 = self@[idx as int];
        proof {
            assert(f0 == self.files@[idx as int].model());
        }
        // overlap check
        let mut i: usize = 0;
        let n = self.files[idx].extents.len();
        while i < n
            invariant
                i <= n,
                idx < self.files@.len(),
                n == self.files@[idx as int].extents@.len(),
                f0 == self.files@[idx as int].model(),
                end == offset + data@.len(),
                f0 == old(self)@[fd.0 as int],
                forall|j: int| 0 <= j < i ==> !overlaps(#[trigger] f0.extents[j].0, f0.extents[j].1, offset as int, end as int),
            decreases n - i,
        {
            let e = self.files[idx].extents[i];
            assert(f0.extents[i as int] == (e.0 as int, e.1 as int));
            if e.0 < end && offset < e.1 {
                assert(overlaps(f0.extents[i as int].0, f0.extents[i as int].1, offset as int, end as int));
                assert(overlaps_any(f0, offset as int, end as int));
                assert(old(self)@[fd.0 as int] == f0);
                return Err(StorageError::OverlappingWrites);
            }
            i = i + 1;
        }
        let mut f = self.files.remove(idx);
        let ghost ext0 = f.extents@;
        assert(ext0.map_values(|e: (u64, u64)| (e.0 as int, e.1 as int)) == f0.extents);
        // grow with zeros up to the end of the write
        let old_len = f.data.len();
        while (f.data.len() as u64) < end
            invariant
                f.data@.len() >= old_len,
                f.extents@ == ext0,
                f.name@ == f0.name,
                f.completed == f0.completed,
                f.deleted == f0.deleted,
                old_len == f0.data.len(),
                forall|j: int| 0 <= j < old_len ==> #[trigger] f.data@[j] == f0.data[j],
                forall|j: int| old_len <= j < f.data@.len() ==> #[trigger] f.data@[j] == 0u8,
                f.data@.len() <= (if end > old_len { end as int } else { old_len as int }),
                end <= usize::MAX,
            decreases end - f.data@.len(),
        {
            f.data.push(0u8);
        }
        let mut k: usize = 0;
        let dlen = data.len();
        while k < dlen
            invariant
                k <= dlen,
                dlen == data@.len(),
                f.extents@ == ext0,
                f.name@ == f0.name,
                f.completed == f0.completed,
                f.deleted == f0.deleted,
                end == offset + dlen,
                offset + dlen <= usize::MAX,
                f.data@.len() == (if end > old_len { end as int } else { old_len as int }),
                old_len == f0.data.len(),
                forall|j: int| 0 <= j < f.data@.len() ==> #[trigger] f.data@[j] == if offset <= j < offset + k {
                    data@[j - offset]
                } else if j < old_len {
                    f0.data[j]
                } else {
                    0u8
                },
            decreases dlen - k,
        {
            f.data.set(offset as usize + k, data[k]);
            k = k + 1;
        }
        f.extents.push((offset, end));
        assert(f.extents@ == ext0.push((offset, end)));
        let ghost before = self@;
        self.files.insert(idx, f);
        proof {
            let w = file_written(f0, offset as int, data@);
            assert(f.model().data =~= w.data);
            assert(f.model().extents =~= w.extents);
            assert(self@ =~= old(self)@.update(idx as int, w));
        }
        Ok(())
    }

    /// Seals a file: it can be read from then, and no longer written.
    pub fn complete(&mut self, fd: FileHandle) -> (r: (ImmutableFileHandle, String))
        requires
            old(self).writable(&fd),
        ensures
            r.0.0 == fd.0,
            r.1@ == old(self)@[fd.0 as int].name,
            final(self)@ == old(self)@.update(
                fd.0 as int,
                FileModel { completed: true, ..old(self)@[fd.0 as int] },
            ),
    {
        let idx = self.index_of(fd.0);
        let mut f = self.files.remove(idx);
        f.completed = true;
        let name = f.name.clone();
        self.files.insert(idx, f);
        proof {
            assert(self@ =~= old(self)@.update(fd.0 as int, FileModel { completed: true, ..old(self)@[fd.0 as int] }));
        }
        (ImmutableFileHandle(fd.0), name)
    }

    /// Reads `size` bytes at `offset`; fails with `ShortRead` where the file
    /// ends before.
    pub fn read_block(&self, fd: &ImmutableFileHandle, offset: u64, size: usize) -> (r: Result<Vec<u8>, StorageError>)
        requires
            self.readable(fd),
            offset % BLOCK_ALIGNMENT == 0,
            size >= 512,
            is_pow2(size as int),
        ensures
            match r {
                Ok(v) => offset + size <= self@[fd.0 as int].data.len() && v@ == self@[fd.0 as int].data.subrange(offset as int, offset + size),
                Err(e) => e is ShortRead && offset + size > self@[fd.0 as int].data.len(),
            },
    {
        let idx = self.index_of(fd.0);
        let f = &self.files[idx];
        proof {
            assert(idx as int == fd.0 as int);
            assert(self@[idx as int] == f.model());
        }
        let len = f.data.len();
        if offset >= len as u64 || size > len - offset as usize {
            return Err(StorageError::ShortRead);
        }
        let start = offset as usize;
        let mut out: Vec<u8> = Vec::new();
        let mut k: usize = 0;
        while k < size
            invariant
                k <= size,
                start + size <= f.data@.len(),
                start + size <= len,
                out@ == f.data@.subrange(start as int, start + k),
            decreases size - k,
        {
            out.push(f.data[start + k]);
            k = k + 1;
            assert(out@ =~= f.data@.subrange(start as int, start + k));
        }
        Ok(out)
    }

    /// The size of a completed file, in bytes.
    pub fn get_size(&self, fd: &ImmutableFileHandle) -> (r: Result<u64, StorageError>)
        requires
            self.readable(fd),
        ensures
            r matches Ok(n) && n == self@[fd.0 as int].data.len(),
    {
        let idx = self.index_of(fd.0);
        proof {
            assert(self@[idx as int] == self.files@[idx as int].model());
        }
        Ok(self.files[idx].data.len() as u64)
    }

    fn remove_file(&mut self, idx: usize)
        requires
            idx < old(self)@.len(),
        ensures
            final(self)@ == old(self)@.update(
                idx as int,
                FileModel { data: Seq::empty(), deleted: true, ..old(self)@[idx as int] },
            ),
    {
        let mut f = self.files.remove(idx);
        f.deleted = true;
        f.data = Vec::new();
        self.files.insert(idx, f);
        proof {
            assert(f.model().data =~= Seq::<u8>::empty());
            assert(self@ =~= old(self)@.update(idx as int, FileModel { data: Seq::empty(), deleted: true, ..old(self)@[idx as int] }));
        }
    }

    /// Deletes a completed file.
    pub fn delete(&mut self, fd: ImmutableFileHandle) -> (r: Result<(), StorageError>)
        requires
            old(self).readable(&fd),
        ensures
            r is Ok,
            final(self)@ == old(self)@.update(
                fd.0 as int,
                FileModel { data: Seq::empty(), deleted: true, ..old(self)@[fd.0 as int] },
            ),
    {
        let idx = self.index_of(fd.0);
        self.remove_file(idx);
        Ok(())
    }

    /// Deletes a file that was not completed.
    pub fn delete_mut(&mut self, fd: FileHandle) -> (r: Result<(), StorageError>)
        requires
            old(self).writable(&fd),
        ensures
            r is Ok,
            final(self)@ == old(self)@.update(
                fd.0 as int,
                FileModel { data: Seq::empty(), deleted: true, ..old(self)@[fd.0 as int] },
            ),
    {
        let idx = self.index_of(fd.0);
        self.remove_file(idx);
        Ok(())
    }
}

} // verus!
