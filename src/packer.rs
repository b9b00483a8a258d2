//! The entry scheduler: files registered by many producers, each buffered in
//! memory until it is finished, or promoted to a chunked entry streamed into
//! the one archive writer. Files are slots of an arena owned by the
//! scheduler; a `FilePacker` is an index into it.
//!
//! The priority queue is advisory: it orders registered files by declared
//! size, largest first, with files of unknown size ahead of all others and
//! ties taken in registration order. A driver uses it to pick which file to
//! promote to streaming next; finishing and promotion stay with the producers.

use vstd::prelude::*;
use vstd::set_lib::{lemma_int_range, set_int_range};
use crate::archive::{
    accepted, archive_bytes, model_add, model_begin, model_chunk, model_finish, model_inv, model_new,
    ArchiveError, ChunkedCompressor, Compressor, CompressorModel, EntryModel,
};

verus! {

/// A promoted file's chunked entry: its token and the bytes still owed.
pub struct ChunkModel {
    pub token: u64,
    pub remaining: u64,
}

/// What a registered file is, as seen by contracts.
pub struct FileModel {
    pub name: Seq<char>,
    /// Bytes held in memory, not yet in the archive.
    pub buffer: Seq<u8>,
    /// Once promoted to a chunked entry: its token and the bytes still owed.
    pub chunked: Option<ChunkModel>,
    pub finished: bool,
    /// The payload of the file's entry: every byte handed over before the
    /// file was finished.
    pub content: Seq<u8>,
}

/// The file has an entry in the archive (complete, streaming or queued).
pub open spec fn in_archive(f: FileModel) -> bool {
    f.finished || f.chunked is Some
}

/// The file's entry is complete.
pub open spec fn file_complete(f: FileModel) -> bool {
    f.finished || (f.chunked matches Some(c) && c.remaining == 0)
}

/// The scheduling key of a declared size: the size itself, or the largest
/// key for a file of unknown size, so that such files come first.
pub open spec fn priority_of(size: Option<u64>) -> u64 {
    match size {
        Some(s) => s,
        None => u64::MAX,
    }
}

/// A queued file: its index and its priority key.
pub struct QueueModel {
    pub file: int,
    pub priority: u64,
}

/// What a scheduler is, as seen by contracts.
pub struct PackerModel {
    pub archive: CompressorModel,
    pub files: Seq<FileModel>,
    pub queue: Seq<QueueModel>,
    /// For each entry of the archive, in archive order, the file it belongs to.
    pub owners: Seq<int>,
}

/// The scheduler's invariant: the archive is well framed, and its entries
/// correspond one to one with the files that have one.
pub open spec fn packer_inv(p: PackerModel) -> bool {
    &&& model_inv(p.archive)
    &&& p.owners.len() == accepted(p.archive).len()
    &&& p.owners.no_duplicates()
    &&& forall|k: int|
        0 <= k < p.owners.len() ==> {
            &&& 0 <= #[trigger] p.owners[k] < p.files.len()
            &&& in_archive(p.files[p.owners[k]])
            &&& p.files[p.owners[k]].name == accepted(p.archive)[k].name
            &&& p.files[p.owners[k]].content == accepted(p.archive)[k].data
        }
    &&& forall|f: int|
        0 <= f < p.files.len() && (#[trigger] p.files[f]).chunked is None && !p.files[f].finished
            ==> p.files[f].content == p.files[f].buffer
    &&& forall|f: int| 0 <= f < p.files.len() && in_archive(#[trigger] p.files[f]) ==> p.owners.contains(f)
    &&& forall|f: int|
        0 <= f < p.files.len() && (#[trigger] p.files[f]).chunked is Some ==> {
            &&& p.files[f].buffer.len() == 0
            &&& p.files[f].finished ==> p.files[f].chunked->0.remaining == 0
            &&& p.files[f].chunked->0.remaining > 0 ==> {
                &&& p.archive.active matches Some(a)
                &&& a.token == p.files[f].chunked->0.token
                &&& a.written.len() + p.files[f].chunked->0.remaining == a.size
                &&& p.owners[p.archive.done.len() as int] == f
            }
        }
    &&& forall|k: int| 0 <= k < p.queue.len() ==> 0 <= (#[trigger] p.queue[k]).file < p.files.len()
    &&& forall|j: int, k: int| 0 <= j < k < p.queue.len() ==> p.queue[j].file < p.queue[k].file
}

/// Finishing file `id`: a no-op once finished; a streamed file must be
/// complete; a buffered file becomes one archive entry.
pub open spec fn model_finish_file(p: PackerModel, id: int) -> (PackerModel, Result<(), ArchiveError>) {
    let f = p.files[id];
    if f.finished {
        (p, Ok(()))
    } else {
        match f.chunked {
            Some(c) => if c.remaining == 0 {
                (PackerModel { files: p.files.update(id, FileModel { finished: true, ..f }), ..p }, Ok(()))
            } else {
                (p, Err(ArchiveError::Incomplete))
            },
            None => {
                let added = model_add(p.archive, f.name, f.buffer);
                if added.1 is Ok {
                    (
                        PackerModel {
                            archive: added.0,
                            files: p.files.update(
                                id,
                                FileModel { finished: true, buffer: Seq::empty(), ..f },
                            ),
                            owners: p.owners.push(id),
                            ..p
                        },
                        added.1,
                    )
                } else {
                    (p, added.1)
                }
            },
        }
    }
}

/// `k` is the queue position that is drained next: no other key is larger,
/// and every earlier position has a smaller key.
pub open spec fn is_next(q: Seq<QueueModel>, k: int) -> bool {
    &&& 0 <= k < q.len()
    &&& forall|j: int| 0 <= j < q.len() ==> (#[trigger] q[j]).priority <= q[k].priority
    &&& forall|j: int| 0 <= j < k ==> (#[trigger] q[j]).priority < q[k].priority
}

/// An entry in the priority queue: a file with a declared size, or one of
/// unknown size.
pub enum QueueItem {
    Sized { path: String, file_packer: FilePacker, size: u64 },
    Unsized { path: String, file_packer: FilePacker },
}

impl QueueItem {
    pub open spec fn size_hint(&self) -> Option<u64> {
        match self {
            QueueItem::Sized { size, .. } => Some(*size),
            QueueItem::Unsized { .. } => None,
        }
    }

    pub open spec fn file(&self) -> FilePacker {
        match self {
            QueueItem::Sized { file_packer, .. } => *file_packer,
            QueueItem::Unsized { file_packer, .. } => *file_packer,
        }
    }

    pub open spec fn model(&self) -> QueueModel {
        QueueModel { file: self.file().id as int, priority: priority_of(self.size_hint()) }
    }

    /// The scheduling key of this entry.
    pub fn priority(&self) -> (r: u64)
        ensures
            r == priority_of(self.size_hint()),
    {
        match self {
            QueueItem::Sized { size, .. } => *size,
            QueueItem::Unsized { .. } => u64::MAX,
        }
    }

    /// The file this entry schedules.
    pub fn file_packer(&self) -> (r: FilePacker)
        ensures
            r == self.file(),
    {
        match self {
            QueueItem::Sized { file_packer, .. } => *file_packer,
            QueueItem::Unsized { file_packer, .. } => *file_packer,
        }
    }
}

/// A handle on a registered file: its index in the scheduler.
#[derive(Clone, Copy, Debug, PartialEq, Eq, Structural)]
pub struct FilePacker {
    pub id: usize,
}

struct FileSlot {
    name: String,
    buffer: Vec<u8>,
    chunked: Option<ChunkedCompressor>,
    finished: bool,
    content: Ghost<Seq<u8>>,
}

impl FileSlot {
    spec fn model(&self) -> FileModel {
        FileModel {
            name: self.name@,
            buffer: self.buffer@,
            chunked: match self.chunked {
                Some(c) => Some(ChunkModel { token: c.token(), remaining: c.remaining() }),
                None => None,
            },
            finished: self.finished,
            content: self.content@,
        }
    }
}

/// The scheduler: the archive writer, the registered files and the queue.
pub struct Packer {
    compressor: Compressor,
    files: Vec<FileSlot>,
    queue: Vec<QueueItem>,
    owners: Ghost<Seq<int>>,
}

impl View for Packer {
    type V = PackerModel;

    closed spec fn view(&self) -> PackerModel {
        PackerModel {
            archive: self.compressor@,
            files: Seq::new(self.files@.len(), |i: int| self.files@[i].model()),
            queue: Seq::new(self.queue@.len(), |i: int| self.queue@[i].model()),
            owners: self.owners@,
        }
    }
}

/// Accepting a complete entry adds it at the end of the accepted entries.
proof fn lemma_accepted_add(m: CompressorModel, name: Seq<char>, data: Seq<u8>)
    requires
        model_inv(m),
        model_add(m, name, data).1 is Ok,
    ensures
        accepted(model_add(m, name, data).0) == accepted(m).push(EntryModel { name, data }),
        model_add(m, name, data).0.done.len() >= m.done.len(),
        m.active is Some ==> model_add(m, name, data).0.done == m.done && model_add(
            m,
            name,
            data,
        ).0.active == m.active,
{
    let n = model_add(m, name, data).0;
    match m.active {
        None => {
            assert(accepted(n) =~= accepted(m).push(EntryModel { name, data }));
        },
        Some(a) => {
            assert(accepted(n) =~= accepted(m).push(EntryModel { name, data }));
        },
    }
}

/// Starting a chunked entry adds it, still empty, at the end of the accepted entries.
proof fn lemma_accepted_begin(m: CompressorModel, name: Seq<char>, size: u64)
    requires
        model_inv(m),
        model_begin(m, name, size).1 is Ok,
    ensures
        accepted(model_begin(m, name, size).0) == accepted(m).push(
            EntryModel { name, data: Seq::empty() },
        ),
        accepted(m) == m.done,
        size > 0 ==> model_begin(m, name, size).0.done == m.done,
{
    let n = model_begin(m, name, size).0;
    assert(accepted(m) =~= m.done);
    assert(accepted(n) =~= accepted(m).push(EntryModel { name, data: Seq::empty() }));
}

/// Writing chunk bytes keeps the accepted entries and their names.
proof fn lemma_accepted_chunk(m: CompressorModel, token: u64, data: Seq<u8>)
    requires
        model_inv(m),
        model_chunk(m, token, data).1 is Ok,
    ensures
        accepted(model_chunk(m, token, data).0).len() == accepted(m).len(),
        forall|k: int|
            0 <= k < accepted(m).len() ==> (#[trigger] accepted(model_chunk(m, token, data).0)[k]).name
                == accepted(m)[k].name,
        model_chunk(m, token, data).0.active is Some ==> model_chunk(m, token, data).0.done
            == m.done,
        data.len() == 0 ==> model_chunk(m, token, data).0 == m,
        data.len() > 0 ==> m.active is Some && accepted(model_chunk(m, token, data).0) == accepted(
            m,
        ).update(
            m.done.len() as int,
            EntryModel { name: m.active->0.name, data: m.active->0.written + data },
        ),
{
    let n = model_chunk(m, token, data).0;
    let a = m.active->0;
    if data.len() > 0 {
        assert(accepted(n) =~= m.done.push(EntryModel { name: a.name, data: a.written + data })
            + m.queued);
        assert(accepted(n) =~= accepted(m).update(
            m.done.len() as int,
            EntryModel { name: a.name, data: a.written + data },
        ));
    }
}

impl Packer {
    pub closed spec fn wf(&self) -> bool {
        &&& self.compressor.wf()
        &&& packer_inv(self@)
    }

    /// A well-formed scheduler satisfies its invariant.
    pub proof fn lemma_inv(&self)
        requires
            self.wf(),
        ensures
            packer_inv(self@),
    {
    }

    /// A scheduler over a fresh archive writer with modification time `mtime`.
    pub fn new(mtime: u64) -> (r: Packer)
        ensures
            r.wf(),
            r@.archive == model_new(mtime),
            r@.files.len() == 0,
            r@.queue.len() == 0,
    {
        let r = Packer {
            compressor: Compressor::new(mtime),
            files: Vec::new(),
            queue: Vec::new(),
            owners: Ghost(Seq::empty()),
        };
        assert(accepted(r@.archive) =~= Seq::<EntryModel>::empty());
        r
    }

    /// Registers a file, with its declared size if known, and queues it
    /// under that size's priority. The archive is not touched.
    pub fn new_file(&mut self, name: String, size: Option<u64>) -> (r: FilePacker)
        requires
            old(self).wf(),
            old(self)@.files.len() < usize::MAX,
        ensures
            final(self).wf(),
            r.id == old(self)@.files.len(),
            final(self)@.files == old(self)@.files.push(
                FileModel {
                    name: name@,
                    buffer: Seq::empty(),
                    chunked: None,
                    finished: false,
                    content: Seq::empty(),
                },
            ),
            final(self)@.queue == old(self)@.queue.push(
                QueueModel { file: r.id as int, priority: priority_of(size) },
            ),
            final(self)@.archive == old(self)@.archive,
            final(self)@.owners == old(self)@.owners,
    {
        let ghost p = self@;
        let id = self.files.len();
        let file_packer = FilePacker { id };
        let item = match size {
            Some(size) => QueueItem::Sized { path: name.clone(), file_packer, size },
            None => QueueItem::Unsized { path: name.clone(), file_packer },
        };
        self.files.push(
            FileSlot {
                name,
                buffer: Vec::new(),
                chunked: None,
                finished: false,
                content: Ghost(Seq::empty()),
            },
        );
        self.queue.push(item);
        let ghost f = FileModel {
                    name: name@,
                    buffer: Seq::empty(),
                    chunked: None,
                    finished: false,
                    content: Seq::empty(),
                };
        assert(self@.files =~= p.files.push(f));
        assert(self@.queue =~= p.queue.push(QueueModel { file: id as int, priority: priority_of(size) }));
        assert(forall|k: int| 0 <= k < p.owners.len() ==> self@.files[p.owners[k]] == p.files[p.owners[k]]);
        assert(packer_inv(self@));
        file_packer
    }
}


impl FilePacker {
    /// Hands the next bytes of the file over: appended to its in-memory
    /// buffer, which never touches the archive, or, once promoted, streamed
    /// into its chunked entry.
    pub fn write(&self, packer: &mut Packer, buf: &[u8]) -> (r: Result<(), ArchiveError>)
        requires
            old(packer).wf(),
            self.id < old(packer)@.files.len(),
        ensures
            final(packer).wf(),
            ({
                let p = old(packer)@;
                let f = p.files[self.id as int];
                match f.chunked {
                    None => r is Ok && final(packer)@ == (PackerModel {
                        files: p.files.update(
                            self.id as int,
                            FileModel {
                                buffer: f.buffer + buf@,
                                content: if f.finished {
                                    f.content
                                } else {
                                    f.content + buf@
                                },
                                ..f
                            },
                        ),
                        ..p
                    }),
                    Some(c) => if buf@.len() == 0 {
                        r is Ok && final(packer)@ == p
                    } else if buf@.len() > c.remaining {
                        r == Err::<(), ArchiveError>(ArchiveError::Overflow) && final(packer)@ == p
                    } else {
                        &&& r is Ok
                        &&& final(packer)@.archive == model_chunk(p.archive, c.token, buf@).0
                        &&& final(packer)@.files == p.files.update(
                            self.id as int,
                            FileModel {
                                chunked: Some(
                                    ChunkModel {
                                        remaining: (c.remaining - buf@.len()) as u64,
                                        ..c
                                    },
                                ),
                                content: f.content + buf@,
                                ..f
                            },
                        )
                        &&& final(packer)@.queue == p.queue
                        &&& final(packer)@.owners == p.owners
                    },
                }
            }),
    {
        let id = self.id;
        let ghost p = packer@;
        let ghost f = p.files[id as int];
        if packer.files[id].chunked.is_none() {
            packer.files[id].buffer.extend_from_slice(buf);
            if !packer.files[id].finished {
                packer.files[id].content = Ghost(packer.files@[id as int].content@ + buf@);
            }
            let ghost nf = FileModel {
                buffer: f.buffer + buf@,
                content: if f.finished {
                    f.content
                } else {
                    f.content + buf@
                },
                ..f
            };
            assert(packer.files@[id as int].buffer@ =~= f.buffer + buf@);
            assert(packer@.files =~= p.files.update(id as int, nf));
            assert(forall|k: int|
                0 <= k < p.owners.len() ==> packer@.files[p.owners[k]].name == p.files[p.owners[k]].name
                    && packer@.files[p.owners[k]].content == p.files[p.owners[k]].content
                    && in_archive(packer@.files[p.owners[k]]) == in_archive(p.files[p.owners[k]]));
            assert(packer_inv(packer@));
            return Ok(());
        }
        if buf.len() == 0 {
            return Ok(());
        }
        let mut chunked = match packer.files[id].chunked.take() {
            Some(c) => c,
            None => return Ok(()),
        };
        let r = chunked.add_chunk(&mut packer.compressor, buf);
        packer.files[id].chunked = Some(chunked);
        if r.is_ok() {
            packer.files[id].content = Ghost(packer.files@[id as int].content@ + buf@);
        }
        proof {
            packer.compressor.lemma_inv();
            let c = f.chunked->0;
            if buf@.len() <= c.remaining {
                assert(p.files[id as int].chunked is Some);
                let a = p.archive.active->0;
                assert(p.archive.active is Some && a.token == c.token && a.written.len() + c.remaining == a.size);
                assert(model_chunk(p.archive, c.token, buf@).1 is Ok);
                lemma_accepted_chunk(p.archive, c.token, buf@);
                let d = p.archive.done.len() as int;
                assert(p.owners[d] == id);
                assert(accepted(p.archive)[d] == EntryModel { name: a.name, data: a.written });
                assert forall|g: int|
                    0 <= g < packer@.files.len() && (#[trigger] packer@.files[g]).chunked is Some
                        && g != id implies packer@.files[g].chunked->0.remaining == 0 by {
                    assert(packer@.files[g] == p.files[g]);
                    if p.files[g].chunked->0.remaining > 0 {
                        assert(p.owners[p.archive.done.len() as int] == g);
                    }
                }
                assert(packer@.files =~= p.files.update(
                    id as int,
                    FileModel {
                        chunked: Some(ChunkModel { remaining: (c.remaining - buf@.len()) as u64, ..c }),
                        content: f.content + buf@,
                        ..f
                    },
                ));
                assert forall|k: int| 0 <= k < p.owners.len() implies {
                    &&& packer@.files[#[trigger] p.owners[k]].name == accepted(packer@.archive)[k].name
                    &&& packer@.files[p.owners[k]].content == accepted(packer@.archive)[k].data
                    &&& in_archive(packer@.files[p.owners[k]])
                } by {
                    if k == d {
                        assert(p.owners[k] == id);
                    } else {
                        assert(p.owners[k] != id) by {
                            assert(p.owners.no_duplicates());
                        }
                        assert(packer@.files[p.owners[k]] == p.files[p.owners[k]]);
                    }
                }
            } else {
                assert(packer@.files =~= p.files);
                assert(packer@ == p);
            }
        }
        assert(packer_inv(packer@));
        r
    }
}


impl FilePacker {
    /// Completes the file. A buffered file is appended to the archive as one
    /// entry (empty or not); a streamed file must have received every
    /// declared byte. A second call changes nothing and succeeds.
    pub fn finish(&self, packer: &mut Packer) -> (r: Result<(), ArchiveError>)
        requires
            old(packer).wf(),
            self.id < old(packer)@.files.len(),
        ensures
            final(packer).wf(),
            (final(packer)@, r) == model_finish_file(old(packer)@, self.id as int),
    {
        let id = self.id;
        let ghost p = packer@;
        let ghost f = p.files[id as int];
        if packer.files[id].finished {
            return Ok(());
        }
        match &packer.files[id].chunked {
            Some(c) => {
                if !c.is_complete() {
                    return Err(ArchiveError::Incomplete);
                }
                packer.files[id].finished = true;
                assert(packer@.files =~= p.files.update(id as int, FileModel { finished: true, ..f }));
                assert(forall|k: int|
                    0 <= k < p.owners.len() ==> packer@.files[p.owners[k]].name == p.files[p.owners[k]].name
                        && in_archive(packer@.files[p.owners[k]]));
                assert(packer_inv(packer@));
                return Ok(());
            },
            None => {},
        }
        let r = packer.compressor.add_file_with_data(packer.files[id].name.as_str(), packer.files[id].buffer.as_slice());
        proof {
            packer.compressor.lemma_inv();
        }
        if r.is_err() {
            return r;
        }
        packer.files[id].finished = true;
        packer.files[id].buffer = Vec::new();
        let ghost fin = FileModel { finished: true, buffer: Seq::empty(), ..f };
        proof {
            lemma_accepted_add(p.archive, f.name, f.buffer);
            packer.owners@ = packer.owners@.push(id as int);
        }
        assert(packer@.files =~= p.files.update(id as int, fin));
        let ghost q = packer@;
        assert(!p.owners.contains(id as int));
        assert(q.owners.no_duplicates());
        assert forall|k: int| 0 <= k < q.owners.len() implies {
            &&& 0 <= #[trigger] q.owners[k] < q.files.len()
            &&& in_archive(q.files[q.owners[k]])
            &&& q.files[q.owners[k]].name == accepted(q.archive)[k].name
        } by {
            if k < p.owners.len() {
                assert(q.owners[k] == p.owners[k]);
            }
        }
        assert forall|g: int| 0 <= g < q.files.len() && in_archive(#[trigger] q.files[g]) implies q.owners.contains(g) by {
            if g != id {
                assert(p.owners.contains(g));
                let k = choose|k: int| 0 <= k < p.owners.len() && p.owners[k] == g;
                assert(q.owners[k] == g);
            } else {
                assert(q.owners[p.owners.len() as int] == g);
            }
        }
        assert forall|g: int|
            0 <= g < q.files.len() && (#[trigger] q.files[g]).chunked is Some
                && q.files[g].chunked->0.remaining > 0 implies q.owners[q.archive.done.len() as int] == g by {
            assert(q.files[g] == p.files[g]);
            assert(p.owners[p.archive.done.len() as int] == g);
        }
        assert(packer_inv(q));
        r
    }

    /// Promotes a buffered file to a chunked entry of `size` bytes: the
    /// header is written and the bytes buffered so far are streamed into it.
    pub fn activate_when_unfinished(&self, packer: &mut Packer, size: u64) -> (r: Result<(), ArchiveError>)
        requires
            old(packer).wf(),
            self.id < old(packer)@.files.len(),
        ensures
            final(packer).wf(),
            ({
                let p = old(packer)@;
                let f = p.files[self.id as int];
                let begun = model_begin(p.archive, f.name, size);
                if f.finished || f.chunked is Some {
                    r == Err::<(), ArchiveError>(ArchiveError::AlreadyActivated) && final(packer)@ == p
                } else if f.buffer.len() > size {
                    r == Err::<(), ArchiveError>(ArchiveError::Overflow) && final(packer)@ == p
                } else if begun.1 is Err {
                    r == begun.1 && final(packer)@ == p
                } else {
                    &&& r is Ok
                    &&& final(packer)@.archive == if f.buffer.len() == 0 {
                        begun.0
                    } else {
                        model_chunk(begun.0, p.archive.next_token, f.buffer).0
                    }
                    &&& final(packer)@.files == p.files.update(
                        self.id as int,
                        FileModel {
                            buffer: Seq::empty(),
                            chunked: Some(
                                ChunkModel {
                                    token: p.archive.next_token,
                                    remaining: (size - f.buffer.len()) as u64,
                                },
                            ),
                            ..f
                        },
                    )
                    &&& final(packer)@.owners == p.owners.push(self.id as int)
                    &&& final(packer)@.queue == p.queue
                }
            }),
    {
        let id = self.id;
        let ghost p = packer@;
        let ghost f = p.files[id as int];
        if packer.files[id].finished || packer.files[id].chunked.is_some() {
            return Err(ArchiveError::AlreadyActivated);
        }
        if packer.files[id].buffer.len() as u64 > size {
            return Err(ArchiveError::Overflow);
        }
        let begun = packer.compressor.add_chunked_file(packer.files[id].name.as_str(), size);
        proof {
            packer.compressor.lemma_inv();
        }
        let mut chunked = match begun {
            Ok(c) => c,
            Err(e) => return Err(e),
        };
        let ghost m1 = packer.compressor@;
        proof {
            lemma_accepted_begin(p.archive, f.name, size);
        }
        let mut buffer: Vec<u8> = Vec::new();
        std::mem::swap(&mut buffer, &mut packer.files[id].buffer);
        if buffer.len() > 0 {
            let written = chunked.add_chunk(&mut packer.compressor, buffer.as_slice());
            proof {
                packer.compressor.lemma_inv();
                assert(m1.active is Some);
                assert(model_chunk(m1, p.archive.next_token, f.buffer).1 is Ok);
                lemma_accepted_chunk(m1, p.archive.next_token, f.buffer);
            }
        }
        packer.files[id].chunked = Some(chunked);
        proof {
            packer.owners@ = packer.owners@.push(id as int);
        }
        let ghost fin = FileModel {
            buffer: Seq::empty(),
            chunked: Some(ChunkModel { token: p.archive.next_token, remaining: (size - f.buffer.len()) as u64 }),
            ..f
        };
        assert(packer@.files =~= p.files.update(id as int, fin));
        let ghost q = packer@;
        assert(!p.owners.contains(id as int));
        assert(q.owners.no_duplicates());
        assert forall|k: int| 0 <= k < q.owners.len() implies {
            &&& 0 <= #[trigger] q.owners[k] < q.files.len()
            &&& in_archive(q.files[q.owners[k]])
            &&& q.files[q.owners[k]].name == accepted(q.archive)[k].name
            &&& q.files[q.owners[k]].content == accepted(q.archive)[k].data
        } by {
            assert(Seq::<u8>::empty() + f.buffer =~= f.buffer);
            if k < p.owners.len() {
                assert(q.owners[k] == p.owners[k]);
                assert(accepted(q.archive)[k] == accepted(p.archive)[k]);
            } else {
                assert(accepted(q.archive)[k] == EntryModel { name: f.name, data: f.buffer });
            }
        }
        assert forall|g: int| 0 <= g < q.files.len() && in_archive(#[trigger] q.files[g]) implies q.owners.contains(g) by {
            if g != id {
                assert(p.owners.contains(g));
                let k = choose|k: int| 0 <= k < p.owners.len() && p.owners[k] == g;
                assert(q.owners[k] == g);
            } else {
                assert(q.owners[p.owners.len() as int] == g);
            }
        }
        assert forall|g: int|
            0 <= g < q.files.len() && (#[trigger] q.files[g]).chunked is Some
                && q.files[g].chunked->0.remaining > 0 implies q.owners[q.archive.done.len() as int] == g by {
            if g != id {
                assert(q.files[g] == p.files[g]);
                assert(p.files[g].chunked->0.remaining > 0);
                assert(false);
            } else {
                assert(p.archive.done.len() == p.owners.len());
            }
        }
        assert(q.queue == p.queue);
        assert(forall|k: int| 0 <= k < q.queue.len() ==> 0 <= (#[trigger] q.queue[k]).file < q.files.len());
        assert(forall|j: int, k: int| 0 <= j < k < q.queue.len() ==> q.queue[j].file < q.queue[k].file);
        assert(packer_inv(q));
        Ok(())
    }
}


impl Packer {
    /// How many files have been registered.
    pub fn file_count(&self) -> (r: usize)
        ensures
            r == self@.files.len(),
    {
        self.files.len()
    }

    /// Hands the framed bytes produced since the last call to the caller's sink.
    pub fn take_output(&mut self) -> (r: Vec<u8>)
        requires
            old(self).wf(),
        ensures
            final(self).wf(),
            r@ == old(self)@.archive.stream.subrange(
                old(self)@.archive.taken as int,
                old(self)@.archive.stream.len() as int,
            ),
            final(self)@ == (PackerModel {
                archive: CompressorModel { taken: old(self)@.archive.stream.len(), ..old(self)@.archive },
                ..old(self)@
            }),
    {
        let r = self.compressor.take_output();
        proof {
            self.compressor.lemma_inv();
        }
        assert(accepted(self@.archive) == accepted(old(self)@.archive));
        r
    }

    /// Closes the archive once every registered file is complete; refused,
    /// with nothing written, while some file is still open.
    pub fn finish(&mut self) -> (r: Result<(), ArchiveError>)
        requires
            old(self).wf(),
        ensures
            final(self).wf(),
            (forall|f: int| 0 <= f < old(self)@.files.len() ==> file_complete(#[trigger] old(self)@.files[f]))
                ==> (final(self)@.archive, r) == model_finish(old(self)@.archive) && final(self)@
                == (PackerModel { archive: final(self)@.archive, ..old(self)@ }),
            !(forall|f: int| 0 <= f < old(self)@.files.len() ==> file_complete(#[trigger] old(self)@.files[f]))
                ==> r == Err::<(), ArchiveError>(ArchiveError::Incomplete) && final(self)@ == old(self)@,
    {
        let ghost p = self@;
        let mut i: usize = 0;
        while i < self.files.len()
            invariant
                self@ == p,
                self.wf(),
                i <= self.files@.len(),
                forall|f: int| 0 <= f < i ==> file_complete(#[trigger] p.files[f]),
            decreases self.files@.len() - i,
        {
            let complete = match &self.files[i].chunked {
                Some(c) => self.files[i].finished || c.is_complete(),
                None => self.files[i].finished,
            };
            if !complete {
                assert(!file_complete(p.files[i as int]));
                return Err(ArchiveError::Incomplete);
            }
            i = i + 1;
        }
        let r = self.compressor.finish();
        proof {
            self.compressor.lemma_inv();
            assert(forall|f: int| 0 <= f < p.files.len() ==> file_complete(#[trigger] p.files[f]));
            assert(accepted(self@.archive) == accepted(p.archive));
        }
        r
    }

    /// Removes and returns the queued file that is drained next: the largest
    /// declared size, files of unknown size first, ties in registration order.
    pub fn next_file(&mut self) -> (r: Option<FilePacker>)
        requires
            old(self).wf(),
        ensures
            final(self).wf(),
            old(self)@.queue.len() == 0 ==> r is None && final(self)@ == old(self)@,
            old(self)@.queue.len() > 0 ==> exists|k: int|
                {
                    &&& is_next(old(self)@.queue, k)
                    &&& r == Some(FilePacker { id: old(self)@.queue[k].file as usize })
                    &&& final(self)@ == (PackerModel { queue: old(self)@.queue.remove(k), ..old(self)@ })
                },
    {
        let ghost p = self@;
        if self.queue.len() == 0 {
            return None;
        }
        let mut best: usize = 0;
        let mut i: usize = 1;
        while i < self.queue.len()
            invariant
                self@ == p,
                p.queue.len() == self.queue@.len(),
                best < i <= self.queue@.len(),
                forall|j: int| 0 <= j < i ==> (#[trigger] p.queue[j]).priority <= p.queue[best as int].priority,
                forall|j: int| 0 <= j < best ==> (#[trigger] p.queue[j]).priority < p.queue[best as int].priority,
            decreases self.queue@.len() - i,
        {
            if self.queue[i].priority() > self.queue[best].priority() {
                best = i;
            }
            i = i + 1;
        }
        let item = self.queue.remove(best);
        let r = item.file_packer();
        let ghost q = self@;
        assert(q.queue =~= p.queue.remove(best as int));
        assert forall|j: int, k: int| 0 <= j < k < q.queue.len() implies q.queue[j].file < q.queue[k].file by {
            if j >= best {
                assert(q.queue[j] == p.queue[j + 1]);
            }
            if k >= best {
                assert(q.queue[k] == p.queue[k + 1]);
            }
        }
        assert(is_next(p.queue, best as int));
        Some(r)
    }
}

/// Draining the queue twice yields keys in descending order: the second
/// file's key is no larger than the first's, and, on equal keys, the second
/// file was registered later.
pub proof fn lemma_drain_order(q: Seq<QueueModel>, k: int, k2: int)
    requires
        forall|j: int, l: int| 0 <= j < l < q.len() ==> q[j].file < q[l].file,
        is_next(q, k),
        is_next(q.remove(k), k2),
    ensures
        q.remove(k)[k2].priority <= q[k].priority,
        q.remove(k)[k2].priority == q[k].priority ==> q[k].file < q.remove(k)[k2].file,
{
    let j = if k2 < k { k2 } else { k2 + 1 };
    assert(q.remove(k)[k2] == q[j]);
}

/// A file of unknown size is drained before any file of declared size.
pub proof fn lemma_unsized_first(size: u64)
    ensures
        priority_of(Some(size)) <= priority_of(None),
{
}

/// Every file that has an entry has exactly one, whatever order the
/// producers finished in: the archive's entries are as many as those files.
/// Once every registered file is complete, there is one entry per file.
pub proof fn lemma_one_entry_per_file(p: PackerModel)
    requires
        packer_inv(p),
    ensures
        accepted(p.archive).len() == Set::new(|f: int| 0 <= f < p.files.len() && in_archive(p.files[f])).len(),
        (forall|f: int| 0 <= f < p.files.len() ==> file_complete(#[trigger] p.files[f])) ==> accepted(
            p.archive,
        ).len() == p.files.len(),
{
    let s = Set::new(|f: int| 0 <= f < p.files.len() && in_archive(p.files[f]));
    p.owners.unique_seq_to_set();
    assert forall|f: int| s.contains(f) <==> p.owners.to_set().contains(f) by {
        if p.owners.to_set().contains(f) {
            let k = choose|k: int| 0 <= k < p.owners.len() && p.owners[k] == f;
            assert(0 <= p.owners[k] < p.files.len());
        }
    }
    assert(s =~= p.owners.to_set());
    if forall|f: int| 0 <= f < p.files.len() ==> file_complete(#[trigger] p.files[f]) {
        assert(s =~= set_int_range(0, p.files.len() as int));
        lemma_int_range(0, p.files.len() as int);
    }
}

/// Finishing a file twice gives one archive entry, not two: the second call
/// succeeds and changes nothing, and the first adds at most one entry.
pub proof fn lemma_finish_twice(p: PackerModel, id: int)
    requires
        packer_inv(p),
        0 <= id < p.files.len(),
        model_finish_file(p, id).1 is Ok,
    ensures
        model_finish_file(model_finish_file(p, id).0, id) == (model_finish_file(p, id).0, Ok::<(), ArchiveError>(())),
        accepted(model_finish_file(p, id).0.archive).len() <= accepted(p.archive).len() + 1,
{
    let f = p.files[id];
    if !f.finished && f.chunked is None {
        lemma_accepted_add(p.archive, f.name, f.buffer);
    }
}


/// The archive entry a file contributes: its name and its content.
pub open spec fn file_entry(f: FileModel) -> EntryModel {
    EntryModel { name: f.name, data: f.content }
}

/// Whatever order the producers' calls came in, the archive's entries are
/// the files that have one, each exactly once, with their names and every
/// byte handed over before they were finished: the entries are the files
/// listed by `owners`, which names each such file once and no other. Once
/// every registered file is complete and the archive is closed, the archive
/// is exactly the frames of one entry per file, then the end marker.
pub proof fn lemma_entries_are_files(p: PackerModel)
    requires
        packer_inv(p),
    ensures
        accepted(p.archive) == p.owners.map_values(|f: int| file_entry(p.files[f])),
        p.owners.no_duplicates(),
        p.owners.to_set() == Set::new(|f: int| 0 <= f < p.files.len() && in_archive(p.files[f])),
        p.archive.closed ==> p.archive.stream == archive_bytes(p.archive.mtime, accepted(p.archive)),
        (forall|f: int| 0 <= f < p.files.len() ==> file_complete(#[trigger] p.files[f]))
            ==> p.owners.len() == p.files.len(),
{
    let es = p.owners.map_values(|f: int| file_entry(p.files[f]));
    assert forall|k: int| 0 <= k < es.len() implies #[trigger] es[k] == accepted(p.archive)[k] by {
        assert(p.files[p.owners[k]].name == accepted(p.archive)[k].name);
    }
    assert(accepted(p.archive) =~= es);
    let s = Set::new(|f: int| 0 <= f < p.files.len() && in_archive(p.files[f]));
    assert forall|f: int| s.contains(f) <==> p.owners.to_set().contains(f) by {
        if p.owners.to_set().contains(f) {
            let k = choose|k: int| 0 <= k < p.owners.len() && p.owners[k] == f;
            assert(0 <= p.owners[k] < p.files.len());
        }
    }
    assert(s =~= p.owners.to_set());
    if p.archive.closed {
        assert(accepted(p.archive) =~= p.archive.done);
    }
    lemma_one_entry_per_file(p);
}

} // verus!
