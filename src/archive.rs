//! The tar framing writer: every entry is a 512-byte header, the payload and
//! zero padding up to the next 512-byte boundary; the archive ends with two
//! zero blocks. Framed bytes are handed out to the caller's sink in order.

use vstd::prelude::*;

verus! {

/// Size of a tar block: headers are one block, payloads are padded to it.
pub const BLOCK_SIZE: usize = 512;

/// Size of the end-of-archive marker: two zero blocks.
pub const END_MARKER_SIZE: usize = 1024;

/// Permission bits written into every entry header.
pub const FILE_MODE: u32 = 0o644;

/// The header block that the `tar` crate builds for a regular entry with this
/// path, mode, modification time and size; `None` where the path cannot be
/// represented in the header's name field.
pub uninterp spec fn gnu_header_block(path: Seq<char>, mode: u32, mtime: u64, size: u64) -> Option<
    Seq<u8>,
>;

/// Relies on `tar::Header::new_gnu` and its setters `set_path`, `set_mode`,
/// `set_mtime`, `set_size`, `set_cksum`, read back through `as_bytes`: the
/// header block depends on these arguments alone, is 512 bytes long, and
/// `set_path` is the only step that fails.
#[verifier::external_body]
fn gnu_header(path: &str, mode: u32, mtime: u64, size: u64) -> (r: Option<Vec<u8>>)
    ensures
        match r {
            Some(h) => gnu_header_block(path@, mode, mtime, size) == Some(h@),
            None => gnu_header_block(path@, mode, mtime, size) is None,
        },
        r matches Some(h) ==> h@.len() == BLOCK_SIZE,
{
    let mut header = tar::Header::new_gnu();
    match header.set_path(path) {
        Ok(()) => {},
        Err(_) => return None,
    }
    header.set_mode(mode);
    header.set_mtime(mtime);
    header.set_size(size);
    header.set_cksum();
    Some(header.as_bytes().to_vec())
}

/// One entry of the archive: its path and its payload.
pub struct EntryModel {
    pub name: Seq<char>,
    pub data: Seq<u8>,
}

/// A run of `n` zero bytes.
pub open spec fn zeros(n: nat) -> Seq<u8> {
    Seq::new(n, |i: int| 0u8)
}

/// Number of zero bytes that follow a payload of `n` bytes.
pub open spec fn padding_len(n: nat) -> nat {
    if n % 512 == 0 {
        0
    } else {
        (512 - n % 512) as nat
    }
}

/// The header of an entry named `name` with a payload of `size` bytes.
pub open spec fn header_of(mtime: u64, name: Seq<char>, size: nat) -> Seq<u8> {
    match gnu_header_block(name, FILE_MODE, mtime, size as u64) {
        Some(h) => h,
        None => Seq::empty(),
    }
}

/// The name can be framed with a payload of `size` bytes.
pub open spec fn header_valid(mtime: u64, name: Seq<char>, size: nat) -> bool {
    &&& size <= u64::MAX
    &&& gnu_header_block(name, FILE_MODE, mtime, size as u64) is Some
    &&& header_of(mtime, name, size).len() == BLOCK_SIZE
}

/// The framed bytes of one entry: header, payload, padding.
pub open spec fn frame(mtime: u64, e: EntryModel) -> Seq<u8> {
    header_of(mtime, e.name, e.data.len()) + e.data + zeros(padding_len(e.data.len()))
}

/// The framed bytes of a sequence of entries, in order.
pub open spec fn entries_bytes(mtime: u64, es: Seq<EntryModel>) -> Seq<u8>
    decreases es.len(),
{
    if es.len() == 0 {
        Seq::empty()
    } else {
        entries_bytes(mtime, es.drop_last()) + frame(mtime, es.last())
    }
}

/// A complete archive holding `es`: their frames and the end marker.
pub open spec fn archive_bytes(mtime: u64, es: Seq<EntryModel>) -> Seq<u8> {
    entries_bytes(mtime, es) + zeros(END_MARKER_SIZE as nat)
}

/// Every entry of `es` has a valid header.
pub open spec fn all_headers_valid(mtime: u64, es: Seq<EntryModel>) -> bool {
    forall|i: int| 0 <= i < es.len() ==> header_valid(mtime, #[trigger] es[i].name, es[i].data.len())
}

/// Framing distributes over concatenation of entry sequences.
pub proof fn lemma_entries_bytes_concat(mtime: u64, a: Seq<EntryModel>, b: Seq<EntryModel>)
    ensures
        entries_bytes(mtime, a + b) == entries_bytes(mtime, a) + entries_bytes(mtime, b),
    decreases b.len(),
{
    if b.len() == 0 {
        assert(a + b =~= a);
        assert(entries_bytes(mtime, a) + entries_bytes(mtime, b) =~= entries_bytes(mtime, a));
    } else {
        assert((a + b).drop_last() =~= a + b.drop_last());
        assert((a + b).last() == b.last());
        lemma_entries_bytes_concat(mtime, a, b.drop_last());
        assert(entries_bytes(mtime, a + b) =~= entries_bytes(mtime, a) + entries_bytes(mtime, b));
    }
}

/// Framing one more entry appends its frame.
pub proof fn lemma_entries_bytes_push(mtime: u64, a: Seq<EntryModel>, e: EntryModel)
    ensures
        entries_bytes(mtime, a.push(e)) == entries_bytes(mtime, a) + frame(mtime, e),
{
    assert(a.push(e).drop_last() =~= a);
}


/// Why a framing operation was refused. A refused operation leaves the
/// writer exactly as it was.
#[derive(Clone, Copy, Debug, PartialEq, Eq, Structural)]
pub enum ArchiveError {
    /// The end marker has been written; nothing more is accepted.
    Closed,
    /// The name cannot be represented in a tar header.
    InvalidName,
    /// A chunked entry is being written; another cannot start until it is complete.
    Busy,
    /// The token does not name the chunked entry being written.
    UnknownToken,
    /// The bytes would exceed the size declared for the chunked entry.
    Overflow,
    /// A chunked entry has received fewer bytes than its declared size.
    Incomplete,
    /// The file is already streamed as a chunked entry, or already written.
    AlreadyActivated,
}

/// The chunked entry being written, as seen by contracts.
pub struct ActiveModel {
    pub token: u64,
    pub name: Seq<char>,
    pub size: u64,
    pub written: Seq<u8>,
}

/// What a writer is, as seen by contracts.
pub struct CompressorModel {
    /// Every framed byte produced so far, handed out or not.
    pub stream: Seq<u8>,
    /// How many bytes of `stream` have been handed to the sink.
    pub taken: nat,
    /// Entries whose frames are complete in `stream`, in order.
    pub done: Seq<EntryModel>,
    /// The chunked entry whose header is in `stream` and whose payload is arriving.
    pub active: Option<ActiveModel>,
    /// Complete entries accepted while a chunked entry was open; framed after it.
    pub queued: Seq<EntryModel>,
    pub mtime: u64,
    pub next_token: u64,
    pub closed: bool,
}

/// The token that follows `t`.
pub open spec fn token_after(t: u64) -> u64 {
    if t == u64::MAX {
        0
    } else {
        (t + 1) as u64
    }
}

/// The bytes of `stream` that follow the frames of `done` while the writer is open.
pub open spec fn open_tail(m: CompressorModel) -> Seq<u8> {
    match m.active {
        None => Seq::empty(),
        Some(a) => header_of(m.mtime, a.name, a.size as nat) + a.written,
    }
}

/// Every entry accepted so far, in archive order: the complete ones, the
/// chunked one in progress with what it has received, and the queued ones.
pub open spec fn accepted(m: CompressorModel) -> Seq<EntryModel> {
    match m.active {
        None => m.done + m.queued,
        Some(a) => m.done.push(EntryModel { name: a.name, data: a.written }) + m.queued,
    }
}

/// The framing invariant: the stream is always the frames of the complete
/// entries, then the open chunked entry's header and bytes, or, once closed,
/// the end marker.
pub open spec fn model_inv(m: CompressorModel) -> bool {
    &&& all_headers_valid(m.mtime, m.done)
    &&& all_headers_valid(m.mtime, m.queued)
    &&& m.taken <= m.stream.len()
    &&& match m.active {
        None => m.queued.len() == 0,
        Some(a) => {
            &&& !m.closed
            &&& a.written.len() < a.size
            &&& header_valid(m.mtime, a.name, a.size as nat)
        },
    }
    &&& m.stream == if m.closed {
        archive_bytes(m.mtime, m.done)
    } else {
        entries_bytes(m.mtime, m.done) + open_tail(m)
    }
}

/// A fresh writer whose headers carry `mtime`.
pub open spec fn model_new(mtime: u64) -> CompressorModel {
    CompressorModel {
        stream: Seq::empty(),
        taken: 0,
        done: Seq::empty(),
        active: None,
        queued: Seq::empty(),
        mtime,
        next_token: 0,
        closed: false,
    }
}

/// Appending a complete entry: framed at once, or queued behind an open
/// chunked entry.
pub open spec fn model_add(m: CompressorModel, name: Seq<char>, data: Seq<u8>) -> (
    CompressorModel,
    Result<(), ArchiveError>,
) {
    let e = EntryModel { name, data };
    if m.closed {
        (m, Err(ArchiveError::Closed))
    } else if !header_valid(m.mtime, name, data.len()) {
        (m, Err(ArchiveError::InvalidName))
    } else if m.active is None {
        (CompressorModel { stream: m.stream + frame(m.mtime, e), done: m.done.push(e), ..m }, Ok(()))
    } else {
        (CompressorModel { queued: m.queued.push(e), ..m }, Ok(()))
    }
}

/// Starting a chunked entry of `size` bytes: its header is written and it
/// receives the token `m.next_token`.
pub open spec fn model_begin(m: CompressorModel, name: Seq<char>, size: u64) -> (
    CompressorModel,
    Result<(), ArchiveError>,
) {
    if m.closed {
        (m, Err(ArchiveError::Closed))
    } else if m.active is Some {
        (m, Err(ArchiveError::Busy))
    } else if !header_valid(m.mtime, name, size as nat) {
        (m, Err(ArchiveError::InvalidName))
    } else if size == 0 {
        (
            CompressorModel {
                stream: m.stream + header_of(m.mtime, name, 0),
                done: m.done.push(EntryModel { name, data: Seq::empty() }),
                next_token: token_after(m.next_token),
                ..m
            },
            Ok(()),
        )
    } else {
        (
            CompressorModel {
                stream: m.stream + header_of(m.mtime, name, size as nat),
                active: Some(
                    ActiveModel { token: m.next_token, name, size, written: Seq::empty() },
                ),
                next_token: token_after(m.next_token),
                ..m
            },
            Ok(()),
        )
    }
}

/// Writing payload bytes of the chunked entry `token`. The padding is written,
/// and the queued entries framed, exactly when the declared size is reached.
/// Writing no bytes changes nothing.
pub open spec fn model_chunk(m: CompressorModel, token: u64, data: Seq<u8>) -> (
    CompressorModel,
    Result<(), ArchiveError>,
) {
    if m.closed {
        (m, Err(ArchiveError::Closed))
    } else if data.len() == 0 {
        (m, Ok(()))
    } else {
        match m.active {
            None => (m, Err(ArchiveError::UnknownToken)),
            Some(a) => if a.token != token {
                (m, Err(ArchiveError::UnknownToken))
            } else if a.written.len() + data.len() > a.size {
                (m, Err(ArchiveError::Overflow))
            } else if a.written.len() + data.len() < a.size {
                (
                    CompressorModel {
                        stream: m.stream + data,
                        active: Some(ActiveModel { written: a.written + data, ..a }),
                        ..m
                    },
                    Ok(()),
                )
            } else {
                let e = EntryModel { name: a.name, data: a.written + data };
                (
                    CompressorModel {
                        stream: m.stream + data + zeros(padding_len(a.size as nat))
                            + entries_bytes(m.mtime, m.queued),
                        done: m.done.push(e) + m.queued,
                        active: None,
                        queued: Seq::empty(),
                        ..m
                    },
                    Ok(()),
                )
            },
        }
    }
}

/// Closing: the end marker is written, unless a chunked entry is incomplete.
pub open spec fn model_finish(m: CompressorModel) -> (CompressorModel, Result<(), ArchiveError>) {
    if m.closed {
        (m, Err(ArchiveError::Closed))
    } else if m.active is Some {
        (m, Err(ArchiveError::Incomplete))
    } else {
        (
            CompressorModel { stream: m.stream + zeros(END_MARKER_SIZE as nat), closed: true, ..m },
            Ok(()),
        )
    }
}

struct ActiveEntry {
    token: u64,
    name: String,
    size: u64,
    remaining: u64,
    written: Ghost<Seq<u8>>,
}

/// The single writer of an archive. Framed bytes collect in an output buffer
/// that the caller drains into its sink (a compressor over a file) with
/// `take_output`; all framing goes through `&mut self`, so one entry's
/// header, payload and padding are never interleaved with another's.
pub struct Compressor {
    output: Vec<u8>,
    sent: Ghost<Seq<u8>>,
    done: Ghost<Seq<EntryModel>>,
    queued: Ghost<Seq<EntryModel>>,
    queued_bytes: Vec<u8>,
    active: Option<ActiveEntry>,
    next_token: u64,
    mtime: u64,
    closed: bool,
}

impl View for Compressor {
    type V = CompressorModel;

    closed spec fn view(&self) -> CompressorModel {
        CompressorModel {
            stream: self.sent@ + self.output@,
            taken: self.sent@.len(),
            done: self.done@,
            active: match self.active {
                None => None,
                Some(a) => Some(
                    ActiveModel { token: a.token, name: a.name@, size: a.size, written: a.written@ },
                ),
            },
            queued: self.queued@,
            mtime: self.mtime,
            next_token: self.next_token,
            closed: self.closed,
        }
    }
}

/// Appends `src` to `out`.
fn append_bytes(out: &mut Vec<u8>, src: &[u8])
    ensures
        final(out)@ == old(out)@ + src@,
{
    let mut i: usize = 0;
    while i < src.len()
        invariant
            i <= src@.len(),
            out@ == old(out)@ + src@.subrange(0, i as int),
        decreases src@.len() - i,
    {
        out.push(src[i]);
        i = i + 1;
        assert(src@.subrange(0, i as int) =~= src@.subrange(0, i - 1).push(src@[i - 1]));
    }
    assert(src@.subrange(0, src@.len() as int) =~= src@);
}

/// Appends `n` zero bytes to `out`.
fn append_zeros(out: &mut Vec<u8>, n: usize)
    ensures
        final(out)@ == old(out)@ + zeros(n as nat),
{
    let mut i: usize = 0;
    while i < n
        invariant
            i <= n,
            out@ == old(out)@ + zeros(i as nat),
        decreases n - i,
    {
        out.push(0u8);
        i = i + 1;
        assert(zeros(i as nat) =~= zeros((i - 1) as nat).push(0u8));
    }
}

/// Pads a payload of `data_len` bytes up to the next block boundary.
fn write_tar_footer(out: &mut Vec<u8>, data_len: u64)
    ensures
        final(out)@ == old(out)@ + zeros(padding_len(data_len as nat)),
{
    let rem = data_len % 512;
    if rem != 0 {
        append_zeros(out, (512 - rem) as usize);
    } else {
        assert(old(out)@ + zeros(0) =~= old(out)@);
    }
}

/// Writes the end-of-archive marker.
fn finish_tar_archive(out: &mut Vec<u8>)
    ensures
        final(out)@ == old(out)@ + zeros(END_MARKER_SIZE as nat),
{
    append_zeros(out, END_MARKER_SIZE);
}

/// Writes the frame of an entry whose header is `header`.
fn write_frame(out: &mut Vec<u8>, header: &Vec<u8>, data: &[u8])
    ensures
        final(out)@ == old(out)@ + header@ + data@ + zeros(padding_len(data@.len())),
{
    append_bytes(out, header.as_slice());
    append_bytes(out, data);
    write_tar_footer(out, data.len() as u64);
}


impl Compressor {
    /// The writer's exec state agrees with its model.
    pub closed spec fn wf(&self) -> bool {
        &&& model_inv(self@)
        &&& self.queued_bytes@ == entries_bytes(self.mtime, self.queued@)
        &&& match self.active {
            Some(a) => a.written@.len() + a.remaining == a.size,
            None => true,
        }
    }

    /// A well-formed writer satisfies the framing invariant.
    pub proof fn lemma_inv(&self)
        requires
            self.wf(),
        ensures
            model_inv(self@),
    {
    }

    /// A writer whose entry headers carry the modification time `mtime`.
    pub fn new(mtime: u64) -> (r: Compressor)
        ensures
            r.wf(),
            r@ == model_new(mtime),
    {
        let r = Compressor {
            output: Vec::new(),
            sent: Ghost(Seq::empty()),
            done: Ghost(Seq::empty()),
            queued: Ghost(Seq::empty()),
            queued_bytes: Vec::new(),
            active: None,
            next_token: 0,
            mtime,
            closed: false,
        };
        assert(r@.stream =~= entries_bytes(mtime, Seq::empty()) + open_tail(r@));
        r
    }

    /// The header of an entry named `path` with `data_len` payload bytes.
    fn write_tar_header(&self, path: &str, data_len: u64) -> (r: Option<Vec<u8>>)
        ensures
            match r {
                Some(h) => header_valid(self.mtime, path@, data_len as nat) && h@ == header_of(
                    self.mtime,
                    path@,
                    data_len as nat,
                ),
                None => !header_valid(self.mtime, path@, data_len as nat),
            },
    {
        gnu_header(path, FILE_MODE, self.mtime, data_len)
    }

    /// Appends one complete entry: framed at once, or queued until the open
    /// chunked entry is complete.
    pub fn add_file_with_data(&mut self, name: &str, data: &[u8]) -> (r: Result<(), ArchiveError>)
        requires
            old(self).wf(),
        ensures
            final(self).wf(),
            (final(self)@, r) == model_add(old(self)@, name@, data@),
    {
        if self.closed {
            return Err(ArchiveError::Closed);
        }
        let header = match self.write_tar_header(name, data.len() as u64) {
            Some(h) => h,
            None => return Err(ArchiveError::InvalidName),
        };
        let ghost e = EntryModel { name: name@, data: data@ };
        let ghost m = self@;
        assert(data@.len() == (data.len() as u64) as nat);
        assert(header_valid(m.mtime, name@, data@.len()));
        assert(frame(self.mtime, e) == header@ + data@ + zeros(padding_len(data@.len())));
        if self.active.is_none() {
            write_frame(&mut self.output, &header, data);
            proof {
                lemma_entries_bytes_push(self.mtime, self.done@, e);
            }
            self.done = Ghost(self.done@.push(e));
            assert(self@.stream =~= m.stream + frame(m.mtime, e));
            assert(self@.stream =~= entries_bytes(m.mtime, self@.done) + open_tail(self@));
        } else {
            write_frame(&mut self.queued_bytes, &header, data);
            proof {
                lemma_entries_bytes_push(self.mtime, self.queued@, e);
            }
            self.queued = Ghost(self.queued@.push(e));
        }
        assert(all_headers_valid(self.mtime, self.done@));
        assert(all_headers_valid(self.mtime, self.queued@));
        assert(self@.taken <= self@.stream.len());
        assert(self@.stream == entries_bytes(m.mtime, self@.done) + open_tail(self@));
        assert(model_inv(self@));
        assert(self.queued_bytes@ == entries_bytes(self.mtime, self.queued@));
        Ok(())
    }

    /// Starts a chunked entry of `size` bytes by writing its header; the
    /// returned handle carries the entry's token and the bytes still owed.
    pub fn add_chunked_file(&mut self, name: &str, size: u64) -> (r: Result<
        ChunkedCompressor,
        ArchiveError,
    >)
        requires
            old(self).wf(),
        ensures
            final(self).wf(),
            final(self)@ == model_begin(old(self)@, name@, size).0,
            match r {
                Ok(c) => model_begin(old(self)@, name@, size).1 is Ok && c.token()
                    == old(self)@.next_token && c.remaining() == size,
                Err(e) => model_begin(old(self)@, name@, size).1 == Err::<(), ArchiveError>(e),
            },
    {
        if self.closed {
            return Err(ArchiveError::Closed);
        }
        if self.active.is_some() {
            return Err(ArchiveError::Busy);
        }
        let header = match self.write_tar_header(name, size) {
            Some(h) => h,
            None => return Err(ArchiveError::InvalidName),
        };
        let ghost m = self@;
        let token = self.next_token;
        append_bytes(&mut self.output, header.as_slice());
        self.next_token = if self.next_token == u64::MAX {
            0
        } else {
            self.next_token + 1
        };
        if size == 0 {
            let ghost e = EntryModel { name: name@, data: Seq::empty() };
            proof {
                lemma_entries_bytes_push(self.mtime, self.done@, e);
                assert(zeros(padding_len(0)) =~= Seq::<u8>::empty());
                assert(frame(m.mtime, e) =~= header@);
            }
            self.done = Ghost(self.done@.push(e));
            assert(self@.stream =~= entries_bytes(m.mtime, self@.done) + open_tail(self@));
            assert(all_headers_valid(self.mtime, self.done@));
        } else {
            self.active = Some(
                ActiveEntry {
                    token,
                    name: name.to_string(),
                    size,
                    remaining: size,
                    written: Ghost(Seq::empty()),
                },
            );
            assert(self@.stream =~= entries_bytes(m.mtime, self@.done) + open_tail(self@));
        }
        Ok(ChunkedCompressor { token, remaining: size })
    }

    /// Writes payload bytes of the chunked entry `token`. When the declared
    /// size is reached the padding follows, then the frames of the entries
    /// queued meanwhile.
    pub fn write_chunk(&mut self, token: u64, data: &[u8]) -> (r: Result<(), ArchiveError>)
        requires
            old(self).wf(),
        ensures
            final(self).wf(),
            (final(self)@, r) == model_chunk(old(self)@, token, data@),
    {
        if self.closed {
            return Err(ArchiveError::Closed);
        }
        if data.len() == 0 {
            return Ok(());
        }
        let ghost m = self@;
        let mut a = match self.active.take() {
            Some(a) => a,
            None => return Err(ArchiveError::UnknownToken),
        };
        if a.token != token {
            self.active = Some(a);
            return Err(ArchiveError::UnknownToken);
        }
        let len = data.len() as u64;
        if len > a.remaining {
            self.active = Some(a);
            return Err(ArchiveError::Overflow);
        }
        append_bytes(&mut self.output, data);
        a.remaining = a.remaining - len;
        a.written = Ghost(a.written@ + data@);
        if a.remaining > 0 {
            self.active = Some(a);
            assert(self@.active == Some(ActiveModel { written: m.active->0.written + data@, ..m.active->0 }));
            assert(m.stream =~= entries_bytes(m.mtime, m.done) + open_tail(m));
            assert(self@.stream =~= m.stream + data@);
            assert(self@.stream =~= entries_bytes(m.mtime, self@.done) + open_tail(self@));
            return Ok(());
        }
        write_tar_footer(&mut self.output, a.size);
        let mut queued_bytes: Vec<u8> = Vec::new();
        std::mem::swap(&mut queued_bytes, &mut self.queued_bytes);
        append_bytes(&mut self.output, queued_bytes.as_slice());
        let ghost e = EntryModel { name: a.name@, data: a.written@ };
        proof {
            let ma = m.active->0;
            assert(a.written@ =~= ma.written + data@);
            assert(a.written@.len() == a.size);
            assert(frame(m.mtime, e) =~= header_of(m.mtime, ma.name, ma.size as nat) + ma.written + data@
                + zeros(padding_len(a.size as nat)));
            assert(m.stream =~= entries_bytes(m.mtime, m.done) + header_of(m.mtime, ma.name, ma.size as nat)
                + ma.written);
            lemma_entries_bytes_push(m.mtime, m.done, e);
            lemma_entries_bytes_concat(m.mtime, m.done.push(e), m.queued);
            assert(entries_bytes(m.mtime, Seq::empty()) =~= Seq::<u8>::empty());
        }
        assert(queued_bytes@ == entries_bytes(m.mtime, m.queued));
        self.done = Ghost(self.done@.push(e) + self.queued@);
        self.queued = Ghost(Seq::empty());
        assert(self@.done == m.done.push(e) + m.queued);
        assert(entries_bytes(m.mtime, self@.done) == entries_bytes(m.mtime, m.done) + frame(m.mtime, e)
            + entries_bytes(m.mtime, m.queued));
        assert(open_tail(self@) =~= Seq::<u8>::empty());
        assert(self@.stream =~= m.stream + data@ + zeros(padding_len(a.size as nat)) + queued_bytes@);
        assert(self@.stream =~= entries_bytes(m.mtime, self@.done) + open_tail(self@));
        assert(all_headers_valid(self.mtime, self.done@));
        Ok(())
    }

    /// Writes the end marker and closes the writer; refused while a chunked
    /// entry is incomplete.
    pub fn finish(&mut self) -> (r: Result<(), ArchiveError>)
        requires
            old(self).wf(),
        ensures
            final(self).wf(),
            (final(self)@, r) == model_finish(old(self)@),
    {
        if self.closed {
            return Err(ArchiveError::Closed);
        }
        if self.active.is_some() {
            return Err(ArchiveError::Incomplete);
        }
        let ghost m = self@;
        finish_tar_archive(&mut self.output);
        self.closed = true;
        assert(self@.stream =~= archive_bytes(m.mtime, m.done));
        Ok(())
    }

    /// Hands the framed bytes produced since the last call to the caller's sink.
    pub fn take_output(&mut self) -> (r: Vec<u8>)
        requires
            old(self).wf(),
        ensures
            final(self).wf(),
            r@ == old(self)@.stream.subrange(old(self)@.taken as int, old(self)@.stream.len() as int),
            final(self)@ == (CompressorModel { taken: old(self)@.stream.len(), ..old(self)@ }),
    {
        let mut out: Vec<u8> = Vec::new();
        std::mem::swap(&mut out, &mut self.output);
        self.sent = Ghost(self.sent@ + out@);
        assert(self@.stream =~= old(self)@.stream);
        assert(out@ =~= old(self)@.stream.subrange(old(self)@.taken as int, old(self)@.stream.len() as int));
        out
    }

    /// Whether the end marker has been written.
    pub fn is_closed(&self) -> (r: bool)
        requires
            self.wf(),
        ensures
            r == self@.closed,
    {
        self.closed
    }
}

/// A chunked entry's handle: its token and the payload bytes still owed.
pub struct ChunkedCompressor {
    token: u64,
    remaining: u64,
}

impl ChunkedCompressor {
    pub closed spec fn token(&self) -> u64 {
        self.token
    }

    pub closed spec fn remaining(&self) -> u64 {
        self.remaining
    }

    /// Writes the next piece of the entry's payload. A piece longer than what
    /// is still owed is refused before anything is written.
    pub fn add_chunk(&mut self, compressor: &mut Compressor, data: &[u8]) -> (r: Result<
        (),
        ArchiveError,
    >)
        requires
            old(compressor).wf(),
        ensures
            final(compressor).wf(),
            final(self).token() == old(self).token(),
            data@.len() > old(self).remaining() ==> r == Err::<(), ArchiveError>(
                ArchiveError::Overflow,
            ) && final(compressor)@ == old(compressor)@ && final(self).remaining() == old(
                self,
            ).remaining(),
            data@.len() <= old(self).remaining() ==> (final(compressor)@, r) == model_chunk(
                old(compressor)@,
                old(self).token(),
                data@,
            ) && final(self).remaining() == if r is Ok {
                (old(self).remaining() - data@.len()) as u64
            } else {
                old(self).remaining()
            },
    {
        let len = data.len() as u64;
        if len > self.remaining {
            return Err(ArchiveError::Overflow);
        }
        let r = compressor.write_chunk(self.token, data);
        if r.is_ok() {
            self.remaining = self.remaining - len;
        }
        r
    }

    /// Whether every declared byte has been written.
    pub fn is_complete(&self) -> (r: bool)
        ensures
            r == (self.remaining() == 0),
    {
        self.remaining == 0
    }
}


/// Length of the frame of a payload of `n` bytes.
pub open spec fn frame_len(n: nat) -> nat {
    BLOCK_SIZE as nat + n + padding_len(n)
}

/// Total length of the frames of `es`, read entry by entry.
pub open spec fn frames_len(es: Seq<EntryModel>) -> nat
    decreases es.len(),
{
    if es.len() == 0 {
        0
    } else {
        frames_len(es.drop_last()) + frame_len(es.last().data.len())
    }
}

/// The writer state after appending each of `es` in turn.
pub open spec fn model_add_all(m: CompressorModel, es: Seq<EntryModel>) -> CompressorModel
    decreases es.len(),
{
    if es.len() == 0 {
        m
    } else {
        model_add(model_add_all(m, es.drop_last()), es.last().name, es.last().data).0
    }
}

/// Every frame is a whole number of blocks.
pub proof fn lemma_frame_len_aligned(n: nat)
    ensures
        frame_len(n) % 512 == 0,
{
    assert(frame_len(n) % 512 == 0) by (nonlinear_arith)
        requires
            frame_len(n) == 512 + n + padding_len(n),
            padding_len(n) == if n % 512 == 0 {
                0
            } else {
                (512 - n % 512) as nat
            },
    ;
}

/// The framed bytes of valid entries are as long as their frames.
pub proof fn lemma_entries_bytes_len(mtime: u64, es: Seq<EntryModel>)
    requires
        all_headers_valid(mtime, es),
    ensures
        entries_bytes(mtime, es).len() == frames_len(es),
        frames_len(es) % 512 == 0,
    decreases es.len(),
{
    if es.len() > 0 {
        let init = es.drop_last();
        assert forall|i: int| 0 <= i < init.len() implies header_valid(
            mtime,
            #[trigger] init[i].name,
            init[i].data.len(),
        ) by {
            assert(init[i] == es[i]);
        }
        lemma_entries_bytes_len(mtime, init);
        assert(header_valid(mtime, es[es.len() - 1].name, es[es.len() - 1].data.len()));
        lemma_frame_len_aligned(es.last().data.len());
    }
}

/// Appending entries to a fresh writer and closing it yields exactly the
/// archive of those entries, in the order they were appended; appending
/// fails only on a name that a header cannot hold.
pub proof fn lemma_append_then_close(mtime: u64, es: Seq<EntryModel>)
    requires
        all_headers_valid(mtime, es),
    ensures
        model_add_all(model_new(mtime), es).done == es,
        model_add_all(model_new(mtime), es).active is None,
        !model_add_all(model_new(mtime), es).closed,
        model_finish(model_add_all(model_new(mtime), es)).1 is Ok,
        model_finish(model_add_all(model_new(mtime), es)).0.stream == archive_bytes(mtime, es),
    decreases es.len(),
{
    if es.len() == 0 {
        assert(model_new(mtime).done =~= es);
        assert(model_new(mtime).stream + zeros(END_MARKER_SIZE as nat) =~= archive_bytes(mtime, es));
    } else {
        let init = es.drop_last();
        assert forall|i: int| 0 <= i < init.len() implies header_valid(
            mtime,
            #[trigger] init[i].name,
            init[i].data.len(),
        ) by {
            assert(init[i] == es[i]);
        }
        lemma_append_then_close(mtime, init);
        let m = model_add_all(model_new(mtime), init);
        assert(header_valid(mtime, es[es.len() - 1].name, es[es.len() - 1].data.len()));
        assert(m.mtime == mtime) by {
            lemma_add_all_keeps(model_new(mtime), init);
        }
        assert(m.stream == entries_bytes(mtime, init)) by {
            lemma_add_all_stream(mtime, init);
        }
        lemma_entries_bytes_push(mtime, init, es.last());
        assert(init.push(es.last()) =~= es);
    }
}

/// Appending keeps the modification time and leaves the writer open.
proof fn lemma_add_all_keeps(m: CompressorModel, es: Seq<EntryModel>)
    ensures
        model_add_all(m, es).mtime == m.mtime,
        model_add_all(m, es).closed == m.closed,
        model_add_all(m, es).active == m.active,
        model_add_all(m, es).taken == m.taken,
    decreases es.len(),
{
    if es.len() > 0 {
        lemma_add_all_keeps(m, es.drop_last());
    }
}

/// After appending valid entries to a fresh writer, its stream is their frames.
proof fn lemma_add_all_stream(mtime: u64, es: Seq<EntryModel>)
    requires
        all_headers_valid(mtime, es),
    ensures
        model_add_all(model_new(mtime), es).stream == entries_bytes(mtime, es),
        model_add_all(model_new(mtime), es).done == es,
    decreases es.len(),
{
    if es.len() == 0 {
        assert(model_new(mtime).done =~= es);
    } else {
        let init = es.drop_last();
        assert forall|i: int| 0 <= i < init.len() implies header_valid(
            mtime,
            #[trigger] init[i].name,
            init[i].data.len(),
        ) by {
            assert(init[i] == es[i]);
        }
        lemma_add_all_stream(mtime, init);
        lemma_add_all_keeps(model_new(mtime), init);
        assert(header_valid(mtime, es[es.len() - 1].name, es[es.len() - 1].data.len()));
        lemma_entries_bytes_push(mtime, init, es.last());
        assert(init.push(es.last()) =~= es);
    }
}

/// In an archive of valid entries, entry `i` starts at the block boundary
/// given by the frame lengths of the entries before it: its header block
/// there, its payload right after; the end marker follows the last frame.
/// So reading the archive frame by frame recovers every entry, in order.
pub proof fn lemma_archive_entry_at(mtime: u64, es: Seq<EntryModel>, i: int)
    requires
        all_headers_valid(mtime, es),
        0 <= i < es.len(),
    ensures
        frames_len(es.take(i)) % 512 == 0,
        archive_bytes(mtime, es).subrange(
            frames_len(es.take(i)) as int,
            frames_len(es.take(i)) + BLOCK_SIZE,
        ) == header_of(mtime, es[i].name, es[i].data.len()),
        archive_bytes(mtime, es).subrange(
            frames_len(es.take(i)) + BLOCK_SIZE,
            frames_len(es.take(i)) + BLOCK_SIZE + es[i].data.len(),
        ) == es[i].data,
        archive_bytes(mtime, es).len() == frames_len(es) + END_MARKER_SIZE,
        archive_bytes(mtime, es).subrange(frames_len(es) as int, frames_len(es) + END_MARKER_SIZE)
            == zeros(END_MARKER_SIZE as nat),
{
    let pre = es.take(i);
    let post = es.skip(i + 1);
    assert forall|j: int| 0 <= j < pre.len() implies header_valid(
        mtime,
        #[trigger] pre[j].name,
        pre[j].data.len(),
    ) by {
        assert(pre[j] == es[j]);
    }
    assert(header_valid(mtime, es[i].name, es[i].data.len()));
    lemma_entries_bytes_len(mtime, pre);
    lemma_entries_bytes_len(mtime, es);
    assert(es =~= pre.push(es[i]) + post);
    lemma_entries_bytes_concat(mtime, pre.push(es[i]), post);
    lemma_entries_bytes_push(mtime, pre, es[i]);
    let a = archive_bytes(mtime, es);
    let off = frames_len(pre) as int;
    assert(a =~= entries_bytes(mtime, pre) + header_of(mtime, es[i].name, es[i].data.len()) + es[i].data
        + zeros(padding_len(es[i].data.len())) + entries_bytes(mtime, post) + zeros(
        END_MARKER_SIZE as nat,
    ));
    assert(a.subrange(off, off + BLOCK_SIZE) =~= header_of(mtime, es[i].name, es[i].data.len()));
    assert(a.subrange(off + BLOCK_SIZE, off + BLOCK_SIZE + es[i].data.len()) =~= es[i].data);
    assert(a.subrange(frames_len(es) as int, frames_len(es) + END_MARKER_SIZE) =~= zeros(
        END_MARKER_SIZE as nat,
    ));
}

/// The entries that `files` describes: each path with its contents.
pub open spec fn files_model(files: Seq<(String, Vec<u8>)>) -> Seq<EntryModel> {
    Seq::new(files.len(), |i: int| EntryModel { name: files[i].0@, data: files[i].1@ })
}

/// Frames `files` in order into one complete archive, end marker included.
/// Fails exactly when some path cannot be held by a header.
pub fn compress_files(files: &[(String, Vec<u8>)], mtime: u64) -> (r: Result<Vec<u8>, ArchiveError>)
    ensures
        r is Ok <==> all_headers_valid(mtime, files_model(files@)),
        r matches Ok(b) ==> b@ == archive_bytes(mtime, files_model(files@)),
        r matches Err(e) ==> e == ArchiveError::InvalidName,
{
    let mut compressor = Compressor::new(mtime);
    let ghost es = files_model(files@);
    let mut i: usize = 0;
    while i < files.len()
        invariant
            i <= files@.len(),
            es == files_model(files@),
            compressor.wf(),
            compressor@ == model_add_all(model_new(mtime), es.take(i as int)),
            all_headers_valid(mtime, es.take(i as int)),
        decreases files@.len() - i,
    {
        let ghost before = compressor@;
        proof {
            lemma_add_all_keeps(model_new(mtime), es.take(i as int));
        }
        let r = compressor.add_file_with_data(files[i].0.as_str(), files[i].1.as_slice());
        assert(es.take(i + 1).drop_last() =~= es.take(i as int));
        assert(es.take(i + 1).last() == es[i as int]);
        match r {
            Ok(()) => {},
            Err(e) => {
                assert(!header_valid(mtime, es[i as int].name, es[i as int].data.len()));
                assert(!all_headers_valid(mtime, es));
                return Err(e);
            },
        }
        i = i + 1;
        assert forall|j: int| 0 <= j < es.take(i as int).len() implies header_valid(
            mtime,
            #[trigger] es.take(i as int)[j].name,
            es.take(i as int)[j].data.len(),
        ) by {
            if j < i - 1 {
                assert(es.take(i as int)[j] == es.take(i - 1)[j]);
            }
        }
    }
    assert(es.take(i as int) =~= es);
    proof {
        lemma_append_then_close(mtime, es);
    }
    proof {
        lemma_add_all_keeps(model_new(mtime), es);
    }
    let closed = compressor.finish();
    assert(closed is Ok);
    let out = compressor.take_output();
    assert(out@ =~= archive_bytes(mtime, es));
    Ok(out)
}


/// The bytes of `ps`, one piece after another.
pub open spec fn concat_all(ps: Seq<Seq<u8>>) -> Seq<u8>
    decreases ps.len(),
{
    if ps.len() == 0 {
        Seq::empty()
    } else {
        concat_all(ps.drop_last()) + ps.last()
    }
}

/// Writing the pieces `ps` of chunked entry `token` in turn, stopping at the
/// first refusal.
pub open spec fn model_chunks(m: CompressorModel, token: u64, ps: Seq<Seq<u8>>) -> (
    CompressorModel,
    Result<(), ArchiveError>,
)
    decreases ps.len(),
{
    if ps.len() == 0 {
        (m, Ok(()))
    } else {
        let prev = model_chunks(m, token, ps.drop_last());
        if prev.1 is Err {
            prev
        } else {
            model_chunk(prev.0, token, ps.last())
        }
    }
}

/// A chunked entry of declared size `size` fed the pieces `ps`: while fewer
/// bytes than declared have come, the entry stays open with exactly those
/// bytes; when exactly `size` have come, it is a complete entry holding them;
/// more than `size` are refused.
proof fn lemma_chunks_state(m: CompressorModel, name: Seq<char>, size: u64, ps: Seq<Seq<u8>>)
    requires
        model_inv(m),
        !m.closed,
        m.active is None,
        size > 0,
        model_begin(m, name, size).1 is Ok,
    ensures
        ({
            let b = model_begin(m, name, size).0;
            let c = model_chunks(b, m.next_token, ps);
            let all = concat_all(ps);
            &&& all.len() < size ==> c.1 is Ok && c.0 == (CompressorModel {
                stream: b.stream + all,
                active: Some(ActiveModel { token: m.next_token, name, size, written: all }),
                ..b
            })
            &&& all.len() == size ==> {
                &&& c.1 is Ok
                &&& c.0.active is None
                &&& !c.0.closed
                &&& c.0.done == m.done.push(EntryModel { name, data: all })
                &&& c.0.queued.len() == 0
            }
            &&& all.len() > size ==> c.1 is Err
        }),
    decreases ps.len(),
{
    let b = model_begin(m, name, size).0;
    let t = m.next_token;
    if ps.len() == 0 {
        assert(b.stream + concat_all(ps) =~= b.stream);
    } else {
        let init = ps.drop_last();
        let x = ps.last();
        lemma_chunks_state(m, name, size, init);
        let prev = model_chunks(b, t, init);
        let before = concat_all(init);
        let all = concat_all(ps);
        assert(all == before + x);
        if before.len() < size {
            if x.len() == 0 {
                assert(all =~= before);
            } else if before.len() + x.len() < size {
                assert(prev.0.stream + x =~= b.stream + all);
            } else if before.len() + x.len() == size {
                assert(m.queued.len() == 0);
                assert(prev.0.done.push(EntryModel { name, data: before + x }) + prev.0.queued
                    =~= m.done.push(EntryModel { name, data: all }));
            }
        }
    }
}

/// A chunked entry registered with declared size `size`: pieces whose
/// lengths sum to exactly `size` are accepted and make one entry of `size`
/// bytes holding them; pieces summing to more are refused before the writer
/// is closed; pieces summing to less leave the entry incomplete, and closing
/// is then refused.
pub proof fn lemma_chunked_entry_size(m: CompressorModel, name: Seq<char>, size: u64, ps: Seq<Seq<u8>>)
    requires
        model_inv(m),
        !m.closed,
        m.active is None,
        size > 0,
        model_begin(m, name, size).1 is Ok,
    ensures
        ({
            let b = model_begin(m, name, size).0;
            let c = model_chunks(b, m.next_token, ps);
            let all = concat_all(ps);
            &&& all.len() == size ==> c.1 is Ok && c.0.done == m.done.push(EntryModel { name, data: all })
                && model_finish(c.0).1 is Ok
            &&& all.len() > size ==> c.1 is Err && !c.0.closed
            &&& all.len() < size ==> c.1 is Ok && model_finish(c.0).1 == Err::<(), ArchiveError>(
                ArchiveError::Incomplete,
            )
        }),
{
    lemma_chunks_state(m, name, size, ps);
    lemma_chunks_keep_open(model_begin(m, name, size).0, m.next_token, ps);
}

/// Chunk writes never close the writer.
proof fn lemma_chunks_keep_open(m: CompressorModel, token: u64, ps: Seq<Seq<u8>>)
    requires
        !m.closed,
    ensures
        !model_chunks(m, token, ps).0.closed,
    decreases ps.len(),
{
    if ps.len() > 0 {
        lemma_chunks_keep_open(m, token, ps.drop_last());
    }
}

} // verus!
