//! The log writer's books: how much of the file and of the current block is
//! used, where a block is padded, and where the file is full.
//!
//! The writer appends the bytes that belong in the file to a buffer that its
//! caller hands in; bringing them to storage is the caller's part.
use crate::block::{
    joined, make_records_from_buf, pieces, split, well_framed, Record, RECORD_EXTRA_SIZE,
};
use crate::types::{BLOCK_MAX_SIZE, BLOCK_MIN_FREE_SIZE, WAL_LOG_MAX_SIZE};
use vstd::prelude::*;

verus! {

/// `n` zero bytes.
pub open spec fn zeros(n: nat) -> Seq<u8> {
    Seq::new(n, |i: int| 0u8)
}

/// The wire image of each record.
pub open spec fn wires<'a>(records: Seq<Record<'a>>) -> Seq<Seq<u8>> {
    records.map_values(|r: Record<'a>| r@.wire())
}

/// The counters of a log file.
pub ghost struct WalView {
    /// Bytes written to the file.
    pub used: nat,
    /// Bytes written to the block that is being filled.
    pub block_used: nat,
}

/// What writing a run of records comes to.
pub ghost struct Written {
    /// The counters afterwards.
    pub state: WalView,
    /// How many records, from the first on, were written.
    pub count: nat,
    /// The bytes that were appended to the file.
    pub bytes: Seq<u8>,
}

impl WalView {
    /// The current block lies within the file, starts at a multiple of the
    /// block size, and is not overfull.
    pub open spec fn wf(self) -> bool {
        &&& self.block_used <= BLOCK_MAX_SIZE
        &&& self.block_used <= self.used
        &&& (self.used - self.block_used) % (BLOCK_MAX_SIZE as int) == 0
        &&& self.used - self.block_used + BLOCK_MAX_SIZE <= WAL_LOG_MAX_SIZE
    }

    /// Bytes that the file can still take.
    pub open spec fn free_space(self) -> nat {
        (WAL_LOG_MAX_SIZE - self.used) as nat
    }

    /// Bytes that the current block can still take.
    pub open spec fn block_free(self) -> nat {
        (BLOCK_MAX_SIZE - self.block_used) as nat
    }

    /// Length of the zero trailer that is due: the rest of the block where
    /// that is too short for a header, nothing otherwise.
    pub open spec fn trailer_len(self) -> nat {
        if 0 < self.block_free() <= BLOCK_MIN_FREE_SIZE {
            self.block_free()
        } else {
            0
        }
    }

    /// The counters after `n` more bytes.
    pub open spec fn advanced(self, n: nat) -> WalView {
        WalView { used: self.used + n, block_used: self.block_used + n }
    }

    /// The counters after the trailer that is due.
    pub open spec fn padded(self) -> WalView {
        self.advanced(self.trailer_len())
    }

    /// Whether no further record can start: once padded, the file is full.
    pub open spec fn exhausted(self) -> bool {
        self.padded().free_space() == 0
    }

    /// The counters at which the next record starts: after the trailer that
    /// is due, and in a fresh block where the current one is full.
    pub open spec fn opened(self) -> WalView {
        let p = self.padded();
        if p.block_free() == 0 {
            WalView { used: p.used, block_used: 0 }
        } else {
            p
        }
    }

    /// Whether each of `frames` fits the block in which it would start, as
    /// far as the file has room to start it.
    pub open spec fn accepts(self, frames: Seq<Seq<u8>>) -> bool
        decreases frames.len(),
    {
        frames.len() == 0 || self.exhausted() || {
            &&& frames[0].len() <= self.opened().block_free()
            &&& self.opened().advanced(frames[0].len()).accepts(frames.drop_first())
        }
    }

    /// Writing `frames` one after the other. Before each frame the trailer
    /// that is due is written. Writing stops at the first frame that finds
    /// the file full; that frame and those behind it are not written.
    pub open spec fn write_each(self, frames: Seq<Seq<u8>>) -> Written
        decreases frames.len(),
    {
        if frames.len() == 0 {
            Written { state: self, count: 0, bytes: Seq::empty() }
        } else if self.exhausted() {
            Written { state: self.padded(), count: 0, bytes: zeros(self.trailer_len()) }
        } else {
            let rest = self.opened().advanced(frames[0].len()).write_each(frames.drop_first());
            Written {
                state: rest.state,
                count: rest.count + 1,
                bytes: zeros(self.trailer_len()) + frames[0] + rest.bytes,
            }
        }
    }

    /// Writing a batch: the trailer that is due is written even for an empty
    /// batch, then the frames one after the other.
    pub open spec fn write_all(self, frames: Seq<Seq<u8>>) -> Written {
        if frames.len() == 0 {
            Written { state: self.padded(), count: 0, bytes: zeros(self.trailer_len()) }
        } else {
            self.write_each(frames)
        }
    }
}

/// From a full block on, frames that each fill a block, but for the last,
/// which may be shorter, all fit.
proof fn lemma_whole_blocks_accepted(state: WalView, frames: Seq<Seq<u8>>)
    requires
        state.wf(),
        state.block_free() == 0,
        forall|i: int| 0 <= i < frames.len() - 1 ==> (#[trigger] frames[i]).len() == BLOCK_MAX_SIZE,
        frames.len() > 0 ==> frames.last().len() <= BLOCK_MAX_SIZE,
    ensures
        state.accepts(frames),
    decreases frames.len(),
{
    if frames.len() > 0 && !state.exhausted() {
        let next = state.opened().advanced(frames[0].len());
        let rest = frames.drop_first();
        if rest.len() > 0 {
            lemma_whole_blocks_accepted(next, rest);
        }
        assert(next.accepts(rest));
    }
}

/// The records that a write is cut into for a log, from where the log stands,
/// fit its blocks: `frames` stands for their wire images, each a header
/// longer than its payload.
pub proof fn lemma_split_accepted(state: WalView, buf: Seq<u8>, frames: Seq<Seq<u8>>)
    requires
        state.wf(),
        frames.len() == split(state.block_free() as int, buf).len(),
        forall|i: int|
            0 <= i < frames.len() ==> (#[trigger] frames[i]).len() == RECORD_EXTRA_SIZE + split(
                state.block_free() as int,
                buf,
            )[i].1.len(),
    ensures
        state.accepts(frames),
{
    if !state.exhausted() {
        let next = state.opened().advanced(frames[0].len());
        let rest = frames.drop_first();
        if rest.len() > 0 {
            lemma_whole_blocks_accepted(next, rest);
        }
        assert(next.accepts(rest));
    }
}

/// What [`lemma_write_all_bounded`] says, of frames written one after the other.
proof fn lemma_write_each_bounded(state: WalView, frames: Seq<Seq<u8>>)
    requires
        state.wf(),
        state.accepts(frames),
    ensures
        state.write_each(frames).state.wf(),
        state.write_each(frames).state.used == state.used + state.write_each(frames).bytes.len(),
        state.write_each(frames).count <= frames.len(),
        state.write_each(frames).count < frames.len() ==> state.write_each(
            frames,
        ).state.free_space() == 0,
    decreases frames.len(),
{
    if frames.len() > 0 && !state.exhausted() {
        lemma_write_each_bounded(state.opened().advanced(frames[0].len()), frames.drop_first());
    }
}

/// Writing a batch never goes past the end of the file or of a block: the
/// counters stay well formed, the file's counter grows by the number of bytes
/// appended, and a record is left unwritten only where the file is full.
pub proof fn lemma_write_all_bounded(state: WalView, frames: Seq<Seq<u8>>)
    requires
        state.wf(),
        state.accepts(frames),
    ensures
        state.write_all(frames).state.wf(),
        state.write_all(frames).state.used <= WAL_LOG_MAX_SIZE,
        state.write_all(frames).state.used == state.used + state.write_all(frames).bytes.len(),
        state.write_all(frames).count <= frames.len(),
        state.write_all(frames).count < frames.len() ==> state.write_all(
            frames,
        ).state.free_space() == 0,
{
    lemma_write_each_bounded(state, frames);
}

/// Why a record was not written.
#[derive(Debug, PartialEq, Eq, Structural, Copy, Clone)]
pub enum WalError {
    /// The log file is full.
    NoSpace,
}

/// The writer of one log file of `WAL_LOG_MAX_SIZE` bytes, in blocks of
/// `BLOCK_MAX_SIZE` bytes.
#[derive(Debug)]
pub struct Wal {
    used: usize,
    current_block_used: usize,
}

impl View for Wal {
    type V = WalView;

    closed spec fn view(&self) -> WalView {
        WalView { used: self.used as nat, block_used: self.current_block_used as nat }
    }
}

impl Wal {
    #[verifier::type_invariant]
    spec fn inv(self) -> bool {
        self@.wf()
    }

    /// The writer of an empty file.
    pub fn new() -> (wal: Wal)
        ensures
            wal@ == (WalView { used: 0, block_used: 0 }),
            wal@.wf(),
    {
        Wal { used: 0, current_block_used: 0 }
    }

    /// Bytes that the file can still take.
    pub fn free_space(&self) -> (n: usize)
        ensures
            n == self@.free_space(),
            self@.wf(),
    {
        proof {
            use_type_invariant(self);
        }
        WAL_LOG_MAX_SIZE - self.used
    }

    /// Bytes that the current block can still take.
    pub fn current_block_free_space(&self) -> (n: usize)
        ensures
            n == self@.block_free(),
            self@.wf(),
    {
        proof {
            use_type_invariant(self);
        }
        BLOCK_MAX_SIZE - self.current_block_used
    }

    /// Accounts for `n` bytes that went to the file.
    fn advance(&mut self, n: usize)
        requires
            n <= old(self)@.block_free(),
        ensures
            final(self)@ == old(self)@.advanced(n as nat),
    {
        proof {
            use_type_invariant(&*self);
        }
        *self = Wal { used: self.used + n, current_block_used: self.current_block_used + n };
    }

    /// Appends `buf` to the file's bytes and accounts for it.
    fn write(&mut self, buf: &[u8], out: &mut Vec<u8>) -> (n: usize)
        requires
            buf@.len() <= old(self)@.block_free(),
        ensures
            n == buf@.len(),
            final(self)@ == old(self)@.advanced(n as nat),
            final(out)@ == old(out)@ + buf@,
    {
        out.extend_from_slice(buf);
        self.advance(buf.len());
        buf.len()
    }

    /// Fills the rest of the current block with zeros.
    fn write_trailer(&mut self, out: &mut Vec<u8>)
        ensures
            final(self)@ == old(self)@.advanced(old(self)@.block_free()),
            final(out)@ == old(out)@ + zeros(old(self)@.block_free()),
    {
        let mut trailer: Vec<u8> = Vec::new();
        let len = self.current_block_free_space();
        while trailer.len() < len
            invariant
                trailer@.len() <= len,
                trailer@ =~= zeros(trailer@.len()),
            decreases len - trailer@.len(),
        {
            trailer.push(0);
        }
        self.write(trailer.as_slice(), out);
    }

    /// Starts a fresh block, unless the file is full.
    fn new_block(&mut self) -> (r: Result<(), WalError>)
        requires
            old(self)@.block_free() == 0,
        ensures
            old(self)@.free_space() == 0 ==> r == Err::<(), WalError>(WalError::NoSpace)
                && final(self)@ == old(self)@,
            old(self)@.free_space() != 0 ==> r is Ok
                && final(self)@ == (WalView { used: old(self)@.used, block_used: 0 }),
    {
        if self.free_space() == 0 {
            return Err(WalError::NoSpace);
        }
        *self = Wal { used: self.used, current_block_used: 0 };
        Ok(())
    }

    /// Length of the zero trailer that is due.
    fn trailer_due(&self) -> (n: usize)
        ensures
            n == self@.trailer_len(),
            n <= self@.block_free(),
    {
        let free = self.current_block_free_space();
        if 0 < free && free <= BLOCK_MIN_FREE_SIZE {
            free
        } else {
            0
        }
    }

    /// Brings the writer to where the next record starts: writes the trailer
    /// that is due and starts a fresh block where the current one is full.
    fn open_block(&mut self, out: &mut Vec<u8>) -> (r: Result<(), WalError>)
        ensures
            final(out)@ == old(out)@ + zeros(old(self)@.trailer_len()),
            old(self)@.exhausted() ==> r == Err::<(), WalError>(WalError::NoSpace)
                && final(self)@ == old(self)@.padded(),
            !old(self)@.exhausted() ==> r is Ok && final(self)@ == old(self)@.opened(),
    {
        if self.trailer_due() > 0 {
            self.write_trailer(out);
        }
        if self.current_block_free_space() == 0 {
            self.new_block()
        } else {
            Ok(())
        }
    }

    /// Writes one record where the next record starts, unless the file is
    /// full: then only the trailer that was due is written.
    pub fn write_record(&mut self, record: &Record, out: &mut Vec<u8>) -> (r: Result<
        (),
        WalError,
    >)
        requires
            old(self)@.exhausted() || record@.wire().len() <= old(self)@.opened().block_free(),
        ensures
            final(self)@.wf(),
            old(self)@.exhausted() ==> r == Err::<(), WalError>(WalError::NoSpace)
                && final(self)@ == old(self)@.padded() && final(out)@ == old(out)@ + zeros(
                old(self)@.trailer_len(),
            ),
            !old(self)@.exhausted() ==> r is Ok && final(self)@ == old(self)@.opened().advanced(
                record@.wire().len(),
            ) && final(out)@ == old(out)@ + zeros(old(self)@.trailer_len()) + record@.wire(),
    {
        match self.open_block(out) {
            Err(e) => {
                proof {
                    use_type_invariant(&*self);
                }
                return Err(e);
            },
            Ok(()) => {},
        }
        record.write_to(out);
        self.advance(record.wire_len());
        proof {
            use_type_invariant(&*self);
        }
        Ok(())
    }

    /// Whether [`Wal::write_records`] can take `records`: each must fit the
    /// block in which it would start.
    pub fn accepts(&self, records: &Vec<Record>) -> (ok: bool)
        ensures
            ok == self@.accepts(wires(records@)),
    {
        proof {
            use_type_invariant(self);
        }
        let ghost frames = wires(records@);
        let mut probe = Wal { used: self.used, current_block_used: self.current_block_used };
        let mut i: usize = 0;
        assert(frames.skip(0) =~= frames);
        while i < records.len()
            invariant
                i <= records@.len(),
                frames == wires(records@),
                self@.accepts(frames) == probe@.accepts(frames.skip(i as int)),
            decreases records@.len() - i,
        {
            proof {
                assert(frames.skip(i as int).drop_first() =~= frames.skip(i + 1));
            }
            let pad = probe.trailer_due();
            probe.advance(pad);
            if probe.current_block_free_space() == 0 && probe.new_block().is_err() {
                return true;
            }
            let len = records[i].wire_len();
            if len > probe.current_block_free_space() {
                return false;
            }
            probe.advance(len);
            i += 1;
        }
        true
    }

    /// Writes `records` in order, each where the next record starts, and
    /// returns those that the file had no room for: the first record that
    /// found the file full and all behind it. The bytes that belong in the
    /// file are appended to `out`.
    ///
    /// Each record must fit the block in which it starts, as those from
    /// [`Wal::make_records`] do; [`Wal::accepts`] tells.
    pub fn write_records<'a>(&mut self, records: Vec<Record<'a>>, out: &mut Vec<u8>) -> (left:
        Vec<Record<'a>>)
        requires
            old(self)@.accepts(wires(records@)),
        ensures
            final(self)@.wf(),
            final(self)@ == old(self)@.write_all(wires(records@)).state,
            final(out)@ == old(out)@ + old(self)@.write_all(wires(records@)).bytes,
            left@ == records@.skip(old(self)@.write_all(wires(records@)).count as int),
            left@.len() > 0 ==> final(self)@.free_space() == 0,
    {
        let mut records = records;
        let ghost frames = wires(records@);
        let ghost total = self@.write_all(frames);
        proof {
            use_type_invariant(&*self);
            assert(frames.skip(0) =~= frames);
        }
        if self.trailer_due() > 0 {
            self.write_trailer(out);
        }
        proof {
            use_type_invariant(&*self);
        }
        if self.free_space() == 0 {
            return records;
        }
        let mut i: usize = 0;
        while i < records.len()
            invariant
                i <= records@.len(),
                frames == wires(records@),
                self@.wf(),
                self@.accepts(frames.skip(i as int)),
                total.state == self@.write_each(frames.skip(i as int)).state,
                total.count == i + self@.write_each(frames.skip(i as int)).count,
                old(out)@ + total.bytes == out@ + self@.write_each(frames.skip(i as int)).bytes,
            ensures
                i <= records@.len(),
                self@.wf(),
                total.state == self@,
                total.count == i,
                old(out)@ + total.bytes == out@,
                i < records@.len() ==> self@.free_space() == 0,
            decreases records@.len() - i,
        {
            proof {
                assert(frames.skip(i as int).drop_first() =~= frames.skip(i + 1));
            }
            if self.write_record(&records[i], out).is_err() {
                break ;
            }
            i += 1;
        }
        records.split_off(i)
    }

    /// Cuts `buf` into records that fit the log from where it stands: the
    /// first fills what is left of the current block.
    pub fn make_records<'a>(&self, buf: &'a [u8]) -> (records: Vec<Record<'a>>)
        ensures
            pieces(records@) == split(self@.block_free() as int, buf@),
            joined(pieces(records@)) == buf@,
            well_framed(pieces(records@)),
            forall|i: int| 0 <= i < records.len() ==> (#[trigger] records[i])@.wf(),
            self@.accepts(wires(records@)),
    {
        let records = make_records_from_buf(self.current_block_free_space(), buf);
        proof {
            lemma_split_accepted(self@, buf@, wires(records@));
        }
        records
    }
}

} // verus!
