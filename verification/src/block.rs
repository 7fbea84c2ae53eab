//! Record framing: the wire image of a record, its checksum, and the split of
//! a logical write into records that respect block boundaries.
use crate::bytes::equal;
use crate::types::{BLOCK_MAX_SIZE, BLOCK_MIN_FREE_SIZE};
use vstd::prelude::*;

verus! {

/// Bytes of header in front of every payload: checksum, length, type tag.
pub const RECORD_EXTRA_SIZE: usize = 7;

/// A payload must be shorter than this, so that its length fits the 16-bit field.
pub const RECORD_MAX_DATA_SIZE: usize = 65535;

/// Payload bytes that a record filling a whole block carries.
pub const BLOCK_DATA_SIZE: usize = 32761;

/// How a record relates to the logical write it was cut from.
#[derive(Debug, PartialEq, Eq, Structural, Copy, Clone)]
pub enum Type {
    /// The whole write.
    Full,
    /// The first fragment of a write.
    First,
    /// A fragment between the first and the last.
    Middle,
    /// The last fragment of a write.
    Last,
}

impl Type {
    /// The byte that stands for this type on the wire.
    pub open spec fn tag_spec(self) -> u8 {
        match self {
            Type::Full => 1,
            Type::First => 2,
            Type::Middle => 3,
            Type::Last => 4,
        }
    }

    /// The byte that stands for this type on the wire.
    #[verifier::when_used_as_spec(tag_spec)]
    pub fn tag(self) -> (t: u8)
        ensures
            t == self.tag_spec(),
    {
        match self {
            Type::Full => 1,
            Type::First => 2,
            Type::Middle => 3,
            Type::Last => 4,
        }
    }
}

/// The register of a CRC-32 (IEEE) digest after `bytes` were fed to it when
/// its register held `value`. A fresh digest holds 0. This names what
/// `crc::crc32::update` returns with the IEEE table; nothing here says what
/// that is on given bytes.
pub uninterp spec fn crc32_update(value: u32, bytes: Seq<u8>) -> u32;

/// The checksum of a record: the register of a fresh CRC-32 (IEEE) digest
/// after the type tag and then the payload were fed to it.
pub open spec fn checksum_of(typ: Type, data: Seq<u8>) -> u32 {
    crc32_update(crc32_update(0, seq![typ.tag_spec()]), data)
}

/// The four bytes of `n`, least significant first.
pub open spec fn le_bytes_u32(n: u32) -> Seq<u8> {
    seq![
        (n % 256) as u8,
        ((n / 256) % 256) as u8,
        ((n / 65536) % 256) as u8,
        ((n / 16777216) % 256) as u8,
    ]
}

/// The two bytes of `n`, least significant first.
pub open spec fn le_bytes_u16(n: u16) -> Seq<u8> {
    seq![(n % 256) as u8, ((n / 256) % 256) as u8]
}

/// Calls `crc::crc32::update` with the table `crc::crc32::IEEE_TABLE`.
/// Believed, not proved: what comes back depends on the register and the
/// bytes alone; [`crc32_update`] is the name of it.
#[verifier::external_body]
fn crc32_feed(value: u32, bytes: &[u8]) -> (r: u32)
    ensures
        r == crc32_update(value, bytes@),
{
    crc::crc32::update(value, &crc::crc32::IEEE_TABLE, bytes)
}

/// Calls `byteorder::LittleEndian::write_u32` on a buffer of four bytes.
/// Believed, not proved: the buffer then holds the four bytes of `n`, least
/// significant first.
#[verifier::external_body]
fn u32_le(n: u32) -> (b: [u8; 4])
    ensures
        b@ == le_bytes_u32(n),
{
    let mut b = [0u8; 4];
    <byteorder::LittleEndian as byteorder::ByteOrder>::write_u32(&mut b, n);
    b
}

/// Calls `byteorder::LittleEndian::write_u16` on a buffer of two bytes.
/// Believed, not proved: the buffer then holds the two bytes of `n`, least
/// significant first.
#[verifier::external_body]
fn u16_le(n: u16) -> (b: [u8; 2])
    ensures
        b@ == le_bytes_u16(n),
{
    let mut b = [0u8; 2];
    <byteorder::LittleEndian as byteorder::ByteOrder>::write_u16(&mut b, n);
    b
}

/// What a record is: its header fields and its payload.
pub ghost struct RecordView {
    pub checksum: u32,
    pub length: u16,
    pub typ: Type,
    pub data: Seq<u8>,
}

impl RecordView {
    /// The header fields say what the payload is.
    pub open spec fn wf(self) -> bool {
        &&& self.data.len() < RECORD_MAX_DATA_SIZE
        &&& self.length == self.data.len()
        &&& self.checksum == checksum_of(self.typ, self.data)
    }

    /// The record as it stands in the log: checksum and length in little
    /// endian, the type tag, then the payload.
    pub open spec fn wire(self) -> Seq<u8> {
        le_bytes_u32(self.checksum) + le_bytes_u16(self.length) + seq![self.typ.tag_spec()]
            + self.data
    }
}

/// A well-formed record is what its type and payload make it: two with the
/// same type and payload have the same checksum and length.
pub proof fn lemma_record_determined(a: RecordView, b: RecordView)
    requires
        a.wf(),
        b.wf(),
        a.typ == b.typ,
        a.data == b.data,
    ensures
        a == b,
        a.wire() == b.wire(),
{
}

/// A framed piece of a logical write. It borrows its payload from the buffer
/// it was cut from.
#[derive(Debug)]
pub struct Record<'a> {
    checksum: u32,
    length: u16,
    typ: Type,
    data: &'a [u8],
}

impl<'a> View for Record<'a> {
    type V = RecordView;

    closed spec fn view(&self) -> RecordView {
        RecordView { checksum: self.checksum, length: self.length, typ: self.typ, data: self.data@ }
    }
}

impl<'a> Clone for Record<'a> {
    fn clone(&self) -> (r: Self)
        ensures
            r == *self,
    {
        proof {
            use_type_invariant(self);
        }
        Record { checksum: self.checksum, length: self.length, typ: self.typ, data: self.data }
    }
}

impl<'a> PartialEq for Record<'a> {
    fn eq(&self, other: &Self) -> (same: bool) {
        self.checksum == other.checksum && self.length == other.length && self.typ == other.typ
            && equal(self.data, other.data)
    }
}

impl<'a> vstd::std_specs::cmp::PartialEqSpecImpl for Record<'a> {
    open spec fn obeys_eq_spec() -> bool {
        true
    }

    /// Two records are equal when header fields and payload bytes are.
    open spec fn eq_spec(&self, other: &Self) -> bool {
        self@ == other@
    }
}

impl<'a> Record<'a> {
    #[verifier::type_invariant]
    spec fn inv(self) -> bool {
        self@.wf()
    }

    /// Frames `data` as a record of type `typ`.
    pub fn new(typ: Type, data: &'a [u8]) -> (r: Self)
        requires
            data@.len() < RECORD_MAX_DATA_SIZE,
        ensures
            r@.typ == typ,
            r@.data == data@,
            r@.wf(),
    {
        let checksum = Self::compute_checksum(typ, data);
        let length = data.len() as u16;
        Record { checksum, length, typ, data }
    }

    /// The checksum of a record of type `typ` with the payload `data`:
    /// CRC-32 (IEEE) of the type tag followed by the payload.
    pub fn compute_checksum(typ: Type, data: &[u8]) -> (c: u32)
        ensures
            c == checksum_of(typ, data@),
    {
        let tag = [typ.tag()];
        let seeded = crc32_feed(0, &tag);
        assert(tag@ =~= seq![typ.tag_spec()]);
        crc32_feed(seeded, data)
    }

    /// Appends the record to `writer` as it stands in the log: checksum and
    /// length in little endian, the type tag, then the payload.
    pub fn write_to(&self, writer: &mut Vec<u8>)
        ensures
            final(writer)@ == old(writer)@ + self@.wire(),
    {
        let checksum = u32_le(self.checksum);
        let length = u16_le(self.length);
        writer.extend_from_slice(&checksum);
        writer.extend_from_slice(&length);
        writer.push(self.typ.tag());
        writer.extend_from_slice(self.data);
    }

    /// The checksum over type tag and payload.
    pub fn checksum(&self) -> (c: u32)
        ensures
            c == self@.checksum,
    {
        self.checksum
    }

    /// The number of payload bytes.
    pub fn length(&self) -> (n: u16)
        ensures
            n == self@.length,
    {
        self.length
    }

    /// The type of the record.
    pub fn typ(&self) -> (t: Type)
        ensures
            t == self@.typ,
    {
        self.typ
    }

    /// The payload.
    pub fn data(&self) -> (d: &'a [u8])
        ensures
            d@ == self@.data,
            self@.wf(),
    {
        proof {
            use_type_invariant(self);
        }
        self.data
    }

    /// The number of bytes that the record takes in the log.
    pub fn wire_len(&self) -> (n: usize)
        ensures
            n == self@.wire().len(),
            n == RECORD_EXTRA_SIZE + self@.data.len(),
            self@.wf(),
    {
        proof {
            use_type_invariant(self);
        }
        RECORD_EXTRA_SIZE + self.data.len()
    }
}

/// The free space that a split starts from. A block with too little room for
/// a header is left behind: the split then starts in a fresh block.
pub open spec fn starting_room(free_block_size: int) -> int {
    if free_block_size < RECORD_EXTRA_SIZE {
        BLOCK_MAX_SIZE as int
    } else {
        free_block_size
    }
}

/// Whether a write of `len` bytes can be split from `free_block_size` on: its
/// first record, which takes what room there is, must fit the length field.
pub open spec fn can_split(free_block_size: int, len: int) -> bool {
    len < RECORD_MAX_DATA_SIZE || starting_room(free_block_size) - RECORD_EXTRA_SIZE
        < RECORD_MAX_DATA_SIZE
}

/// The records that a write of `buf` is cut into when the current block has
/// `free_block_size` bytes left, each as its type and payload.
///
/// A write that fits the room is one `Full` record. Otherwise a `First`
/// record takes the room, `Middle` records of a whole block each follow
/// while more than a block's payload is left, and a `Last` record takes the rest.
pub open spec fn split(free_block_size: int, buf: Seq<u8>) -> Seq<(Type, Seq<u8>)> {
    let head = starting_room(free_block_size) - RECORD_EXTRA_SIZE;
    if buf.len() <= head {
        seq![(Type::Full, buf)]
    } else {
        let middles = (buf.len() - head - 1) / (BLOCK_DATA_SIZE as int);
        Seq::new(
            (middles + 2) as nat,
            |j: int|
                if j == 0 {
                    (Type::First, buf.subrange(0, head))
                } else if j <= middles {
                    (
                        Type::Middle,
                        buf.subrange(
                            head + (j - 1) * BLOCK_DATA_SIZE,
                            head + j * BLOCK_DATA_SIZE,
                        ),
                    )
                } else {
                    (Type::Last, buf.subrange(head + middles * BLOCK_DATA_SIZE, buf.len() as int))
                },
        )
    }
}

/// Type and payload of each record.
pub open spec fn pieces<'a>(records: Seq<Record<'a>>) -> Seq<(Type, Seq<u8>)> {
    records.map_values(|r: Record<'a>| (r@.typ, r@.data))
}

/// The payloads of `pieces`, one after the other.
pub open spec fn joined(pieces: Seq<(Type, Seq<u8>)>) -> Seq<u8>
    decreases pieces.len(),
{
    if pieces.len() == 0 {
        Seq::empty()
    } else {
        joined(pieces.drop_last()) + pieces.last().1
    }
}

/// Joining after one more piece appends its payload.
proof fn lemma_joined_push(pieces: Seq<(Type, Seq<u8>)>, piece: (Type, Seq<u8>))
    ensures
        joined(pieces.push(piece)) == joined(pieces) + piece.1,
{
    assert(pieces.push(piece).drop_last() =~= pieces);
}

/// The types of one logical write: a lone `Full`, or a `First`, any number of
/// `Middle`s and a `Last`.
pub open spec fn well_framed(pieces: Seq<(Type, Seq<u8>)>) -> bool {
    ||| (pieces.len() == 1 && pieces[0].0 == Type::Full)
    ||| {
        &&& pieces.len() >= 2
        &&& pieces[0].0 == Type::First
        &&& pieces.last().0 == Type::Last
        &&& forall|i: int| 0 < i < pieces.len() - 1 ==> (#[trigger] pieces[i]).0 == Type::Middle
    }
}

/// The first `n + 1` pieces of a write that is split, joined, are the bytes
/// up to where the piece after them starts.
proof fn lemma_joined_head(free_block_size: int, buf: Seq<u8>, n: int)
    requires
        buf.len() > starting_room(free_block_size) - RECORD_EXTRA_SIZE,
        0 <= n <= (buf.len() - (starting_room(free_block_size) - RECORD_EXTRA_SIZE) - 1) / (
        BLOCK_DATA_SIZE as int),
    ensures
        joined(split(free_block_size, buf).subrange(0, n + 1)) == buf.subrange(
            0,
            starting_room(free_block_size) - RECORD_EXTRA_SIZE + n * BLOCK_DATA_SIZE,
        ),
    decreases n,
{
    let cut = split(free_block_size, buf);
    assert(cut.subrange(0, n + 1) =~= cut.subrange(0, n).push(cut[n]));
    lemma_joined_push(cut.subrange(0, n), cut[n]);
    if n > 0 {
        lemma_joined_head(free_block_size, buf, n - 1);
    }
}

/// Splitting loses nothing and marks the pieces as one write: the payloads
/// of the pieces, joined in order, are the buffer, and the types are a lone
/// `Full`, or a `First`, any number of `Middle`s and a `Last`.
pub proof fn lemma_split_round_trip(free_block_size: int, buf: Seq<u8>)
    ensures
        joined(split(free_block_size, buf)) == buf,
        well_framed(split(free_block_size, buf)),
{
    let head = starting_room(free_block_size) - RECORD_EXTRA_SIZE;
    let cut = split(free_block_size, buf);
    if buf.len() <= head {
        lemma_joined_push(Seq::empty(), (Type::Full, buf));
    } else {
        let middles = (buf.len() - head - 1) / (BLOCK_DATA_SIZE as int);
        lemma_joined_head(free_block_size, buf, middles);
        lemma_joined_push(cut.subrange(0, middles + 1), cut[middles + 1]);
    }
}

/// No piece overflows the length field, a `Middle` or `Last` piece is never
/// empty, and no piece at all is empty where the buffer is not and the room
/// is more than a header.
pub proof fn lemma_split_payload_bounds(free_block_size: int, buf: Seq<u8>)
    requires
        can_split(free_block_size, buf.len() as int),
    ensures
        forall|i: int|
            0 <= i < split(free_block_size, buf).len() ==> (#[trigger] split(
                free_block_size,
                buf,
            )[i]).1.len() < RECORD_MAX_DATA_SIZE,
        forall|i: int|
            0 < i < split(free_block_size, buf).len() ==> (#[trigger] split(
                free_block_size,
                buf,
            )[i]).1.len() > 0,
        buf.len() > 0 && starting_room(free_block_size) > RECORD_EXTRA_SIZE ==> split(
            free_block_size,
            buf,
        )[0].1.len() > 0,
{
}

/// A block with no room for a header counts as a fresh block: splitting from
/// it gives what splitting from an empty block gives.
pub proof fn lemma_split_restarts_below_header(free_block_size: int, buf: Seq<u8>)
    requires
        free_block_size <= BLOCK_MIN_FREE_SIZE,
    ensures
        split(free_block_size, buf) == split(BLOCK_MAX_SIZE as int, buf),
{
}

/// Cuts `buf` into records for a log whose current block has
/// `free_block_size` bytes left.
pub fn make_records_from_buf<'a>(free_block_size: usize, buf: &'a [u8]) -> (records: Vec<
    Record<'a>,
>)
    requires
        can_split(free_block_size as int, buf@.len() as int),
    ensures
        pieces(records@) == split(free_block_size as int, buf@),
        joined(pieces(records@)) == buf@,
        well_framed(pieces(records@)),
        forall|i: int| 0 <= i < records.len() ==> (#[trigger] records[i])@.wf(),
        forall|i: int| 0 < i < records.len() ==> (#[trigger] records[i])@.data.len() > 0,
        buf@.len() > 0 && starting_room(free_block_size as int) > RECORD_EXTRA_SIZE
            ==> records[0]@.data.len() > 0,
    decreases
            (if free_block_size < RECORD_EXTRA_SIZE {
                1nat
            } else {
                0nat
            }),
{
    if free_block_size < RECORD_EXTRA_SIZE {
        return make_records_from_buf(BLOCK_MAX_SIZE, buf);
    }
    proof {
        lemma_split_round_trip(free_block_size as int, buf@);
        lemma_split_payload_bounds(free_block_size as int, buf@);
    }
    let head = free_block_size - RECORD_EXTRA_SIZE;
    let mut records: Vec<Record<'a>> = Vec::new();
    if buf.len() <= head {
        records.push(Record::new(Type::Full, buf));
        assert(pieces(records@) =~= split(free_block_size as int, buf@));
        return records;
    }
    let mut index = head;
    records.push(Record::new(Type::First, &buf[0..index]));
    while buf.len() - index > BLOCK_DATA_SIZE
        invariant
            head < buf@.len(),
            head < RECORD_MAX_DATA_SIZE,
            records@.len() >= 1,
            index == head + (records@.len() - 1) * BLOCK_DATA_SIZE,
            index < buf@.len(),
            records[0]@.typ == Type::First,
            records[0]@.data == buf@.subrange(0, head as int),
            forall|j: int|
                1 <= j < records@.len() ==> (#[trigger] records[j])@.typ == Type::Middle
                    && records[j]@.data == buf@.subrange(
                    head + (j - 1) * BLOCK_DATA_SIZE,
                    head + j * BLOCK_DATA_SIZE,
                ),
            forall|i: int| 0 <= i < records.len() ==> (#[trigger] records[i])@.wf(),
        decreases buf@.len() - index,
    {
        records.push(Record::new(Type::Middle, &buf[index..index + BLOCK_DATA_SIZE]));
        index += BLOCK_DATA_SIZE;
    }
    records.push(Record::new(Type::Last, &buf[index..buf.len()]));
    assert(pieces(records@) =~= split(free_block_size as int, buf@));
    records
}

} // verus!
