//! The binary save archive: one file image holding the serialized session
//! data and an appendable, indexed sequence of image blobs.
//!
//! Layout: a fixed 56-byte header (an eight-byte magic, then six 64-bit
//! little-endian fields: version, data-region size, used data size, data-
//! region offset, index offset, index size), a pre-allocated region for the
//! session-data bytes, the image blobs appended one after the other, and
//! the serialized image index always occupying the tail of the file.  The
//! position of an image in the index is its id; the index is append-only.
//!
//! The archive works on an in-memory file image; reading and writing the
//! actual file is left to the caller, which hands the bytes in and out.
use crate::strutil::copy_byte_range;
use vstd::bytes::{
    lemma_auto_spec_u32_to_from_le_bytes, lemma_auto_spec_u64_to_from_le_bytes,
    spec_u32_to_le_bytes, spec_u64_to_le_bytes, u64_from_le_bytes, u64_to_le_bytes,
};
use vstd::prelude::*;

verus! {

/// Size of the serialized header in bytes.
pub const HEADER_SIZE: u64 = 56;

/// Default capacity of the pre-allocated session-data region.
pub const DEFAULT_GAME_DATA_SIZE: u64 = 20 * 1024 * 1024;

/// The marker every archive file starts with.
pub open spec fn magic_seq() -> Seq<u8> {
    seq![0x57u8, 0x4fu8, 0x57u8, 0x45u8, 0x41u8, 0x56u8, 0x45u8, 0x52u8]
}

fn magic_vec() -> (r: Vec<u8>)
    ensures
        r@ == magic_seq(),
{
    let mut v: Vec<u8> = Vec::new();
    v.push(0x57u8);
    v.push(0x4fu8);
    v.push(0x57u8);
    v.push(0x45u8);
    v.push(0x41u8);
    v.push(0x56u8);
    v.push(0x45u8);
    v.push(0x52u8);
    proof {
        assert(v@ =~= magic_seq());
    }
    v
}

/// The fixed-width header record of an archive file.
#[derive(Debug, Clone, Copy)]
pub struct SaveHeader {
    pub version: u64,
    pub game_data_region_size: u64,
    pub game_data_size: u64,
    pub game_data_region_offset: u64,
    pub index_offset: u64,
    pub index_size: u64,
}

/// The serialized form of the header: the magic, then the six fields as
/// little-endian 64-bit values.
pub open spec fn header_bytes(h: SaveHeader) -> Seq<u8> {
    magic_seq() + spec_u64_to_le_bytes(h.version) + spec_u64_to_le_bytes(h.game_data_region_size)
        + spec_u64_to_le_bytes(h.game_data_size) + spec_u64_to_le_bytes(h.game_data_region_offset)
        + spec_u64_to_le_bytes(h.index_offset) + spec_u64_to_le_bytes(h.index_size)
}

/// The serialized form of the image-index entries: each pair as a 32-bit
/// arity followed by its two 64-bit values, little endian.
pub open spec fn pairs_bytes(ix: Seq<(u64, u64)>) -> Seq<u8>
    decreases ix.len(),
{
    if ix.len() == 0 {
        Seq::<u8>::empty()
    } else {
        spec_u32_to_le_bytes(2u32) + spec_u64_to_le_bytes(ix[0].0) + spec_u64_to_le_bytes(ix[0].1)
            + pairs_bytes(ix.drop_first())
    }
}

/// The serialized form of the image index: a 32-bit count followed by the
/// entries.
pub open spec fn index_bytes_spec(ix: Seq<(u64, u64)>) -> Seq<u8> {
    spec_u32_to_le_bytes(ix.len() as u32) + pairs_bytes(ix)
}

pub proof fn lemma_index_bytes_len(ix: Seq<(u64, u64)>)
    ensures
        index_bytes_spec(ix).len() == 4 + 20 * ix.len(),
    decreases ix.len(),
{
    lemma_auto_spec_u32_to_from_le_bytes();
    lemma_auto_spec_u64_to_from_le_bytes();
    if ix.len() == 0 {
    } else {
        lemma_index_bytes_len(ix.drop_first());
        assert(pairs_bytes(ix).len() == 20 + pairs_bytes(ix.drop_first()).len()) by {
            assert(index_bytes_spec(ix.drop_first()).len() == 4 + pairs_bytes(
                ix.drop_first(),
            ).len());
        }
    }
}

/// Total length of the image blobs an index covers.
pub open spec fn sum_lens(ix: Seq<(u64, u64)>) -> int
    decreases ix.len(),
{
    if ix.len() == 0 {
        0
    } else {
        sum_lens(ix.drop_last()) + ix.last().1
    }
}

proof fn lemma_sum_lens_take(ix: Seq<(u64, u64)>, k: int)
    requires
        0 <= k <= ix.len(),
    ensures
        0 <= sum_lens(ix.take(k)) <= sum_lens(ix),
    decreases ix.len(),
{
    if ix.len() == 0 {
        assert(ix.take(k) =~= ix);
    } else if k == ix.len() {
        assert(ix.take(k) =~= ix);
        lemma_sum_lens_take(ix.drop_last(), ix.len() - 1);
    } else {
        assert(ix.take(k) =~= ix.drop_last().take(k));
        lemma_sum_lens_take(ix.drop_last(), k);
    }
}

/// Relies on `serde_binary::to_vec` with little endian: a sequence is
/// written as a 32-bit count followed by its items, and a pair as a 32-bit
/// arity followed by its components; writing to memory fails only when the
/// count exceeds the 32-bit range.
#[verifier::external_body]
fn encode_index(ix: &Vec<(u64, u64)>) -> (r: Option<Vec<u8>>)
    ensures
        ix@.len() <= 0xffff_ffff ==> r is Some,
        r matches Some(b) ==> b@ == index_bytes_spec(ix@),
{
    serde_binary::to_vec(ix, serde_binary::binary_stream::Endian::Little).ok()
}

/// Relies on `serde_binary::from_slice` with little endian: reading a
/// buffer that `to_vec` produced succeeds, with a value that serializes
/// back to that buffer.
#[verifier::external_body]
fn decode_index(b: &[u8]) -> (r: Option<Vec<(u64, u64)>>)
    ensures
        r is None ==> (forall|v: Seq<(u64, u64)>|
            v.len() <= 0xffff_ffff ==> b@ != index_bytes_spec(v)),
        r matches Some(ix) ==> (forall|v: Seq<(u64, u64)>|
            v.len() <= 0xffff_ffff && b@ == index_bytes_spec(v) ==> b@ == index_bytes_spec(ix@)),
{
    serde_binary::from_slice(b, serde_binary::binary_stream::Endian::Little).ok()
}

proof fn lemma_pairs_bytes_len(ix: Seq<(u64, u64)>)
    ensures
        pairs_bytes(ix).len() == 20 * ix.len(),
    decreases ix.len(),
{
    lemma_auto_spec_u32_to_from_le_bytes();
    lemma_auto_spec_u64_to_from_le_bytes();
    if ix.len() > 0 {
        lemma_pairs_bytes_len(ix.drop_first());
    }
}

proof fn lemma_pairs_bytes_injective(a: Seq<(u64, u64)>, b: Seq<(u64, u64)>)
    requires
        a.len() == b.len(),
        pairs_bytes(a) == pairs_bytes(b),
    ensures
        a == b,
    decreases a.len(),
{
    lemma_auto_spec_u32_to_from_le_bytes();
    lemma_auto_spec_u64_to_from_le_bytes();
    if a.len() == 0 {
        assert(a =~= b);
    } else {
        lemma_pairs_bytes_len(a.drop_first());
        lemma_pairs_bytes_len(b.drop_first());
        assert(pairs_bytes(a).subrange(4, 12) =~= spec_u64_to_le_bytes(a[0].0));
        assert(pairs_bytes(b).subrange(4, 12) =~= spec_u64_to_le_bytes(b[0].0));
        assert(pairs_bytes(a).subrange(12, 20) =~= spec_u64_to_le_bytes(a[0].1));
        assert(pairs_bytes(b).subrange(12, 20) =~= spec_u64_to_le_bytes(b[0].1));
        assert(a[0].0 == b[0].0 && a[0].1 == b[0].1);
        assert(pairs_bytes(a).subrange(20, pairs_bytes(a).len() as int) =~= pairs_bytes(
            a.drop_first(),
        ));
        assert(pairs_bytes(b).subrange(20, pairs_bytes(b).len() as int) =~= pairs_bytes(
            b.drop_first(),
        ));
        lemma_pairs_bytes_injective(a.drop_first(), b.drop_first());
        assert(a =~= b) by {
            assert(forall|k: int|
                1 <= k < a.len() ==> #[trigger] a[k] == a.drop_first()[k - 1] && b[k]
                    == b.drop_first()[k - 1]);
        }
    }
}

/// Two bounded indexes that serialize to the same bytes are the same index.
proof fn lemma_index_bytes_injective(a: Seq<(u64, u64)>, b: Seq<(u64, u64)>)
    requires
        a.len() <= 0xffff_ffff,
        b.len() <= 0xffff_ffff,
        index_bytes_spec(a) == index_bytes_spec(b),
    ensures
        a == b,
{
    lemma_auto_spec_u32_to_from_le_bytes();
    lemma_pairs_bytes_len(a);
    lemma_pairs_bytes_len(b);
    assert(index_bytes_spec(a).subrange(0, 4) =~= spec_u32_to_le_bytes(a.len() as u32));
    assert(index_bytes_spec(b).subrange(0, 4) =~= spec_u32_to_le_bytes(b.len() as u32));
    assert(a.len() as u32 == b.len() as u32);
    assert(a.len() == b.len());
    assert(index_bytes_spec(a).subrange(4, index_bytes_spec(a).len() as int) =~= pairs_bytes(a));
    assert(index_bytes_spec(b).subrange(4, index_bytes_spec(b).len() as int) =~= pairs_bytes(b));
    lemma_pairs_bytes_injective(a, b);
}

/// The index offsets chain back to back from the end of the data region,
/// and the blobs end where the index begins.
spec fn chain_pred(ix: Seq<(u64, u64)>, region_size: u64, index_offset: u64) -> bool {
    &&& forall|j: int|
        0 <= j < ix.len() ==> (#[trigger] ix[j]).0 == HEADER_SIZE + region_size + sum_lens(
            ix.take(j),
        ) && ix[j].0 + ix[j].1 <= index_offset
    &&& HEADER_SIZE + region_size + sum_lens(ix) == index_offset
}

/// Decides `chain_pred` at run time.
#[verifier::loop_isolation(false)]
#[verifier::rlimit(50)]
fn check_chain(index: &Vec<(u64, u64)>, region_size: u64, index_offset: u64) -> (ok: bool)
    requires
        region_size <= index_offset,
        HEADER_SIZE <= index_offset - region_size,
    ensures
        ok == chain_pred(index@, region_size, index_offset),
{
    let base = HEADER_SIZE + region_size;
    let mut expected: u64 = base;
    let mut k: usize = 0;
    let mut chain_ok = true;
    while k < index.len() && chain_ok
        invariant
            k <= index@.len(),
            chain_ok ==> expected == base + sum_lens(index@.take(k as int)) && expected
                <= index_offset,
            chain_ok ==> forall|j: int|
                0 <= j < k ==> (#[trigger] index@[j]).0 == base + sum_lens(index@.take(j))
                    && index@[j].0 + index@[j].1 <= index_offset,
            !chain_ok ==> exists|j: int|
                0 <= j < index@.len() && !((#[trigger] index@[j]).0 == base + sum_lens(
                    index@.take(j),
                ) && index@[j].0 + index@[j].1 <= index_offset),
        decreases index@.len() - k,
    {
        let (off, len) = index[k];
        if off != expected || len > index_offset - expected {
            chain_ok = false;
            proof {
                let j = k as int;
                assert(!(index@[j].0 == base + sum_lens(index@.take(j)) && index@[j].0
                    + index@[j].1 <= index_offset));
            }
        } else {
            proof {
                assert(index@.take(k + 1).drop_last() =~= index@.take(k as int));
            }
            expected = expected + len;
        }
        k += 1;
    }
    proof {
        assert(index@.take(index@.len() as int) =~= index@);
    }
    chain_ok && expected == index_offset
}

/// Errors of archive operations.
#[derive(Debug, Clone, Copy, PartialEq, Eq, Structural)]
pub enum ArchiveError {
    /// The file does not start with the archive magic.
    InvalidMagic,
    /// The file is shorter than its header demands.
    Truncated,
    /// The header or the image index does not describe the file.
    Corrupt,
    /// The session data does not fit the pre-allocated region.
    DataTooLarge,
    /// No session data has been written yet.
    NoGameData,
    /// No image carries the requested id.
    ImageNotFound,
}

/// An archive held as an in-memory file image.
#[derive(Debug)]
pub struct SaveArchive {
    bytes: Vec<u8>,
    header: SaveHeader,
    image_index: Vec<(u64, u64)>,
}

impl SaveArchive {
    /// The whole file image.
    pub closed spec fn file_bytes(&self) -> Seq<u8> {
        self.bytes@
    }

    pub closed spec fn header_spec(&self) -> SaveHeader {
        self.header
    }

    pub closed spec fn index_spec(&self) -> Seq<(u64, u64)> {
        self.image_index@
    }

    /// The meaningful session-data bytes.
    pub closed spec fn game_data(&self) -> Seq<u8> {
        self.bytes@.subrange(
            HEADER_SIZE as int,
            HEADER_SIZE as int + self.header.game_data_size as int,
        )
    }

    /// Capacity of the session-data region.
    pub closed spec fn region_size(&self) -> int {
        self.header.game_data_region_size as int
    }

    /// The stored images, in append order; the position is the image id.
    pub closed spec fn images(&self) -> Seq<Seq<u8>> {
        Seq::new(
            self.image_index@.len(),
            |k: int|
                self.bytes@.subrange(
                    self.image_index@[k].0 as int,
                    self.image_index@[k].0 + self.image_index@[k].1,
                ),
        )
    }

    /// The file image is internally consistent: the header occupies the
    /// head and describes the regions, the image blobs sit back to back
    /// after the data region, and the serialized index occupies the tail.
    pub closed spec fn wf(&self) -> bool {
        let h = self.header;
        let ix = self.image_index@;
        let b = self.bytes@;
        &&& h.game_data_region_offset == HEADER_SIZE
        &&& h.game_data_size <= h.game_data_region_size
        &&& h.index_offset == HEADER_SIZE + h.game_data_region_size + sum_lens(ix)
        &&& forall|k: int|
            0 <= k < ix.len() ==> (#[trigger] ix[k]).0 == HEADER_SIZE
                + h.game_data_region_size + sum_lens(ix.take(k))
        &&& b.len() >= HEADER_SIZE
        &&& b.len() == h.index_offset + h.index_size
        &&& b.subrange(0, HEADER_SIZE as int) == header_bytes(h)
        &&& (ix.len() == 0 ==> h.index_size == 0)
        &&& (ix.len() > 0 ==> h.index_size == index_bytes_spec(ix).len() && b.subrange(
            h.index_offset as int,
            b.len() as int,
        ) == index_bytes_spec(ix))
        &&& ix.len() <= 0xffff_ffff
    }

    fn serialize_header(h: &SaveHeader) -> (r: Vec<u8>)
        ensures
            r@ == header_bytes(*h),
            r@.len() == HEADER_SIZE,
    {
        proof {
            lemma_auto_spec_u64_to_from_le_bytes();
        }
        let mut r = magic_vec();
        let mut f = u64_to_le_bytes(h.version);
        r.append(&mut f);
        let mut f = u64_to_le_bytes(h.game_data_region_size);
        r.append(&mut f);
        let mut f = u64_to_le_bytes(h.game_data_size);
        r.append(&mut f);
        let mut f = u64_to_le_bytes(h.game_data_region_offset);
        r.append(&mut f);
        let mut f = u64_to_le_bytes(h.index_offset);
        r.append(&mut f);
        let mut f = u64_to_le_bytes(h.index_size);
        r.append(&mut f);
        proof {
            assert(r@ =~= header_bytes(*h));
        }
        r
    }

    /// Creates a fresh archive: an empty data region of the default
    /// capacity, no session data, no images.
    pub fn create() -> (r: SaveArchive)
        ensures
            r.wf(),
            r.images() == Seq::<Seq<u8>>::empty(),
            r.game_data() == Seq::<u8>::empty(),
            r.region_size() == DEFAULT_GAME_DATA_SIZE as int,
            r.header_spec() == (SaveHeader {
                version: 1,
                game_data_region_size: DEFAULT_GAME_DATA_SIZE,
                game_data_size: 0,
                game_data_region_offset: HEADER_SIZE,
                index_offset: (HEADER_SIZE + DEFAULT_GAME_DATA_SIZE) as u64,
                index_size: 0,
            }),
    {
        let header = SaveHeader {
            version: 1,
            game_data_region_size: DEFAULT_GAME_DATA_SIZE,
            game_data_size: 0,
            game_data_region_offset: HEADER_SIZE,
            index_offset: HEADER_SIZE + DEFAULT_GAME_DATA_SIZE,
            index_size: 0,
        };
        let mut bytes = Self::serialize_header(&header);
        let mut region: Vec<u8> = vec![0u8; DEFAULT_GAME_DATA_SIZE as usize];
        bytes.append(&mut region);
        let r = SaveArchive { bytes, header, image_index: Vec::new() };
        proof {
            assert(r.bytes@.subrange(0, HEADER_SIZE as int) =~= header_bytes(r.header));
            assert(r.images() =~= Seq::<Seq<u8>>::empty());
            assert(r.game_data() =~= Seq::<u8>::empty());
        }
        r
    }

    /// Hands out the file image for persisting.
    pub fn into_bytes(self) -> (r: Vec<u8>)
        ensures
            r@ == self.file_bytes(),
    {
        self.bytes
    }

    /// Stores the serialized session data; fails, leaving the archive
    /// unchanged, when the bytes do not fit the pre-allocated region.
    #[verifier::rlimit(100)]
    pub fn write_game_data(&mut self, data: &[u8]) -> (r: Result<(), ArchiveError>)
        requires
            old(self).wf(),
        ensures
            final(self).wf(),
            data@.len() < old(self).region_size() ==> r is Ok,
            data@.len() >= old(self).region_size() ==> r == Result::<(), ArchiveError>::Err(
                ArchiveError::DataTooLarge,
            ) && *final(self) == *old(self),
            r is Ok ==> final(self).game_data() == data@ && final(self).images() == old(self).images() && final(self).region_size() == old(self).region_size() && final(self).file_bytes().len() == old(self).file_bytes().len(),
    {
        proof {
            lemma_auto_spec_u64_to_from_le_bytes();
        }
        let data_len = data.len();
        if !((data_len as u64) < self.header.game_data_region_size) {
            return Result::Err(ArchiveError::DataTooLarge);
        }
        let n = self.bytes.len();
        proof {
            lemma_sum_lens_take(self.image_index@, self.image_index@.len() as int);
            lemma_index_bytes_len(self.image_index@);
        }
        let region_size_u = self.header.game_data_region_size as usize;
        let mut new_header = self.header;
        new_header.game_data_size = data_len as u64;
        let mut nb = Self::serialize_header(&new_header);
        let mut data_part: Vec<u8> = Vec::new();
        data_part.extend_from_slice(data);
        nb.append(&mut data_part);
        let pad_len = region_size_u - data_len;
        let mut pad: Vec<u8> = vec![0u8; pad_len];
        nb.append(&mut pad);
        let mut tail = copy_byte_range(
            &self.bytes,
            (HEADER_SIZE as usize) + region_size_u,
            n,
        );
        nb.append(&mut tail);
        let ghost old_self = *self;
        self.bytes = nb;
        self.header = new_header;
        proof {
            let b = self.bytes@;
            let ob = old_self.bytes@;
            assert(b.len() == ob.len());
            assert(b.subrange(0, HEADER_SIZE as int) =~= header_bytes(self.header));
            assert(self.game_data() =~= data@);
            assert(forall|x: int|
                HEADER_SIZE + self.header.game_data_region_size <= x < b.len() ==> b[x] == ob[x]);
            if self.image_index@.len() > 0 {
                assert(b.subrange(self.header.index_offset as int, b.len() as int)
                    =~= ob.subrange(old_self.header.index_offset as int, ob.len() as int));
            }
            assert forall|k: int| 0 <= k < self.image_index@.len() implies self.images()[k]
                == old_self.images()[k] by {
                lemma_sum_lens_take(self.image_index@, k + 1);
                lemma_sum_lens_take(self.image_index@, k);
                assert(self.image_index@.take(k + 1).drop_last() =~= self.image_index@.take(k));
                assert(sum_lens(self.image_index@.take(k + 1)) == sum_lens(
                    self.image_index@.take(k),
                ) + self.image_index@[k].1);
                assert(b.subrange(
                    self.image_index@[k].0 as int,
                    self.image_index@[k].0 + self.image_index@[k].1,
                ) =~= ob.subrange(
                    self.image_index@[k].0 as int,
                    self.image_index@[k].0 + self.image_index@[k].1,
                ));
            }
            assert(self.images() =~= old_self.images());
        }
        Result::Ok(())
    }

    /// Reads back the stored session data; fails when none was written.
    pub fn read_game_data(&self) -> (r: Result<Vec<u8>, ArchiveError>)
        requires
            self.wf(),
        ensures
            self.game_data().len() > 0 ==> (r matches Ok(v) && v@ == self.game_data()),
            self.game_data().len() == 0 ==> r == Result::<Vec<u8>, ArchiveError>::Err(
                ArchiveError::NoGameData,
            ),
    {
        proof {
            lemma_sum_lens_take(self.image_index@, self.image_index@.len() as int);
            lemma_index_bytes_len(self.image_index@);
        }
        if self.header.game_data_size == 0 {
            return Result::Err(ArchiveError::NoGameData);
        }
        let n = self.bytes.len();
        let data_size = self.header.game_data_size as usize;
        Result::Ok(copy_byte_range(&self.bytes, HEADER_SIZE as usize, (HEADER_SIZE as usize) + data_size))
    }

    /// Appends an image blob and returns its assigned id: its position in
    /// the index.  The blob is written where the index used to start, and
    /// the index is re-serialized at the new tail.
    #[verifier::rlimit(100)]
    pub fn append_image(&mut self, image_bytes: &[u8]) -> (r: Result<usize, ArchiveError>)
        requires
            old(self).wf(),
            old(self).images().len() < 0xffff_ffff,
            old(self).file_bytes().len() + image_bytes@.len() + 24 <= usize::MAX,
        ensures
            final(self).wf(),
            r matches Ok(id) && id == old(self).images().len(),
            final(self).images() == old(self).images().push(image_bytes@),
            final(self).game_data() == old(self).game_data(),
            final(self).region_size() == old(self).region_size(),
    {
        proof {
            lemma_auto_spec_u64_to_from_le_bytes();
            lemma_index_bytes_len(self.image_index@);
            lemma_sum_lens_take(self.image_index@, self.image_index@.len() as int);
        }
        let n = self.bytes.len();
        let offset = self.header.index_offset;
        let length = image_bytes.len() as u64;
        let id = self.image_index.len();
        self.image_index.push((offset, length));
        proof {
            lemma_index_bytes_len(self.image_index@);
            assert(self.image_index@.drop_last() =~= old(self).image_index@);
        }
        let new_index_bytes = match encode_index(&self.image_index) {
            Option::Some(b) => b,
            Option::None => {
                proof {
                    assert(false);
                }
                return Result::Err(ArchiveError::Corrupt);
            },
        };
        let offset_u = offset as usize;
        let mut nb = copy_byte_range(&self.bytes, 0, offset_u);
        let mut img: Vec<u8> = Vec::new();
        img.extend_from_slice(image_bytes);
        nb.append(&mut img);
        let mut ixb_copy: Vec<u8> = Vec::new();
        ixb_copy.extend_from_slice(new_index_bytes.as_slice());
        nb.append(&mut ixb_copy);
        let mut new_header = self.header;
        new_header.index_offset = offset + length;
        new_header.index_size = new_index_bytes.len() as u64;
        let mut hb = Self::serialize_header(&new_header);
        let ghost old_self = *old(self);
        // splice the refreshed header over the first bytes
        let mut rest = copy_byte_range(&nb, HEADER_SIZE as usize, nb.len());
        hb.append(&mut rest);
        self.bytes = hb;
        self.header = new_header;
        proof {
            let b = self.bytes@;
            let ob = old_self.bytes@;
            let ix = self.image_index@;
            let oix = old_self.image_index@;
            assert(ix =~= oix.push((offset, length)));
            assert(sum_lens(ix) == sum_lens(oix) + length) by {
                assert(ix.drop_last() =~= oix);
            }
            assert forall|k: int| 0 <= k < ix.len() implies (#[trigger] ix[k]).0 == HEADER_SIZE
                + self.header.game_data_region_size + sum_lens(ix.take(k)) by {
                if k < oix.len() {
                    assert(ix.take(k) =~= oix.take(k));
                    assert(ix[k] == oix[k]);
                } else {
                    assert(ix.take(k) =~= oix);
                }
            }
            assert(b.len() == self.header.index_offset + self.header.index_size);
            assert(b.subrange(0, HEADER_SIZE as int) =~= header_bytes(self.header));
            assert(b.subrange(self.header.index_offset as int, b.len() as int)
                =~= index_bytes_spec(ix));
            // bytes below the old index offset are unchanged
            assert(forall|x: int| HEADER_SIZE <= x < offset ==> b[x] == ob[x]);
            assert(self.game_data() =~= old_self.game_data());
            assert forall|k: int| 0 <= k < oix.len() implies self.images()[k]
                == old_self.images()[k] by {
                lemma_sum_lens_take(oix, k + 1);
                lemma_sum_lens_take(oix, k);
                assert(oix.take(k + 1).drop_last() =~= oix.take(k));
                assert(sum_lens(oix.take(k + 1)) == sum_lens(oix.take(k)) + oix[k].1);
                assert(b.subrange(oix[k].0 as int, oix[k].0 + oix[k].1) =~= ob.subrange(
                    oix[k].0 as int,
                    oix[k].0 + oix[k].1,
                ));
            }
            assert(self.images()[oix.len() as int] =~= image_bytes@) by {
                assert(b.subrange(offset as int, offset + length) =~= image_bytes@);
            }
            assert(self.images() =~= old_self.images().push(image_bytes@));
        }
        Result::Ok(id)
    }

    /// Reads back the image with the given id; fails when no image carries
    /// it.
    pub fn read_image(&self, id: usize) -> (r: Result<Vec<u8>, ArchiveError>)
        requires
            self.wf(),
        ensures
            id < self.images().len() ==> (r matches Ok(v) && v@ == self.images()[id as int]),
            id >= self.images().len() ==> r == Result::<Vec<u8>, ArchiveError>::Err(
                ArchiveError::ImageNotFound,
            ),
    {
        if id >= self.image_index.len() {
            return Result::Err(ArchiveError::ImageNotFound);
        }
        let n = self.bytes.len();
        let (offset, length) = self.image_index[id];
        proof {
            lemma_sum_lens_take(self.image_index@, id + 1);
            lemma_sum_lens_take(self.image_index@, self.image_index@.len() as int);
            assert(self.image_index@.take(id + 1).drop_last() =~= self.image_index@.take(
                id as int,
            ));
            assert(sum_lens(self.image_index@.take(id + 1)) == sum_lens(
                self.image_index@.take(id as int),
            ) + self.image_index@[id as int].1);
        }
        Result::Ok(copy_byte_range(&self.bytes, offset as usize, (offset + length) as usize))
    }

    /// Opens an archive from a file image.  Validates the magic, the
    /// header's description of the regions, and that the tail is exactly
    /// the serialized index; the bytes are kept as they are, so an archive
    /// written by this library reads back with the same session data and
    /// images.
    #[verifier::rlimit(100)]
    pub fn open(bytes: Vec<u8>) -> (r: Result<SaveArchive, ArchiveError>)
        ensures
            r matches Ok(a) ==> a.wf() && a.file_bytes() == bytes@,
            forall|a: SaveArchive|
                a.wf() && a.file_bytes() == bytes@ ==> (r matches Ok(b) && b.images()
                    == a.images() && b.game_data() == a.game_data() && b.region_size()
                    == a.region_size()),
            bytes@.len() >= 8 && bytes@.subrange(0, 8) != magic_seq() ==> r == Result::<
                SaveArchive,
                ArchiveError,
            >::Err(ArchiveError::InvalidMagic),
    {
        proof {
            lemma_auto_spec_u64_to_from_le_bytes();
        }
        let n = bytes.len();
        if n < HEADER_SIZE as usize {
            proof {
                assert forall|a: SaveArchive| !(a.wf() && a.file_bytes() == bytes@) by {
                    if a.wf() && a.file_bytes() == bytes@ {
                        assert(a.file_bytes().subrange(0, HEADER_SIZE as int) == header_bytes(
                            a.header_spec(),
                        ));
                    }
                }
            }
            if n >= 8 {
                let m = magic_vec();
                let mut k: usize = 0;
                let mut magic_ok = true;
                while k < 8
                    invariant
                        k <= 8,
                        n >= 8,
                        m@ == magic_seq(),
                        n == bytes@.len(),
                        magic_ok == (forall|j: int| 0 <= j < k ==> bytes@[j] == magic_seq()[j]),
                    decreases 8 - k,
                {
                    if bytes[k] != m[k] {
                        magic_ok = false;
                    }
                    k += 1;
                }
                if !magic_ok {
                    proof {
                        assert(bytes@.subrange(0, 8) != magic_seq()) by {
                            let j = choose|j: int|
                                0 <= j < 8 && bytes@[j] != magic_seq()[j];
                            assert(bytes@.subrange(0, 8)[j] != magic_seq()[j]);
                        }
                    }
                    return Result::Err(ArchiveError::InvalidMagic);
                }
                proof {
                    assert(bytes@.subrange(0, 8) =~= magic_seq());
                }
                return Result::Err(ArchiveError::Truncated);
            }
            return Result::Err(ArchiveError::Truncated);
        }
        let m = magic_vec();
        let mut k: usize = 0;
        let mut magic_ok = true;
        while k < 8
            invariant
                k <= 8,
                n >= HEADER_SIZE,
                m@ == magic_seq(),
                n == bytes@.len(),
                magic_ok == (forall|j: int| 0 <= j < k ==> bytes@[j] == magic_seq()[j]),
            decreases 8 - k,
        {
            if bytes[k] != m[k] {
                magic_ok = false;
            }
            k += 1;
        }
        if !magic_ok {
            proof {
                assert(bytes@.subrange(0, 8) != magic_seq()) by {
                    let j = choose|j: int| 0 <= j < 8 && bytes@[j] != magic_seq()[j];
                    assert(bytes@.subrange(0, 8)[j] != magic_seq()[j]);
                }
                assert forall|a: SaveArchive| !(a.wf() && a.file_bytes() == bytes@) by {
                    if a.wf() && a.file_bytes() == bytes@ {
                        assert(a.file_bytes().subrange(0, HEADER_SIZE as int) == header_bytes(
                            a.header_spec(),
                        ));
                        assert(bytes@.subrange(0, 8) =~= a.file_bytes().subrange(
                            0,
                            HEADER_SIZE as int,
                        ).subrange(0, 8));
                        assert(header_bytes(a.header_spec()).subrange(0, 8) =~= magic_seq());
                    }
                }
            }
            return Result::Err(ArchiveError::InvalidMagic);
        }
        proof {
            assert(bytes@.subrange(0, 8) =~= magic_seq());
        }
        let version = u64_from_le_bytes(&bytes.as_slice()[8..16]);
        let game_data_region_size = u64_from_le_bytes(&bytes.as_slice()[16..24]);
        let game_data_size = u64_from_le_bytes(&bytes.as_slice()[24..32]);
        let game_data_region_offset = u64_from_le_bytes(&bytes.as_slice()[32..40]);
        let index_offset = u64_from_le_bytes(&bytes.as_slice()[40..48]);
        let index_size = u64_from_le_bytes(&bytes.as_slice()[48..56]);
        let header = SaveHeader {
            version,
            game_data_region_size,
            game_data_size,
            game_data_region_offset,
            index_offset,
            index_size,
        };
        proof {
            assert(header_bytes(header) =~= bytes@.subrange(0, HEADER_SIZE as int));
            assert forall|a: SaveArchive| a.wf() && a.file_bytes() == bytes@ implies a.header_spec()
                == header by {
                assert(header_bytes(a.header_spec()) == bytes@.subrange(0, HEADER_SIZE as int));
                lemma_header_bytes_injective(a.header_spec(), header);
            }
        }
        if !(game_data_region_offset == HEADER_SIZE && game_data_size <= game_data_region_size) {
            proof {
                assert forall|a: SaveArchive| !(a.wf() && a.file_bytes() == bytes@) by {}
            }
            return Result::Err(ArchiveError::Corrupt);
        }
        let n64 = n as u64;
        if !(index_offset <= n64 && index_size == n64 - index_offset && game_data_region_size
            <= index_offset && HEADER_SIZE <= index_offset - game_data_region_size) {
            proof {
                assert forall|a: SaveArchive| !(a.wf() && a.file_bytes() == bytes@) by {
                    if a.wf() && a.file_bytes() == bytes@ {
                        lemma_sum_lens_take(a.index_spec(), a.index_spec().len() as int);
                    }
                }
            }
            return Result::Err(ArchiveError::Corrupt);
        }
        let mut image_index: Vec<(u64, u64)> = Vec::new();
        if index_size > 0 {
            let tail = copy_byte_range(&bytes, index_offset as usize, n);
            let decoded = match decode_index(tail.as_slice()) {
                Option::Some(ix) => ix,
                Option::None => {
                    proof {
                        assert forall|a: SaveArchive| !(a.wf() && a.file_bytes() == bytes@) by {
                            if a.wf() && a.file_bytes() == bytes@ {
                                lemma_index_bytes_len(a.index_spec());
                                assert(a.index_spec().len() > 0);
                                assert(a.index_spec().len() <= 0xffff_ffff && tail@
                                    == index_bytes_spec(a.index_spec()));
                            }
                        }
                    }
                    return Result::Err(ArchiveError::Corrupt);
                },
            };
            if decoded.len() == 0 || decoded.len() > 0xffff_ffffusize {
                proof {
                    assert forall|a: SaveArchive| !(a.wf() && a.file_bytes() == bytes@) by {
                        if a.wf() && a.file_bytes() == bytes@ {
                            lemma_index_bytes_len(a.index_spec());
                            assert(a.index_spec().len() > 0);
                            assert(a.index_spec().len() <= 0xffff_ffff && tail@
                                == index_bytes_spec(a.index_spec()));
                            lemma_index_bytes_len(decoded@);
                        }
                    }
                }
                return Result::Err(ArchiveError::Corrupt);
            }
            // the decoded index must serialize back to exactly the tail
            let reenc = match encode_index(&decoded) {
                Option::Some(b) => b,
                Option::None => {
                    proof {
                        assert(false);
                    }
                    return Result::Err(ArchiveError::Corrupt);
                },
            };
            let mut same = reenc.len() == tail.len();
            if same {
                let mut k: usize = 0;
                while k < tail.len()
                    invariant
                        k <= tail@.len(),
                        reenc@.len() == tail@.len(),
                        same == (forall|j: int| 0 <= j < k ==> reenc@[j] == tail@[j]),
                    decreases tail@.len() - k,
                {
                    if reenc[k] != tail[k] {
                        same = false;
                    }
                    k += 1;
                }
            }
            if !same {
                proof {
                    assert(reenc@ != tail@) by {
                        if reenc@.len() == tail@.len() {
                            let j = choose|j: int|
                                0 <= j < tail@.len() && reenc@[j] != tail@[j];
                            assert(reenc@[j] != tail@[j]);
                        }
                    }
                    assert forall|a: SaveArchive| !(a.wf() && a.file_bytes() == bytes@) by {
                        if a.wf() && a.file_bytes() == bytes@ {
                            lemma_index_bytes_len(a.index_spec());
                            assert(a.index_spec().len() > 0);
                            assert(a.index_spec().len() <= 0xffff_ffff && tail@
                                == index_bytes_spec(a.index_spec()));
                        }
                    }
                }
                return Result::Err(ArchiveError::Corrupt);
            }
            proof {
                assert(reenc@ =~= tail@);
                assert(tail@ == bytes@.subrange(index_offset as int, n as int));
                assert(reenc@ == index_bytes_spec(decoded@));
                assert(bytes@.subrange(index_offset as int, n as int) == index_bytes_spec(
                    decoded@,
                ));
            }
            image_index = decoded;
        }
        proof {
            if index_size > 0 {
                assert(bytes@.subrange(index_offset as int, n as int) == index_bytes_spec(
                    image_index@,
                ));
                assert(1 <= image_index@.len() <= 0xffff_ffff);
            } else {
                assert(image_index@.len() == 0);
            }
            // any well-formed archive over these bytes has exactly this index
            assert forall|a: SaveArchive| a.wf() && a.file_bytes() == bytes@ implies a.index_spec()
                == image_index@ by {
                if a.index_spec().len() == 0 {
                    lemma_index_bytes_len(a.index_spec());
                    assert(index_size == 0);
                    assert(a.index_spec() =~= image_index@);
                } else {
                    lemma_index_bytes_len(a.index_spec());
                    assert(index_size > 0);
                    lemma_index_bytes_injective(a.index_spec(), image_index@);
                }
            }
        }
        // the offsets recorded in the index must chain through the file
        if !check_chain(&image_index, game_data_region_size, index_offset) {
            proof {
                assert forall|a: SaveArchive| !(a.wf() && a.file_bytes() == bytes@) by {
                    if a.wf() && a.file_bytes() == bytes@ {
                        let ix = a.index_spec();
                        assert(ix == image_index@);
                        lemma_sum_lens_take(ix, ix.len() as int);
                        assert forall|j: int| 0 <= j < ix.len() implies (#[trigger] ix[j]).0
                            == HEADER_SIZE + game_data_region_size + sum_lens(ix.take(j))
                            && ix[j].0 + ix[j].1 <= index_offset by {
                            lemma_sum_lens_take(ix, j + 1);
                            assert(ix.take(j + 1).drop_last() =~= ix.take(j));
                            assert(sum_lens(ix.take(j + 1)) == sum_lens(ix.take(j)) + ix[j].1);
                        }
                        assert(chain_pred(ix, game_data_region_size, index_offset));
                    }
                }
            }
            return Result::Err(ArchiveError::Corrupt);
        }
        let r = SaveArchive { bytes, header, image_index };
        proof {
            assert(r.image_index@.take(r.image_index@.len() as int) =~= r.image_index@);
            assert(r.wf());
            assert forall|a: SaveArchive| a.wf() && a.file_bytes() == r.bytes@ implies r.images()
                == a.images() && r.game_data() == a.game_data() && r.region_size()
                == a.region_size() by {
                assert(a.index_spec() == r.image_index@);
                assert(r.images() =~= a.images());
                assert(r.game_data() =~= a.game_data());
            }
        }
        Result::Ok(r)
    }
}

/// Two headers that serialize to the same bytes are the same header.
proof fn lemma_header_bytes_injective(a: SaveHeader, b: SaveHeader)
    requires
        header_bytes(a) == header_bytes(b),
    ensures
        a == b,
{
    lemma_auto_spec_u64_to_from_le_bytes();
    assert(header_bytes(a).subrange(8, 16) =~= spec_u64_to_le_bytes(a.version));
    assert(header_bytes(b).subrange(8, 16) =~= spec_u64_to_le_bytes(b.version));
    assert(header_bytes(a).subrange(16, 24) =~= spec_u64_to_le_bytes(a.game_data_region_size));
    assert(header_bytes(b).subrange(16, 24) =~= spec_u64_to_le_bytes(b.game_data_region_size));
    assert(header_bytes(a).subrange(24, 32) =~= spec_u64_to_le_bytes(a.game_data_size));
    assert(header_bytes(b).subrange(24, 32) =~= spec_u64_to_le_bytes(b.game_data_size));
    assert(header_bytes(a).subrange(32, 40) =~= spec_u64_to_le_bytes(a.game_data_region_offset));
    assert(header_bytes(b).subrange(32, 40) =~= spec_u64_to_le_bytes(b.game_data_region_offset));
    assert(header_bytes(a).subrange(40, 48) =~= spec_u64_to_le_bytes(a.index_offset));
    assert(header_bytes(b).subrange(40, 48) =~= spec_u64_to_le_bytes(b.index_offset));
    assert(header_bytes(a).subrange(48, 56) =~= spec_u64_to_le_bytes(a.index_size));
    assert(header_bytes(b).subrange(48, 56) =~= spec_u64_to_le_bytes(b.index_size));
}

} // verus!
