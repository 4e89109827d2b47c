//! The `.nse` binary file format.
//!
//! Layout, with all integers little-endian:
//!
//! ```text
//! offset  section
//! 0       NSEFileHeader        (fixed size)
//! ...     dense core           (header.dense_core_size bytes)
//! ...     codebook             (header.codebook_size bytes)
//! ...     micro-expert meta    (fixed part and centroid of each expert)
//! ...     micro-expert data    (header.micro_expert_data_size bytes)
//! ...     MIPS index tree      (from header.index_tree_offset to the end)
//! ```
//!
//! The header holds the offset of each section, so that a reader can go straight
//! to the one it needs. A centroid value is a 32-bit float; it is kept here as its
//! bit pattern.

use vstd::prelude::*;
use vstd::bytes::{
    lemma_auto_spec_u32_to_from_le_bytes, lemma_auto_spec_u64_to_from_le_bytes,
    spec_u32_from_le_bytes, spec_u32_to_le_bytes, spec_u64_from_le_bytes, spec_u64_to_le_bytes,
    u32_from_le_bytes, u32_to_le_bytes, u64_from_le_bytes, u64_to_le_bytes,
};
use vstd::slice::slice_subrange;
use crate::error::{NseError, NseResult};
use crate::text::{decimal, push_decimal};

verus! {

/// File magic, ASCII `"NSE1"`.
pub const NSE_MAGIC: [u8; 4] = [0x4e, 0x53, 0x45, 0x31];

/// Current format version.
pub const NSE_VERSION: u32 = 1;

/// Size of an encoded [`NSEFileHeader`] in bytes.
pub const HEADER_SIZE: u64 = 100;

/// Size of the fixed part of an encoded [`MicroExpertMeta`] in bytes.
pub const ME_META_FIXED_SIZE: u64 = 16;

/// The header at the start of an `.nse` file.
#[derive(Debug, Clone, PartialEq)]
pub struct NSEFileHeader {
    /// Magic bytes, [`NSE_MAGIC`] in a valid file.
    pub magic: [u8; 4],
    /// Format version, [`NSE_VERSION`] in a valid file.
    pub version: u32,
    /// Parameter count of the dense model that the file was made from.
    pub total_params: u64,
    /// Number of transmuted weight layers.
    pub num_layers: u32,
    /// Number of micro-experts in the file.
    pub num_micro_experts: u32,
    /// Number of values in each micro-expert's centroid.
    pub centroid_dim: u32,
    /// Size of the dense core in bytes.
    pub dense_core_size: u32,
    /// Size of the codebook in bytes.
    pub codebook_size: u32,
    /// Size of the packed micro-expert data in bytes.
    pub micro_expert_data_size: u64,
    /// Offset of the dense core.
    pub dense_core_offset: u64,
    /// Offset of the codebook.
    pub codebook_offset: u64,
    /// Offset of the micro-expert metadata.
    pub micro_expert_meta_offset: u64,
    /// Offset of the packed micro-expert data.
    pub micro_expert_data_offset: u64,
    /// Offset of the index tree.
    pub index_tree_offset: u64,
    /// Reserved, zero at present.
    pub reserved: [u8; 16],
}

/// The fixed part of a micro-expert's descriptor. The centroid follows it.
#[derive(Debug, Clone, PartialEq)]
pub struct MicroExpertMeta {
    pub expert_id: u32,
    pub num_channels: u32,
    /// Offset of this expert's packed data within the data section.
    pub data_offset: u64,
}

/// The bytes of an encoded header.
pub open spec fn header_bytes(h: NSEFileHeader) -> Seq<u8> {
    h.magic@ + spec_u32_to_le_bytes(h.version) + spec_u64_to_le_bytes(h.total_params)
        + spec_u32_to_le_bytes(h.num_layers) + spec_u32_to_le_bytes(h.num_micro_experts)
        + spec_u32_to_le_bytes(h.centroid_dim) + spec_u32_to_le_bytes(h.dense_core_size)
        + spec_u32_to_le_bytes(h.codebook_size) + spec_u64_to_le_bytes(h.micro_expert_data_size)
        + spec_u64_to_le_bytes(h.dense_core_offset) + spec_u64_to_le_bytes(h.codebook_offset)
        + spec_u64_to_le_bytes(h.micro_expert_meta_offset) + spec_u64_to_le_bytes(
        h.micro_expert_data_offset,
    ) + spec_u64_to_le_bytes(h.index_tree_offset) + h.reserved@
}

/// The format version that the bytes of a header give.
pub open spec fn version_in(b: Seq<u8>) -> u32 {
    spec_u32_from_le_bytes(b.subrange(4, 8))
}

/// Whether `b` starts with the bytes of the valid header `h`.
pub open spec fn decodes_to(b: Seq<u8>, h: NSEFileHeader) -> bool {
    &&& b.len() >= HEADER_SIZE
    &&& b.subrange(0, 4) == NSE_MAGIC@
    &&& version_in(b) == NSE_VERSION
    &&& header_bytes(h) == b.subrange(0, 100)
}

fn push_bytes(buf: &mut Vec<u8>, bytes: &[u8])
    ensures
        final(buf)@ == old(buf)@ + bytes@,
{
    let ghost start = buf@;
    for i in 0..bytes.len()
        invariant
            buf@ == start + bytes@.take(i as int),
    {
        buf.push(bytes[i]);
        assert(buf@ =~= start + bytes@.take(i + 1));
    }
    assert(bytes@.take(bytes@.len() as int) =~= bytes@);
}

fn push_u32(buf: &mut Vec<u8>, x: u32)
    ensures
        final(buf)@ == old(buf)@ + spec_u32_to_le_bytes(x),
{
    push_bytes(buf, &u32_to_le_bytes(x));
}

fn push_u64(buf: &mut Vec<u8>, x: u64)
    ensures
        final(buf)@ == old(buf)@ + spec_u64_to_le_bytes(x),
{
    push_bytes(buf, &u64_to_le_bytes(x));
}

/// Incremental little-endian reader over a byte slice.
struct Reader<'a> {
    buf: &'a [u8],
    pos: usize,
}

impl<'a> Reader<'a> {
    fn new(buf: &'a [u8]) -> (r: Self)
        ensures
            r.buf@ == buf@,
            r.pos == 0,
    {
        Reader { buf, pos: 0 }
    }

    fn take(&mut self, n: usize) -> (s: &'a [u8])
        requires
            old(self).pos + n <= old(self).buf@.len(),
        ensures
            s@ == old(self).buf@.subrange(old(self).pos as int, old(self).pos + n),
            final(self).buf@ == old(self).buf@,
            final(self).pos == old(self).pos + n,
    {
        assert(self.buf.len() == self.buf@.len());
        let s = slice_subrange(self.buf, self.pos, self.pos + n);
        self.pos = self.pos + n;
        s
    }

    fn read_u32(&mut self) -> (x: u32)
        requires
            old(self).pos + 4 <= old(self).buf@.len(),
        ensures
            x == spec_u32_from_le_bytes(
                old(self).buf@.subrange(old(self).pos as int, old(self).pos + 4),
            ),
            spec_u32_to_le_bytes(x) == old(self).buf@.subrange(
                old(self).pos as int,
                old(self).pos + 4,
            ),
            final(self).buf@ == old(self).buf@,
            final(self).pos == old(self).pos + 4,
    {
        proof {
            lemma_auto_spec_u32_to_from_le_bytes();
        }
        u32_from_le_bytes(self.take(4))
    }

    fn read_u64(&mut self) -> (x: u64)
        requires
            old(self).pos + 8 <= old(self).buf@.len(),
        ensures
            spec_u64_to_le_bytes(x) == old(self).buf@.subrange(
                old(self).pos as int,
                old(self).pos + 8,
            ),
            final(self).buf@ == old(self).buf@,
            final(self).pos == old(self).pos + 8,
    {
        proof {
            lemma_auto_spec_u64_to_from_le_bytes();
        }
        let s = self.take(8);
        let x: u64 = u64_from_le_bytes(s);
        assert(spec_u64_to_le_bytes(spec_u64_from_le_bytes(s@)) == s@);
        x
    }

    /// Reads a 32-bit float as its bit pattern.
    fn read_f32(&mut self) -> (x: u32)
        requires
            old(self).pos + 4 <= old(self).buf@.len(),
        ensures
            spec_u32_to_le_bytes(x) == old(self).buf@.subrange(
                old(self).pos as int,
                old(self).pos + 4,
            ),
            final(self).buf@ == old(self).buf@,
            final(self).pos == old(self).pos + 4,
    {
        self.read_u32()
    }
}

/// Two adjacent pieces of a sequence make up the piece that spans both.
proof fn lemma_join(b: Seq<u8>, from: int, mid: int, to: int)
    requires
        0 <= from <= mid <= to <= b.len(),
    ensures
        b.subrange(from, mid) + b.subrange(mid, to) == b.subrange(from, to),
{
    assert(b.subrange(from, mid) + b.subrange(mid, to) =~= b.subrange(from, to));
}

impl NSEFileHeader {
    /// A header with the magic and the version, and all sizes and offsets zero. They are
    /// filled in when the sections are known.
    pub fn new(total_params: u64, num_layers: u32) -> (r: Self)
        ensures
            r.magic@ == NSE_MAGIC@,
            r.version == NSE_VERSION,
            r.total_params == total_params,
            r.num_layers == num_layers,
            r.num_micro_experts == 0,
            r.centroid_dim == 0,
            r.dense_core_size == 0,
            r.codebook_size == 0,
            r.micro_expert_data_size == 0,
            r.dense_core_offset == 0,
            r.codebook_offset == 0,
            r.micro_expert_meta_offset == 0,
            r.micro_expert_data_offset == 0,
            r.index_tree_offset == 0,
            r.reserved@ == Seq::new(16, |i: int| 0u8),
    {
        let r = NSEFileHeader {
            magic: NSE_MAGIC,
            version: NSE_VERSION,
            total_params,
            num_layers,
            num_micro_experts: 0,
            centroid_dim: 0,
            dense_core_size: 0,
            codebook_size: 0,
            micro_expert_data_size: 0,
            dense_core_offset: 0,
            codebook_offset: 0,
            micro_expert_meta_offset: 0,
            micro_expert_data_offset: 0,
            index_tree_offset: 0,
            reserved: [0u8;16],
        };
        assert(r.reserved@ =~= Seq::new(16, |i: int| 0u8));
        r
    }

    /// The header as bytes.
    pub fn encode(&self) -> (r: Vec<u8>)
        ensures
            r@ == header_bytes(*self),
            r@.len() == HEADER_SIZE,
    {
        let mut buf: Vec<u8> = Vec::with_capacity(100);
        push_bytes(&mut buf, &self.magic);
        assert(buf@ =~= self.magic@);
        push_u32(&mut buf, self.version);
        push_u64(&mut buf, self.total_params);
        push_u32(&mut buf, self.num_layers);
        push_u32(&mut buf, self.num_micro_experts);
        push_u32(&mut buf, self.centroid_dim);
        push_u32(&mut buf, self.dense_core_size);
        push_u32(&mut buf, self.codebook_size);
        push_u64(&mut buf, self.micro_expert_data_size);
        push_u64(&mut buf, self.dense_core_offset);
        push_u64(&mut buf, self.codebook_offset);
        push_u64(&mut buf, self.micro_expert_meta_offset);
        push_u64(&mut buf, self.micro_expert_data_offset);
        push_u64(&mut buf, self.index_tree_offset);
        push_bytes(&mut buf, &self.reserved);
        proof {
            lemma_auto_spec_u32_to_from_le_bytes();
            lemma_auto_spec_u64_to_from_le_bytes();
        }
        buf
    }

    /// Reads a header from the start of `buf`.
    pub fn decode(buf: &[u8]) -> (r: NseResult<Self>)
        ensures
            buf@.len() < HEADER_SIZE ==> (r matches Err(NseError::InvalidFile(m)) && m@
                == "header too short: "@ + decimal(buf@.len()) + " < 100"@),
            buf@.len() >= HEADER_SIZE && buf@.subrange(0, 4) != NSE_MAGIC@ ==> (r matches Err(
                NseError::BadMagic { expected, got },
            ) && expected@ == NSE_MAGIC@ && got@ == buf@.subrange(0, 4)),
            buf@.len() >= HEADER_SIZE && buf@.subrange(0, 4) == NSE_MAGIC@ && version_in(buf@)
                != NSE_VERSION ==> (r matches Err(NseError::UnsupportedVersion(v)) && v
                == version_in(buf@)),
            buf@.len() >= HEADER_SIZE && buf@.subrange(0, 4) == NSE_MAGIC@ && version_in(buf@)
                == NSE_VERSION ==> (r matches Ok(h) && decodes_to(buf@, h)),
    {
        if (buf.len() as u64) < HEADER_SIZE {
            let mut m = String::from_str("header too short: ");
            push_decimal(&mut m, buf.len() as u64);
            m.append(" < 100");
            return Err(NseError::InvalidFile(m));
        }
        let magic: [u8; 4] = [buf[0], buf[1], buf[2], buf[3]];
        assert(magic@ =~= buf@.subrange(0, 4));
        if magic[0] != NSE_MAGIC[0] || magic[1] != NSE_MAGIC[1] || magic[2] != NSE_MAGIC[2]
            || magic[3] != NSE_MAGIC[3] {
            return Err(NseError::BadMagic { expected: NSE_MAGIC, got: magic });
        }
        assert(magic@ =~= NSE_MAGIC@);
        let mut rd = Reader::new(buf);
        rd.pos = 4;
        let version: u32 = rd.read_u32();
        if version != NSE_VERSION {
            return Err(NseError::UnsupportedVersion(version));
        }
        let total_params: u64 = rd.read_u64();
        let num_layers: u32 = rd.read_u32();
        let num_micro_experts: u32 = rd.read_u32();
        let centroid_dim: u32 = rd.read_u32();
        let dense_core_size: u32 = rd.read_u32();
        let codebook_size: u32 = rd.read_u32();
        let micro_expert_data_size: u64 = rd.read_u64();
        let dense_core_offset: u64 = rd.read_u64();
        let codebook_offset: u64 = rd.read_u64();
        let micro_expert_meta_offset: u64 = rd.read_u64();
        let micro_expert_data_offset: u64 = rd.read_u64();
        let index_tree_offset: u64 = rd.read_u64();
        let rest = rd.take(16);
        let mut reserved = [0u8;16];
        for i in 0..16usize
            invariant
                rest@.len() == 16,
                forall|j: int| 0 <= j < i ==> reserved@[j] == rest@[j],
        {
            reserved[i] = rest[i];
        }
        assert(reserved@ =~= rest@);
        proof {
            let b = buf@;
            lemma_join(b, 0, 4, 8);
            lemma_join(b, 0, 8, 16);
            lemma_join(b, 0, 16, 20);
            lemma_join(b, 0, 20, 24);
            lemma_join(b, 0, 24, 28);
            lemma_join(b, 0, 28, 32);
            lemma_join(b, 0, 32, 36);
            lemma_join(b, 0, 36, 44);
            lemma_join(b, 0, 44, 52);
            lemma_join(b, 0, 52, 60);
            lemma_join(b, 0, 60, 68);
            lemma_join(b, 0, 68, 76);
            lemma_join(b, 0, 76, 84);
            lemma_join(b, 0, 84, 100);
        }
        Ok(
            NSEFileHeader {
                magic,
                version,
                total_params,
                num_layers,
                num_micro_experts,
                centroid_dim,
                dense_core_size,
                codebook_size,
                micro_expert_data_size,
                dense_core_offset,
                codebook_offset,
                micro_expert_meta_offset,
                micro_expert_data_offset,
                index_tree_offset,
                reserved,
            },
        )
    }
}

/// The bytes of a centroid, value by value.
pub open spec fn centroid_bytes(c: Seq<u32>) -> Seq<u8>
    decreases c.len(),
{
    if c.len() == 0 {
        Seq::empty()
    } else {
        centroid_bytes(c.drop_last()) + spec_u32_to_le_bytes(c.last())
    }
}

/// The bytes of one micro-expert's metadata with its centroid.
pub open spec fn expert_bytes(m: MicroExpertMeta, c: Seq<u32>) -> Seq<u8> {
    spec_u32_to_le_bytes(m.expert_id) + spec_u32_to_le_bytes(m.num_channels)
        + spec_u64_to_le_bytes(m.data_offset) + centroid_bytes(c)
}

/// The size of one micro-expert's metadata with a centroid of `centroid_dim` values.
pub open spec fn expert_size(centroid_dim: nat) -> nat {
    16 + 4 * centroid_dim
}

proof fn lemma_centroid_len(c: Seq<u32>)
    ensures
        centroid_bytes(c).len() == 4 * c.len(),
    decreases c.len(),
{
    lemma_auto_spec_u32_to_from_le_bytes();
    if c.len() > 0 {
        lemma_centroid_len(c.drop_last());
    }
}

proof fn lemma_expert_len(m: MicroExpertMeta, c: Seq<u32>)
    ensures
        expert_bytes(m, c).len() == expert_size(c.len()),
{
    lemma_auto_spec_u32_to_from_le_bytes();
    lemma_auto_spec_u64_to_from_le_bytes();
    lemma_centroid_len(c);
}

/// Reads `n` centroid values from behind the reader's position.
fn read_centroid<'a>(rd: &mut Reader<'a>, n: u32) -> (c: Vec<u32>)
    requires
        old(rd).pos + 4 * n <= old(rd).buf@.len(),
    ensures
        c@.len() == n,
        centroid_bytes(c@) == old(rd).buf@.subrange(old(rd).pos as int, old(rd).pos + 4 * n),
        final(rd).buf@ == old(rd).buf@,
        final(rd).pos == old(rd).pos + 4 * n,
{
    let mut c: Vec<u32> = Vec::with_capacity(n as usize);
    let ghost b = rd.buf@;
    let ghost start = rd.pos as int;
    assert(b.subrange(start, start) =~= Seq::<u8>::empty());
    for i in 0..n
        invariant
            c@.len() == i,
            0 <= start,
            start + 4 * n <= b.len(),
            rd.buf@ == b,
            rd.pos == start + 4 * i,
            centroid_bytes(c@) == b.subrange(start, start + 4 * i),
    {
        let ghost before = c@;
        let x: u32 = rd.read_f32();
        c.push(x);
        proof {
            assert(c@.drop_last() =~= before);
            lemma_join(b, start, start + 4 * i, start + 4 * (i + 1));
        }
    }
    c
}

impl MicroExpertMeta {
    /// The size of an expert's metadata with its centroid, in bytes.
    pub fn on_disk_size(centroid_dim: u32) -> (r: u64)
        ensures
            r == expert_size(centroid_dim as nat),
    {
        ME_META_FIXED_SIZE + (centroid_dim as u64) * 4
    }

    /// The fixed part and the centroid as bytes.
    pub fn encode(&self, centroid: &[u32]) -> (r: Vec<u8>)
        ensures
            r@ == expert_bytes(*self, centroid@),
            r@.len() == expert_size(centroid@.len()),
    {
        let mut buf: Vec<u8> = Vec::new();
        push_u32(&mut buf, self.expert_id);
        assert(buf@ =~= spec_u32_to_le_bytes(self.expert_id));
        push_u32(&mut buf, self.num_channels);
        push_u64(&mut buf, self.data_offset);
        let ghost fixed = buf@;
        assert(centroid@.take(0).len() == 0);
        assert(buf@ =~= fixed + centroid_bytes(centroid@.take(0)));
        for i in 0..centroid.len()
            invariant
                buf@ == fixed + centroid_bytes(centroid@.take(i as int)),
        {
            push_u32(&mut buf, centroid[i]);
            assert(centroid@.take(i + 1).drop_last() =~= centroid@.take(i as int));
            assert(buf@ =~= fixed + centroid_bytes(centroid@.take(i + 1)));
        }
        assert(centroid@.take(centroid@.len() as int) =~= centroid@);
        proof {
            lemma_expert_len(*self, centroid@);
        }
        buf
    }

    /// Reads one expert's metadata from the start of `buf`. Returns it with the
    /// number of bytes that it and its centroid take.
    pub fn decode(buf: &[u8], centroid_dim: u32) -> (r: NseResult<(Self, usize)>)
        requires
            expert_size(centroid_dim as nat) <= usize::MAX,
        ensures
            buf@.len() < expert_size(centroid_dim as nat) ==> (r matches Err(
                NseError::InvalidFile(m),
            ) && m@ == short_meta_text(buf@.len(), centroid_dim as nat)),
            buf@.len() >= expert_size(centroid_dim as nat) ==> (r matches Ok((m, used)) && used
                == expert_size(centroid_dim as nat) && spec_u32_to_le_bytes(m.expert_id)
                + spec_u32_to_le_bytes(m.num_channels) + spec_u64_to_le_bytes(m.data_offset)
                == buf@.subrange(0, 16)),
    {
        let need: usize = ME_META_FIXED_SIZE as usize + centroid_dim as usize * 4;
        if buf.len() < need {
            let mut m = String::from_str("micro-expert meta too short: ");
            push_decimal(&mut m, buf.len() as u64);
            m.append(" < ");
            push_decimal(&mut m, need as u64);
            return Err(NseError::InvalidFile(m));
        }
        let mut rd = Reader::new(buf);
        let expert_id: u32 = rd.read_u32();
        let num_channels: u32 = rd.read_u32();
        let data_offset: u64 = rd.read_u64();
        proof {
            lemma_join(buf@, 0, 4, 8);
            lemma_join(buf@, 0, 8, 16);
        }
        Ok((MicroExpertMeta { expert_id, num_channels, data_offset }, need))
    }
}

/// The text of the error for metadata of which only `have` bytes are left.
pub open spec fn short_meta_text(have: nat, centroid_dim: nat) -> Seq<char> {
    "micro-expert meta too short: "@ + decimal(have) + " < "@ + decimal(expert_size(centroid_dim))
}

/// The micro-experts of a file, with each centroid as a sequence.
pub open spec fn expert_seq(v: Seq<(MicroExpertMeta, Vec<u32>)>) -> Seq<
    (MicroExpertMeta, Seq<u32>),
> {
    v.map_values(|e: (MicroExpertMeta, Vec<u32>)| (e.0, e.1@))
}

/// The bytes of the metadata of several micro-experts, one behind the other.
pub open spec fn experts_bytes(e: Seq<(MicroExpertMeta, Seq<u32>)>) -> Seq<u8>
    decreases e.len(),
{
    if e.len() == 0 {
        Seq::empty()
    } else {
        experts_bytes(e.drop_last()) + expert_bytes(e.last().0, e.last().1)
    }
}

/// The header of a file with the given sections: `header` with the sizes and the
/// offsets of the sections filled in.
pub open spec fn final_header(
    header: NSEFileHeader,
    dense_core: Seq<u8>,
    codebook: Seq<u8>,
    experts: Seq<(MicroExpertMeta, Seq<u32>)>,
    data: Seq<u8>,
) -> NSEFileHeader {
    let meta_offset = HEADER_SIZE + dense_core.len() + codebook.len();
    let data_offset = meta_offset + experts_bytes(experts).len();
    NSEFileHeader {
        num_micro_experts: experts.len() as u32,
        dense_core_size: dense_core.len() as u32,
        codebook_size: codebook.len() as u32,
        micro_expert_data_size: data.len() as u64,
        dense_core_offset: HEADER_SIZE,
        codebook_offset: (HEADER_SIZE + dense_core.len()) as u64,
        micro_expert_meta_offset: meta_offset as u64,
        micro_expert_data_offset: data_offset as u64,
        index_tree_offset: (data_offset + data.len()) as u64,
        ..header
    }
}

/// The bytes of a whole file.
pub open spec fn file_bytes(
    header: NSEFileHeader,
    dense_core: Seq<u8>,
    codebook: Seq<u8>,
    experts: Seq<(MicroExpertMeta, Seq<u32>)>,
    data: Seq<u8>,
    index_tree: Seq<u8>,
) -> Seq<u8> {
    header_bytes(final_header(header, dense_core, codebook, experts, data)) + dense_core + codebook
        + experts_bytes(experts) + data + index_tree
}

/// The bytes of a complete `.nse` file made of the given parts.
///
/// An empty section still gets an offset: that of the section behind it.
pub fn encode_nse_file(
    header: &NSEFileHeader,
    dense_core: &[u8],
    codebook: &[u8],
    micro_experts: &[(MicroExpertMeta, Vec<u32>)],
    micro_expert_data: &[u8],
    index_tree: &[u8],
) -> (r: NseResult<Vec<u8>>)
    requires
        HEADER_SIZE + dense_core@.len() + codebook@.len() + experts_bytes(
            expert_seq(micro_experts@),
        ).len() + micro_expert_data@.len() <= u64::MAX,
    ensures
        (exists|i: int|
            0 <= i < micro_experts@.len() && (#[trigger] micro_experts@[i]).1@.len() as u32
                != header.centroid_dim) ==> (r matches Err(NseError::InvalidFile(m)) && m@
            == "micro-expert centroid dim mismatch"@),
        (forall|i: int|
            0 <= i < micro_experts@.len() ==> (#[trigger] micro_experts@[i]).1@.len() as u32
                == header.centroid_dim) ==> (r matches Ok(b) && b@ == file_bytes(
            *header,
            dense_core@,
            codebook@,
            expert_seq(micro_experts@),
            micro_expert_data@,
            index_tree@,
        )),
{
    for i in 0..micro_experts.len()
        invariant
            forall|j: int|
                0 <= j < i ==> (#[trigger] micro_experts@[j]).1@.len() as u32
                    == header.centroid_dim,
    {
        #[verifier::truncate]
        let dim: u32 = micro_experts[i].1.len() as u32;
        if dim != header.centroid_dim {
            assert(micro_experts@[i as int].1@.len() as u32 != header.centroid_dim);
            return Err(NseError::InvalidFile(String::from_str("micro-expert centroid dim mismatch")));
        }
    }
    let ghost all = expert_seq(micro_experts@);
    let mut meta: Vec<u8> = Vec::new();
    assert(experts_bytes(all.take(0)) =~= Seq::<u8>::empty());
    for i in 0..micro_experts.len()
        invariant
            all == expert_seq(micro_experts@),
            meta@ == experts_bytes(all.take(i as int)),
    {
        let b = micro_experts[i].0.encode(&micro_experts[i].1);
        push_bytes(&mut meta, &b);
        assert(all.take(i + 1).drop_last() =~= all.take(i as int));
    }
    assert(all.take(micro_experts@.len() as int) =~= all);
    let dense_core_offset: u64 = HEADER_SIZE;
    let codebook_offset: u64 = dense_core_offset + dense_core.len() as u64;
    let micro_expert_meta_offset: u64 = codebook_offset + codebook.len() as u64;
    let micro_expert_data_offset: u64 = micro_expert_meta_offset + meta.len() as u64;
    let index_tree_offset: u64 = micro_expert_data_offset + micro_expert_data.len() as u64;
    #[verifier::truncate]
    let num_micro_experts: u32 = micro_experts.len() as u32;
    #[verifier::truncate]
    let dense_core_size: u32 = dense_core.len() as u32;
    #[verifier::truncate]
    let codebook_size: u32 = codebook.len() as u32;
    let full = NSEFileHeader {
        magic: header.magic,
        version: header.version,
        total_params: header.total_params,
        num_layers: header.num_layers,
        num_micro_experts,
        centroid_dim: header.centroid_dim,
        dense_core_size,
        codebook_size,
        micro_expert_data_size: micro_expert_data.len() as u64,
        dense_core_offset,
        codebook_offset,
        micro_expert_meta_offset,
        micro_expert_data_offset,
        index_tree_offset,
        reserved: header.reserved,
    };
    assert(full == final_header(*header, dense_core@, codebook@, all, micro_expert_data@));
    let mut out = full.encode();
    push_bytes(&mut out, dense_core);
    push_bytes(&mut out, codebook);
    push_bytes(&mut out, &meta);
    push_bytes(&mut out, micro_expert_data);
    push_bytes(&mut out, index_tree);
    Ok(out)
}

/// A file in memory: its header, and its sections as slices of the file's bytes.
pub struct NseFileView<'a> {
    pub header: NSEFileHeader,
    pub dense_core: &'a [u8],
    pub codebook: &'a [u8],
    pub micro_expert_meta: &'a [u8],
    pub micro_expert_data: &'a [u8],
    pub index_tree: &'a [u8],
}

/// Where each of the five sections starts and ends, in file order, in a file of
/// `len` bytes.
pub open spec fn section_ranges(h: NSEFileHeader, len: nat) -> Seq<(int, int)> {
    seq![
        (h.dense_core_offset as int, h.dense_core_offset + h.dense_core_size),
        (h.codebook_offset as int, h.codebook_offset + h.codebook_size),
        (h.micro_expert_meta_offset as int, h.micro_expert_data_offset as int),
        (h.micro_expert_data_offset as int, h.micro_expert_data_offset + h.micro_expert_data_size),
        (h.index_tree_offset as int, len as int),
    ]
}

/// Whether the first `k` sections end within a file of `len` bytes.
pub open spec fn sections_within(h: NSEFileHeader, len: nat, k: int) -> bool {
    forall|j: int| 0 <= j < k ==> (#[trigger] section_ranges(h, len)[j]).1 <= len
}

/// Whether every section whose predecessors lie within the file starts no later
/// than it ends, and ends at an address.
pub open spec fn sections_ordered(h: NSEFileHeader, len: nat) -> bool {
    forall|k: int|
        0 <= k < 5 && sections_within(h, len, k) ==> {
            let s = #[trigger] section_ranges(h, len)[k];
            s.0 <= s.1 <= usize::MAX
        }
}

/// The text of the error for a section that ends behind the file.
pub open spec fn out_of_bounds_text(start: nat, end: nat, len: nat) -> Seq<char> {
    "section out of bounds: ["@ + decimal(start) + ", "@ + decimal(end) + ") > buf len "@ + decimal(
        len,
    )
}

fn slice_range(buf: &[u8], offset: u64, len: u64) -> (r: NseResult<&[u8]>)
    requires
        offset + len <= usize::MAX,
    ensures
        offset + len > buf@.len() ==> (r matches Err(NseError::InvalidFile(m)) && m@
            == out_of_bounds_text(offset as nat, (offset + len) as nat, buf@.len())),
        offset + len <= buf@.len() ==> (r matches Ok(s) && s@ == buf@.subrange(
            offset as int,
            offset + len,
        )),
{
    let start: usize = offset as usize;
    let end: usize = start + len as usize;
    if end > buf.len() {
        let mut m = String::from_str("section out of bounds: [");
        push_decimal(&mut m, start as u64);
        m.append(", ");
        push_decimal(&mut m, end as u64);
        m.append(") > buf len ");
        push_decimal(&mut m, buf.len() as u64);
        return Err(NseError::InvalidFile(m));
    }
    Ok(slice_subrange(buf, start, end))
}

/// Whether `r` is what cutting the sections out of a file by the header's offsets gives: the
/// sections, or the error for the first one that does not lie within the file.
pub open spec fn cut_by(header: NSEFileHeader, buf: Seq<u8>, r: NseResult<NseFileView<'_>>) -> bool {
    let s = section_ranges(header, buf.len());
    &&& sections_within(header, buf.len(), 5) ==> (r matches Ok(v) && {
        &&& v.header == header
        &&& v.dense_core@ == buf.subrange(s[0].0, s[0].1)
        &&& v.codebook@ == buf.subrange(s[1].0, s[1].1)
        &&& v.micro_expert_meta@ == buf.subrange(s[2].0, s[2].1)
        &&& v.micro_expert_data@ == buf.subrange(s[3].0, s[3].1)
        &&& v.index_tree@ == buf.subrange(s[4].0, s[4].1)
    })
    &&& forall|k: int|
        0 <= k < 5 && sections_within(header, buf.len(), k) && (#[trigger] section_ranges(
            header,
            buf.len(),
        )[k]).1 > buf.len() ==> (r matches Err(NseError::InvalidFile(m)) && m@
            == out_of_bounds_text(s[k].0 as nat, s[k].1 as nat, buf.len()))
}

/// The sections of the bytes of a whole file, by the offsets in its header.
pub fn view_file(buf: &[u8]) -> (r: NseResult<NseFileView<'_>>)
    ensures
        buf@.len() < HEADER_SIZE ==> (r matches Err(NseError::InvalidFile(m)) && m@
            == "header too short: "@ + decimal(buf@.len()) + " < 100"@),
        buf@.len() >= HEADER_SIZE && buf@.subrange(0, 4) != NSE_MAGIC@ ==> (r matches Err(
            NseError::BadMagic { expected, got },
        ) && expected@ == NSE_MAGIC@ && got@ == buf@.subrange(0, 4)),
        buf@.len() >= HEADER_SIZE && buf@.subrange(0, 4) == NSE_MAGIC@ && version_in(buf@)
            != NSE_VERSION ==> (r matches Err(NseError::UnsupportedVersion(v)) && v == version_in(
            buf@,
        )),
        buf@.len() >= HEADER_SIZE && buf@.subrange(0, 4) == NSE_MAGIC@ && version_in(buf@)
            == NSE_VERSION ==> exists|h: NSEFileHeader|
            #[trigger] decodes_to(buf@, h) && if sections_ordered(h, buf@.len()) {
                cut_by(h, buf@, r)
            } else {
                r matches Err(NseError::InvalidFile(m)) && m@ == "section offsets out of order"@
            },
{
    let header = match NSEFileHeader::decode(buf) {
        Ok(h) => h,
        Err(e) => return Err(e),
    };
    assert(decodes_to(buf@, header));
    if !NseFileView::can_slice(buf.len(), &header) {
        return Err(NseError::InvalidFile(String::from_str("section offsets out of order")));
    }
    NseFileView::from_bytes(buf, header)
}

impl<'a> NseFileView<'a> {
    /// Whether the header's offsets let the sections of a file of `len` bytes be
    /// looked at one after the other: see [`sections_ordered`].
    pub fn can_slice(len: usize, header: &NSEFileHeader) -> (r: bool)
        ensures
            r == sections_ordered(*header, len as nat),
    {
        let ghost s = section_ranges(*header, len as nat);
        let ghost n = len as nat;
        let h = header;
        let top: u64 = usize::MAX as u64;
        proof {
            assert(sections_within(*h, n, 0));
            assert(sections_within(*h, n, 1) <==> s[0].1 <= n);
            assert(sections_within(*h, n, 2) <==> s[0].1 <= n && s[1].1 <= n);
            assert(sections_within(*h, n, 3) <==> s[0].1 <= n && s[1].1 <= n && s[2].1 <= n);
            assert(sections_within(*h, n, 4) <==> s[0].1 <= n && s[1].1 <= n && s[2].1 <= n
                && s[3].1 <= n);
        }
        if h.dense_core_offset > top - h.dense_core_size as u64 {
            assert(s[0].1 > usize::MAX);
            return false;
        }
        if h.dense_core_offset + h.dense_core_size as u64 > len as u64 {
            return true;
        }
        if h.codebook_offset > top - h.codebook_size as u64 {
            assert(s[1].1 > usize::MAX);
            return false;
        }
        if h.codebook_offset + h.codebook_size as u64 > len as u64 {
            return true;
        }
        if h.micro_expert_meta_offset > h.micro_expert_data_offset || h.micro_expert_data_offset
            > top {
            assert(!(s[2].0 <= s[2].1 <= usize::MAX));
            return false;
        }
        if h.micro_expert_data_offset > len as u64 {
            return true;
        }
        if h.micro_expert_data_offset > top || h.micro_expert_data_size > top
            - h.micro_expert_data_offset {
            assert(s[3].1 > usize::MAX);
            return false;
        }
        if h.micro_expert_data_offset + h.micro_expert_data_size > len as u64 {
            return true;
        }
        assert(s[4].1 == n);
        h.index_tree_offset <= len as u64
    }

    /// Cuts the sections out of the bytes of a whole file, by the header's offsets.
    pub fn from_bytes(buf: &'a [u8], header: NSEFileHeader) -> (r: NseResult<Self>)
        requires
            sections_ordered(header, buf@.len()),
        ensures
            cut_by(header, buf@, r),
    {
        let h = &header;
        let ghost n = buf@.len();
        let ghost s = section_ranges(header, n);
        proof {
            assert(buf.len() == n);
            assert(sections_within(header, n, 0));
            assert(sections_within(header, n, 1) <==> s[0].1 <= n);
            assert(sections_within(header, n, 2) <==> s[0].1 <= n && s[1].1 <= n);
            assert(sections_within(header, n, 3) <==> s[0].1 <= n && s[1].1 <= n && s[2].1 <= n);
            assert(sections_within(header, n, 4) <==> s[0].1 <= n && s[1].1 <= n && s[2].1 <= n
                && s[3].1 <= n);
            assert(s[0].0 <= s[0].1 <= usize::MAX);
        }
        let dense_core = match slice_range(buf, h.dense_core_offset, h.dense_core_size as u64) {
            Ok(x) => x,
            Err(e) => {
                assert(!sections_within(header, n, 1));
                return Err(e);
            },
        };
        assert(s[1].0 <= s[1].1 <= usize::MAX);
        let codebook = match slice_range(buf, h.codebook_offset, h.codebook_size as u64) {
            Ok(x) => x,
            Err(e) => {
                assert(!sections_within(header, n, 2));
                return Err(e);
            },
        };
        assert(s[2].0 <= s[2].1 <= usize::MAX);
        let meta_len: u64 = h.micro_expert_data_offset - h.micro_expert_meta_offset;
        let micro_expert_meta = match slice_range(buf, h.micro_expert_meta_offset, meta_len) {
            Ok(x) => x,
            Err(e) => {
                assert(!sections_within(header, n, 3));
                return Err(e);
            },
        };
        assert(s[3].0 <= s[3].1 <= usize::MAX);
        let micro_expert_data = match slice_range(
            buf,
            h.micro_expert_data_offset,
            h.micro_expert_data_size,
        ) {
            Ok(x) => x,
            Err(e) => {
                assert(!sections_within(header, n, 4));
                return Err(e);
            },
        };
        assert(s[4].0 <= s[4].1 <= usize::MAX);
        let tree_len: u64 = buf.len() as u64 - h.index_tree_offset;
        let index_tree = match slice_range(buf, h.index_tree_offset, tree_len) {
            Ok(x) => x,
            Err(e) => return Err(e),
        };
        Ok(
            NseFileView {
                header,
                dense_core,
                codebook,
                micro_expert_meta,
                micro_expert_data,
                index_tree,
            },
        )
    }

    /// Reads the metadata and the centroid of every micro-expert.
    pub fn micro_experts(&self) -> (r: NseResult<Vec<(MicroExpertMeta, Vec<u32>)>>)
        requires
            expert_size(self.header.centroid_dim as nat) <= usize::MAX,
        ensures
            ({
                let size = expert_size(self.header.centroid_dim as nat);
                let total = self.header.num_micro_experts * size;
                let have = self.micro_expert_meta@.len();
                &&& total <= have ==> (r matches Ok(v) && {
                    &&& v@.len() == self.header.num_micro_experts
                    &&& forall|i: int|
                        0 <= i < v@.len() ==> (#[trigger] v@[i]).1@.len()
                            == self.header.centroid_dim
                    &&& experts_bytes(expert_seq(v@)) == self.micro_expert_meta@.subrange(0, total)
                })
                &&& total > have ==> (r matches Err(NseError::InvalidFile(m)) && m@
                    == short_meta_text(have % size, self.header.centroid_dim as nat))
            }),
    {
        let dim: u32 = self.header.centroid_dim;
        let ghost size: int = expert_size(dim as nat) as int;
        let ghost b = self.micro_expert_meta@;
        let mut out: Vec<(MicroExpertMeta, Vec<u32>)> = Vec::new();
        let mut buf = self.micro_expert_meta;
        assert(b.subrange(0, 0) =~= Seq::<u8>::empty());
        assert(b.subrange(0, b.len() as int) =~= b);
        for i in 0..self.header.num_micro_experts
            invariant
                dim == self.header.centroid_dim,
                size == expert_size(dim as nat),
                size <= usize::MAX,
                b == self.micro_expert_meta@,
                out@.len() == i,
                i * size <= b.len(),
                buf@ == b.subrange(i * size, b.len() as int),
                forall|j: int| 0 <= j < out@.len() ==> (#[trigger] out@[j]).1@.len() == dim,
                experts_bytes(expert_seq(out@)) == b.subrange(0, i * size),
        {
            let ghost left = buf@;
            let ghost before = out@;
            let ghost n: int = self.header.num_micro_experts as int;
            match MicroExpertMeta::decode(buf, dim) {
                Ok((meta, used)) => {
                    let mut rd = Reader::new(buf);
                    rd.pos = 16;
                    let centroid = read_centroid(&mut rd, dim);
                    proof {
                        assert((i + 1) * size == i * size + size) by (nonlinear_arith);
                        lemma_join(left, 0, 16, size);
                        assert(expert_bytes(meta, centroid@) == left.subrange(0, size));
                        assert(left.subrange(0, size) =~= b.subrange(i * size, (i + 1) * size));
                        lemma_join(b, 0, i * size, (i + 1) * size);
                    }
                    out.push((meta, centroid));
                    proof {
                        assert(expert_seq(out@).drop_last() =~= expert_seq(before));
                    }
                    buf = slice_subrange(buf, used, buf.len());
                    assert(buf@ =~= b.subrange((i + 1) * size, b.len() as int));
                },
                Err(e) => {
                    proof {
                        lemma_remainder(b.len() as int, size, i as int, n);
                    }
                    return Err(e);
                },
            }
        }
        Ok(out)
    }
}

/// Taking `k` pieces of `size` away from `len` leaves the remainder once less than
/// a piece is left, and then `n > k` pieces do not fit.
proof fn lemma_remainder(len: int, size: int, k: int, n: int)
    requires
        0 < size,
        0 <= k < n,
        0 <= len - k * size < size,
    ensures
        len % size == len - k * size,
        n * size > len,
{
    vstd::arithmetic::div_mod::lemma_fundamental_div_mod_converse(len, size, k, len - k * size);
    assert(n * size >= (k + 1) * size) by (nonlinear_arith)
        requires
            n >= k + 1,
            size > 0,
    ;
    assert((k + 1) * size == k * size + size) by (nonlinear_arith);
}

/// What stands where in the bytes of a header.
proof fn lemma_header_fields(h: NSEFileHeader)
    ensures
        header_bytes(h).len() == HEADER_SIZE,
        header_bytes(h).subrange(0, 4) == h.magic@,
        header_bytes(h).subrange(4, 8) == spec_u32_to_le_bytes(h.version),
        header_bytes(h).subrange(8, 16) == spec_u64_to_le_bytes(h.total_params),
        header_bytes(h).subrange(16, 20) == spec_u32_to_le_bytes(h.num_layers),
        header_bytes(h).subrange(20, 24) == spec_u32_to_le_bytes(h.num_micro_experts),
        header_bytes(h).subrange(24, 28) == spec_u32_to_le_bytes(h.centroid_dim),
        header_bytes(h).subrange(28, 32) == spec_u32_to_le_bytes(h.dense_core_size),
        header_bytes(h).subrange(32, 36) == spec_u32_to_le_bytes(h.codebook_size),
        header_bytes(h).subrange(36, 44) == spec_u64_to_le_bytes(h.micro_expert_data_size),
        header_bytes(h).subrange(44, 52) == spec_u64_to_le_bytes(h.dense_core_offset),
        header_bytes(h).subrange(52, 60) == spec_u64_to_le_bytes(h.codebook_offset),
        header_bytes(h).subrange(60, 68) == spec_u64_to_le_bytes(h.micro_expert_meta_offset),
        header_bytes(h).subrange(68, 76) == spec_u64_to_le_bytes(h.micro_expert_data_offset),
        header_bytes(h).subrange(76, 84) == spec_u64_to_le_bytes(h.index_tree_offset),
        header_bytes(h).subrange(84, 100) == h.reserved@,
{
    lemma_auto_spec_u32_to_from_le_bytes();
    lemma_auto_spec_u64_to_from_le_bytes();
    let b = header_bytes(h);
    assert(b.subrange(0, 4) =~= h.magic@);
    assert(b.subrange(4, 8) =~= spec_u32_to_le_bytes(h.version));
    assert(b.subrange(8, 16) =~= spec_u64_to_le_bytes(h.total_params));
    assert(b.subrange(16, 20) =~= spec_u32_to_le_bytes(h.num_layers));
    assert(b.subrange(20, 24) =~= spec_u32_to_le_bytes(h.num_micro_experts));
    assert(b.subrange(24, 28) =~= spec_u32_to_le_bytes(h.centroid_dim));
    assert(b.subrange(28, 32) =~= spec_u32_to_le_bytes(h.dense_core_size));
    assert(b.subrange(32, 36) =~= spec_u32_to_le_bytes(h.codebook_size));
    assert(b.subrange(36, 44) =~= spec_u64_to_le_bytes(h.micro_expert_data_size));
    assert(b.subrange(44, 52) =~= spec_u64_to_le_bytes(h.dense_core_offset));
    assert(b.subrange(52, 60) =~= spec_u64_to_le_bytes(h.codebook_offset));
    assert(b.subrange(60, 68) =~= spec_u64_to_le_bytes(h.micro_expert_meta_offset));
    assert(b.subrange(68, 76) =~= spec_u64_to_le_bytes(h.micro_expert_data_offset));
    assert(b.subrange(76, 84) =~= spec_u64_to_le_bytes(h.index_tree_offset));
    assert(b.subrange(84, 100) =~= h.reserved@);
}

proof fn lemma_u32_bytes_injective(x: u32, y: u32)
    requires
        spec_u32_to_le_bytes(x) == spec_u32_to_le_bytes(y),
    ensures
        x == y,
{
    lemma_auto_spec_u32_to_from_le_bytes();
    assert(spec_u32_to_le_bytes(x).len() == 4);
    assert(spec_u32_to_le_bytes(y).len() == 4);
    assert(spec_u32_from_le_bytes(spec_u32_to_le_bytes(x)) == x);
    assert(spec_u32_from_le_bytes(spec_u32_to_le_bytes(y)) == y);
}

proof fn lemma_u64_bytes_injective(x: u64, y: u64)
    requires
        spec_u64_to_le_bytes(x) == spec_u64_to_le_bytes(y),
    ensures
        x == y,
{
    lemma_auto_spec_u64_to_from_le_bytes();
    assert(spec_u64_from_le_bytes(spec_u64_to_le_bytes(x)) == x);
    assert(spec_u64_from_le_bytes(spec_u64_to_le_bytes(y)) == y);
}

/// Two headers with the same bytes are the same header.
pub proof fn law_header_bytes_injective(g: NSEFileHeader, h: NSEFileHeader)
    requires
        header_bytes(g) == header_bytes(h),
    ensures
        g == h,
{
    lemma_header_fields(g);
    lemma_header_fields(h);
    assert(g.magic =~= h.magic);
    assert(g.reserved =~= h.reserved);
    lemma_u32_bytes_injective(g.version, h.version);
    lemma_u64_bytes_injective(g.total_params, h.total_params);
    lemma_u32_bytes_injective(g.num_layers, h.num_layers);
    lemma_u32_bytes_injective(g.num_micro_experts, h.num_micro_experts);
    lemma_u32_bytes_injective(g.centroid_dim, h.centroid_dim);
    lemma_u32_bytes_injective(g.dense_core_size, h.dense_core_size);
    lemma_u32_bytes_injective(g.codebook_size, h.codebook_size);
    lemma_u64_bytes_injective(g.micro_expert_data_size, h.micro_expert_data_size);
    lemma_u64_bytes_injective(g.dense_core_offset, h.dense_core_offset);
    lemma_u64_bytes_injective(g.codebook_offset, h.codebook_offset);
    lemma_u64_bytes_injective(g.micro_expert_meta_offset, h.micro_expert_meta_offset);
    lemma_u64_bytes_injective(g.micro_expert_data_offset, h.micro_expert_data_offset);
    lemma_u64_bytes_injective(g.index_tree_offset, h.index_tree_offset);
}

/// A header with the right magic and version is read back as it was written,
/// whatever follows it, and nothing else is read from its bytes.
pub proof fn law_header_roundtrip(h: NSEFileHeader, rest: Seq<u8>)
    requires
        h.magic@ == NSE_MAGIC@,
        h.version == NSE_VERSION,
    ensures
        decodes_to(header_bytes(h) + rest, h),
        forall|g: NSEFileHeader| decodes_to(header_bytes(h) + rest, g) ==> g == h,
{
    lemma_header_fields(h);
    let b = header_bytes(h) + rest;
    assert(b.subrange(0, 100) =~= header_bytes(h));
    assert(b.subrange(0, 4) =~= header_bytes(h).subrange(0, 4));
    assert(b.subrange(4, 8) =~= header_bytes(h).subrange(4, 8));
    lemma_auto_spec_u32_to_from_le_bytes();
    assert(spec_u32_from_le_bytes(spec_u32_to_le_bytes(h.version)) == h.version);
    assert forall|g: NSEFileHeader| decodes_to(b, g) implies g == h by {
        law_header_bytes_injective(g, h);
    }
}

proof fn lemma_centroid_injective(c: Seq<u32>, d: Seq<u32>)
    requires
        c.len() == d.len(),
        centroid_bytes(c) == centroid_bytes(d),
    ensures
        c == d,
    decreases c.len(),
{
    if c.len() > 0 {
        lemma_auto_spec_u32_to_from_le_bytes();
        lemma_centroid_len(c);
        lemma_centroid_len(d);
        let n = centroid_bytes(c).len() - 4;
        assert(centroid_bytes(c).subrange(0, n) =~= centroid_bytes(c.drop_last()));
        assert(centroid_bytes(d).subrange(0, n) =~= centroid_bytes(d.drop_last()));
        assert(centroid_bytes(c).subrange(n, n + 4) =~= spec_u32_to_le_bytes(c.last()));
        assert(centroid_bytes(d).subrange(n, n + 4) =~= spec_u32_to_le_bytes(d.last()));
        lemma_u32_bytes_injective(c.last(), d.last());
        lemma_centroid_injective(c.drop_last(), d.drop_last());
        assert(c =~= c.drop_last().push(c.last()));
        assert(d =~= d.drop_last().push(d.last()));
    } else {
        assert(c =~= d);
    }
}

/// A micro-expert's metadata and its centroid are read back as they were written:
/// no other metadata with a centroid of the same length has the same bytes.
pub proof fn law_expert_roundtrip(
    m: MicroExpertMeta,
    c: Seq<u32>,
    n: MicroExpertMeta,
    d: Seq<u32>,
)
    requires
        c.len() == d.len(),
        expert_bytes(m, c) == expert_bytes(n, d),
    ensures
        m == n,
        c == d,
{
    lemma_auto_spec_u32_to_from_le_bytes();
    lemma_auto_spec_u64_to_from_le_bytes();
    lemma_expert_len(m, c);
    lemma_expert_len(n, d);
    let x = expert_bytes(m, c);
    let y = expert_bytes(n, d);
    let len = x.len() as int;
    assert(x.subrange(0, 4) =~= spec_u32_to_le_bytes(m.expert_id));
    assert(y.subrange(0, 4) =~= spec_u32_to_le_bytes(n.expert_id));
    assert(x.subrange(4, 8) =~= spec_u32_to_le_bytes(m.num_channels));
    assert(y.subrange(4, 8) =~= spec_u32_to_le_bytes(n.num_channels));
    assert(x.subrange(8, 16) =~= spec_u64_to_le_bytes(m.data_offset));
    assert(y.subrange(8, 16) =~= spec_u64_to_le_bytes(n.data_offset));
    assert(x.subrange(16, len) =~= centroid_bytes(c));
    assert(y.subrange(16, len) =~= centroid_bytes(d));
    lemma_u32_bytes_injective(m.expert_id, n.expert_id);
    lemma_u32_bytes_injective(m.num_channels, n.num_channels);
    lemma_u64_bytes_injective(m.data_offset, n.data_offset);
    lemma_centroid_injective(c, d);
}

/// Whether every expert's centroid has `dim` values.
pub open spec fn centroids_have_dim(e: Seq<(MicroExpertMeta, Seq<u32>)>, dim: nat) -> bool {
    forall|i: int| 0 <= i < e.len() ==> (#[trigger] e[i]).1.len() == dim
}

proof fn lemma_experts_len(e: Seq<(MicroExpertMeta, Seq<u32>)>, dim: nat)
    requires
        centroids_have_dim(e, dim),
    ensures
        experts_bytes(e).len() == e.len() * expert_size(dim),
    decreases e.len(),
{
    if e.len() > 0 {
        let front = e.drop_last();
        assert forall|i: int| 0 <= i < front.len() implies (#[trigger] front[i]).1.len() == dim by {
            assert(front[i] == e[i]);
        }
        lemma_experts_len(front, dim);
        lemma_expert_len(e.last().0, e.last().1);
        assert(e.len() * expert_size(dim) == front.len() * expert_size(dim) + expert_size(dim))
            by (nonlinear_arith)
            requires
                e.len() == front.len() + 1,
        ;
    }
}

/// The metadata of the experts of a file is read back as it was written.
pub proof fn law_experts_roundtrip(
    e: Seq<(MicroExpertMeta, Seq<u32>)>,
    f: Seq<(MicroExpertMeta, Seq<u32>)>,
    dim: nat,
)
    requires
        centroids_have_dim(e, dim),
        centroids_have_dim(f, dim),
        e.len() == f.len(),
        experts_bytes(e) == experts_bytes(f),
    ensures
        e == f,
    decreases e.len(),
{
    if e.len() > 0 {
        let e1 = e.drop_last();
        let f1 = f.drop_last();
        assert(e.last() == e[e.len() - 1]);
        assert(f.last() == f[f.len() - 1]);
        assert forall|i: int| 0 <= i < e1.len() implies (#[trigger] e1[i]).1.len() == dim by {
            assert(e1[i] == e[i]);
        }
        assert forall|i: int| 0 <= i < f1.len() implies (#[trigger] f1[i]).1.len() == dim by {
            assert(f1[i] == f[i]);
        }
        lemma_experts_len(e1, dim);
        lemma_experts_len(f1, dim);
        let n = experts_bytes(e1).len() as int;
        let len = experts_bytes(e).len() as int;
        assert(experts_bytes(e).subrange(0, n) =~= experts_bytes(e1));
        assert(experts_bytes(f).subrange(0, n) =~= experts_bytes(f1));
        assert(experts_bytes(e).subrange(n, len) =~= expert_bytes(e.last().0, e.last().1));
        assert(experts_bytes(f).subrange(n, len) =~= expert_bytes(f.last().0, f.last().1));
        law_expert_roundtrip(e.last().0, e.last().1, f.last().0, f.last().1);
        law_experts_roundtrip(e1, f1, dim);
        assert(e =~= e1.push(e.last()));
        assert(f =~= f1.push(f.last()));
    } else {
        assert(e =~= f);
    }
}

/// A file is read back as it was written: its bytes decode to the header with the
/// sizes and offsets filled in, and to no other; that header cuts out exactly the
/// sections that went in; and the metadata section holds exactly the experts.
pub proof fn law_file_roundtrip(
    header: NSEFileHeader,
    dense_core: Seq<u8>,
    codebook: Seq<u8>,
    experts: Seq<(MicroExpertMeta, Seq<u32>)>,
    data: Seq<u8>,
    index_tree: Seq<u8>,
)
    requires
        header.magic@ == NSE_MAGIC@,
        header.version == NSE_VERSION,
        centroids_have_dim(experts, header.centroid_dim as nat),
        dense_core.len() <= u32::MAX,
        codebook.len() <= u32::MAX,
        experts.len() <= u32::MAX,
        file_bytes(header, dense_core, codebook, experts, data, index_tree).len() <= usize::MAX,
    ensures
        ({
            let b = file_bytes(header, dense_core, codebook, experts, data, index_tree);
            let h = final_header(header, dense_core, codebook, experts, data);
            let s = section_ranges(h, b.len());
            &&& decodes_to(b, h)
            &&& forall|g: NSEFileHeader| decodes_to(b, g) ==> g == h
            &&& sections_ordered(h, b.len())
            &&& sections_within(h, b.len(), 5)
            &&& b.subrange(s[0].0, s[0].1) == dense_core
            &&& b.subrange(s[1].0, s[1].1) == codebook
            &&& b.subrange(s[2].0, s[2].1) == experts_bytes(experts)
            &&& b.subrange(s[3].0, s[3].1) == data
            &&& b.subrange(s[4].0, s[4].1) == index_tree
            &&& h.num_micro_experts == experts.len()
            &&& h.num_micro_experts * expert_size(h.centroid_dim as nat) == experts_bytes(
                experts,
            ).len()
            &&& forall|f: Seq<(MicroExpertMeta, Seq<u32>)>|
                f.len() == experts.len() && centroids_have_dim(f, h.centroid_dim as nat)
                    && #[trigger] experts_bytes(f) == experts_bytes(experts) ==> f == experts
        }),
{
    let b = file_bytes(header, dense_core, codebook, experts, data, index_tree);
    let h = final_header(header, dense_core, codebook, experts, data);
    let s = section_ranges(h, b.len());
    let dim = header.centroid_dim as nat;
    lemma_header_fields(h);
    let rest = dense_core + codebook + experts_bytes(experts) + data + index_tree;
    assert(b =~= header_bytes(h) + rest);
    law_header_roundtrip(h, rest);
    lemma_experts_len(experts, dim);
    assert(b.subrange(s[0].0, s[0].1) =~= dense_core);
    assert(b.subrange(s[1].0, s[1].1) =~= codebook);
    assert(b.subrange(s[2].0, s[2].1) =~= experts_bytes(experts));
    assert(b.subrange(s[3].0, s[3].1) =~= data);
    assert(b.subrange(s[4].0, s[4].1) =~= index_tree);
    assert forall|f: Seq<(MicroExpertMeta, Seq<u32>)>|
        f.len() == experts.len() && centroids_have_dim(f, dim) && #[trigger] experts_bytes(f)
            == experts_bytes(experts) implies f == experts by {
        law_experts_roundtrip(f, experts, dim);
    }
}

} // verus!
