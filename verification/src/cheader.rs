//! The fixed header of a TrackVis file, field by field as it lies on disk.

use crate::bytes::{
    i16s_bytes, i32_le_bytes, lemma_i16_bytes_injective, lemma_i16s_bytes_injective, lemma_i32_bytes_injective,
    lemma_u32_of_bytes, lemma_u32s_bytes_injective, put_bytes, put_i16, put_i32, put_u32s,
    read_i16, read_i32, read_u32, signed32, u16_bytes, u32_bytes, u32_of, u32s_bytes, unsigned16,
    unsigned32, Endianness,
};
use crate::orientation::{
    axcodes_to_orientations, axis_letter, decoded, inverse_affine_entry,
    inverse_orientations_affine, orientations_from_rotation, orientations_transform, picks_upto,
    transform,
};
use vstd::prelude::*;
use vstd::slice::slice_subrange;
use vstd::string::*;
use vstd::utf8::{
    decode_utf8, encode_utf8, encode_utf8_decode_utf8, is_ascii_chars, valid_utf8,
};

verus! {

/// Number of bytes of the header.
pub const HEADER_SIZE: usize = 1000;

/// Where the number of streamlines lies in the header.
pub const N_COUNT_OFFSET: usize = 988;

/// Where the format version lies in the header.
pub const VERSION_OFFSET: usize = 992;

/// Number of slots of a name table.
pub const NAME_SLOTS: usize = 10;

/// Number of bytes of a slot of a name table.
pub const NAME_SLOT_SIZE: usize = 20;

/// The bits of `1.0` in single precision.
pub const ONE: u32 = 0x3f80_0000;

/// Why a header could not be read or changed.
#[derive(Clone, Copy, Debug, PartialEq, Eq)]
pub enum HeaderError {
    /// Fewer bytes than a header has.
    Truncated,
    /// All the slots of the name table are taken.
    Full,
    /// The name has more bytes than a slot.
    NameTooLong,
    /// The name is not pure ASCII.
    NotAscii,
    /// A slot of a name table holds no text, or a repeat mark below `'0'`.
    InvalidName,
    /// The voxel order holds no text.
    InvalidVoxelOrder,
}

/// The header as it lies on disk. Single-precision fields hold their bits.
#[derive(Clone, Copy, Debug)]
pub struct CHeader {
    pub id_string: [u8; 6],
    pub dim: [i16; 3],
    pub voxel_size: [u32; 3],
    pub origin: [u32; 3],
    pub n_scalars: i16,
    pub scalar_name: [u8; 200],
    pub n_properties: i16,
    pub property_name: [u8; 200],
    pub vox_to_ras: [u32; 16],
    pub reserved: [u8; 444],
    pub voxel_order: [u8; 4],
    pub pad2: [u8; 4],
    pub image_orientation_patient: [u32; 6],
    pub pad1: [u8; 2],
    pub invert_x: u8,
    pub invert_y: u8,
    pub invert_z: u8,
    pub swap_x: u8,
    pub swap_y: u8,
    pub swap_z: u8,
    pub n_count: i32,
    pub version: i32,
    pub hdr_size: i32,
}

/// The byte order of a header: little-endian where the format version,
/// read lowest byte first as a signed number, is at most 255.
pub open spec fn detected_endianness(bytes: Seq<u8>) -> Endianness {
    if signed32(
        u32_of(
            bytes.subrange(VERSION_OFFSET as int, VERSION_OFFSET as int + 4),
            Endianness::Little,
        ),
    ) <= 255 {
        Endianness::Little
    } else {
        Endianness::Big
    }
}

impl CHeader {
    /// The six flags, in the order in which they lie on disk.
    pub open spec fn flags(&self) -> Seq<u8> {
        seq![self.invert_x, self.invert_y, self.invert_z, self.swap_x, self.swap_y, self.swap_z]
    }

    /// The fields up to the table of property names, as bytes in order `e`.
    pub open spec fn encode_front(&self, e: Endianness) -> Seq<u8> {
        self.id_string@ + i16s_bytes(self.dim@, e) + u32s_bytes(self.voxel_size@, e) + u32s_bytes(
            self.origin@,
            e,
        ) + u16_bytes(unsigned16(self.n_scalars as int), e) + self.scalar_name@ + u16_bytes(
            unsigned16(self.n_properties as int),
            e,
        ) + self.property_name@
    }

    /// The fields from the matrix to the flags, as bytes in order `e`.
    pub open spec fn encode_middle(&self, e: Endianness) -> Seq<u8> {
        u32s_bytes(self.vox_to_ras@, e) + self.reserved@ + self.voxel_order@ + self.pad2@
            + u32s_bytes(self.image_orientation_patient@, e) + self.pad1@ + self.flags()
    }

    /// The last three fields, as bytes in order `e`.
    pub open spec fn encode_back(&self, e: Endianness) -> Seq<u8> {
        u32_bytes(unsigned32(self.n_count as int), e) + u32_bytes(
            unsigned32(self.version as int),
            e,
        ) + u32_bytes(unsigned32(self.hdr_size as int), e)
    }

    /// The 1000 bytes of the header in byte order `e`: every field in its
    /// place, one after the other.
    pub open spec fn encode(&self, e: Endianness) -> Seq<u8> {
        self.encode_front(e) + self.encode_middle(e) + self.encode_back(e)
    }

    /// The header has 1000 bytes, and its three parts 440, 548 and 12.
    pub proof fn lemma_encode_len(&self, e: Endianness)
        ensures
            self.encode_front(e).len() == 440,
            self.encode_middle(e).len() == 548,
            self.encode_back(e).len() == 12,
            self.encode(e).len() == HEADER_SIZE,
    {
    }

    /// Appends the header to `out`, always lowest byte first.
    pub fn write(&self, out: &mut Vec<u8>)
        ensures
            final(out)@ == old(out)@ + self.encode(Endianness::Little),
            final(out)@.len() == old(out)@.len() + HEADER_SIZE,
    {
        let mut front: Vec<u8> = Vec::new();
        put_bytes(&mut front, self.id_string.as_slice());
        put_i16s(&mut front, self.dim.as_slice());
        put_u32s(&mut front, self.voxel_size.as_slice());
        put_u32s(&mut front, self.origin.as_slice());
        put_i16(&mut front, self.n_scalars);
        put_bytes(&mut front, self.scalar_name.as_slice());
        put_i16(&mut front, self.n_properties);
        put_bytes(&mut front, self.property_name.as_slice());
        assert(front@ =~= self.encode_front(Endianness::Little));
        let mut middle: Vec<u8> = Vec::new();
        put_u32s(&mut middle, self.vox_to_ras.as_slice());
        put_bytes(&mut middle, self.reserved.as_slice());
        put_bytes(&mut middle, self.voxel_order.as_slice());
        put_bytes(&mut middle, self.pad2.as_slice());
        put_u32s(&mut middle, self.image_orientation_patient.as_slice());
        put_bytes(&mut middle, self.pad1.as_slice());
        middle.push(self.invert_x);
        middle.push(self.invert_y);
        middle.push(self.invert_z);
        middle.push(self.swap_x);
        middle.push(self.swap_y);
        middle.push(self.swap_z);
        assert(middle@ =~= self.encode_middle(Endianness::Little));
        let mut back: Vec<u8> = Vec::new();
        put_i32(&mut back, self.n_count);
        put_i32(&mut back, self.version);
        put_i32(&mut back, self.hdr_size);
        assert(back@ =~= self.encode_back(Endianness::Little));
        put_bytes(out, front.as_slice());
        put_bytes(out, middle.as_slice());
        put_bytes(out, back.as_slice());
        proof {
            self.lemma_encode_len(Endianness::Little);
            assert(out@ =~= old(out)@ + self.encode(Endianness::Little));
        }
    }
}

/// The `N` bytes at `at` in `buf`.
pub fn read_byte_array<const N: usize>(buf: &[u8], at: usize) -> (out: [u8; N])
    requires
        at + N <= buf@.len(),
    ensures
        out@ == buf@.subrange(at as int, at + N),
{
    let len = buf.len();
    let mut out: [u8; N] = [0u8; N];
    let mut i: usize = 0;
    while i < N
        invariant
            0 <= i <= N,
            at + N <= buf@.len(),
            len == buf@.len(),
            forall|k: int| 0 <= k < i ==> out@[k] == buf@[at + k],
        decreases N - i,
    {
        out[i] = buf[at + i];
        i = i + 1;
    }
    assert(out@ =~= buf@.subrange(at as int, at + N));
    out
}

/// The `N` 32-bit patterns at `at` in `buf`, in byte order `e`.
pub fn read_u32_array<const N: usize>(buf: &[u8], at: usize, e: Endianness) -> (out: [u32; N])
    requires
        at + 4 * N <= buf@.len(),
    ensures
        u32s_bytes(out@, e) == buf@.subrange(at as int, at + 4 * N),
{
    let len = buf.len();
    let mut out: [u32; N] = [0u32; N];
    let mut i: usize = 0;
    while i < N
        invariant
            0 <= i <= N,
            at + 4 * N <= buf@.len(),
            len == buf@.len(),
            forall|k: int|
                0 <= k < i ==> u32_bytes(out@[k] as int, e) == buf@.subrange(
                    at + 4 * k,
                    at + 4 * k + 4,
                ),
        decreases N - i,
    {
        out[i] = read_u32(buf, at + 4 * i, e);
        i = i + 1;
    }
    proof {
        assert forall|j: int| 0 <= j < 4 * N implies u32s_bytes(out@, e)[j] == buf@[at + j] by {
            let k = j / 4;
            assert(u32_bytes(out@[k] as int, e) == buf@.subrange(at + 4 * k, at + 4 * k + 4));
            assert(buf@.subrange(at + 4 * k, at + 4 * k + 4)[j % 4] == buf@[at + j]);
        }
        assert(u32s_bytes(out@, e) =~= buf@.subrange(at as int, at + 4 * N));
    }
    out
}

/// The `N` signed 16-bit numbers at `at` in `buf`, in byte order `e`.
pub fn read_i16_array<const N: usize>(buf: &[u8], at: usize, e: Endianness) -> (out: [i16; N])
    requires
        at + 2 * N <= buf@.len(),
    ensures
        i16s_bytes(out@, e) == buf@.subrange(at as int, at + 2 * N),
{
    let len = buf.len();
    let mut out: [i16; N] = [0i16; N];
    let mut i: usize = 0;
    while i < N
        invariant
            0 <= i <= N,
            at + 2 * N <= buf@.len(),
            len == buf@.len(),
            forall|k: int|
                0 <= k < i ==> u16_bytes(unsigned16(out@[k] as int), e) == buf@.subrange(
                    at + 2 * k,
                    at + 2 * k + 2,
                ),
        decreases N - i,
    {
        out[i] = read_i16(buf, at + 2 * i, e);
        i = i + 1;
    }
    proof {
        assert forall|j: int| 0 <= j < 2 * N implies i16s_bytes(out@, e)[j] == buf@[at + j] by {
            let k = j / 2;
            assert(u16_bytes(unsigned16(out@[k] as int), e) == buf@.subrange(
                at + 2 * k,
                at + 2 * k + 2,
            ));
            assert(buf@.subrange(at + 2 * k, at + 2 * k + 2)[j % 2] == buf@[at + j]);
        }
        assert(i16s_bytes(out@, e) =~= buf@.subrange(at as int, at + 2 * N));
    }
    out
}

/// The byte order in which the header at the start of `bytes` was written.
///
/// The format version is the one sign: it is 1 or 2, so read lowest byte
/// first it passes 255 only where the header was written highest byte first.
pub fn detect_endianness(bytes: &[u8]) -> (e: Endianness)
    requires
        bytes@.len() >= HEADER_SIZE,
    ensures
        e == detected_endianness(bytes@),
{
    let version = read_i32(bytes, VERSION_OFFSET, Endianness::Little);
    if version <= 255 {
        Endianness::Little
    } else {
        Endianness::Big
    }
}

impl CHeader {
    /// Reads the header at the start of `bytes`, in the byte order that its
    /// format version shows. Fails where `bytes` is shorter than a header.
    pub fn read(bytes: &[u8]) -> (res: Result<(CHeader, Endianness), HeaderError>)
        ensures
            res.is_ok() <==> bytes@.len() >= HEADER_SIZE,
            res matches Err(err) ==> err == HeaderError::Truncated,
            res matches Ok((header, e)) ==> e == detected_endianness(bytes@) && header.encode(e)
                == bytes@.subrange(0, HEADER_SIZE as int),
    {
        if bytes.len() < HEADER_SIZE {
            return Err(HeaderError::Truncated);
        }
        let e = detect_endianness(bytes);
        let header = CHeader::read_with(bytes, e);
        Ok((header, e))
    }

    /// Reads the header at the start of `bytes` in byte order `e`.
    pub fn read_with(bytes: &[u8], e: Endianness) -> (header: CHeader)
        requires
            bytes@.len() >= HEADER_SIZE,
        ensures
            header.encode(e) == bytes@.subrange(0, HEADER_SIZE as int),
    {
        let header = CHeader {
            id_string: read_byte_array::<6>(bytes, 0),
            dim: read_i16_array::<3>(bytes, 6, e),
            voxel_size: read_u32_array::<3>(bytes, 12, e),
            origin: read_u32_array::<3>(bytes, 24, e),
            n_scalars: read_i16(bytes, 36, e),
            scalar_name: read_byte_array::<200>(bytes, 38),
            n_properties: read_i16(bytes, 238, e),
            property_name: read_byte_array::<200>(bytes, 240),
            vox_to_ras: read_u32_array::<16>(bytes, 440, e),
            reserved: read_byte_array::<444>(bytes, 504),
            voxel_order: read_byte_array::<4>(bytes, 948),
            pad2: read_byte_array::<4>(bytes, 952),
            image_orientation_patient: read_u32_array::<6>(bytes, 956, e),
            pad1: read_byte_array::<2>(bytes, 980),
            invert_x: bytes[982],
            invert_y: bytes[983],
            invert_z: bytes[984],
            swap_x: bytes[985],
            swap_y: bytes[986],
            swap_z: bytes[987],
            n_count: read_i32(bytes, N_COUNT_OFFSET, e),
            version: read_i32(bytes, VERSION_OFFSET, e),
            hdr_size: read_i32(bytes, 996, e),
        };
        proof {
            let b = bytes@;
            assert(header.flags() =~= b.subrange(982, 988));
            assert(header.encode_front(e) =~= b.subrange(0, 6) + b.subrange(6, 12) + b.subrange(
                12,
                24,
            ) + b.subrange(24, 36) + b.subrange(36, 38) + b.subrange(38, 238) + b.subrange(
                238,
                240,
            ) + b.subrange(240, 440));
            assert(header.encode_front(e) =~= b.subrange(0, 440));
            assert(header.encode_middle(e) =~= b.subrange(440, 504) + b.subrange(504, 948)
                + b.subrange(948, 952) + b.subrange(952, 956) + b.subrange(956, 980) + b.subrange(
                980,
                982,
            ) + b.subrange(982, 988));
            assert(header.encode_middle(e) =~= b.subrange(440, 988));
            assert(header.encode_back(e) =~= b.subrange(988, 1000));
            assert(header.encode(e) =~= b.subrange(0, 1000));
        }
        header
    }
}

impl CHeader {
    /// Where each field lies among the bytes of the header.
    pub proof fn lemma_layout(&self, e: Endianness)
        ensures
            ({
                let b = self.encode(e);
                &&& b.len() == HEADER_SIZE
                &&& self.id_string@ == b.subrange(0, 6)
                &&& i16s_bytes(self.dim@, e) == b.subrange(6, 12)
                &&& u32s_bytes(self.voxel_size@, e) == b.subrange(12, 24)
                &&& u32s_bytes(self.origin@, e) == b.subrange(24, 36)
                &&& u16_bytes(unsigned16(self.n_scalars as int), e) == b.subrange(36, 38)
                &&& self.scalar_name@ == b.subrange(38, 238)
                &&& u16_bytes(unsigned16(self.n_properties as int), e) == b.subrange(238, 240)
                &&& self.property_name@ == b.subrange(240, 440)
                &&& u32s_bytes(self.vox_to_ras@, e) == b.subrange(440, 504)
                &&& self.reserved@ == b.subrange(504, 948)
                &&& self.voxel_order@ == b.subrange(948, 952)
                &&& self.pad2@ == b.subrange(952, 956)
                &&& u32s_bytes(self.image_orientation_patient@, e) == b.subrange(956, 980)
                &&& self.pad1@ == b.subrange(980, 982)
                &&& self.flags() == b.subrange(982, 988)
                &&& u32_bytes(unsigned32(self.n_count as int), e) == b.subrange(988, 992)
                &&& u32_bytes(unsigned32(self.version as int), e) == b.subrange(992, 996)
                &&& u32_bytes(unsigned32(self.hdr_size as int), e) == b.subrange(996, 1000)
            }),
    {
        let b = self.encode(e);
        let front = self.encode_front(e);
        let middle = self.encode_middle(e);
        let back = self.encode_back(e);
        self.lemma_encode_len(e);
        assert(front =~= b.subrange(0, 440));
        assert(middle =~= b.subrange(440, 988));
        assert(back =~= b.subrange(988, 1000));
        assert(self.id_string@ =~= front.subrange(0, 6));
        assert(i16s_bytes(self.dim@, e) =~= front.subrange(6, 12));
        assert(u32s_bytes(self.voxel_size@, e) =~= front.subrange(12, 24));
        assert(u32s_bytes(self.origin@, e) =~= front.subrange(24, 36));
        assert(u16_bytes(unsigned16(self.n_scalars as int), e) =~= front.subrange(36, 38));
        assert(self.scalar_name@ =~= front.subrange(38, 238));
        assert(u16_bytes(unsigned16(self.n_properties as int), e) =~= front.subrange(238, 240));
        assert(self.property_name@ =~= front.subrange(240, 440));
        assert(u32s_bytes(self.vox_to_ras@, e) =~= middle.subrange(0, 64));
        assert(self.reserved@ =~= middle.subrange(64, 508));
        assert(self.voxel_order@ =~= middle.subrange(508, 512));
        assert(self.pad2@ =~= middle.subrange(512, 516));
        assert(u32s_bytes(self.image_orientation_patient@, e) =~= middle.subrange(516, 540));
        assert(self.pad1@ =~= middle.subrange(540, 542));
        assert(self.flags() =~= middle.subrange(542, 548));
        assert(u32_bytes(unsigned32(self.n_count as int), e) =~= back.subrange(0, 4));
        assert(u32_bytes(unsigned32(self.version as int), e) =~= back.subrange(4, 8));
        assert(u32_bytes(unsigned32(self.hdr_size as int), e) =~= back.subrange(8, 12));
        assert(front.subrange(0, 6) =~= b.subrange(0, 6));
        assert(front.subrange(6, 12) =~= b.subrange(6, 12));
        assert(front.subrange(12, 24) =~= b.subrange(12, 24));
        assert(front.subrange(24, 36) =~= b.subrange(24, 36));
        assert(front.subrange(36, 38) =~= b.subrange(36, 38));
        assert(front.subrange(38, 238) =~= b.subrange(38, 238));
        assert(front.subrange(238, 240) =~= b.subrange(238, 240));
        assert(front.subrange(240, 440) =~= b.subrange(240, 440));
        assert(middle.subrange(0, 64) =~= b.subrange(440, 504));
        assert(middle.subrange(64, 508) =~= b.subrange(504, 948));
        assert(middle.subrange(508, 512) =~= b.subrange(948, 952));
        assert(middle.subrange(512, 516) =~= b.subrange(952, 956));
        assert(middle.subrange(516, 540) =~= b.subrange(956, 980));
        assert(middle.subrange(540, 542) =~= b.subrange(980, 982));
        assert(middle.subrange(542, 548) =~= b.subrange(982, 988));
        assert(back.subrange(0, 4) =~= b.subrange(988, 992));
        assert(back.subrange(4, 8) =~= b.subrange(992, 996));
        assert(back.subrange(8, 12) =~= b.subrange(996, 1000));
    }

    /// Two headers with the same bytes are the same header: whatever header
    /// is read back from the bytes of a header is that header.
    pub proof fn lemma_encode_injective(&self, other: &CHeader, e: Endianness)
        requires
            self.encode(e) == other.encode(e),
        ensures
            *self == *other,
    {
        self.lemma_layout(e);
        other.lemma_layout(e);
        assert(self.id_string =~= other.id_string);
        lemma_i16s_bytes_injective(self.dim@, other.dim@, e);
        assert(self.dim =~= other.dim);
        lemma_u32s_bytes_injective(self.voxel_size@, other.voxel_size@, e);
        assert(self.voxel_size =~= other.voxel_size);
        lemma_u32s_bytes_injective(self.origin@, other.origin@, e);
        assert(self.origin =~= other.origin);
        lemma_i16_bytes_injective(self.n_scalars, other.n_scalars, e);
        assert(self.scalar_name =~= other.scalar_name);
        lemma_i16_bytes_injective(self.n_properties, other.n_properties, e);
        assert(self.property_name =~= other.property_name);
        lemma_u32s_bytes_injective(self.vox_to_ras@, other.vox_to_ras@, e);
        assert(self.vox_to_ras =~= other.vox_to_ras);
        assert(self.reserved =~= other.reserved);
        assert(self.voxel_order =~= other.voxel_order);
        assert(self.pad2 =~= other.pad2);
        lemma_u32s_bytes_injective(
            self.image_orientation_patient@,
            other.image_orientation_patient@,
            e,
        );
        assert(self.image_orientation_patient =~= other.image_orientation_patient);
        assert(self.pad1 =~= other.pad1);
        assert(self.flags()[0] == other.flags()[0]);
        assert(self.flags()[1] == other.flags()[1]);
        assert(self.flags()[2] == other.flags()[2]);
        assert(self.flags()[3] == other.flags()[3]);
        assert(self.flags()[4] == other.flags()[4]);
        assert(self.flags()[5] == other.flags()[5]);
        lemma_i32_bytes_injective(self.n_count, other.n_count, e);
        lemma_i32_bytes_injective(self.version, other.version, e);
        lemma_i32_bytes_injective(self.hdr_size, other.hdr_size, e);
    }

    /// A header written lowest byte first is taken for little-endian exactly
    /// where its format version is at most 255.
    pub proof fn lemma_little_endian_detected(&self, bytes: Seq<u8>)
        requires
            bytes.len() >= HEADER_SIZE,
            bytes.subrange(0, HEADER_SIZE as int) == self.encode(Endianness::Little),
        ensures
            detected_endianness(bytes) == Endianness::Little <==> self.version <= 255,
    {
        self.lemma_layout(Endianness::Little);
        lemma_u32_of_bytes(unsigned32(self.version as int), Endianness::Little);
        assert(bytes.subrange(992, 996) =~= self.encode(Endianness::Little).subrange(992, 996));
    }

    /// A header written highest byte first is taken for big-endian where its
    /// format version lies between 1 and 127, as the versions 1 and 2 do.
    pub proof fn lemma_big_endian_detected(&self, bytes: Seq<u8>)
        requires
            bytes.len() >= HEADER_SIZE,
            bytes.subrange(0, HEADER_SIZE as int) == self.encode(Endianness::Big),
            1 <= self.version <= 127,
        ensures
            detected_endianness(bytes) == Endianness::Big,
    {
        self.lemma_layout(Endianness::Big);
        assert(bytes.subrange(992, 996) =~= self.encode(Endianness::Big).subrange(992, 996));
        let four = u32_bytes(unsigned32(self.version as int), Endianness::Big);
        assert(u32_of(four, Endianness::Little) == 16777216 * self.version);
    }
}

/// Where the first zero byte of `s` lies, or the length of `s` without one.
pub open spec fn first_zero(s: Seq<u8>) -> int
    decreases s.len(),
{
    if s.len() == 0 || s[0] == 0 {
        0
    } else {
        1 + first_zero(s.drop_first())
    }
}

/// Slot `k` of a name table.
pub open spec fn slot_of(table: Seq<u8>, k: int) -> Seq<u8> {
    table.subrange(NAME_SLOT_SIZE * k, NAME_SLOT_SIZE * k + NAME_SLOT_SIZE)
}

/// The bytes of the name in a slot: those before its first zero byte.
pub open spec fn slot_name(slot: Seq<u8>) -> Seq<u8> {
    slot.take(first_zero(slot))
}

/// How many times the name of a slot counts: once, or, where the byte after
/// the terminator is not zero, as many times as that byte lies above `'0'`.
/// A mark below `'0'` gives `None`.
pub open spec fn slot_repeats(slot: Seq<u8>) -> Option<int> {
    let idx = first_zero(slot);
    if idx < NAME_SLOT_SIZE - 1 && slot[idx + 1] != 0 {
        if slot[idx + 1] >= 48 {
            Some(slot[idx + 1] - 48)
        } else {
            None
        }
    } else {
        Some(1)
    }
}

/// The slot holds text and a repeat mark that can be read.
pub open spec fn slot_ok(slot: Seq<u8>) -> bool {
    slot_repeats(slot).is_some() && valid_utf8(slot_name(slot))
}

/// The first byte of slot `k` of a name table.
pub open spec fn slot_start(table: Seq<u8>, k: int) -> u8 {
    table[NAME_SLOT_SIZE * k]
}

/// The first slot from `k` on that starts with a zero byte, or 10.
pub open spec fn used_slots_from(table: Seq<u8>, k: int) -> int
    decreases NAME_SLOTS - k,
{
    if k >= NAME_SLOTS || slot_start(table, k) == 0 {
        k
    } else {
        used_slots_from(table, k + 1)
    }
}

/// Number of slots in use: those before the first that starts with a zero byte.
pub open spec fn used_slots(table: Seq<u8>) -> int {
    used_slots_from(table, 0)
}

/// Every slot in use can be read.
pub open spec fn table_ok(table: Seq<u8>) -> bool {
    forall|k: int| 0 <= k < used_slots(table) ==> slot_ok(#[trigger] slot_of(table, k))
}

/// The names, as bytes, that the first `k` slots stand for: each name as
/// often as its slot repeats it.
pub open spec fn names_upto(table: Seq<u8>, k: int) -> Seq<Seq<u8>>
    decreases k,
{
    if k <= 0 {
        Seq::empty()
    } else {
        let slot = slot_of(table, k - 1);
        names_upto(table, k - 1) + Seq::new(
            slot_repeats(slot).unwrap() as nat,
            |i: int| slot_name(slot),
        )
    }
}

/// The names, as bytes, that a name table stands for.
pub open spec fn table_names(table: Seq<u8>) -> Seq<Seq<u8>> {
    names_upto(table, used_slots(table))
}

/// The table with `name` written at the start of slot `slot`.
pub open spec fn name_written(table: Seq<u8>, slot: int, name: Seq<u8>) -> Seq<u8> {
    Seq::new(
        table.len(),
        |i: int|
            if NAME_SLOT_SIZE * slot <= i < NAME_SLOT_SIZE * slot + name.len() {
                name[i - NAME_SLOT_SIZE * slot]
            } else {
                table[i]
            },
    )
}

/// What adding `name` to a table that holds `count` names comes to.
pub open spec fn add_name_outcome(count: int, name: Seq<char>) -> Result<(), HeaderError> {
    if count < 0 || count >= NAME_SLOTS {
        Err(HeaderError::Full)
    } else if encode_utf8(name).len() > NAME_SLOT_SIZE {
        Err(HeaderError::NameTooLong)
    } else if !is_ascii_chars(name) {
        Err(HeaderError::NotAscii)
    } else {
        Ok(())
    }
}

proof fn lemma_first_zero(s: Seq<u8>, idx: int)
    requires
        0 <= idx <= s.len(),
        forall|j: int| 0 <= j < idx ==> s[j] != 0,
        idx < s.len() ==> s[idx] == 0,
    ensures
        first_zero(s) == idx,
    decreases s.len(),
{
    if idx > 0 {
        lemma_first_zero(s.drop_first(), idx - 1);
    }
}

proof fn lemma_used_slots(table: Seq<u8>, from: int, k: int)
    requires
        0 <= from <= k <= NAME_SLOTS,
        forall|j: int| from <= j < k ==> #[trigger] slot_start(table, j) != 0,
        k < NAME_SLOTS ==> slot_start(table, k) == 0,
    ensures
        used_slots_from(table, from) == k,
    decreases k - from,
{
    if from < k {
        lemma_used_slots(table, from + 1, k);
    }
}

/// `String::from_utf8` of std: the text whose UTF-8 bytes are `bytes`, and
/// `None` exactly where `bytes` are not valid UTF-8.
#[verifier::external_body]
fn string_from_utf8(bytes: Vec<u8>) -> (res: Option<String>)
    ensures
        res.is_some() <==> valid_utf8(bytes@),
        res matches Some(s) ==> encode_utf8(s@) == bytes@,
{
    match String::from_utf8(bytes) {
        Ok(s) => Some(s),
        Err(_) => None,
    }
}

fn write_name(table: &mut [u8; 200], slot: usize, name: &[u8])
    requires
        slot < NAME_SLOTS,
        name@.len() <= NAME_SLOT_SIZE,
    ensures
        final(table)@ == name_written(old(table)@, slot as int, name@),
{
    let n = name.len();
    let mut i: usize = 0;
    while i < n
        invariant
            n == name@.len(),
            n <= NAME_SLOT_SIZE,
            slot < NAME_SLOTS,
            0 <= i <= n,
            table@ == name_written(old(table)@, slot as int, name@.take(i as int)),
        decreases n - i,
    {
        table[NAME_SLOT_SIZE * slot + i] = name[i];
        proof {
            assert(table@ =~= name_written(old(table)@, slot as int, name@.take(i as int + 1)));
        }
        i = i + 1;
    }
    proof {
        assert(name@.take(n as int) =~= name@);
    }
}

/// The names that a table of ten slots of twenty bytes stands for.
///
/// A slot holds a name, a zero byte, and then either zeros or a mark `'0' + n`
/// that makes the name count `n` times. The first slot that starts with a
/// zero byte ends the table.
pub fn read_names(table: &[u8; 200]) -> (res: Result<Vec<String>, HeaderError>)
    ensures
        res.is_ok() <==> table_ok(table@),
        res matches Err(e) ==> e == HeaderError::InvalidName,
        res matches Ok(names) ==> names@.len() == table_names(table@).len() && forall|i: int|
            0 <= i < names@.len() ==> encode_utf8(#[trigger] names@[i]@) == table_names(table@)[i],
{
    let mut names: Vec<String> = Vec::new();
    let mut k: usize = 0;
    while k < NAME_SLOTS && table[NAME_SLOT_SIZE * k] != 0
        invariant
            0 <= k <= NAME_SLOTS,
            forall|j: int| 0 <= j < k ==> #[trigger] slot_start(table@, j) != 0,
            forall|j: int| 0 <= j < k ==> slot_ok(#[trigger] slot_of(table@, j)),
            names@.len() == names_upto(table@, k as int).len(),
            forall|i: int|
                0 <= i < names@.len() ==> encode_utf8(#[trigger] names@[i]@) == names_upto(
                    table@,
                    k as int,
                )[i],
        decreases NAME_SLOTS - k,
    {
        let slot = slice_subrange(table.as_slice(), NAME_SLOT_SIZE * k, NAME_SLOT_SIZE * k + 20);
        assert(slot@ == slot_of(table@, k as int));
        assert(slot_start(table@, k as int) != 0);
        let mut idx: usize = 0;
        while idx < NAME_SLOT_SIZE && slot[idx] != 0
            invariant
                slot@.len() == NAME_SLOT_SIZE,
                0 <= idx <= NAME_SLOT_SIZE,
                forall|j: int| 0 <= j < idx ==> slot@[j] != 0,
            decreases NAME_SLOT_SIZE - idx,
        {
            idx = idx + 1;
        }
        proof {
            lemma_first_zero(slot@, idx as int);
        }
        let mut number: u8 = 1;
        if idx < NAME_SLOT_SIZE - 1 && slot[idx + 1] != 0 {
            if slot[idx + 1] < 48 {
                proof {
                    lemma_names_fail(table@, k as int);
                }
                return Err(HeaderError::InvalidName);
            }
            number = slot[idx + 1] - 48;
        }
        let name_bytes = vstd::slice::slice_to_vec(slice_subrange(slot, 0, idx));
        let name = match string_from_utf8(name_bytes) {
            Some(name) => name,
            None => {
                proof {
                    lemma_names_fail(table@, k as int);
                }
                return Err(HeaderError::InvalidName);
            },
        };
        let ghost before = names@;
        let mut n: u8 = 0;
        while n < number
            invariant
                0 <= n <= number,
                encode_utf8(name@) == slot_name(slot@),
                names@.len() == before.len() + n,
                forall|i: int| 0 <= i < before.len() ==> names@[i] == before[i],
                forall|i: int|
                    before.len() <= i < names@.len() ==> encode_utf8(#[trigger] names@[i]@)
                        == slot_name(slot@),
            decreases number - n,
        {
            names.push(name.clone());
            n = n + 1;
        }
        proof {
            let added = Seq::new(number as nat, |i: int| slot_name(slot@));
            assert(slot_repeats(slot@) == Some(number as int));
            assert(names_upto(table@, k as int + 1) == names_upto(table@, k as int) + added);
            assert forall|i: int| 0 <= i < names@.len() implies encode_utf8(
                #[trigger] names@[i]@,
            ) == names_upto(table@, k as int + 1)[i] by {
                if i >= before.len() {
                    assert(added[i - before.len()] == slot_name(slot@));
                } else {
                    assert(names@[i] == before[i]);
                    assert(encode_utf8(before[i]@) == names_upto(table@, k as int)[i]);
                }
            }
        }
        k = k + 1;
    }
    proof {
        assert(k < NAME_SLOTS ==> slot_start(table@, k as int) == 0);
        lemma_used_slots(table@, 0, k as int);
    }
    Ok(names)
}

proof fn lemma_names_fail(table: Seq<u8>, k: int)
    requires
        0 <= k < NAME_SLOTS,
        forall|j: int| 0 <= j <= k ==> #[trigger] slot_start(table, j) != 0,
        !slot_ok(slot_of(table, k)),
    ensures
        !table_ok(table),
{
    lemma_used_slots_at_least(table, 0, k);
}

proof fn lemma_used_slots_bounds(table: Seq<u8>, from: int)
    requires
        0 <= from <= NAME_SLOTS,
    ensures
        from <= used_slots_from(table, from) <= NAME_SLOTS,
    decreases NAME_SLOTS - from,
{
    if from < NAME_SLOTS && slot_start(table, from) != 0 {
        lemma_used_slots_bounds(table, from + 1);
    }
}

proof fn lemma_used_slots_at_least(table: Seq<u8>, from: int, k: int)
    requires
        0 <= from <= k + 1 <= NAME_SLOTS,
        forall|j: int| from <= j <= k ==> #[trigger] slot_start(table, j) != 0,
    ensures
        used_slots_from(table, from) > k,
    decreases k + 1 - from,
{
    if from <= k {
        assert(slot_start(table, from) != 0);
        lemma_used_slots_at_least(table, from + 1, k);
    } else {
        lemma_used_slots_bounds(table, from);
    }
}

impl CHeader {
    /// This header with another count and table of scalar names.
    pub open spec fn with_scalars(self, n: i16, table: [u8; 200]) -> CHeader {
        CHeader { n_scalars: n, scalar_name: table, ..self }
    }

    /// This header with another count and table of property names.
    pub open spec fn with_properties(self, n: i16, table: [u8; 200]) -> CHeader {
        CHeader { n_properties: n, property_name: table, ..self }
    }

    /// Adds a scalar channel called `name`. Fails where the ten slots are
    /// taken, where `name` has more than twenty bytes and where it is not
    /// pure ASCII, in this order, and then changes nothing.
    pub fn add_scalar(&mut self, name: &str) -> (res: Result<(), HeaderError>)
        ensures
            res == add_name_outcome(old(self).n_scalars as int, name@),
            res.is_err() ==> *final(self) == *old(self),
            res.is_ok() ==> final(self).n_scalars == old(self).n_scalars + 1 && final(self).scalar_name@ == name_written(
                old(self).scalar_name@,
                old(self).n_scalars as int,
                encode_utf8(name@),
            ) && *final(self) == old(self).with_scalars(
                final(self).n_scalars,
                final(self).scalar_name,
            ),
    {
        if self.n_scalars < 0 || self.n_scalars >= 10 {
            return Err(HeaderError::Full);
        }
        let bytes = name.as_bytes();
        if bytes.len() > NAME_SLOT_SIZE {
            return Err(HeaderError::NameTooLong);
        }
        if !name.is_ascii() {
            return Err(HeaderError::NotAscii);
        }
        let slot = self.n_scalars as usize;
        write_name(&mut self.scalar_name, slot, bytes);
        self.n_scalars = self.n_scalars + 1;
        Ok(())
    }

    /// Adds a property channel called `name`. Fails where the ten slots are
    /// taken, where `name` has more than twenty bytes and where it is not
    /// pure ASCII, in this order, and then changes nothing.
    pub fn add_property(&mut self, name: &str) -> (res: Result<(), HeaderError>)
        ensures
            res == add_name_outcome(old(self).n_properties as int, name@),
            res.is_err() ==> *final(self) == *old(self),
            res.is_ok() ==> final(self).n_properties == old(self).n_properties + 1 && final(self).property_name@ == name_written(
                old(self).property_name@,
                old(self).n_properties as int,
                encode_utf8(name@),
            ) && *final(self) == old(self).with_properties(
                final(self).n_properties,
                final(self).property_name,
            ),
    {
        if self.n_properties < 0 || self.n_properties >= 10 {
            return Err(HeaderError::Full);
        }
        let bytes = name.as_bytes();
        if bytes.len() > NAME_SLOT_SIZE {
            return Err(HeaderError::NameTooLong);
        }
        if !name.is_ascii() {
            return Err(HeaderError::NotAscii);
        }
        let slot = self.n_properties as usize;
        write_name(&mut self.property_name, slot, bytes);
        self.n_properties = self.n_properties + 1;
        Ok(())
    }

    /// Removes every scalar channel: no name is left in the table.
    pub fn clear_scalars(&mut self)
        ensures
            final(self).n_scalars == 0,
            final(self).scalar_name@ == Seq::new(200, |i: int| 0u8),
            *final(self) == old(self).with_scalars(0, final(self).scalar_name),
    {
        self.n_scalars = 0;
        self.scalar_name = [0u8; 200];
        assert(self.scalar_name@ =~= Seq::new(200, |i: int| 0u8));
    }

    /// Removes every property channel: no name is left in the table.
    pub fn clear_properties(&mut self)
        ensures
            final(self).n_properties == 0,
            final(self).property_name@ == Seq::new(200, |i: int| 0u8),
            *final(self) == old(self).with_properties(0, final(self).property_name),
    {
        self.n_properties = 0;
        self.property_name = [0u8; 200];
        assert(self.property_name@ =~= Seq::new(200, |i: int| 0u8));
    }

    /// The names of the scalar channels, as the table holds them.
    pub fn get_scalars_name(&self) -> (res: Result<Vec<String>, HeaderError>)
        ensures
            res.is_ok() <==> table_ok(self.scalar_name@),
            res matches Err(e) ==> e == HeaderError::InvalidName,
            res matches Ok(names) ==> names@.len() == table_names(self.scalar_name@).len()
                && forall|i: int|
                0 <= i < names@.len() ==> encode_utf8(#[trigger] names@[i]@) == table_names(
                    self.scalar_name@,
                )[i],
    {
        read_names(&self.scalar_name)
    }

    /// The names of the property channels, as the table holds them.
    pub fn get_properties_name(&self) -> (res: Result<Vec<String>, HeaderError>)
        ensures
            res.is_ok() <==> table_ok(self.property_name@),
            res matches Err(e) ==> e == HeaderError::InvalidName,
            res matches Ok(names) ==> names@.len() == table_names(self.property_name@).len()
                && forall|i: int|
                0 <= i < names@.len() ==> encode_utf8(#[trigger] names@[i]@) == table_names(
                    self.property_name@,
                )[i],
    {
        read_names(&self.property_name)
    }
}

/// The fields that say where the voxels lie are those of an empty header:
/// no voxels, of size one, under the identity matrix, in the order "RAS".
pub open spec fn default_geometry(h: CHeader) -> bool {
    &&& h.dim@ == seq![0i16, 0i16, 0i16]
    &&& h.voxel_size@ == seq![ONE, ONE, ONE]
    &&& h.vox_to_ras@ == seq![
        ONE,
        0u32,
        0u32,
        0u32,
        0u32,
        ONE,
        0u32,
        0u32,
        0u32,
        0u32,
        ONE,
        0u32,
        0u32,
        0u32,
        0u32,
        ONE,
    ]
    &&& h.voxel_order@ == seq![82u8, 65u8, 83u8, 0u8]
}

/// All the other fields are those of an empty header: the magic "TRACK",
/// version 2, a size of 1000, and zeros.
pub open spec fn default_rest(h: CHeader) -> bool {
    &&& h.id_string@ == seq![84u8, 82u8, 65u8, 67u8, 75u8, 0u8]
    &&& h.origin@ == seq![0u32, 0u32, 0u32]
    &&& h.n_scalars == 0
    &&& h.scalar_name@ == Seq::new(200, |i: int| 0u8)
    &&& h.n_properties == 0
    &&& h.property_name@ == Seq::new(200, |i: int| 0u8)
    &&& h.reserved@ == Seq::new(444, |i: int| 0u8)
    &&& h.pad2@ == seq![0u8, 0u8, 0u8, 0u8]
    &&& h.image_orientation_patient@ == seq![0u32, 0u32, 0u32, 0u32, 0u32, 0u32]
    &&& h.pad1@ == seq![0u8, 0u8]
    &&& h.flags() == seq![0u8, 0u8, 0u8, 0u8, 0u8, 0u8]
    &&& h.n_count == 0
    &&& h.version == 2
    &&& h.hdr_size == HEADER_SIZE
}

impl Default for CHeader {
    /// The header of an empty file.
    fn default() -> (h: CHeader)
        ensures
            default_geometry(h),
            default_rest(h),
    {
        let h = CHeader {
            id_string: [84, 82, 65, 67, 75, 0],
            dim: [0, 0, 0],
            voxel_size: [ONE, ONE, ONE],
            origin: [0, 0, 0],
            n_scalars: 0,
            scalar_name: [0u8; 200],
            n_properties: 0,
            property_name: [0u8; 200],
            vox_to_ras: [ONE, 0, 0, 0, 0, ONE, 0, 0, 0, 0, ONE, 0, 0, 0, 0, ONE],
            reserved: [0u8; 444],
            voxel_order: [82, 65, 83, 0],
            pad2: [0u8; 4],
            image_orientation_patient: [0, 0, 0, 0, 0, 0],
            pad1: [0u8; 2],
            invert_x: 0,
            invert_y: 0,
            invert_z: 0,
            swap_x: 0,
            swap_y: 0,
            swap_z: 0,
            n_count: 0,
            version: 2,
            hdr_size: 1000,
        };
        proof {
            assert(h.dim@ =~= seq![0i16, 0i16, 0i16]);
            assert(h.voxel_size@ =~= seq![ONE, ONE, ONE]);
            assert(h.vox_to_ras@ =~= seq![
                ONE,
                0u32,
                0u32,
                0u32,
                0u32,
                ONE,
                0u32,
                0u32,
                0u32,
                0u32,
                ONE,
                0u32,
                0u32,
                0u32,
                0u32,
                ONE,
            ]);
            assert(h.voxel_order@ =~= seq![82u8, 65u8, 83u8, 0u8]);
            assert(h.id_string@ =~= seq![84u8, 82u8, 65u8, 67u8, 75u8, 0u8]);
            assert(h.origin@ =~= seq![0u32, 0u32, 0u32]);
            assert(h.scalar_name@ =~= Seq::new(200, |i: int| 0u8));
            assert(h.property_name@ =~= Seq::new(200, |i: int| 0u8));
            assert(h.reserved@ =~= Seq::new(444, |i: int| 0u8));
            assert(h.pad2@ =~= seq![0u8, 0u8, 0u8, 0u8]);
            assert(h.image_orientation_patient@ =~= seq![0u32, 0u32, 0u32, 0u32, 0u32, 0u32]);
            assert(h.pad1@ =~= seq![0u8, 0u8]);
        }
        h
    }
}

fn letter_byte(o: (usize, crate::orientation::Direction)) -> (b: u8)
    ensures
        b == axis_letter(o) as u8,
{
    let normal = match o.1 {
        crate::orientation::Direction::Normal => true,
        crate::orientation::Direction::Reversed => false,
    };
    if o.0 == 0 {
        if normal { 82 } else { 76 }
    } else if o.0 == 1 {
        if normal { 65 } else { 80 }
    } else {
        if normal { 83 } else { 73 }
    }
}

impl CHeader {
    /// This header with another number of streamlines.
    pub open spec fn with_count(self, n_count: i32) -> CHeader {
        CHeader { n_count, ..self }
    }

    /// The header for the grid of an image: `dim` and `pixdim` hold its
    /// shape and its voxel size from their second entry on, `srow_x`,
    /// `srow_y` and `srow_z` the first three rows of its affine, and
    /// `rotation` the rotation nearest to that affine, from which the voxel
    /// order is taken. Everything else is as in an empty header.
    pub fn from_nifti(
        dim: [u16; 8],
        pixdim: [u32; 8],
        srow_x: [u32; 4],
        srow_y: [u32; 4],
        srow_z: [u32; 4],
        rotation: &[u32; 9],
    ) -> (h: CHeader)
        ensures
            default_rest(h),
            h.dim@ == seq![dim[1] as i16, dim[2] as i16, dim[3] as i16],
            h.voxel_size@ == pixdim@.subrange(1, 4),
            h.vox_to_ras@ == srow_x@ + srow_y@ + srow_z@ + seq![0u32, 0u32, 0u32, ONE],
            h.voxel_order@ == seq![
                axis_letter(picks_upto(rotation@, 3).0[0]) as u8,
                axis_letter(picks_upto(rotation@, 3).0[1]) as u8,
                axis_letter(picks_upto(rotation@, 3).0[2]) as u8,
                0u8,
            ],
    {
        let o = orientations_from_rotation(rotation);
        let mut h = CHeader::default();
        h.dim = [
            #[verifier::truncate]
            (dim[1] as i16),
            #[verifier::truncate]
            (dim[2] as i16),
            #[verifier::truncate]
            (dim[3] as i16),
        ];
        h.voxel_size = [pixdim[1], pixdim[2], pixdim[3]];
        h.vox_to_ras = [
            srow_x[0],
            srow_x[1],
            srow_x[2],
            srow_x[3],
            srow_y[0],
            srow_y[1],
            srow_y[2],
            srow_y[3],
            srow_z[0],
            srow_z[1],
            srow_z[2],
            srow_z[3],
            0,
            0,
            0,
            ONE,
        ];
        h.voxel_order = [letter_byte(o[0]), letter_byte(o[1]), letter_byte(o[2]), 0];
        proof {
            assert(h.dim@ =~= seq![dim[1] as i16, dim[2] as i16, dim[3] as i16]);
            assert(h.voxel_size@ =~= pixdim@.subrange(1, 4));
            assert(h.vox_to_ras@ =~= srow_x@ + srow_y@ + srow_z@ + seq![0u32, 0u32, 0u32, ONE]);
            assert(h.voxel_order@ =~= seq![
                axis_letter(picks_upto(rotation@, 3).0[0]) as u8,
                axis_letter(picks_upto(rotation@, 3).0[1]) as u8,
                axis_letter(picks_upto(rotation@, 3).0[2]) as u8,
                0u8,
            ]);
        }
        h
    }

    /// The whole-number affine that makes up for the difference between the
    /// voxel order that the header declares and the one that its matrix
    /// implies: it undoes, on the grid of the header, the transform from the
    /// declared orientations to those picked for `rotation`, the rotation
    /// nearest to the matrix. Fails where the voxel order holds no text.
    pub fn get_orientation_correction(&self, rotation: &[u32; 9]) -> (res: Result<
        [[i32; 4]; 4],
        HeaderError,
    >)
        ensures
            res.is_ok() <==> valid_utf8(self.voxel_order@),
            res matches Err(e) ==> e == HeaderError::InvalidVoxelOrder,
            res matches Ok(m) ==> forall|i: int, j: int|
                0 <= i < 4 && 0 <= j < 4 ==> m[i][j] == inverse_affine_entry(
                    transform(decoded(decode_utf8(self.voxel_order@)), picks_upto(rotation@, 3).0),
                    self.dim@,
                    i,
                    j,
                ),
    {
        let text = match string_from_utf8(vstd::slice::slice_to_vec(self.voxel_order.as_slice())) {
            Some(text) => text,
            None => {
                return Err(HeaderError::InvalidVoxelOrder);
            },
        };
        proof {
            encode_utf8_decode_utf8(text@);
        }
        let header_ornt = axcodes_to_orientations(text.as_str());
        let affine_ornt = orientations_from_rotation(rotation);
        let orientations = orientations_transform(&header_ornt, &affine_ornt);
        proof {
            reveal_with_fuel(crate::orientation::transform_upto, 4);
        }
        Ok(inverse_orientations_affine(&orientations, self.dim))
    }
}

/// Overwrites the number of streamlines in the header at the start of
/// `bytes`, lowest byte first, and nothing else.
pub fn patch_n_count(bytes: &mut Vec<u8>, n_count: i32)
    requires
        old(bytes)@.len() >= HEADER_SIZE,
    ensures
        final(bytes)@ == old(bytes)@.subrange(0, N_COUNT_OFFSET as int) + u32_bytes(
            unsigned32(n_count as int),
            Endianness::Little,
        ) + old(bytes)@.subrange(N_COUNT_OFFSET + 4, old(bytes)@.len() as int),
{
    let b = i32_le_bytes(n_count);
    bytes[N_COUNT_OFFSET] = b[0];
    bytes[N_COUNT_OFFSET + 1] = b[1];
    bytes[N_COUNT_OFFSET + 2] = b[2];
    bytes[N_COUNT_OFFSET + 3] = b[3];
    assert(bytes@ =~= old(bytes)@.subrange(0, N_COUNT_OFFSET as int) + u32_bytes(
        unsigned32(n_count as int),
        Endianness::Little,
    ) + old(bytes)@.subrange(N_COUNT_OFFSET + 4, old(bytes)@.len() as int));
}

impl CHeader {
    /// Patching the count in the bytes of a written header gives the bytes
    /// of the same header with that count: whatever follows the header, and
    /// every other field, stays as it was.
    pub proof fn lemma_patched_count(&self, bytes: Seq<u8>, n_count: i32)
        requires
            bytes.len() >= HEADER_SIZE,
            bytes.subrange(0, HEADER_SIZE as int) == self.encode(Endianness::Little),
        ensures
            bytes.subrange(0, N_COUNT_OFFSET as int) + u32_bytes(
                unsigned32(n_count as int),
                Endianness::Little,
            ) + bytes.subrange(N_COUNT_OFFSET + 4, bytes.len() as int) == self.with_count(
                n_count,
            ).encode(Endianness::Little) + bytes.subrange(HEADER_SIZE as int, bytes.len() as int),
    {
        let e = Endianness::Little;
        let patched = bytes.subrange(0, N_COUNT_OFFSET as int) + u32_bytes(
            unsigned32(n_count as int),
            e,
        ) + bytes.subrange(N_COUNT_OFFSET + 4, bytes.len() as int);
        let other = self.with_count(n_count);
        self.lemma_layout(e);
        other.lemma_layout(e);
        self.lemma_encode_len(e);
        other.lemma_encode_len(e);
        assert(other.encode_front(e) == self.encode_front(e));
        assert(other.encode_middle(e) == self.encode_middle(e));
        assert(self.encode_front(e) + self.encode_middle(e) =~= bytes.subrange(0, 988)) by {
            assert(self.encode(e).subrange(0, 988) =~= self.encode_front(e) + self.encode_middle(
                e,
            ));
            assert(self.encode(e).subrange(0, 988) =~= bytes.subrange(0, 988));
        }
        assert(bytes.subrange(992, 1000) =~= self.encode(e).subrange(992, 1000));
        assert(self.encode(e).subrange(992, 1000) =~= u32_bytes(
            unsigned32(self.version as int),
            e,
        ) + u32_bytes(unsigned32(self.hdr_size as int), e));
        assert(patched =~= other.encode(e) + bytes.subrange(1000, bytes.len() as int));
    }
}

/// Appends the bytes of each number of `values`, lowest byte first.
pub fn put_i16s(out: &mut Vec<u8>, values: &[i16])
    ensures
        final(out)@ == old(out)@ + i16s_bytes(values@, Endianness::Little),
{
    let n = values.len();
    let mut i: usize = 0;
    proof {
        assert(out@ =~= old(out)@ + i16s_bytes(values@.take(0), Endianness::Little));
    }
    while i < n
        invariant
            n == values@.len(),
            0 <= i <= n,
            out@ == old(out)@ + i16s_bytes(values@.take(i as int), Endianness::Little),
        decreases n - i,
    {
        put_i16(out, values[i]);
        proof {
            assert(out@ =~= old(out)@ + i16s_bytes(
                values@.take(i as int + 1),
                Endianness::Little,
            ));
        }
        i = i + 1;
    }
    proof {
        assert(values@.take(n as int) =~= values@);
    }
}

} // verus!
