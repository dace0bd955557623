//! The `.sovereign` container's byte-level pieces: format constants, the
//! IEEE CRC32 that guards each tensor blob, little-endian fields, the
//! fixed-size tensor index entry, and blob alignment.

use vstd::prelude::*;

use crate::nn::error::{NnError, NnResult};
use crate::nn::tensor::{bad_shape_message, product, valid_shape, Shape};
use crate::text::{
    debug_str, decimal, push_decimal, push_size_list, push_str, size_list, str_debug, str_from_utf8,
    utf8_error_text,
};
use vstd::utf8::{decode_utf8, encode_utf8, valid_utf8};

verus! {

/// Current format version. Bump on any non-backward-compatible header change.
pub const VERSION: u32 = 1;

/// Fixed header size in bytes.
pub const HEADER_SIZE: usize = 64;

/// Fixed per-tensor index entry size in bytes.
pub const INDEX_ENTRY_SIZE: usize = 128;

/// Maximum tensor name length (UTF-8, null-padded inside the index entry).
pub const MAX_NAME_LEN: usize = 64;

/// Alignment requirement for each tensor's data blob (bytes).
pub const TENSOR_ALIGNMENT: usize = 64;

/// Dtype tag: f32 (the only dtype in v1).
pub const DTYPE_F32: u8 = 0;

/// Dtype tag: f16 (reserved, not yet supported).
pub const DTYPE_F16: u8 = 1;

/// Dtype tag: bf16 (reserved, not yet supported).
pub const DTYPE_BF16: u8 = 2;

/// Dtype tag: int8 (per-tensor affine quantized).
pub const DTYPE_INT8: u8 = 3;

/// Dtype tag: int4 (per-tensor affine quantized, 2 values packed per byte).
pub const DTYPE_INT4: u8 = 4;

/// Magic bytes at the start of every `.sovereign` file: `SOVEREIGN\0`.
pub open spec fn magic_bytes() -> Seq<u8> {
    seq![0x53u8, 0x4f, 0x56, 0x45, 0x52, 0x45, 0x49, 0x47, 0x4e, 0x00]
}

/// The ten magic bytes.
pub fn magic() -> (m: Vec<u8>)
    ensures
        m@ == magic_bytes(),
{
    let m: Vec<u8> = vec![0x53u8, 0x4f, 0x56, 0x45, 0x52, 0x45, 0x49, 0x47, 0x4e, 0x00];
    assert(m@ =~= magic_bytes());
    m
}

// ---------------------------------------------------------------------------
// CRC32 (IEEE 802.3, reflected polynomial 0xEDB88320)
// ---------------------------------------------------------------------------

/// IEEE CRC32 polynomial (reflected).
pub const POLY: u32 = 0xEDB8_8320;

/// One bit of the reflected CRC register: shift right, and fold in the
/// polynomial when a one bit falls out.
pub open spec fn crc_step(c: u32) -> u32 {
    if c & 1u32 != 0 {
        (c >> 1u32) ^ 0xEDB8_8320u32
    } else {
        c >> 1u32
    }
}

/// `n` register steps.
pub open spec fn crc_steps(c: u32, n: nat) -> u32
    decreases n,
{
    if n == 0 {
        c
    } else {
        crc_steps(crc_step(c), (n - 1) as nat)
    }
}

/// Eight register steps: one byte's worth.
pub open spec fn crc_step8(c: u32) -> u32 {
    crc_step(crc_step(crc_step(crc_step(crc_step(crc_step(crc_step(crc_step(c))))))))
}

/// The register after absorbing byte `b`.
pub open spec fn crc_byte(crc: u32, b: u8) -> u32 {
    crc_step8(crc ^ (b as u32))
}

/// The register after absorbing `bytes`, starting from `init`.
pub open spec fn crc_state(init: u32, bytes: Seq<u8>) -> u32
    decreases bytes.len(),
{
    if bytes.len() == 0 {
        init
    } else {
        crc_byte(crc_state(init, bytes.drop_last()), bytes.last())
    }
}

/// The IEEE CRC32 of `bytes`.
pub open spec fn crc32_of(bytes: Seq<u8>) -> u32 {
    crc_state(0xFFFF_FFFFu32, bytes) ^ 0xFFFF_FFFFu32
}

pub proof fn lemma_crc_steps8(c: u32)
    ensures
        crc_steps(c, 8) == crc_step8(c),
{
    reveal_with_fuel(crc_steps, 9);
}

/// A byte's eight steps split into the shifted register and a table entry
/// for its low byte.
pub proof fn lemma_step8_split(x: u32)
    ensures
        crc_step8(x) == (x >> 8u32) ^ crc_step8(x & 0xffu32),
{
    assert(crc_step8(x) == (x >> 8u32) ^ crc_step8(x & 0xffu32)) by (bit_vector);
}

/// Absorbing `a` then `b` is absorbing `a + b`.
pub proof fn lemma_crc_state_append(init: u32, a: Seq<u8>, b: Seq<u8>)
    ensures
        crc_state(crc_state(init, a), b) == crc_state(init, a + b),
    decreases b.len(),
{
    if b.len() == 0 {
        assert(a + b =~= a);
    } else {
        lemma_crc_state_append(init, a, b.drop_last());
        assert((a + b).drop_last() =~= a + b.drop_last());
        assert((a + b).last() == b.last());
    }
}

/// The 256-entry lookup table: entry `i` is `i` after eight steps.
fn crc32_table() -> (table: Vec<u32>)
    ensures
        table@.len() == 256,
        forall|i: int| 0 <= i < 256 ==> #[trigger] table@[i] == crc_step8(i as u32),
{
    let mut table: Vec<u32> = Vec::new();
    let mut i: u32 = 0;
    while i < 256
        invariant
            i <= 256,
            table@.len() == i,
            forall|k: int| 0 <= k < i ==> #[trigger] table@[k] == crc_step8(k as u32),
        decreases 256 - i,
    {
        let mut c: u32 = i;
        let mut j: u32 = 0;
        while j < 8
            invariant
                j <= 8,
                crc_steps(c, (8 - j) as nat) == crc_steps(i, 8),
            decreases 8 - j,
        {
            c = if c & 1 != 0 {
                (c >> 1) ^ POLY
            } else {
                c >> 1
            };
            j += 1;
        }
        proof {
            lemma_crc_steps8(i);
        }
        table.push(c);
        i += 1;
    }
    table
}

/// Absorb `bytes` into the register `crc` with the lookup table.
fn crc_absorb(table: &Vec<u32>, crc: u32, bytes: &[u8]) -> (r: u32)
    requires
        table@.len() == 256,
        forall|i: int| 0 <= i < 256 ==> #[trigger] table@[i] == crc_step8(i as u32),
    ensures
        r == crc_state(crc, bytes@),
{
    let mut c = crc;
    let mut i: usize = 0;
    while i < bytes.len()
        invariant
            i <= bytes@.len(),
            table@.len() == 256,
            forall|k: int| 0 <= k < 256 ==> #[trigger] table@[k] == crc_step8(k as u32),
            c == crc_state(crc, bytes@.take(i as int)),
        decreases bytes@.len() - i,
    {
        let b = bytes[i];
        let x: u32 = c ^ (b as u32);
        let idx = (x & 0xFF) as usize;
        proof {
            assert(x & 0xffu32 < 256) by (bit_vector);
            lemma_step8_split(x);
            assert(bytes@.take(i + 1).drop_last() =~= bytes@.take(i as int));
        }
        proof {
            assert((c ^ (b as u32)) >> 8u32 == c >> 8u32) by (bit_vector);
        }
        c = (c >> 8) ^ table[idx];
        i += 1;
    }
    assert(bytes@.take(i as int) =~= bytes@);
    c
}

/// Compute the IEEE CRC32 of `bytes`.
pub fn crc32(bytes: &[u8]) -> (r: u32)
    ensures
        r == crc32_of(bytes@),
{
    let table = crc32_table();
    let crc = crc_absorb(&table, 0xFFFF_FFFF, bytes);
    crc ^ 0xFFFF_FFFF
}

/// Streaming CRC32 builder.
#[derive(Debug, Clone)]
pub struct Crc32 {
    state: u32,
}

impl Crc32 {
    /// The running register.
    pub closed spec fn register(&self) -> u32 {
        self.state
    }

    /// Start a new CRC32 computation.
    pub fn new() -> (c: Self)
        ensures
            c.register() == 0xFFFF_FFFFu32,
    {
        Crc32 { state: 0xFFFF_FFFF }
    }

    /// Feed more bytes into the running CRC.
    pub fn update(&mut self, bytes: &[u8])
        ensures
            final(self).register() == crc_state(old(self).register(), bytes@),
    {
        let table = crc32_table();
        self.state = crc_absorb(&table, self.state, bytes);
    }

    /// Finalize and return the CRC value.
    pub fn finalize(self) -> (r: u32)
        ensures
            r == self.register() ^ 0xFFFF_FFFFu32,
    {
        self.state ^ 0xFFFF_FFFF
    }
}

impl Default for Crc32 {
    fn default() -> (c: Self)
        ensures
            c.register() == 0xFFFF_FFFFu32,
    {
        Self::new()
    }
}

/// Feeding a fresh builder `a`, then `b`, and finalizing gives the one-shot
/// CRC32 of `a + b`.
pub proof fn law_streaming_matches_oneshot(a: Seq<u8>, b: Seq<u8>)
    ensures
        crc_state(crc_state(0xFFFF_FFFFu32, a), b) ^ 0xFFFF_FFFFu32 == crc32_of(a + b),
{
    lemma_crc_state_append(0xFFFF_FFFFu32, a, b);
}

// ---------------------------------------------------------------------------
// Little-endian fields
// ---------------------------------------------------------------------------

/// The four little-endian bytes of `v`.
pub open spec fn u32_bytes(v: u32) -> Seq<u8> {
    seq![v as u8, (v >> 8u32) as u8, (v >> 16u32) as u8, (v >> 24u32) as u8]
}

/// The eight little-endian bytes of `v`.
pub open spec fn u64_bytes(v: u64) -> Seq<u8> {
    seq![
        v as u8,
        (v >> 8u64) as u8,
        (v >> 16u64) as u8,
        (v >> 24u64) as u8,
        (v >> 32u64) as u8,
        (v >> 40u64) as u8,
        (v >> 48u64) as u8,
        (v >> 56u64) as u8,
    ]
}

/// The little-endian `u32` stored at `b[at..at + 4]`.
pub open spec fn le_u32(b0: u8, b1: u8, b2: u8, b3: u8) -> u32 {
    (b0 as u32) | ((b1 as u32) << 8u32) | ((b2 as u32) << 16u32) | ((b3 as u32) << 24u32)
}

/// The little-endian `u32` stored at `b[at..at + 4]`.
pub open spec fn le_u32_at(b: Seq<u8>, at: int) -> u32 {
    le_u32(b[at], b[at + 1], b[at + 2], b[at + 3])
}

/// The little-endian `u64` stored at `b[at..at + 8]`.
pub open spec fn le_u64_at(b: Seq<u8>, at: int) -> u64 {
    (b[at] as u64) | ((b[at + 1] as u64) << 8u64) | ((b[at + 2] as u64) << 16u64) | ((b[at + 3]
        as u64) << 24u64) | ((b[at + 4] as u64) << 32u64) | ((b[at + 5] as u64) << 40u64) | ((b[at
        + 6] as u64) << 48u64) | ((b[at + 7] as u64) << 56u64)
}

pub proof fn lemma_u32_roundtrip(v: u32)
    ensures
        le_u32_at(u32_bytes(v), 0) == v,
{
    let b = u32_bytes(v);
    let (b0, b1, b2, b3) = (b[0], b[1], b[2], b[3]);
    assert(b0 == v as u8 && b1 == (v >> 8u32) as u8 && b2 == (v >> 16u32) as u8 && b3 == (v
        >> 24u32) as u8);
    assert(le_u32(v as u8, (v >> 8u32) as u8, (v >> 16u32) as u8, (v >> 24u32) as u8) == v)
        by (bit_vector);
}

pub proof fn lemma_u64_roundtrip(v: u64)
    ensures
        le_u64_at(u64_bytes(v), 0) == v,
{
    let b = u64_bytes(v);
    assert(b[0] == v as u8 && b[1] == (v >> 8u64) as u8 && b[2] == (v >> 16u64) as u8 && b[3]
        == (v >> 24u64) as u8 && b[4] == (v >> 32u64) as u8 && b[5] == (v >> 40u64) as u8 && b[6]
        == (v >> 48u64) as u8 && b[7] == (v >> 56u64) as u8);
    assert(((v as u8) as u64) | ((((v >> 8u64) as u8) as u64) << 8u64) | ((((v >> 16u64) as u8)
        as u64) << 16u64) | ((((v >> 24u64) as u8) as u64) << 24u64) | ((((v >> 32u64) as u8)
        as u64) << 32u64) | ((((v >> 40u64) as u8) as u64) << 40u64) | ((((v >> 48u64) as u8)
        as u64) << 48u64) | ((((v >> 56u64) as u8) as u64) << 56u64) == v) by (bit_vector);
}

/// Read the little-endian `u32` at `buf[at..at + 4]`.
fn read_u32_le(buf: &[u8], at: usize) -> (r: u32)
    requires
        at + 4 <= buf@.len(),
    ensures
        r == le_u32_at(buf@, at as int),
{
    (buf[at] as u32) | ((buf[at + 1] as u32) << 8) | ((buf[at + 2] as u32) << 16) | ((buf[at
        + 3] as u32) << 24)
}

/// Read the little-endian `u64` at `buf[at..at + 8]`.
fn read_u64_le(buf: &[u8], at: usize) -> (r: u64)
    requires
        at + 8 <= buf@.len(),
    ensures
        r == le_u64_at(buf@, at as int),
{
    (buf[at] as u64) | ((buf[at + 1] as u64) << 8) | ((buf[at + 2] as u64) << 16) | ((buf[at
        + 3] as u64) << 24) | ((buf[at + 4] as u64) << 32) | ((buf[at + 5] as u64) << 40) | ((buf[at
        + 6] as u64) << 48) | ((buf[at + 7] as u64) << 56)
}

/// Overwrite `buf[at..at + 4]` with the little-endian bytes of `v`.
fn write_u32_le(buf: &mut Vec<u8>, at: usize, v: u32)
    requires
        at + 4 <= old(buf)@.len(),
    ensures
        final(buf)@ == old(buf)@.take(at as int) + u32_bytes(v) + old(buf)@.skip(at + 4),
{
    let n = buf.len();
    buf.set(at, v as u8);
    buf.set(at + 1, (v >> 8) as u8);
    buf.set(at + 2, (v >> 16) as u8);
    buf.set(at + 3, (v >> 24) as u8);
    assert(buf@ =~= old(buf)@.take(at as int) + u32_bytes(v) + old(buf)@.skip(at + 4));
}

/// Overwrite `buf[at..at + 8]` with the little-endian bytes of `v`.
fn write_u64_le(buf: &mut Vec<u8>, at: usize, v: u64)
    requires
        at + 8 <= old(buf)@.len(),
    ensures
        final(buf)@ == old(buf)@.take(at as int) + u64_bytes(v) + old(buf)@.skip(at + 8),
{
    let n = buf.len();
    buf.set(at, v as u8);
    buf.set(at + 1, (v >> 8) as u8);
    buf.set(at + 2, (v >> 16) as u8);
    buf.set(at + 3, (v >> 24) as u8);
    buf.set(at + 4, (v >> 32) as u8);
    buf.set(at + 5, (v >> 40) as u8);
    buf.set(at + 6, (v >> 48) as u8);
    buf.set(at + 7, (v >> 56) as u8);
    assert(buf@ =~= old(buf)@.take(at as int) + u64_bytes(v) + old(buf)@.skip(at + 8));
}

// ---------------------------------------------------------------------------
// Tensor index entry (on-disk layout)
// ---------------------------------------------------------------------------

/// One tensor index entry of a `.sovereign` file.
#[derive(Debug, Clone)]
pub struct TensorEntry {
    pub name: String,
    pub dtype: u8,
    pub ndim: u8,
    pub shape: [u32; 4],
    pub data_offset: u64,
    pub data_length: u64,
    pub checksum: u32,
}

/// The fields of an index entry as values: name, dtype, rank, the four
/// dims, data offset, data length, checksum.
pub type EntryView = (Seq<char>, u8, u8, Seq<u32>, u64, u64, u32);

impl View for TensorEntry {
    type V = EntryView;

    open spec fn view(&self) -> EntryView {
        (self.name@, self.dtype, self.ndim, self.shape@, self.data_offset, self.data_length,
            self.checksum)
    }
}

/// Index of the first zero byte of `b`, or `b.len()` when there is none.
pub open spec fn zero_index(b: Seq<u8>) -> nat
    decreases b.len(),
{
    if b.len() == 0 || b[0] == 0 {
        0
    } else {
        1 + zero_index(b.drop_first())
    }
}

pub proof fn lemma_zero_index(b: Seq<u8>)
    ensures
        zero_index(b) <= b.len(),
        zero_index(b) < b.len() ==> b[zero_index(b) as int] == 0,
        forall|j: int| 0 <= j < zero_index(b) ==> b[j] != 0,
    decreases b.len(),
{
    if b.len() > 0 && b[0] != 0 {
        lemma_zero_index(b.drop_first());
        assert forall|j: int| 0 <= j < zero_index(b) implies b[j] != 0 by {
            if j > 0 {
                assert(b[j] == b.drop_first()[j - 1]);
            }
        }
    }
}

/// The name field's bytes: the first 64 bytes up to the first zero.
pub open spec fn name_field(buf: Seq<u8>) -> Seq<u8> {
    buf.take(zero_index(buf.take(MAX_NAME_LEN as int)) as int)
}

/// What reading a 128-byte index entry gives: its fields, or the message
/// of the error.
pub open spec fn parsed_entry(buf: Seq<u8>) -> Result<EntryView, Seq<char>> {
    let nb = name_field(buf);
    if !valid_utf8(nb) {
        Err("tensor name not UTF-8: "@ + utf8_error_text(nb))
    } else if nb.len() == 0 {
        Err("empty tensor name"@)
    } else {
        Ok(
            (
                decode_utf8(nb),
                buf[64],
                buf[65],
                seq![le_u32_at(buf, 68), le_u32_at(buf, 72), le_u32_at(buf, 76), le_u32_at(buf, 80)],
                le_u64_at(buf, 84),
                le_u64_at(buf, 92),
                le_u32_at(buf, 100),
            ),
        )
    }
}

/// `n` zero bytes.
pub open spec fn zeros(n: nat) -> Seq<u8> {
    Seq::new(n, |i: int| 0u8)
}

/// The name field as written: the name's UTF-8 bytes, cut at 64, then zeros.
pub open spec fn padded_name(name: Seq<char>) -> Seq<u8> {
    let nb = encode_utf8(name);
    let n = if nb.len() < MAX_NAME_LEN { nb.len() } else { MAX_NAME_LEN as nat };
    nb.take(n as int) + zeros((MAX_NAME_LEN - n) as nat)
}

/// The 128 bytes written for an entry.
pub open spec fn entry_bytes(e: EntryView) -> Seq<u8> {
    padded_name(e.0) + seq![e.1, e.2, 0u8, 0u8] + u32_bytes(e.3[0]) + u32_bytes(e.3[1]) + u32_bytes(
        e.3[2],
    ) + u32_bytes(e.3[3]) + u64_bytes(e.4) + u64_bytes(e.5) + u32_bytes(e.6) + zeros(24)
}

impl TensorEntry {
    /// Parse one 128-byte index entry.
    pub fn from_bytes(buf: &[u8]) -> (r: NnResult<Self>)
        requires
            buf@.len() == INDEX_ENTRY_SIZE,
        ensures
            match parsed_entry(buf@) {
                Ok(v) => r is Ok && r->Ok_0@ == v,
                Err(m) => (r matches Err(NnError::Format(msg)) && msg@ == m),
            },
    {
        // Name: first 64 bytes, UTF-8, null-padded.
        let mut name_end: usize = 0;
        while name_end < MAX_NAME_LEN && buf[name_end] != 0
            invariant
                name_end <= MAX_NAME_LEN,
                buf@.len() == INDEX_ENTRY_SIZE,
                forall|j: int| 0 <= j < name_end ==> buf@[j] != 0,
            decreases MAX_NAME_LEN - name_end,
        {
            name_end += 1;
        }
        let mut raw: Vec<u8> = Vec::new();
        let mut i: usize = 0;
        while i < name_end
            invariant
                i <= name_end <= MAX_NAME_LEN,
                buf@.len() == INDEX_ENTRY_SIZE,
                raw@ == buf@.take(i as int),
            decreases name_end - i,
        {
            raw.push(buf[i]);
            i += 1;
            assert(raw@ =~= buf@.take(i as int));
        }
        proof {
            let head = buf@.take(MAX_NAME_LEN as int);
            lemma_zero_index(head);
            let z = zero_index(head);
            assert forall|j: int| 0 <= j < name_end implies head[j] != 0 by {
                assert(head[j] == buf@[j]);
            }
            if z < name_end {
                assert(head[z as int] == buf@[z as int]);
            }
            if name_end < MAX_NAME_LEN {
                assert(head[name_end as int] == buf@[name_end as int]);
            }
            assert(z == name_end);
            assert(raw@ == name_field(buf@));
        }
        let name = match str_from_utf8(raw.as_slice()) {
            Ok(t) => t,
            Err(e) => {
                let mut m = String::new();
                push_str(&mut m, "tensor name not UTF-8: ");
                push_str(&mut m, e.as_str());
                return Err(NnError::Format(m));
            },
        };
        if name.as_str().is_empty() {
            proof {
                if raw@.len() > 0 {
                    assert(decode_utf8(raw@).len() > 0);
                }
            }
            let mut m = String::new();
            push_str(&mut m, "empty tensor name");
            return Err(NnError::Format(m));
        }
        proof {
            if raw@.len() == 0 {
                assert(decode_utf8(raw@) =~= Seq::<char>::empty());
            }
        }
        let dtype = buf[64];
        let ndim = buf[65];
        let shape = [
            read_u32_le(buf, 68),
            read_u32_le(buf, 72),
            read_u32_le(buf, 76),
            read_u32_le(buf, 80),
        ];
        let data_offset = read_u64_le(buf, 84);
        let data_length = read_u64_le(buf, 92);
        let checksum = read_u32_le(buf, 100);
        let e = TensorEntry { name, dtype, ndim, shape, data_offset, data_length, checksum };
        assert(e.shape@ =~= seq![
            le_u32_at(buf@, 68),
            le_u32_at(buf@, 72),
            le_u32_at(buf@, 76),
            le_u32_at(buf@, 80),
        ]);
        Ok(e)
    }

    /// Serialize to a 128-byte index entry; a name longer than 64 bytes is cut.
    pub fn to_bytes(&self) -> (r: Vec<u8>)
        ensures
            r@ == entry_bytes(self@),
    {
        let mut buf: Vec<u8> = Vec::new();
        let mut i: usize = 0;
        while i < INDEX_ENTRY_SIZE
            invariant
                i <= INDEX_ENTRY_SIZE,
                buf@ == zeros(i as nat),
            decreases INDEX_ENTRY_SIZE - i,
        {
            buf.push(0);
            i += 1;
            assert(buf@ =~= zeros(i as nat));
        }
        let name_bytes = self.name.as_str().as_bytes();
        let len = if name_bytes.len() < MAX_NAME_LEN {
            name_bytes.len()
        } else {
            MAX_NAME_LEN
        };
        let mut k: usize = 0;
        while k < len
            invariant
                k <= len <= MAX_NAME_LEN,
                len <= name_bytes@.len(),
                name_bytes@ == encode_utf8(self.name@),
                buf@ == name_bytes@.take(k as int) + zeros((INDEX_ENTRY_SIZE - k) as nat),
            decreases len - k,
        {
            buf.set(k, name_bytes[k]);
            k += 1;
            assert(buf@ =~= name_bytes@.take(k as int) + zeros((INDEX_ENTRY_SIZE - k) as nat));
        }
        buf.set(64, self.dtype);
        buf.set(65, self.ndim);
        // 66..68 reserved
        write_u32_le(&mut buf, 68, self.shape[0]);
        write_u32_le(&mut buf, 72, self.shape[1]);
        write_u32_le(&mut buf, 76, self.shape[2]);
        write_u32_le(&mut buf, 80, self.shape[3]);
        write_u64_le(&mut buf, 84, self.data_offset);
        write_u64_le(&mut buf, 92, self.data_length);
        write_u32_le(&mut buf, 100, self.checksum);
        assert(buf@ =~= entry_bytes(self@));
        buf
    }
}

/// Reading back a written entry gives the same fields, for a non-empty name
/// of at most 64 bytes with no zero byte.
pub proof fn law_entry_roundtrip(e: EntryView)
    requires
        e.3.len() == 4,
        0 < encode_utf8(e.0).len() <= MAX_NAME_LEN,
        forall|j: int| 0 <= j < encode_utf8(e.0).len() ==> encode_utf8(e.0)[j] != 0,
    ensures
        parsed_entry(entry_bytes(e)) == Ok::<EntryView, Seq<char>>(e),
{
    let b = entry_bytes(e);
    let nb = encode_utf8(e.0);
    let head = b.take(MAX_NAME_LEN as int);
    assert(head =~= padded_name(e.0));
    lemma_zero_index(head);
    let z = zero_index(head);
    assert forall|j: int| 0 <= j < nb.len() implies head[j] != 0 by {
        assert(head[j] == nb[j]);
    }
    if z < nb.len() {
        assert(head[z as int] == nb[z as int]);
    }
    if nb.len() < MAX_NAME_LEN {
        assert(head[nb.len() as int] == 0);
    }
    assert(z == nb.len());
    assert(name_field(b) =~= nb);
    vstd::utf8::encode_utf8_valid_utf8(e.0);
    vstd::utf8::encode_utf8_decode_utf8(e.0);
    assert(b.subrange(68, 72) =~= u32_bytes(e.3[0]));
    lemma_u32_roundtrip(e.3[0]);
    lemma_u32_roundtrip(e.3[1]);
    lemma_u32_roundtrip(e.3[2]);
    lemma_u32_roundtrip(e.3[3]);
    lemma_u32_roundtrip(e.6);
    lemma_u64_roundtrip(e.4);
    lemma_u64_roundtrip(e.5);
    assert(le_u32_at(b, 68) == le_u32_at(u32_bytes(e.3[0]), 0));
    assert(le_u32_at(b, 72) == le_u32_at(u32_bytes(e.3[1]), 0));
    assert(le_u32_at(b, 76) == le_u32_at(u32_bytes(e.3[2]), 0));
    assert(le_u32_at(b, 80) == le_u32_at(u32_bytes(e.3[3]), 0));
    assert(le_u64_at(b, 84) == le_u64_at(u64_bytes(e.4), 0));
    assert(le_u64_at(b, 92) == le_u64_at(u64_bytes(e.5), 0));
    assert(le_u32_at(b, 100) == le_u32_at(u32_bytes(e.6), 0));
    assert(seq![le_u32_at(b, 68), le_u32_at(b, 72), le_u32_at(b, 76), le_u32_at(b, 80)] =~= e.3);
}


// ---------------------------------------------------------------------------
// File header
// ---------------------------------------------------------------------------

/// The fields of the 64-byte file header that a reader uses.
#[derive(Debug, Clone, Copy, PartialEq, Eq)]
pub struct Header {
    pub num_tensors: u32,
    pub metadata_offset: u64,
    pub metadata_length: u64,
}

/// What reading a 64-byte header gives: its fields, or the message of the
/// error.
pub open spec fn parsed_header(b: Seq<u8>) -> Result<(u32, u64, u64), Seq<char>> {
    if b.take(10) != magic_bytes() {
        Err("bad magic (not a .sovereign file)"@)
    } else if le_u32_at(b, 10) != VERSION {
        Err(
            "unsupported version "@ + decimal(le_u32_at(b, 10) as nat) + " (expected "@ + decimal(
                VERSION as nat,
            ) + ")"@,
        )
    } else {
        Ok((le_u32_at(b, 14), le_u64_at(b, 18), le_u64_at(b, 26)))
    }
}

/// The 64 header bytes written for a file: magic, version, tensor count,
/// metadata offset and length; the checksum and reserved bytes are zero.
pub open spec fn header_bytes(num_tensors: u32, metadata_offset: u64, metadata_length: u64) -> Seq<
    u8,
> {
    magic_bytes() + u32_bytes(VERSION) + u32_bytes(num_tensors) + u64_bytes(metadata_offset)
        + u64_bytes(metadata_length) + zeros(30)
}

impl Header {
    /// Check the magic and version of a 64-byte header and read its fields.
    pub fn parse(header: &[u8]) -> (r: NnResult<Header>)
        requires
            header@.len() == HEADER_SIZE,
        ensures
            match parsed_header(header@) {
                Ok(f) => r == Ok::<Header, NnError>(
                    Header { num_tensors: f.0, metadata_offset: f.1, metadata_length: f.2 },
                ),
                Err(m) => (r matches Err(NnError::Format(msg)) && msg@ == m),
            },
    {
        let m = magic();
        let mut i: usize = 0;
        while i < 10
            invariant
                i <= 10,
                header@.len() == HEADER_SIZE,
                m@ == magic_bytes(),
                forall|k: int| 0 <= k < i ==> header@[k] == m@[k],
            decreases 10 - i,
        {
            if header[i] != m[i] {
                proof {
                    assert(header@.take(10)[i as int] != magic_bytes()[i as int]);
                }
                let mut msg = String::new();
                push_str(&mut msg, "bad magic (not a .sovereign file)");
                return Err(NnError::Format(msg));
            }
            i += 1;
        }
        assert(header@.take(10) =~= magic_bytes());
        let version = read_u32_le(header, 10);
        if version != VERSION {
            let mut msg = String::new();
            push_str(&mut msg, "unsupported version ");
            push_decimal(&mut msg, version as u64);
            push_str(&mut msg, " (expected ");
            push_decimal(&mut msg, VERSION as u64);
            push_str(&mut msg, ")");
            return Err(NnError::Format(msg));
        }
        Ok(
            Header {
                num_tensors: read_u32_le(header, 14),
                metadata_offset: read_u64_le(header, 18),
                metadata_length: read_u64_le(header, 26),
            },
        )
    }

    /// The 64 header bytes for these fields.
    pub fn to_bytes(&self) -> (r: Vec<u8>)
        ensures
            r@ == header_bytes(self.num_tensors, self.metadata_offset, self.metadata_length),
    {
        let mut buf: Vec<u8> = Vec::new();
        let mut i: usize = 0;
        while i < HEADER_SIZE
            invariant
                i <= HEADER_SIZE,
                buf@ == zeros(i as nat),
            decreases HEADER_SIZE - i,
        {
            buf.push(0);
            i += 1;
            assert(buf@ =~= zeros(i as nat));
        }
        let m = magic();
        let mut k: usize = 0;
        while k < 10
            invariant
                k <= 10,
                m@ == magic_bytes(),
                buf@ == m@.take(k as int) + zeros((HEADER_SIZE - k) as nat),
            decreases 10 - k,
        {
            buf.set(k, m[k]);
            k += 1;
            assert(buf@ =~= m@.take(k as int) + zeros((HEADER_SIZE - k) as nat));
        }
        write_u32_le(&mut buf, 10, VERSION);
        write_u32_le(&mut buf, 14, self.num_tensors);
        write_u64_le(&mut buf, 18, self.metadata_offset);
        write_u64_le(&mut buf, 26, self.metadata_length);
        assert(buf@ =~= header_bytes(self.num_tensors, self.metadata_offset, self.metadata_length));
        buf
    }
}

/// Reading back a written header gives the same fields.
pub proof fn law_header_roundtrip(num_tensors: u32, metadata_offset: u64, metadata_length: u64)
    ensures
        parsed_header(header_bytes(num_tensors, metadata_offset, metadata_length)) == Ok::<
            (u32, u64, u64),
            Seq<char>,
        >((num_tensors, metadata_offset, metadata_length)),
{
    let b = header_bytes(num_tensors, metadata_offset, metadata_length);
    assert(b.take(10) =~= magic_bytes());
    lemma_u32_roundtrip(VERSION);
    lemma_u32_roundtrip(num_tensors);
    lemma_u64_roundtrip(metadata_offset);
    lemma_u64_roundtrip(metadata_length);
    assert(le_u32_at(b, 10) == le_u32_at(u32_bytes(VERSION), 0));
    assert(le_u32_at(b, 14) == le_u32_at(u32_bytes(num_tensors), 0));
    assert(le_u64_at(b, 18) == le_u64_at(u64_bytes(metadata_offset), 0));
    assert(le_u64_at(b, 26) == le_u64_at(u64_bytes(metadata_length), 0));
}

// ---------------------------------------------------------------------------
// Checking the tensor index
// ---------------------------------------------------------------------------

/// Whether the name at `j` was used by an earlier entry.
pub open spec fn repeats_earlier(names: Seq<Seq<char>>, j: int) -> bool {
    exists|i: int| 0 <= i < j && names[i] == names[j]
}

/// The first entry at or after `j` whose name was used earlier.
pub open spec fn first_repeat(names: Seq<Seq<char>>, j: int) -> Option<int>
    decreases names.len() - j,
{
    if j < 0 || j >= names.len() {
        None
    } else if repeats_earlier(names, j) {
        Some(j)
    } else {
        first_repeat(names, j + 1)
    }
}

/// The names of `entries`.
pub open spec fn entry_names(entries: Seq<TensorEntry>) -> Seq<Seq<char>> {
    entries.map_values(|e: TensorEntry| e.name@)
}

/// Reject a tensor index in which a name occurs twice, naming the first
/// entry that repeats an earlier name.
pub fn check_unique_names(entries: &[TensorEntry]) -> (r: NnResult<()>)
    ensures
        match first_repeat(entry_names(entries@), 0) {
            None => r is Ok,
            Some(j) => (r matches Err(NnError::Format(m)) && m@ == "duplicate tensor name: "@
                + debug_str(entry_names(entries@)[j])),
        },
{
    let ghost names = entry_names(entries@);
    let mut j: usize = 0;
    while j < entries.len()
        invariant
            j <= entries@.len(),
            names == entry_names(entries@),
            first_repeat(names, 0) == first_repeat(names, j as int),
        decreases entries@.len() - j,
    {
        let mut i: usize = 0;
        while i < j && !crate::text::str_eq(entries[i].name.as_str(), entries[j].name.as_str())
            invariant
                i <= j < entries@.len(),
                names == entry_names(entries@),
                forall|k: int| 0 <= k < i ==> names[k] != names[j as int],
            decreases j - i,
        {
            i += 1;
        }
        if i < j {
            proof {
                assert(names[i as int] == names[j as int]);
                assert(repeats_earlier(names, j as int));
            }
            let mut m = String::new();
            push_str(&mut m, "duplicate tensor name: ");
            let d = str_debug(entries[j].name.as_str());
            push_str(&mut m, d.as_str());
            return Err(NnError::Format(m));
        }
        proof {
            assert(!repeats_earlier(names, j as int)) by {
                if repeats_earlier(names, j as int) {
                    let k = choose|k: int| 0 <= k < j && names[k] == names[j as int];
                    assert(names[k] != names[j as int]);
                }
            }
        }
        j += 1;
    }
    Ok(())
}

/// The four dimensions of an index entry as sizes.
pub open spec fn entry_dims(e: TensorEntry) -> Seq<usize> {
    e.shape@.map_values(|d: u32| d as usize)
}

/// Check an index entry of a v1 file: f32 data, a valid shape, and a data
/// length of four bytes per element. Gives the shape and the byte count.
pub fn check_entry(entry: &TensorEntry) -> (r: NnResult<(Shape, usize)>)
    requires
        valid_shape(entry_dims(*entry), entry.ndim) ==> product(entry_dims(*entry).take(entry.ndim as int)) * 4
            <= usize::MAX,
    ensures
        entry.dtype != DTYPE_F32 ==> (r matches Err(NnError::Format(m)) && m@ == "tensor "@
            + debug_str(entry.name@) + ": unsupported dtype "@ + decimal(entry.dtype as nat)
            + " (v1 supports f32 only)"@),
        entry.dtype == DTYPE_F32 && !(2 <= entry.ndim <= 4) ==> r == Err::<(Shape, usize), NnError>(
            NnError::UnsupportedRank { rank: entry.ndim },
        ),
        entry.dtype == DTYPE_F32 && 2 <= entry.ndim <= 4 && !valid_shape(entry_dims(*entry), entry.ndim)
            ==> (r matches Err(NnError::Format(m)) && m@ == bad_shape_message(entry_dims(*entry), entry.ndim)),
        entry.dtype == DTYPE_F32 && valid_shape(entry_dims(*entry), entry.ndim) ==> ({
            let n = product(entry_dims(*entry).take(entry.ndim as int)) * 4;
            if (entry.data_length as usize) as int == n {
                r matches Ok((s, bytes)) && s.all_dims() == entry_dims(*entry) && s.rank()
                    == entry.ndim && bytes == n
            } else {
                r matches Err(NnError::Format(m)) && m@ == "tensor "@ + debug_str(entry.name@)
                    + ": data_length "@ + decimal(entry.data_length as nat) + " != expected "@
                    + decimal(n) + " (shape "@ + size_list(entry_dims(*entry).take(entry.ndim as int))
                    + ")"@
            }
        }),
{
    if entry.dtype != DTYPE_F32 {
        let mut m = String::new();
        push_str(&mut m, "tensor ");
        let d = str_debug(entry.name.as_str());
        push_str(&mut m, d.as_str());
        push_str(&mut m, ": unsupported dtype ");
        push_decimal(&mut m, entry.dtype as u64);
        push_str(&mut m, " (v1 supports f32 only)");
        return Err(NnError::Format(m));
    }
    let dims = [
        entry.shape[0] as usize,
        entry.shape[1] as usize,
        entry.shape[2] as usize,
        entry.shape[3] as usize,
    ];
    assert(dims@ =~= entry_dims(*entry));
    let shape = match Shape::new(dims, entry.ndim) {
        Ok(s) => s,
        Err(e) => {
            return Err(e);
        },
    };
    proof {
        use_type_invariant(&shape);
        shape.lemma_shape();
    }
    let expected = shape.numel() * 4;
    #[verifier::truncate]
    let got = entry.data_length as usize;
    if got != expected {
        let mut m = String::new();
        push_str(&mut m, "tensor ");
        let d = str_debug(entry.name.as_str());
        push_str(&mut m, d.as_str());
        push_str(&mut m, ": data_length ");
        push_decimal(&mut m, entry.data_length);
        push_str(&mut m, " != expected ");
        push_decimal(&mut m, expected as u64);
        push_str(&mut m, " (shape ");
        push_size_list(&mut m, shape.dims());
        push_str(&mut m, ")");
        return Err(NnError::Format(m));
    }
    Ok((shape, expected))
}

// ---------------------------------------------------------------------------
// Alignment
// ---------------------------------------------------------------------------

/// `n` rounded up to the next multiple of `align`.
pub open spec fn aligned(n: int, align: int) -> int {
    ((n + align - 1) / align) * align
}

proof fn lemma_mul_succ(d: int, a: int)
    ensures
        (d + 1) * a == d * a + a,
        a * d == d * a,
{
    assert((d + 1) * a == d * a + a) by (nonlinear_arith);
    assert(a * d == d * a) by (nonlinear_arith);
}

/// Round `n` up to the next multiple of `align`.
pub fn align_up(n: usize, align: usize) -> (r: usize)
    requires
        align > 0,
        aligned(n as int, align as int) <= usize::MAX,
    ensures
        r == aligned(n as int, align as int),
        r >= n,
        r % align == 0,
        r - n < align,
{
    let d = n / align;
    let m = n % align;
    let ghost k = n as int;
    let ghost a = align as int;
    proof {
        vstd::arithmetic::div_mod::lemma_fundamental_div_mod(k, a);
        vstd::arithmetic::div_mod::lemma_mod_pos_bound(k, a);
        lemma_mul_succ(d as int, a);
        assert(k == d * a + m);
    }
    let q = if m != 0 {
        proof {
            if d >= usize::MAX {
                assert(a >= 2);
                assert(d * a >= d + d) by (nonlinear_arith)
                    requires
                        a >= 2,
                        d >= 0,
                ;
            }
        }
        d + 1
    } else {
        d
    };
    proof {
        lemma_mul_succ(q as int, a);
        if m != 0 {
            assert(k + a - 1 == q * a + (m - 1));
            vstd::arithmetic::div_mod::lemma_fundamental_div_mod_converse(k + a - 1, a, q as int, m - 1);
        } else {
            assert(k + a - 1 == q * a + (a - 1));
            vstd::arithmetic::div_mod::lemma_fundamental_div_mod_converse(k + a - 1, a, q as int, a - 1);
        }
        vstd::arithmetic::div_mod::lemma_mod_multiples_basic(q as int, a);
    }
    q * align
}

} // verus!
