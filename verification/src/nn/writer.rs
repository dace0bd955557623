//! Building a `.sovereign` file: header, tensor index, aligned data blobs
//! and the metadata object, laid out byte for byte.

use vstd::prelude::*;

use crate::nn::error::{NnError, NnResult};
use crate::nn::format::{
    align_up, aligned, crc32, crc32_of, entry_bytes, header_bytes, EntryView, Header, TensorEntry,
    zeros, DTYPE_F32, HEADER_SIZE, INDEX_ENTRY_SIZE, MAX_NAME_LEN, TENSOR_ALIGNMENT,
};
use crate::nn::metadata::{
    ascending, pairs_map, render, serialize_flat_json, unique_keys, Metadata, Pairs,
};
use crate::nn::tensor::Shape;
use crate::text::{debug_str, push_decimal, push_str, str_debug};
use vstd::utf8::encode_utf8;

verus! {

/// One tensor as written: name, data bytes, shape, dtype tag.
pub type Blob = (Seq<char>, Seq<u8>, Shape, u8);

/// Where the blob after one at `off` with `len` bytes starts.
pub open spec fn next_offset(off: int, len: int) -> int {
    aligned(off + len, TENSOR_ALIGNMENT as int)
}

/// Offset of blob `i` when the data section starts at `start`.
pub open spec fn blob_offset(blobs: Seq<Blob>, start: int, i: int) -> int
    decreases i,
{
    if i <= 0 {
        start
    } else {
        next_offset(blob_offset(blobs, start, i - 1), blobs[i - 1].1.len() as int)
    }
}

/// First byte after the index.
pub open spec fn index_size(n: int) -> int {
    HEADER_SIZE + n * INDEX_ENTRY_SIZE
}

/// Start of the data section: the index end, aligned.
pub open spec fn section_start(n: int) -> int {
    aligned(index_size(n), TENSOR_ALIGNMENT as int)
}

/// Where the metadata goes: after the last blob, aligned.
pub open spec fn data_end(blobs: Seq<Blob>) -> int {
    blob_offset(blobs, section_start(blobs.len() as int), blobs.len() as int)
}

/// The index entry of a blob at `off`.
pub open spec fn blob_entry(b: Blob, off: int) -> EntryView {
    (b.0, b.3, b.2.rank(), b.2.all_dims().map_values(|d: usize| d as u32), off as u64, b.1.len() as u64,
        crc32_of(b.1))
}

/// The index entries of the first `k` blobs, as bytes.
pub open spec fn index_bytes(blobs: Seq<Blob>, start: int, k: int) -> Seq<u8>
    decreases k,
{
    if k <= 0 {
        Seq::empty()
    } else {
        index_bytes(blobs, start, k - 1) + entry_bytes(
            blob_entry(blobs[k - 1], blob_offset(blobs, start, k - 1)),
        )
    }
}

/// The first `k` blobs, each followed by zeros up to the next offset.
pub open spec fn data_bytes(blobs: Seq<Blob>, start: int, k: int) -> Seq<u8>
    decreases k,
{
    if k <= 0 {
        Seq::empty()
    } else {
        data_bytes(blobs, start, k - 1) + blobs[k - 1].1 + zeros(
            (blob_offset(blobs, start, k) - blob_offset(blobs, start, k - 1) - blobs[k - 1].1.len()) as nat,
        )
    }
}

/// The whole file for `blobs` and the metadata text `meta`.
pub open spec fn file_image(blobs: Seq<Blob>, meta: Seq<char>) -> Seq<u8> {
    let n = blobs.len() as int;
    let start = section_start(n);
    header_bytes(n as u32, data_end(blobs) as u64, encode_utf8(meta).len() as u64) + index_bytes(
        blobs,
        start,
        n,
    ) + zeros((start - index_size(n)) as nat) + data_bytes(blobs, start, n) + encode_utf8(meta)
}

/// The first blob at or after `i` whose name is longer than 64 bytes.
pub open spec fn first_long_name(blobs: Seq<Blob>, i: int) -> Option<int>
    decreases blobs.len() - i,
{
    if i < 0 || i >= blobs.len() {
        None
    } else if encode_utf8(blobs[i].0).len() > MAX_NAME_LEN {
        Some(i)
    } else {
        first_long_name(blobs, i + 1)
    }
}

pub proof fn lemma_offsets_grow(blobs: Seq<Blob>, start: int, i: int, j: int)
    requires
        start >= 0,
        0 <= i <= j <= blobs.len(),
    ensures
        start <= blob_offset(blobs, start, i),
        blob_offset(blobs, start, i) + (if i < j { blobs[i].1.len() as int } else { 0 })
            <= blob_offset(blobs, start, j),
    decreases j,
{
    if j > 0 {
        lemma_offsets_grow(blobs, start, 0, j - 1);
        if i < j {
            lemma_offsets_grow(blobs, start, i, j - 1);
        }
        lemma_aligned_ge(blob_offset(blobs, start, j - 1) + blobs[j - 1].1.len(), TENSOR_ALIGNMENT as int);
        if i < j - 1 {
            lemma_offsets_grow(blobs, start, i + 1, j - 1);
            lemma_aligned_ge(blob_offset(blobs, start, i) + blobs[i].1.len(), TENSOR_ALIGNMENT as int);
        }
    }
}

pub proof fn lemma_aligned_ge(x: int, a: int)
    requires
        a > 0,
        x >= 0,
    ensures
        aligned(x, a) >= x,
        aligned(x, a) - x < a,
{
    let q = (x + a - 1) / a;
    vstd::arithmetic::div_mod::lemma_fundamental_div_mod(x + a - 1, a);
    vstd::arithmetic::div_mod::lemma_mod_pos_bound(x + a - 1, a);
    assert(a * q == q * a) by (nonlinear_arith);
}

/// Builder for `.sovereign` files. The f32 tensors are written first, as
/// their little-endian bytes, then the raw tensors.
pub struct SovereignWriter {
    tensors: Vec<(String, Vec<u8>, Shape)>,
    raw_tensors: Vec<(String, Vec<u8>, Shape, u8)>,
    metadata: Metadata,
}

impl SovereignWriter {
    /// The tensors in the order they are written.
    pub closed spec fn blobs(&self) -> Seq<Blob> {
        self.tensors@.map_values(|t: (String, Vec<u8>, Shape)| (t.0@, t.1@, t.2, DTYPE_F32))
            + self.raw_tensors@.map_values(
            |t: (String, Vec<u8>, Shape, u8)| (t.0@, t.1@, t.2, t.3),
        )
    }

    /// How many f32 tensors were added: they come first.
    pub closed spec fn f32_count(&self) -> nat {
        self.tensors@.len()
    }

    /// The metadata set so far.
    pub closed spec fn meta(&self) -> Map<Seq<char>, Seq<char>> {
        self.metadata@
    }

    /// An empty writer.
    pub fn new() -> (w: Self)
        ensures
            w.blobs() == Seq::<Blob>::empty(),
            w.f32_count() == 0,
            w.meta() == Map::<Seq<char>, Seq<char>>::empty(),
    {
        let w = SovereignWriter { tensors: Vec::new(), raw_tensors: Vec::new(), metadata: Metadata::new() };
        assert(w.blobs() =~= Seq::<Blob>::empty());
        w
    }

    /// Add an f32 tensor, given as its little-endian bytes.
    pub fn add_f32_bytes(&mut self, name: String, data: Vec<u8>, shape: Shape)
        ensures
            final(self).meta() == old(self).meta(),
            final(self).f32_count() == old(self).f32_count() + 1,
            final(self).blobs() == old(self).blobs().insert(
                old(self).f32_count() as int,
                (name@, data@, shape, DTYPE_F32),
            ),
    {
        let ghost old_blobs = self.blobs();
        let ghost k = self.tensors@.len() as int;
        self.tensors.push((name, data, shape));
        assert(self.blobs() =~= old_blobs.insert(k, (name@, data@, shape, DTYPE_F32)));
    }

    /// Add a raw tensor with an explicit dtype (for quantized data).
    pub fn add_raw_tensor(&mut self, name: String, data: Vec<u8>, shape: Shape, dtype: u8)
        ensures
            final(self).meta() == old(self).meta(),
            final(self).f32_count() == old(self).f32_count(),
            final(self).blobs() == old(self).blobs().push((name@, data@, shape, dtype)),
    {
        let ghost old_blobs = self.blobs();
        self.raw_tensors.push((name, data, shape, dtype));
        assert(self.blobs() =~= old_blobs.push((name@, data@, shape, dtype)));
    }

    /// Set a metadata key.
    pub fn set_metadata(&mut self, key: String, value: String)
        ensures
            final(self).blobs() == old(self).blobs(),
            final(self).f32_count() == old(self).f32_count(),
            final(self).meta() == old(self).meta().insert(key@, value@),
    {
        self.metadata.insert(key, value);
    }

    /// Tensor `i` in write order.
    fn blob_at(&self, i: usize) -> (r: (&String, &Vec<u8>, Shape, u8))
        requires
            i < self.blobs().len(),
        ensures
            (r.0@, r.1@, r.2, r.3) == self.blobs()[i as int],
    {
        let t = self.tensors.len();
        if i < t {
            let e = &self.tensors[i];
            (&e.0, &e.1, e.2, DTYPE_F32)
        } else {
            let e = &self.raw_tensors[i - t];
            (&e.0, &e.1, e.2, e.3)
        }
    }

    /// The index entries of all tensors and where the metadata goes, or
    /// the error for the first name longer than 64 bytes.
    fn plan_entries(&self, data_start: usize) -> (r: NnResult<(Vec<TensorEntry>, usize)>)
        requires
            data_start == section_start(self.blobs().len() as int),
            data_end(self.blobs()) <= usize::MAX,
        ensures
            match first_long_name(self.blobs(), 0) {
                Some(i) => (r matches Err(NnError::Format(m)) && m@ == "tensor name "@ + debug_str(
                    self.blobs()[i].0,
                ) + " exceeds 64 bytes"@),
                None => (r matches Ok((es, end)) && end == data_end(self.blobs()) && es@.len()
                    == self.blobs().len() && forall|k: int| 0 <= k < es@.len() ==> (#[trigger] es@[k])@
                    == blob_entry(self.blobs()[k], blob_offset(self.blobs(), data_start as int, k))),
            },
    {
        let ghost blobs = self.blobs();
        let ghost start = data_start as int;
        let n = self.tensors.len() + self.raw_tensors.len();
        proof {
            lemma_aligned_ge(index_size(n as int), TENSOR_ALIGNMENT as int);
        }
        let mut entries: Vec<TensorEntry> = Vec::new();
        let mut offset: usize = data_start;
        let mut i: usize = 0;
        while i < n
            invariant
                n == blobs.len(),
                blobs == self.blobs(),
                i <= n,
                start == data_start,
                start >= 0,
                blob_offset(blobs, start, n as int) <= usize::MAX,
                offset == blob_offset(blobs, start, i as int),
                entries@.len() == i,
                forall|k: int| 0 <= k < i ==> (#[trigger] entries@[k])@ == blob_entry(
                    blobs[k],
                    blob_offset(blobs, start, k),
                ),
                first_long_name(blobs, 0) == first_long_name(blobs, i as int),
            decreases n - i,
        {
            let (name, data, shape, dtype) = self.blob_at(i);
            proof {
                crate::text::lemma_encode_len(name@);
            }
            if crate::text::str_byte_len(name.as_str()) > MAX_NAME_LEN {
                let mut m = String::new();
                push_str(&mut m, "tensor name ");
                let d = str_debug(name.as_str());
                push_str(&mut m, d.as_str());
                push_str(&mut m, " exceeds 64 bytes");
                return Err(NnError::Format(m));
            }
            proof {
                lemma_offsets_grow(blobs, start, i as int, n as int);
                lemma_offsets_grow(blobs, start, i + 1, n as int);
            }
            let checksum = crc32(data.as_slice());
            proof {
                use_type_invariant(&shape);
                shape.lemma_shape();
            }
            let act = shape.dims();
            let dims: [u32; 4] = [
                dim_or_one(act, 0),
                dim_or_one(act, 1),
                dim_or_one(act, 2),
                dim_or_one(act, 3),
            ];
            let e = TensorEntry {
                name: name.clone(),
                dtype,
                ndim: shape.ndim(),
                shape: dims,
                data_offset: offset as u64,
                data_length: data.len() as u64,
                checksum,
            };
            proof {
                assert(e.shape@ =~= shape.all_dims().map_values(|d: usize| d as u32));
            }
            entries.push(e);
            offset = align_up(offset + data.len(), TENSOR_ALIGNMENT);
            i += 1;
        }
        Ok((entries, offset))
    }

    /// Append each tensor's data, padded with zeros to the next offset.
    fn write_data(&self, img: &mut Vec<u8>, data_start: usize)
        requires
            data_start == section_start(self.blobs().len() as int),
            data_end(self.blobs()) <= usize::MAX,
        ensures
            final(img)@ == old(img)@ + data_bytes(self.blobs(), data_start as int, self.blobs().len() as int),
    {
        let ghost blobs = self.blobs();
        let ghost start = data_start as int;
        let ghost after_pad = img@;
        let n = self.tensors.len() + self.raw_tensors.len();
        let mut off: usize = data_start;
        let mut j: usize = 0;
        while j < n
            invariant
                n == blobs.len(),
                blobs == self.blobs(),
                j <= n,
                start == data_start,
                start >= 0,
                blob_offset(blobs, start, n as int) <= usize::MAX,
                off == blob_offset(blobs, start, j as int),
                img@ == after_pad + data_bytes(blobs, start, j as int),
            decreases n - j,
        {
            let (_, data, _, _) = self.blob_at(j);
            proof {
                lemma_offsets_grow(blobs, start, j as int, n as int);
                lemma_offsets_grow(blobs, start, j + 1, n as int);
            }
            let next = align_up(off + data.len(), TENSOR_ALIGNMENT);
            let ghost before = img@;
            append_bytes(img, data.as_slice());
            let mut q = off + data.len();
            while q < next
                invariant
                    off + data@.len() <= q <= next,
                    img@ == before + data@ + zeros((q - off - data@.len()) as nat),
                decreases next - q,
            {
                img.push(0);
                q += 1;
                assert(img@ =~= before + data@ + zeros((q - off - data@.len()) as nat));
            }
            off = next;
            j += 1;
            assert(img@ =~= after_pad + data_bytes(blobs, start, j as int));
        }
    }

    /// The bytes of the `.sovereign` file: header, index, padding, each
    /// tensor's data padded to the alignment, and the metadata object with
    /// its keys in ascending order.
    #[verifier::spinoff_prover]
    pub fn to_bytes(&self) -> (r: NnResult<Vec<u8>>)
        requires
            data_end(self.blobs()) <= usize::MAX,
        ensures
            match first_long_name(self.blobs(), 0) {
                Some(i) => (r matches Err(NnError::Format(m)) && m@ == "tensor name "@ + debug_str(
                    self.blobs()[i].0,
                ) + " exceeds 64 bytes"@),
                None => (r matches Ok(img) && exists|ps: Pairs|
                    unique_keys(ps) && ascending(ps) && pairs_map(ps) == self.meta() && img@
                        == file_image(self.blobs(), render(ps))),
            },
    {
        let ghost blobs = self.blobs();
        let ghost start = section_start(blobs.len() as int);
        proof {
            lemma_aligned_ge(index_size(blobs.len() as int), TENSOR_ALIGNMENT as int);
            lemma_offsets_grow(blobs, start, 0, blobs.len() as int);
        }
        let n = self.tensors.len() + self.raw_tensors.len();
        let index_end = HEADER_SIZE + n * INDEX_ENTRY_SIZE;
        let data_start = align_up(index_end, TENSOR_ALIGNMENT);
        let (entries, end) = match self.plan_entries(data_start) {
            Ok(x) => x,
            Err(e) => {
                return Err(e);
            },
        };
        let meta_text = serialize_flat_json(&self.metadata);
        let meta_bytes = meta_text.as_str().as_bytes();
        #[verifier::truncate]
        let count = n as u32;
        let header = Header {
            num_tensors: count,
            metadata_offset: end as u64,
            metadata_length: meta_bytes.len() as u64,
        };
        let mut img = header.to_bytes();
        let ghost head = img@;
        write_index(&mut img, &entries, Ghost(blobs), Ghost(start));
        let ghost after_index = img@;
        push_zeros(&mut img, data_start - index_end);
        self.write_data(&mut img, data_start);
        append_bytes(&mut img, meta_bytes);
        proof {
            let ps = choose|ps: Pairs|
                unique_keys(ps) && ascending(ps) && pairs_map(ps) == self.metadata@ && meta_text@
                    == render(ps);
            assert(img@ =~= file_image(blobs, render(ps)));
        }
        Ok(img)
    }
}


// ---------------------------------------------------------------------------
// Reading back a written file
// ---------------------------------------------------------------------------

pub proof fn lemma_entry_bytes_len(e: EntryView)
    ensures
        entry_bytes(e).len() == INDEX_ENTRY_SIZE,
{
}

pub proof fn lemma_index_bytes(blobs: Seq<Blob>, start: int, k: int)
    requires
        0 <= k <= blobs.len(),
    ensures
        index_bytes(blobs, start, k).len() == k * INDEX_ENTRY_SIZE,
        forall|i: int| 0 <= i < k ==> #[trigger] index_bytes(blobs, start, k).subrange(
            i * INDEX_ENTRY_SIZE,
            (i + 1) * INDEX_ENTRY_SIZE,
        ) == entry_bytes(blob_entry(blobs[i], blob_offset(blobs, start, i))),
    decreases k,
{
    if k > 0 {
        lemma_index_bytes(blobs, start, k - 1);
        let prev = index_bytes(blobs, start, k - 1);
        let last = entry_bytes(blob_entry(blobs[k - 1], blob_offset(blobs, start, k - 1)));
        lemma_entry_bytes_len(blob_entry(blobs[k - 1], blob_offset(blobs, start, k - 1)));
        assert forall|i: int| 0 <= i < k implies #[trigger] index_bytes(blobs, start, k).subrange(
            i * INDEX_ENTRY_SIZE,
            (i + 1) * INDEX_ENTRY_SIZE,
        ) == entry_bytes(blob_entry(blobs[i], blob_offset(blobs, start, i))) by {
            assert((i + 1) * INDEX_ENTRY_SIZE == i * INDEX_ENTRY_SIZE + INDEX_ENTRY_SIZE);
            if i < k - 1 {
                assert(prev.subrange(i * INDEX_ENTRY_SIZE, (i + 1) * INDEX_ENTRY_SIZE) == entry_bytes(
                    blob_entry(blobs[i], blob_offset(blobs, start, i)),
                ));
                assert((i + 1) * INDEX_ENTRY_SIZE <= (k - 1) * INDEX_ENTRY_SIZE);
                assert((prev + last).subrange(i * INDEX_ENTRY_SIZE, (i + 1) * INDEX_ENTRY_SIZE)
                    =~= prev.subrange(i * INDEX_ENTRY_SIZE, (i + 1) * INDEX_ENTRY_SIZE));
            } else {
                assert((prev + last).subrange(i * INDEX_ENTRY_SIZE, (i + 1) * INDEX_ENTRY_SIZE) =~= last);
            }
        }
    }
}

pub proof fn lemma_data_bytes(blobs: Seq<Blob>, start: int, k: int)
    requires
        start >= 0,
        0 <= k <= blobs.len(),
    ensures
        data_bytes(blobs, start, k).len() == blob_offset(blobs, start, k) - start,
        forall|i: int| 0 <= i < k ==> #[trigger] data_bytes(blobs, start, k).subrange(
            blob_offset(blobs, start, i) - start,
            blob_offset(blobs, start, i) - start + blobs[i].1.len(),
        ) == blobs[i].1,
    decreases k,
{
    if k > 0 {
        lemma_data_bytes(blobs, start, k - 1);
        lemma_offsets_grow(blobs, start, k - 1, k);
        let prev = data_bytes(blobs, start, k - 1);
        let pad = zeros(
            (blob_offset(blobs, start, k) - blob_offset(blobs, start, k - 1) - blobs[k - 1].1.len()) as nat,
        );
        assert forall|i: int| 0 <= i < k implies #[trigger] data_bytes(blobs, start, k).subrange(
            blob_offset(blobs, start, i) - start,
            blob_offset(blobs, start, i) - start + blobs[i].1.len(),
        ) == blobs[i].1 by {
            let a = blob_offset(blobs, start, i) - start;
            if i < k - 1 {
                lemma_offsets_grow(blobs, start, i, k - 1);
                assert((prev + blobs[k - 1].1 + pad).subrange(a, a + blobs[i].1.len()) =~= prev.subrange(
                    a,
                    a + blobs[i].1.len(),
                ));
            } else {
                assert((prev + blobs[k - 1].1 + pad).subrange(a, a + blobs[i].1.len()) =~= blobs[i].1);
            }
        }
    }
}

/// The five parts of a written file and their lengths.
pub proof fn lemma_image_parts(blobs: Seq<Blob>, meta: Seq<char>)
    ensures
        ({
            let n = blobs.len() as int;
            let start = section_start(n);
            let hb = header_bytes(n as u32, data_end(blobs) as u64, encode_utf8(meta).len() as u64);
            let ib = index_bytes(blobs, start, n);
            let db = data_bytes(blobs, start, n);
            &&& file_image(blobs, meta) == hb + ib + zeros((start - index_size(n)) as nat) + db
                + encode_utf8(meta)
            &&& hb.len() == HEADER_SIZE
            &&& ib.len() == n * INDEX_ENTRY_SIZE
            &&& index_size(n) <= start
            &&& db.len() == data_end(blobs) - start
            &&& start <= data_end(blobs)
        }),
{
    let n = blobs.len() as int;
    let start = section_start(n);
    lemma_aligned_ge(index_size(n), TENSOR_ALIGNMENT as int);
    lemma_index_bytes(blobs, start, n);
    lemma_data_bytes(blobs, start, n);
    lemma_offsets_grow(blobs, start, 0, n);
}

/// The header of a written file gives the tensor count, where the metadata
/// starts and how long it is.
pub proof fn law_written_header_reads_back(blobs: Seq<Blob>, meta: Seq<char>)
    ensures
        crate::nn::format::parsed_header(file_image(blobs, meta).take(HEADER_SIZE as int)) == Ok::<
            (u32, u64, u64),
            Seq<char>,
        >((blobs.len() as u32, data_end(blobs) as u64, encode_utf8(meta).len() as u64)),
{
    let n = blobs.len() as int;
    let hb = header_bytes(n as u32, data_end(blobs) as u64, encode_utf8(meta).len() as u64);
    lemma_image_parts(blobs, meta);
    assert(file_image(blobs, meta).take(HEADER_SIZE as int) =~= hb);
    crate::nn::format::law_header_roundtrip(n as u32, data_end(blobs) as u64, encode_utf8(meta).len() as u64);
}

/// Index entry `i` of a written file gives the tensor's name, dtype, dims,
/// data offset, data length and CRC32, when its name is non-empty, at most
/// 64 bytes and free of zero bytes.
pub proof fn law_written_entry_reads_back(blobs: Seq<Blob>, meta: Seq<char>, i: int)
    requires
        0 <= i < blobs.len(),
        0 < encode_utf8(blobs[i].0).len() <= MAX_NAME_LEN,
        forall|j: int| 0 <= j < encode_utf8(blobs[i].0).len() ==> encode_utf8(blobs[i].0)[j] != 0,
    ensures
        crate::nn::format::parsed_entry(file_image(blobs, meta).subrange(
            HEADER_SIZE + i * INDEX_ENTRY_SIZE,
            HEADER_SIZE + (i + 1) * INDEX_ENTRY_SIZE,
        )) == Ok::<EntryView, Seq<char>>(
            blob_entry(blobs[i], blob_offset(blobs, section_start(blobs.len() as int), i)),
        ),
{
    let n = blobs.len() as int;
    let start = section_start(n);
    let img = file_image(blobs, meta);
    let hb = header_bytes(n as u32, data_end(blobs) as u64, encode_utf8(meta).len() as u64);
    let ib = index_bytes(blobs, start, n);
    lemma_image_parts(blobs, meta);
    lemma_index_bytes(blobs, start, n);
    assert((i + 1) * INDEX_ENTRY_SIZE <= n * INDEX_ENTRY_SIZE) by (nonlinear_arith)
        requires
            i < n,
    ;
    assert(0 <= i * INDEX_ENTRY_SIZE) by (nonlinear_arith)
        requires
            0 <= i,
    ;
    assert((i + 1) * INDEX_ENTRY_SIZE == i * INDEX_ENTRY_SIZE + INDEX_ENTRY_SIZE);
    assert(img.subrange(HEADER_SIZE + i * INDEX_ENTRY_SIZE, HEADER_SIZE + (i + 1) * INDEX_ENTRY_SIZE)
        =~= ib.subrange(i * INDEX_ENTRY_SIZE, (i + 1) * INDEX_ENTRY_SIZE));
    let e = blob_entry(blobs[i], blob_offset(blobs, start, i));
    blobs[i].2.lemma_four_dims();
    assert(e.3.len() == 4);
    crate::nn::format::law_entry_roundtrip(e);
}

/// In a written file, the bytes at tensor `i`'s data offset are its data.
pub proof fn law_written_data_reads_back(blobs: Seq<Blob>, meta: Seq<char>, i: int)
    requires
        0 <= i < blobs.len(),
    ensures
        ({
            let off = blob_offset(blobs, section_start(blobs.len() as int), i);
            file_image(blobs, meta).subrange(off, off + blobs[i].1.len()) == blobs[i].1
        }),
{
    let n = blobs.len() as int;
    let start = section_start(n);
    let db = data_bytes(blobs, start, n);
    lemma_image_parts(blobs, meta);
    lemma_data_bytes(blobs, start, n);
    lemma_aligned_ge(index_size(n), TENSOR_ALIGNMENT as int);
    lemma_offsets_grow(blobs, start, i, n);
    let a = blob_offset(blobs, start, i);
    assert(db.subrange(a - start, a - start + blobs[i].1.len()) == blobs[i].1);
    assert(file_image(blobs, meta).subrange(a, a + blobs[i].1.len()) =~= db.subrange(
        a - start,
        a - start + blobs[i].1.len(),
    ));
}

/// In a written file, the metadata text sits at the metadata offset the
/// header gives, and runs to the end of the file.
pub proof fn law_written_metadata_reads_back(blobs: Seq<Blob>, meta: Seq<char>)
    ensures
        file_image(blobs, meta).len() == data_end(blobs) + encode_utf8(meta).len(),
        file_image(blobs, meta).subrange(data_end(blobs), data_end(blobs) + encode_utf8(meta).len())
            == encode_utf8(meta),
{
    lemma_image_parts(blobs, meta);
    let n = blobs.len() as int;
    let img = file_image(blobs, meta);
    let mb = encode_utf8(meta);
    assert(img.subrange(data_end(blobs), data_end(blobs) + mb.len()) =~= mb);
}

/// No name occurs twice at or after `j` when all names differ.
proof fn lemma_distinct_no_repeat(names: Seq<Seq<char>>, j: int)
    requires
        0 <= j,
        forall|a: int, b: int| 0 <= a < b < names.len() ==> names[a] != names[b],
    ensures
        crate::nn::format::first_repeat(names, j) is None,
    decreases names.len() - j,
{
    if j < names.len() {
        assert(!crate::nn::format::repeats_earlier(names, j));
        lemma_distinct_no_repeat(names, j + 1);
    }
}

/// A written file loads back: its header gives the tensor count and the
/// metadata's place; each index entry parses to the tensor's name, dtype,
/// dims, offset, length and CRC32, and the bytes at that offset are the
/// tensor's data, whose CRC32 matches the entry; no name repeats; and the
/// metadata bytes are UTF-8 text that parses to the written map. This holds
/// for distinct, non-empty names of at most 64 bytes without zero bytes.
pub proof fn law_written_file_loads(blobs: Seq<Blob>, ps: Pairs)
    requires
        unique_keys(ps),
        forall|i: int|
            0 <= i < blobs.len() ==> 0 < #[trigger] encode_utf8(blobs[i].0).len() <= MAX_NAME_LEN
                && forall|j: int| 0 <= j < encode_utf8(blobs[i].0).len() ==> encode_utf8(blobs[i].0)[j] != 0,
        forall|a: int, b: int| 0 <= a < b < blobs.len() ==> blobs[a].0 != blobs[b].0,
    ensures
        ({
            let meta = render(ps);
            let img = file_image(blobs, meta);
            let start = section_start(blobs.len() as int);
            let mb = img.subrange(data_end(blobs), data_end(blobs) + encode_utf8(meta).len());
            &&& crate::nn::format::parsed_header(img.take(HEADER_SIZE as int)) == Ok::<
                (u32, u64, u64),
                Seq<char>,
            >((blobs.len() as u32, data_end(blobs) as u64, encode_utf8(meta).len() as u64))
            &&& forall|i: int|
                0 <= i < blobs.len() ==> {
                    let off = blob_offset(blobs, start, i);
                    &&& crate::nn::format::parsed_entry(
                        #[trigger] img.subrange(HEADER_SIZE + i * INDEX_ENTRY_SIZE, HEADER_SIZE + (i + 1) * INDEX_ENTRY_SIZE),
                    ) == Ok::<EntryView, Seq<char>>(blob_entry(blobs[i], off))
                    &&& img.subrange(off, off + blobs[i].1.len()) == blobs[i].1
                    &&& crc32_of(img.subrange(off, off + blobs[i].1.len())) == blob_entry(blobs[i], off).6
                }
            &&& crate::nn::format::first_repeat(blobs.map_values(|b: Blob| b.0), 0) is None
            &&& vstd::utf8::valid_utf8(mb)
            &&& crate::nn::metadata::flat_object(vstd::utf8::decode_utf8(mb)) matches Ok(qs) && pairs_map(qs)
                == pairs_map(ps)
        }),
{
    let meta = render(ps);
    let img = file_image(blobs, meta);
    let start = section_start(blobs.len() as int);
    law_written_header_reads_back(blobs, meta);
    assert forall|i: int| 0 <= i < blobs.len() implies {
        let off = blob_offset(blobs, start, i);
        &&& crate::nn::format::parsed_entry(
            #[trigger] img.subrange(HEADER_SIZE + i * INDEX_ENTRY_SIZE, HEADER_SIZE + (i + 1) * INDEX_ENTRY_SIZE),
        ) == Ok::<EntryView, Seq<char>>(blob_entry(blobs[i], off))
        &&& img.subrange(off, off + blobs[i].1.len()) == blobs[i].1
        &&& crc32_of(img.subrange(off, off + blobs[i].1.len())) == blob_entry(blobs[i], off).6
    } by {
        assert(0 < encode_utf8(blobs[i].0).len() <= MAX_NAME_LEN);
        law_written_entry_reads_back(blobs, meta, i);
        law_written_data_reads_back(blobs, meta, i);
    }
    let names = blobs.map_values(|b: Blob| b.0);
    lemma_distinct_no_repeat(names, 0);
    law_written_metadata_reads_back(blobs, meta);
    vstd::utf8::encode_utf8_valid_utf8(meta);
    vstd::utf8::encode_utf8_decode_utf8(meta);
    crate::nn::metadata::law_metadata_roundtrip(ps);
}

/// Append the index entries.
fn write_index(img: &mut Vec<u8>, entries: &Vec<TensorEntry>, Ghost(blobs): Ghost<Seq<Blob>>, Ghost(start): Ghost<int>)
    requires
        entries@.len() == blobs.len(),
        forall|j: int| 0 <= j < blobs.len() ==> (#[trigger] entries@[j])@ == blob_entry(
            blobs[j],
            blob_offset(blobs, start, j),
        ),
    ensures
        final(img)@ == old(img)@ + index_bytes(blobs, start, blobs.len() as int),
{
    let ghost head = img@;
    let n = entries.len();
    let mut k: usize = 0;
    while k < n
        invariant
            n == blobs.len(),
            k <= n,
            entries@.len() == n,
            forall|j: int| 0 <= j < n ==> (#[trigger] entries@[j])@ == blob_entry(
                blobs[j],
                blob_offset(blobs, start, j),
            ),
            img@ == head + index_bytes(blobs, start, k as int),
        decreases n - k,
    {
        let eb = entries[k].to_bytes();
        append_bytes(img, eb.as_slice());
        k += 1;
        assert(img@ =~= head + index_bytes(blobs, start, k as int));
    }
}

/// Append `k` zero bytes.
fn push_zeros(img: &mut Vec<u8>, k: usize)
    ensures
        final(img)@ == old(img)@ + zeros(k as nat),
{
    let mut p: usize = 0;
    while p < k
        invariant
            p <= k,
            img@ == old(img)@ + zeros(p as nat),
        decreases k - p,
    {
        img.push(0);
        p += 1;
        assert(img@ =~= old(img)@ + zeros(p as nat));
    }
}

/// Dimension `i` of `act`, or 1 past its end, as a `u32`.
fn dim_or_one(act: &[usize], i: usize) -> (d: u32)
    ensures
        i < act@.len() ==> d == act@[i as int] as u32,
        i >= act@.len() ==> d == 1,
{
    if i < act.len() {
        #[verifier::truncate]
        let d = act[i] as u32;
        d
    } else {
        1
    }
}

/// Append `b` to `v`.
fn append_bytes(v: &mut Vec<u8>, b: &[u8])
    ensures
        final(v)@ == old(v)@ + b@,
{
    let mut i: usize = 0;
    while i < b.len()
        invariant
            i <= b@.len(),
            v@ == old(v)@ + b@.take(i as int),
        decreases b@.len() - i,
    {
        v.push(b[i]);
        i += 1;
        assert(v@ =~= old(v)@ + b@.take(i as int));
    }
    assert(b@.take(i as int) =~= b@);
}

} // verus!
