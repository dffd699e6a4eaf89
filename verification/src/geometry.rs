//! Per-segment geometry weights: bit-packed unsigned integers, 22 bits per
//! element, stored in 64-bit words with elements crossing word boundaries,
//! plus the index that groups them into geometries.

use byteorder::ByteOrder;
use byteorder::LittleEndian;

use vstd::prelude::*;

verus! {

/// The bit at stream position `j` of a word array, least significant bit
/// first within each word.
pub open spec fn word_stream_bit(data: Seq<u64>, j: int) -> bool {
    (data[j / 64] >> ((j % 64) as u64)) & 1 == 1
}

/// A vector of 22-bit unsigned elements packed back to back into 64-bit
/// words.
pub struct PackedVector {
    data: Vec<u64>,
    element_count: usize,
}

/// Relies on byteorder::LittleEndian::read_u64: reads the eight bytes at
/// `offset`, least significant first.
#[verifier::external_body]
fn read_word_le(bytes: &Vec<u8>, offset: usize) -> (r: u64)
    requires
        offset + 8 <= bytes@.len(),
    ensures
        r == (bytes@[offset as int] as u64) | ((bytes@[offset as int + 1] as u64) << 8u64) | ((
        bytes@[offset as int + 2] as u64) << 16u64) | ((bytes@[offset as int + 3] as u64)
            << 24u64) | ((bytes@[offset as int + 4] as u64) << 32u64) | ((bytes@[offset as int
            + 5] as u64) << 40u64) | ((bytes@[offset as int + 6] as u64) << 48u64) | ((bytes@[
        offset as int + 7] as u64) << 56u64),
{
    LittleEndian::read_u64(&bytes[offset..offset + 8])
}

impl PackedVector {
    /// Number of elements.
    pub closed spec fn len_spec(self) -> int {
        self.element_count as int
    }

    /// Number of backing words.
    pub closed spec fn word_count(self) -> int {
        self.data@.len() as int
    }

    /// The backing word at index `w`.
    pub closed spec fn word_at(self, w: int) -> u64 {
        self.data@[w]
    }

    /// The bit at stream position `j`.
    pub closed spec fn bit_at(self, j: int) -> bool {
        word_stream_bit(self.data@, j)
    }

    /// Element `i`, read as the 22 bits starting at stream position
    /// `22 * i`.
    pub closed spec fn element_at(self, i: int) -> u64 {
        let w = 22 * i / 64;
        let lo = 22 * i % 64;
        if lo + 22 <= 64 {
            (self.data@[w] >> (lo as u64)) & 0x3F_FFFF
        } else {
            (self.data@[w] >> (lo as u64)) | ((self.data@[w + 1] & ((((1u64 << ((lo + 22 - 64) as u64))
                - 1)) as u64)) << ((64 - lo) as u64))
        }
    }

    /// The elements fit the backing words, and the word count is small
    /// enough for index arithmetic.
    pub closed spec fn wf(self) -> bool {
        &&& self.element_count * 22 <= self.data@.len() * 64
        &&& self.data@.len() * 64 <= usize::MAX
    }

    /// Packs `element_count` elements over the stored bytes, eight bytes
    /// per word, least significant byte first.  Returns `None` exactly when
    /// the bytes do not form whole words, cannot hold that many elements,
    /// or exceed what the address space can index.
    pub fn new(bytes: Vec<u8>, element_count: usize) -> (r: Option<PackedVector>)
        ensures
            match r {
                Some(pv) => {
                    &&& pv.wf()
                    &&& pv.len_spec() == element_count
                    &&& bytes@.len() % 8 == 0
                    &&& element_count * 22 <= bytes@.len() * 8
                    &&& pv.word_count() == bytes@.len() / 8
                    &&& (forall|w: int|
                        0 <= w < pv.word_count() ==> #[trigger] pv.word_at(w) == (bytes@[8 * w] as u64)
                            | ((bytes@[8 * w + 1] as u64) << 8u64) | ((bytes@[8 * w + 2] as u64)
                            << 16u64) | ((bytes@[8 * w + 3] as u64) << 24u64) | ((bytes@[8 * w
                            + 4] as u64) << 32u64) | ((bytes@[8 * w + 5] as u64) << 40u64) | ((
                        bytes@[8 * w + 6] as u64) << 48u64) | ((bytes@[8 * w + 7] as u64)
                            << 56u64))
                },
                None => bytes@.len() % 8 != 0 || element_count * 22 > bytes@.len() * 8 || bytes@.len()
                    * 8 > usize::MAX,
            },
    {
        if bytes.len() > usize::MAX / 8 {
            proof {
                assert(bytes@.len() * 8 > usize::MAX) by (nonlinear_arith)
                    requires
                        bytes@.len() > usize::MAX / 8,
                ;
            }
            return None;
        }
        if bytes.len() % 8 != 0 {
            return None;
        }
        if element_count > bytes.len() * 8 / 22 {
            proof {
                assert(element_count * 22 > bytes@.len() * 8) by (nonlinear_arith)
                    requires
                        element_count > bytes@.len() * 8 / 22,
                ;
            }
            return None;
        }
        proof {
            assert(element_count * 22 <= bytes@.len() * 8) by (nonlinear_arith)
                requires
                    element_count <= bytes@.len() * 8 / 22,
            ;
        }
        let word_count = bytes.len() / 8;
        let mut data: Vec<u64> = Vec::new();
        for w in 0..word_count
            invariant
                word_count == bytes@.len() / 8,
                bytes@.len() % 8 == 0,
                bytes@.len() <= usize::MAX / 8,
                data@.len() == w,
                forall|ww: int|
                    0 <= ww < w ==> #[trigger] data@[ww] == (bytes@[8 * ww] as u64) | ((bytes@[8
                        * ww + 1] as u64) << 8u64) | ((bytes@[8 * ww + 2] as u64) << 16u64) | ((
                    bytes@[8 * ww + 3] as u64) << 24u64) | ((bytes@[8 * ww + 4] as u64) << 32u64)
                        | ((bytes@[8 * ww + 5] as u64) << 40u64) | ((bytes@[8 * ww + 6] as u64)
                        << 48u64) | ((bytes@[8 * ww + 7] as u64) << 56u64),
        {
            proof {
                assert(8 * w + 8 <= bytes@.len()) by (nonlinear_arith)
                    requires
                        w < bytes@.len() / 8,
                        bytes@.len() % 8 == 0,
                ;
            }
            let word = read_word_le(&bytes, 8 * w);
            data.push(word);
        }
        proof {
            assert(bytes@.len() == 8 * (bytes@.len() / 8)) by (nonlinear_arith)
                requires
                    bytes@.len() % 8 == 0,
            ;
            assert(element_count * 22 <= (bytes@.len() / 8) * 64) by (nonlinear_arith)
                requires
                    element_count * 22 <= bytes@.len() * 8,
                    bytes@.len() == 8 * (bytes@.len() / 8),
            ;
            assert((bytes@.len() / 8) * 64 <= usize::MAX) by (nonlinear_arith)
                requires
                    bytes@.len() <= usize::MAX / 8,
                    bytes@.len() == 8 * (bytes@.len() / 8),
            ;
        }
        Some(PackedVector { data, element_count })
    }

    /// Number of packed elements.
    pub fn len(&self) -> (r: usize)
        ensures
            r == self.len_spec(),
    {
        self.element_count
    }

    /// Element `idx`: the 22 bits at stream positions `22 * idx` up to but
    /// not including `22 * (idx + 1)`, least significant first.
    pub fn get(&self, idx: usize) -> (r: u64)
        requires
            self.wf(),
            idx < self.len_spec(),
        ensures
            r == self.element_at(idx as int),
            r < 0x40_0000,
            forall|b: int|
                0 <= b < 22 ==> (((r >> (b as u64)) & 1) == 1) == #[trigger] self.bit_at(
                    22 * idx + b,
                ),
    {
        proof {
            assert(22 * idx + 22 <= self.data@.len() * 64) by (nonlinear_arith)
                requires
                    idx < self.element_count,
                    self.element_count * 22 <= self.data@.len() * 64,
            ;
            assert(idx * 22 <= usize::MAX) by (nonlinear_arith)
                requires
                    22 * idx + 22 <= self.data@.len() * 64,
                    self.data@.len() * 64 <= usize::MAX,
            ;
        }
        let bit_pos = idx * 22;
        let word_idx = bit_pos / 64;
        let lower = bit_pos % 64;
        proof {
            assert(64 * (word_idx as int) + (lower as int) == 22 * idx);
            assert(word_idx as int == 22 * (idx as int) / 64 && lower as int == 22 * (idx as int)
                % 64);
            assert((word_idx as int) < self.data@.len()) by (nonlinear_arith)
                requires
                    64 * (word_idx as int) + (lower as int) == 22 * idx,
                    0 <= lower < 64,
                    22 * idx + 22 <= self.data@.len() * 64,
            ;
        }
        if lower + 22 <= 64 {
            let x = self.data[word_idx];
            let r = (x >> (lower as u64)) & 0x3F_FFFF;
            proof {
                let lo = lower as u64;
                assert(r < 0x40_0000) by (bit_vector)
                    requires
                        r == (x >> lo) & 0x3F_FFFF,
                ;
                assert forall|b: int|
                    0 <= b < 22 implies (((r >> (b as u64)) & 1) == 1) == #[trigger] self.bit_at(
                    22 * idx + b,
                ) by {
                    let bu = b as u64;
                    let j = 22 * (idx as int) + b;
                    assert(j / 64 == word_idx as int && j % 64 == lower as int + b)
                        by (nonlinear_arith)
                        requires
                            64 * (word_idx as int) + (lower as int) == 22 * idx,
                            0 <= lower as int,
                            (lower as int) + 22 <= 64,
                            0 <= b < 22,
                            j == 22 * (idx as int) + b,
                    ;
                    assert((((r >> bu) & 1) == 1) == (((x >> (lo + bu)) & 1) == 1)) by (bit_vector)
                        requires
                            r == (x >> lo) & 0x3F_FFFF,
                            lo <= 42,
                            bu < 22,
                    ;
                }
            }
            r
        } else {
            proof {
                assert((word_idx as int) + 1 < self.data@.len()) by (nonlinear_arith)
                    requires
                        64 * (word_idx as int) + (lower as int) == 22 * idx,
                        0 <= lower < 64,
                        (lower as int) + 22 > 64,
                        22 * idx + 22 <= self.data@.len() * 64,
                ;
            }
            let x = self.data[word_idx];
            let y = self.data[word_idx + 1];
            let high_count = lower + 22 - 64;
            let low = x >> (lower as u64);
            proof {
                let hc = high_count as u64;
                assert((1u64 << hc) >= 1) by (bit_vector)
                    requires
                        hc <= 21,
                ;
            }
            let mask = (1u64 << (high_count as u64)) - 1;
            let high = y & mask;
            let r = low | (high << ((64 - lower) as u64));
            proof {
                let lo = lower as u64;
                let hc = high_count as u64;
                let m = mask;
                assert(r < 0x40_0000) by (bit_vector)
                    requires
                        r == (x >> lo) | ((y & m) << ((64 - lo) as u64)),
                        m == (1u64 << hc) - 1,
                        43 <= lo <= 63,
                        hc == lo + 22 - 64,
                ;
                assert forall|b: int|
                    0 <= b < 22 implies (((r >> (b as u64)) & 1) == 1) == #[trigger] self.bit_at(
                    22 * idx + b,
                ) by {
                    let bu = b as u64;
                    let j = 22 * (idx as int) + b;
                    if b < 64 - lower as int {
                        assert(j / 64 == word_idx as int && j % 64 == lower as int + b)
                            by (nonlinear_arith)
                            requires
                                64 * (word_idx as int) + (lower as int) == 22 * idx,
                                0 <= lower as int <= 63,
                                0 <= b,
                                (lower as int) + b < 64,
                                j == 22 * (idx as int) + b,
                        ;
                        assert((((r >> bu) & 1) == 1) == (((x >> (lo + bu)) & 1) == 1))
                            by (bit_vector)
                            requires
                                r == (x >> lo) | ((y & m) << ((64 - lo) as u64)),
                                m == (1u64 << hc) - 1,
                                43 <= lo <= 63,
                                hc == lo + 22 - 64,
                                bu < 64 - lo,
                        ;
                    } else {
                        assert(j / 64 == word_idx as int + 1 && j % 64 == lower as int + b - 64)
                            by (nonlinear_arith)
                            requires
                                64 * (word_idx as int) + (lower as int) == 22 * idx,
                                0 <= lower as int <= 63,
                                b < 22,
                                64 <= (lower as int) + b,
                                j == 22 * (idx as int) + b,
                        ;
                        assert((((r >> bu) & 1) == 1) == (((y >> ((lo + bu - 64) as u64)) & 1) == 1))
                            by (bit_vector)
                            requires
                                r == (x >> lo) | ((y & m) << ((64 - lo) as u64)),
                                m == (1u64 << hc) - 1,
                                43 <= lo <= 63,
                                hc == lo + 22 - 64,
                                64 - lo <= bu < 22,
                        ;
                    }
                }
            }
            r
        }
    }
}

/// A geometry's forward and reverse per-segment weights, grouped by an
/// offset index: geometry `id` owns packed elements
/// `index[id] .. index[id + 1]` of each weight vector.
pub struct Geometry {
    index: Vec<u32>,
    forward_weights: PackedVector,
    reverse_weights: PackedVector,
}

impl Geometry {
    /// The offset of geometry `id`.
    pub closed spec fn offset(self, id: int) -> int {
        self.index@[id] as int
    }

    /// Number of geometries.
    pub closed spec fn geometry_count(self) -> int {
        self.index@.len() - 1
    }

    /// The packed forward weight vector.
    pub closed spec fn forward_spec(self) -> PackedVector {
        self.forward_weights
    }

    /// The packed reverse weight vector.
    pub closed spec fn reverse_spec(self) -> PackedVector {
        self.reverse_weights
    }

    /// Offsets are monotone and stay inside both weight vectors.
    pub closed spec fn wf(self) -> bool {
        &&& self.index@.len() >= 1
        &&& (forall|k: int|
            0 <= k < self.index@.len() - 1 ==> #[trigger] self.index@[k] <= self.index@[k + 1])
        &&& (forall|k: int|
            0 <= k < self.index@.len() ==> #[trigger] self.index@[k] as int
                <= self.forward_weights.len_spec())
        &&& (forall|k: int|
            0 <= k < self.index@.len() ==> #[trigger] self.index@[k] as int
                <= self.reverse_weights.len_spec())
        &&& self.forward_weights.wf()
        &&& self.reverse_weights.wf()
    }

    /// Assembles a geometry store, validating that the offsets are monotone
    /// and stay inside both weight vectors.
    pub fn new(index: Vec<u32>, forward_weights: PackedVector, reverse_weights: PackedVector) -> (r:
        Option<Geometry>)
        requires
            forward_weights.wf(),
            reverse_weights.wf(),
        ensures
            match r {
                Some(geom) => {
                    &&& geom.wf()
                    &&& geom.geometry_count() == index@.len() - 1
                    &&& (forall|k: int|
                        0 <= k < index@.len() ==> #[trigger] geom.offset(k) == index@[k] as int)
                    &&& geom.forward_spec() == forward_weights
                    &&& geom.reverse_spec() == reverse_weights
                },
                None => true,
            },
    {
        if index.len() == 0 {
            return None;
        }
        let fw_len = forward_weights.len();
        let rw_len = reverse_weights.len();
        let n = index.len();
        for k in 0..n
            invariant
                n == index@.len(),
                fw_len == forward_weights.len_spec(),
                rw_len == reverse_weights.len_spec(),
                forall|kk: int|
                    0 <= kk < k ==> #[trigger] index@[kk] as int <= fw_len as int && index@[kk] as int
                        <= rw_len as int,
                forall|kk: int|
                    0 <= kk < k - 1 ==> #[trigger] index@[kk] <= index@[kk + 1],
        {
            if index[k] as usize > fw_len || index[k] as usize > rw_len {
                return None;
            }
            if k > 0 && index[k - 1] > index[k] {
                return None;
            }
        }
        Some(Geometry { index, forward_weights, reverse_weights })
    }

    /// The forward weights of geometry `geometry_id`, in segment order.
    pub fn forward_weights(&self, geometry_id: u32) -> (r: Vec<u32>)
        requires
            self.wf(),
            geometry_id as int + 1 <= self.geometry_count(),
        ensures
            r@.len() == self.offset(geometry_id as int + 1) - self.offset(geometry_id as int),
            forall|k: int|
                0 <= k < r@.len() ==> (#[trigger] r@[k]) as u64 == self.forward_spec().element_at(
                    self.offset(geometry_id as int) + k,
                ),
    {
        let n = self.index.len();
        assert(geometry_id as int + 1 < n as int);
        let start = self.index[geometry_id as usize] as usize;
        let end = self.index[geometry_id as usize + 1] as usize;
        let mut r: Vec<u32> = Vec::new();
        for idx in start..end
            invariant
                self.wf(),
                start == self.offset(geometry_id as int),
                end == self.offset(geometry_id as int + 1),
                start <= idx <= end,
                end as int <= self.forward_spec().len_spec(),
                r@.len() == idx - start,
                forall|k: int|
                    0 <= k < r@.len() ==> (#[trigger] r@[k]) as u64
                        == self.forward_spec().element_at(start + k),
        {
            let value = self.forward_weights.get(idx);
            r.push(value as u32);
        }
        r
    }

    /// The reverse weights of geometry `geometry_id`, in segment order.
    pub fn reverse_weights(&self, geometry_id: u32) -> (r: Vec<u32>)
        requires
            self.wf(),
            geometry_id as int + 1 <= self.geometry_count(),
        ensures
            r@.len() == self.offset(geometry_id as int + 1) - self.offset(geometry_id as int),
            forall|k: int|
                0 <= k < r@.len() ==> (#[trigger] r@[k]) as u64 == self.reverse_spec().element_at(
                    self.offset(geometry_id as int) + k,
                ),
    {
        let n = self.index.len();
        assert(geometry_id as int + 1 < n as int);
        let start = self.index[geometry_id as usize] as usize;
        let end = self.index[geometry_id as usize + 1] as usize;
        let mut r: Vec<u32> = Vec::new();
        for idx in start..end
            invariant
                self.wf(),
                start == self.offset(geometry_id as int),
                end == self.offset(geometry_id as int + 1),
                start <= idx <= end,
                end as int <= self.reverse_spec().len_spec(),
                r@.len() == idx - start,
                forall|k: int|
                    0 <= k < r@.len() ==> (#[trigger] r@[k]) as u64
                        == self.reverse_spec().element_at(start + k),
        {
            let value = self.reverse_weights.get(idx);
            r.push(value as u32);
        }
        r
    }
}

} // verus!
