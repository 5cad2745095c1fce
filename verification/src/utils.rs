//! Self-contained components: the checksum hasher and the free-space bitmap.

use vstd::prelude::*;
use vstd::bytes::lemma_auto_spec_u64_to_from_le_bytes;
use vstd::bytes::spec_u64_from_le_bytes;
use vstd::bytes::spec_u64_to_le_bytes;
use vstd::bytes::u64_from_le_bytes;
use vstd::bytes::u64_to_le_bytes;
use vstd::slice::slice_subrange;

verus! {

/// Bits in one bitmap word.
pub const WORD_SIZE: u64 = 64;
/// Number of worker shards.
pub const NUM_THREAD: usize = 4;
/// Default blob capacity in clusters.
pub const BLOB_SIZE: u64 = 64;
/// Cluster size in pages.
pub const CLUSTER_SIZE_PAGES: u64 = 256;
/// Cluster size in io units.
pub const CLUSTER_SIZE: u64 = 256 * 8;
/// Capacity of one blob's allocation map, in pages.
pub const BLOB_PAGES: u64 = 2048;
/// Bytes per page: the unit of device I/O, allocation and checksumming.
pub const PAGE_SIZE: u64 = 4096;

/// Reserved name under whose checksum the global engine metadata is stored.
pub const MAGIC: &'static str = "MadEngine";

/// The CRC-32 (ISO-HDLC / IEEE 802.3) digest of a byte sequence.
pub uninterp spec fn crc32_of(data: Seq<u8>) -> u32;

/// CRC-32 checksum engine.
pub struct Hasher {}

impl Hasher {
    pub fn new() -> (h: Hasher) {
        Hasher {  }
    }

    /// Relies on crc::Crc::<u32>::checksum with the CRC_32_ISO_HDLC algorithm:
    /// the digest is a function of the input bytes alone.
    #[verifier::external_body]
    pub fn checksum(&self, data: &[u8]) -> (r: u32)
        ensures
            r == crc32_of(data@),
    {
        crc::Crc::<u32>::new(&crc::CRC_32_ISO_HDLC).checksum(data)
    }
}

/// Fixed-capacity bit vector; bit set means the page is in use.
#[derive(Debug)]
pub struct BitMap {
    count: u64,
    words: Vec<u64>,
}

proof fn lemma_word_split(w: int, c: int)
    by (nonlinear_arith)
    requires
        0 <= w,
        0 <= c < 64,
    ensures
        (w * 64 + c) / 64 == w,
        (w * 64 + c) % 64 == c,
{
}

proof fn lemma_index_in_words(i: int, count: u64)
    by (nonlinear_arith)
    requires
        0 <= i < count,
    ensures
        i / 64 < (count + 63) as int / 64,
{
}

proof fn lemma_word_of_index(i: int)
    by (nonlinear_arith)
    requires
        0 <= i,
    ensures
        i == (i / 64) * 64 + i % 64,
        0 <= i % 64 < 64,
        0 <= i / 64,
        i / 64 <= i,
{
}

impl Clone for BitMap {
    /// A clone carries the same capacity and the same bits.
    fn clone(&self) -> (r: Self)
        ensures
            r.wf() == self.wf(),
            r.bits_eq(self),
    {
        let mut words: Vec<u64> = Vec::new();
        let n = self.words.len();
        let mut k: usize = 0;
        while k < n
            invariant
                k <= n,
                n == self.words@.len(),
                words@.len() == k,
                forall|j: int| 0 <= j < k ==> words@[j] == self.words@[j],
            decreases n - k,
        {
            words.push(self.words[k]);
            k = k + 1;
        }
        assert(words@ =~= self.words@);
        BitMap { count: self.count, words }
    }
}

impl BitMap {
    /// Structural well-formedness: one word per 64 bits of capacity.
    pub closed spec fn wf(&self) -> bool {
        &&& self.count <= u64::MAX - 64
        &&& self.words@.len() == (self.count + 63) as int / 64
    }

    /// Capacity in bits.
    pub closed spec fn spec_size(&self) -> u64 {
        self.count
    }

    /// The value of bit `i`.
    pub closed spec fn bit(&self, i: int) -> bool
        recommends
            0 <= i < self.spec_size(),
    {
        (self.words@[i / 64] >> (i % 64) as u64) & 1 == 1
    }

    /// All bits equal between two maps of the same capacity.
    pub open spec fn bits_eq(&self, other: &BitMap) -> bool {
        &&& self.spec_size() == other.spec_size()
        &&& forall|i: int| 0 <= i < self.spec_size() ==> self.bit(i) == other.bit(i)
    }

    /// Create a bitmap with the given capacity, all bits clear.
    pub fn new(count: u64) -> (r: BitMap)
        requires
            count <= u64::MAX - 64,
        ensures
            r.wf(),
            r.spec_size() == count,
            forall|i: int| 0 <= i < count ==> !r.bit(i),
    {
        let word_count = (count + WORD_SIZE - 1) / WORD_SIZE;
        let mut words: Vec<u64> = Vec::new();
        let mut k: u64 = 0;
        while k < word_count
            invariant
                k <= word_count,
                words@.len() == k,
                forall|j: int| 0 <= j < k ==> words@[j] == 0u64,
            decreases word_count - k,
        {
            words.push(0);
            k = k + 1;
        }
        let r = BitMap { count, words };
        assert forall|i: int| 0 <= i < count implies !r.bit(i) by {
            lemma_word_of_index(i);
            let c = (i % 64) as u64;
            assert((0u64 >> c) & 1 == 0) by (bit_vector);
        }
        r
    }

    /// Create a bitmap with the given capacity, all bits set.
    ///
    /// Used when a worker registers a blob it does not own, so that only
    /// explicitly recycled pages of it are handed out again.
    pub fn new_set_ones(count: u64) -> (r: BitMap)
        requires
            count <= u64::MAX - 64,
        ensures
            r.wf(),
            r.spec_size() == count,
            forall|i: int| 0 <= i < count ==> r.bit(i),
    {
        let word_count = (count + WORD_SIZE - 1) / WORD_SIZE;
        let mut words: Vec<u64> = Vec::new();
        let mut k: u64 = 0;
        while k < word_count
            invariant
                k <= word_count,
                words@.len() == k,
                forall|j: int| 0 <= j < k ==> words@[j] == u64::MAX,
            decreases word_count - k,
        {
            words.push(u64::MAX);
            k = k + 1;
        }
        let r = BitMap { count, words };
        assert forall|i: int| 0 <= i < count implies r.bit(i) by {
            lemma_word_of_index(i);
            let c = (i % 64) as u64;
            assert(c < 64 ==> (u64::MAX >> c) & 1 == 1) by (bit_vector);
        }
        r
    }

    pub fn get_size(&self) -> (r: u64)
        ensures
            r == self.spec_size(),
    {
        self.count
    }

    /// Split an index into its word index and bit position within the word.
    fn parse_index(index: u64) -> (r: (u64, u64))
        ensures
            r.0 == index / 64,
            r.1 == index % 64,
            r.1 < 64,
    {
        let word_index = index / WORD_SIZE;
        let word_bit_index = index & (WORD_SIZE - 1);
        assert(index & 63 == index % 64) by (bit_vector);
        (word_index, word_bit_index)
    }

    /// Report whether bit `index` is set.
    pub fn get(&self, index: u64) -> (r: bool)
        requires
            self.wf(),
            index < self.spec_size(),
        ensures
            r == self.bit(index as int),
    {
        let (word_index, word_bit_index) = Self::parse_index(index);
        let n = self.words.len();
        proof {
            lemma_word_of_index(index as int);
            lemma_index_in_words(index as int, self.count);
        }
        assert(word_index < n as u64);
        let wd = self.words[word_index as usize];
        proof {
            let b = word_bit_index;
            assert((wd >> b) & 1 == 0 || (wd >> b) & 1 == 1) by (bit_vector);
        }
        if wd >> word_bit_index & 1 == 0 {
            return false;
        }
        true
    }

    /// Set bit `index`; all other bits keep their value.
    pub fn set(&mut self, index: u64) -> (r: bool)
        requires
            old(self).wf(),
            index < old(self).spec_size(),
        ensures
            final(self).wf(),
            final(self).spec_size() == old(self).spec_size(),
            forall|i: int|
                0 <= i < old(self).spec_size() ==> final(self).bit(i) == (old(self).bit(i) || i
                    == index as int),
            r == true,
    {
        let (word_index, word_bit_index) = Self::parse_index(index);
        let n = self.words.len();
        proof {
            lemma_word_of_index(index as int);
            lemma_index_in_words(index as int, self.count);
        }
        assert(word_index < n as u64);
        let wi = word_index as usize;
        let wd = self.words[wi];
        self.words[wi] = wd | (1u64 << word_bit_index);
        assert forall|i: int|
            0 <= i < old(self).spec_size() implies self.bit(i) == (old(self).bit(i) || i
            == index as int) by {
            lemma_word_of_index(i);
            let c = (i % 64) as u64;
            let b = word_bit_index;
            if i / 64 == word_index as int {
                assert(b < 64 && c < 64 ==> ((wd | (1u64 << b)) >> c) & 1 == (if b == c {
                    1u64
                } else {
                    (wd >> c) & 1
                })) by (bit_vector);
                if i != index as int {
                    assert(c != b) by {
                        lemma_word_of_index(index as int);
                    }
                }
            }
        }
        true
    }

    /// Clear bit `index`; all other bits keep their value.
    pub fn clear(&mut self, index: u64) -> (r: bool)
        requires
            old(self).wf(),
            index < old(self).spec_size(),
        ensures
            final(self).wf(),
            final(self).spec_size() == old(self).spec_size(),
            forall|i: int|
                0 <= i < old(self).spec_size() ==> final(self).bit(i) == (old(self).bit(i) && i
                    != index as int),
            r == true,
    {
        let (word_index, word_bit_index) = Self::parse_index(index);
        let n = self.words.len();
        proof {
            lemma_word_of_index(index as int);
            lemma_index_in_words(index as int, self.count);
        }
        assert(word_index < n as u64);
        let wi = word_index as usize;
        let wd = self.words[wi];
        self.words[wi] = wd & !(1u64 << word_bit_index);
        assert forall|i: int|
            0 <= i < old(self).spec_size() implies self.bit(i) == (old(self).bit(i) && i
            != index as int) by {
            lemma_word_of_index(i);
            let c = (i % 64) as u64;
            let b = word_bit_index;
            if i / 64 == word_index as int {
                assert(b < 64 && c < 64 ==> ((wd & !(1u64 << b)) >> c) & 1 == (if b == c {
                    0u64
                } else {
                    (wd >> c) & 1
                })) by (bit_vector);
                if i != index as int {
                    assert(c != b) by {
                        lemma_word_of_index(index as int);
                    }
                }
            }
        }
        true
    }

    /// Find the lowest clear bit, scanning less-significant bits first.
    pub fn find(&self) -> (r: Option<u64>)
        requires
            self.wf(),
        ensures
            match r {
                Some(idx) => {
                    &&& idx < self.spec_size()
                    &&& !self.bit(idx as int)
                    &&& forall|j: int| 0 <= j < idx ==> self.bit(j)
                },
                None => forall|j: int| 0 <= j < self.spec_size() ==> self.bit(j),
            },
    {
        let n = self.words.len();
        let mut wi: usize = 0;
        while wi < n
            invariant
                self.wf(),
                n == self.words@.len(),
                wi <= n,
                forall|j: int| 0 <= j < self.spec_size() && j / 64 < wi ==> self.bit(j),
            decreases n - wi,
        {
            let wd = self.words[wi];
            if wd != u64::MAX {
                let mut b: u64 = 0;
                let mut sh: u64 = wd;
                proof {
                    assert(wd >> 0u64 == wd) by (bit_vector);
                }
                while b < 64 && sh & 1 == 1
                    invariant
                        b <= 64,
                        b < 64 ==> sh == wd >> b,
                        forall|c: u64| c < b ==> (wd >> c) & 1 == 1,
                    decreases 64 - b,
                {
                    let bp = b + 1;
                    proof {
                        if b < 63 {
                            assert((wd >> b) >> 1 == wd >> bp) by (bit_vector)
                                requires
                                    b < 63,
                                    bp == b + 1,
                            ;
                        }
                    }
                    sh = sh >> 1;
                    b = bp;
                }
                if b < 64 {
                    // sh & 1 == 0, so bit b of this word is clear and it is the
                    // lowest clear bit overall.
                    let idx = wi as u64 * WORD_SIZE + b;
                    proof {
                        lemma_word_split(wi as int, b as int);
                        assert forall|j: int| 0 <= j < idx implies self.bit(j) by {
                            lemma_word_of_index(j);
                            if j / 64 == wi as int {
                                let c = (j % 64) as u64;
                                assert(c < b);
                            }
                        }
                    }
                    if idx < self.count {
                        proof {
                            lemma_word_split(wi as int, b as int);
                        }
                        return Some(idx);
                    } else {
                        // The lowest clear bit lies beyond the capacity, so no
                        // in-range bit is clear.
                        return None;
                    }
                }
                // b == 64: every bit of this word is set after all.
                assert forall|j: int|
                    0 <= j < self.spec_size() && j / 64 == wi as int implies self.bit(j) by {
                    lemma_word_of_index(j);
                    let c = (j % 64) as u64;
                    assert(c < 64);
                }
            } else {
                assert forall|j: int|
                    0 <= j < self.spec_size() && j / 64 == wi as int implies self.bit(j) by {
                    lemma_word_of_index(j);
                    let c = (j % 64) as u64;
                    assert(c < 64 ==> (u64::MAX >> c) & 1 == 1) by (bit_vector);
                }
            }
            wi = wi + 1;
        }
        proof {
            assert forall|j: int| 0 <= j < self.spec_size() implies self.bit(j) by {
                lemma_word_of_index(j);
                assert(j / 64 < self.words@.len()) by {
                    assert(j < self.count);
                    assert(j / 64 < (self.count + 63) as int / 64) by (nonlinear_arith)
                        requires
                            0 <= j < self.count,
                    ;
                }
            }
        }
        None
    }
}

/// The decimal digits of `n`, as ASCII bytes, most significant first.
pub open spec fn dec_digits(n: nat) -> Seq<u8>
    decreases n,
{
    if n < 10 {
        seq![(48 + n) as u8]
    } else {
        dec_digits(n / 10) + seq![(48 + n % 10) as u8]
    }
}

/// Write `x` in decimal ASCII.
pub fn u32_to_dec(x: u32) -> (r: Vec<u8>)
    ensures
        r@ == dec_digits(x as nat),
{
    if x == 0 {
        let mut r: Vec<u8> = Vec::new();
        r.push(48);
        assert(r@ =~= dec_digits(0));
        return r;
    }
    let mut tmp: Vec<u8> = Vec::new();
    let mut v: u32 = x;
    while v > 0
        invariant
            v > 0 ==> dec_digits(x as nat) == dec_digits(v as nat) + Seq::new(
                tmp@.len(),
                |j: int| tmp@[tmp@.len() - 1 - j],
            ),
            v == 0 ==> dec_digits(x as nat) == Seq::new(
                tmp@.len(),
                |j: int| tmp@[tmp@.len() - 1 - j],
            ),
        decreases v,
    {
        let ghost tprev = tmp@;
        let ghost vprev = v;
        let d: u8 = 48 + (v % 10) as u8;
        tmp.push(d);
        v = v / 10;
        proof {
            let revp = Seq::new(tprev.len(), |j: int| tprev[tprev.len() - 1 - j]);
            let revn = Seq::new(tmp@.len(), |j: int| tmp@[tmp@.len() - 1 - j]);
            assert(revn =~= seq![d] + revp);
            if vprev < 10 {
                assert(dec_digits(vprev as nat) == seq![(48 + vprev as nat) as u8]);
                assert(vprev as nat % 10 == vprev as nat);
                assert(dec_digits(vprev as nat) =~= seq![d]);
                assert(dec_digits(x as nat) =~= revn);
            } else {
                assert(dec_digits(vprev as nat) == dec_digits(vprev as nat / 10) + seq![
                    (48 + vprev as nat % 10) as u8
                ]);
                assert(seq![(48 + vprev as nat % 10) as u8] =~= seq![d]);
                assert(dec_digits(vprev as nat) + revp =~= dec_digits(v as nat) + revn);
                assert(dec_digits(x as nat) == dec_digits(v as nat) + revn);
            }
        }
    }
    let n = tmp.len();
    let mut r: Vec<u8> = Vec::new();
    let mut i: usize = 0;
    while i < n
        invariant
            i <= n,
            n == tmp@.len(),
            r@.len() == i,
            forall|j: int| 0 <= j < i ==> r@[j] == tmp@[n - 1 - j],
        decreases n - i,
    {
        r.push(tmp[n - 1 - i]);
        i = i + 1;
    }
    proof {
        assert(r@ =~= Seq::new(tmp@.len(), |j: int| tmp@[tmp@.len() - 1 - j]));
    }
    r
}

/// The bit vector that one 256-byte bitmap segment encodes: bit `i` is
/// bit `i % 64` of the little-endian word stored at byte `8 * (i / 64)`.
pub open spec fn bits_of_enc(seg: Seq<u8>) -> Seq<bool> {
    Seq::new(
        BLOB_PAGES as nat,
        |i: int|
            (spec_u64_from_le_bytes(seg.subrange((i / 64) * 8, (i / 64) * 8 + 8)) >> ((i
                % 64) as u64)) & 1 == 1,
    )
}

impl View for BitMap {
    type V = Seq<bool>;

    open spec fn view(&self) -> Seq<bool> {
        Seq::new(self.spec_size() as nat, |i: int| self.bit(i))
    }
}

impl BitMap {
    /// Append the 256-byte encoding of a blob-capacity bitmap.
    pub fn encode_into(&self, out: &mut Vec<u8>)
        requires
            self.wf(),
            self.spec_size() == BLOB_PAGES,
        ensures
            final(out)@.len() == old(out)@.len() + 256,
            final(out)@.subrange(0, old(out)@.len() as int) == old(out)@,
            bits_of_enc(
                final(out)@.subrange(old(out)@.len() as int, final(out)@.len() as int),
            ) == self@,
    {
        let ghost orig = out@;
        let n = self.words.len();
        assert(n == 32);
        let mut w: usize = 0;
        while w < 32
            invariant
                w <= 32,
                self.wf(),
                self.spec_size() == BLOB_PAGES,
                self.words@.len() == 32,
                out@.len() == orig.len() + 8 * w,
                out@.subrange(0, orig.len() as int) == orig,
                forall|k: int|
                    0 <= k < w ==> out@.subrange(
                        orig.len() + 8 * k,
                        orig.len() + 8 * k + 8,
                    ) == spec_u64_to_le_bytes(self.words@[k]),
            decreases 32 - w,
        {
            let ghost prev = out@;
            let mut b = u64_to_le_bytes(self.words[w]);
            out.append(&mut b);
            proof {
                assert(out@.subrange(0, orig.len() as int) =~= orig);
                assert forall|k: int| 0 <= k < w + 1 implies out@.subrange(
                    orig.len() + 8 * k,
                    orig.len() + 8 * k + 8,
                ) == spec_u64_to_le_bytes(self.words@[k]) by {
                    if k < w {
                        assert(out@.subrange(orig.len() + 8 * k, orig.len() + 8 * k + 8)
                            =~= prev.subrange(orig.len() + 8 * k, orig.len() + 8 * k + 8));
                    } else {
                        assert(out@.subrange(orig.len() + 8 * k, orig.len() + 8 * k + 8)
                            =~= spec_u64_to_le_bytes(self.words@[k]));
                    }
                }
            }
            w = w + 1;
        }
        proof {
            lemma_auto_spec_u64_to_from_le_bytes();
            let seg = out@.subrange(orig.len() as int, out@.len() as int);
            assert forall|i: int| 0 <= i < BLOB_PAGES implies bits_of_enc(seg)[i]
                == self@[i] by {
                lemma_word_of_index(i);
                let wdi = i / 64;
                assert(seg.subrange(wdi * 8, wdi * 8 + 8) =~= out@.subrange(
                    orig.len() + 8 * wdi,
                    orig.len() + 8 * wdi + 8,
                ));
                assert(spec_u64_from_le_bytes(spec_u64_to_le_bytes(self.words@[wdi]))
                    == self.words@[wdi]);
            }
            assert(bits_of_enc(seg) =~= self@);
        }
    }

    /// Rebuild a blob-capacity bitmap from its 256-byte encoding.
    pub fn decode_from(bytes: &Vec<u8>, at: usize) -> (r: BitMap)
        requires
            at + 256 <= bytes@.len(),
        ensures
            r.wf(),
            r.spec_size() == BLOB_PAGES,
            r@ == bits_of_enc(bytes@.subrange(at as int, at as int + 256)),
    {
        let mut words: Vec<u64> = Vec::new();
        let blen = bytes.len();
        let mut w: usize = 0;
        while w < 32
            invariant
                w <= 32,
                at + 256 <= blen,
                blen == bytes@.len(),
                words@.len() == w,
                forall|k: int|
                    0 <= k < w ==> words@[k] == spec_u64_from_le_bytes(
                        bytes@.subrange(at + 8 * k, at + 8 * k + 8),
                    ),
            decreases 32 - w,
        {
            let sl = slice_subrange(bytes.as_slice(), at + 8 * w, at + 8 * w + 8);
            words.push(u64_from_le_bytes(sl));
            w = w + 1;
        }
        let r = BitMap { count: BLOB_PAGES, words };
        proof {
            let seg = bytes@.subrange(at as int, at as int + 256);
            assert forall|i: int| 0 <= i < BLOB_PAGES implies r@[i] == bits_of_enc(seg)[i] by {
                lemma_word_of_index(i);
                let wdi = i / 64;
                assert(seg.subrange(wdi * 8, wdi * 8 + 8) =~= bytes@.subrange(
                    at + 8 * wdi,
                    at + 8 * wdi + 8,
                ));
            }
            assert(r@ =~= bits_of_enc(seg));
        }
        r
    }
}

/// Law: a clear bit reported by the scan is genuinely clear, and once that
/// bit has been set, a later scan can only report a different index.
pub proof fn lemma_find_is_fresh(bm: &BitMap, bm2: &BitMap, i: u64, j: u64)
    requires
        bm.wf(),
        bm2.wf(),
        // i characterizes a result of bm.find()
        i < bm.spec_size(),
        !bm.bit(i as int),
        // bm2 is bm with bit i set
        bm2.spec_size() == bm.spec_size(),
        forall|k: int|
            0 <= k < bm.spec_size() ==> bm2.bit(k) == (bm.bit(k) || k == i as int),
        // j characterizes a result of bm2.find()
        j < bm2.spec_size(),
        !bm2.bit(j as int),
    ensures
        j != i,
{
    assert(bm2.bit(i as int));
}

} // verus!
