//! The metadata key-value store: atomic put/get/delete of byte keys to
//! byte values, modelled as a map from key bytes to value bytes.

use vstd::prelude::*;
use vstd::bytes::spec_u64_from_le_bytes;
use vstd::bytes::spec_u64_to_le_bytes;
use vstd::bytes::u64_from_le_bytes;
use vstd::bytes::u64_to_le_bytes;
use vstd::slice::slice_subrange;
use vstd::slice::slice_to_vec;

verus! {

/// Key-value store for metadata rows.
#[derive(Debug)]
pub struct DbEngine {
    keys: Vec<Vec<u8>>,
    vals: Vec<Vec<u8>>,
}

impl View for DbEngine {
    type V = Map<Seq<u8>, Seq<u8>>;

    closed spec fn view(&self) -> Map<Seq<u8>, Seq<u8>> {
        Map::new(|k: Seq<u8>| self.spec_contains(k), |k: Seq<u8>| self.vals@[self.key_index(k)]@)
    }
}

impl DbEngine {
    /// One row per distinct key.
    pub closed spec fn wf(self) -> bool {
        &&& self.keys@.len() == self.vals@.len()
        &&& forall|i: int, j: int|
            0 <= i < j < self.keys@.len() ==> (#[trigger] self.keys@[i])@ != (
            #[trigger] self.keys@[j])@
    }

    spec fn spec_contains(self, k: Seq<u8>) -> bool {
        exists|i: int| 0 <= i < self.keys@.len() && (#[trigger] self.keys@[i])@ == k
    }

    spec fn key_index(self, k: Seq<u8>) -> int {
        choose|i: int| 0 <= i < self.keys@.len() && (#[trigger] self.keys@[i])@ == k
    }

    /// Number of rows.
    pub closed spec fn spec_row_count(self) -> nat {
        self.keys@.len()
    }

    /// The key of row `i`.
    pub closed spec fn spec_key(self, i: int) -> Seq<u8> {
        self.keys@[i]@
    }

    /// The rows are exactly the keys of the map, one row per key.
    pub proof fn lemma_keys_cover(self)
        requires
            self.wf(),
        ensures
            forall|k: Seq<u8>|
                self@.contains_key(k) <==> exists|i: int|
                    0 <= i < self.spec_row_count() && self.spec_key(i) == k,
            forall|i: int, j: int|
                0 <= i < j < self.spec_row_count() ==> self.spec_key(i) != self.spec_key(j),
            forall|i: int|
                0 <= i < self.spec_row_count() ==> self@.contains_key(#[trigger] self.spec_key(i)),
    {
        assert forall|k: Seq<u8>| self@.contains_key(k) implies exists|i: int|
            0 <= i < self.spec_row_count() && self.spec_key(i) == k by {
            let i = choose|i: int|
                0 <= i < self.keys@.len() && (#[trigger] self.keys@[i])@ == k;
            assert(self.spec_key(i) == k);
        }
        assert forall|i: int| 0 <= i < self.spec_row_count() implies self@.contains_key(
            #[trigger] self.spec_key(i),
        ) by {
            assert((self.keys@[i])@ == self.spec_key(i));
        }
    }

    /// An empty store.
    pub fn new() -> (r: DbEngine)
        ensures
            r.wf(),
            r@ == Map::<Seq<u8>, Seq<u8>>::empty(),
            r.spec_row_count() == 0,
    {
        let r = DbEngine { keys: Vec::new(), vals: Vec::new() };
        proof {
            assert(r@ =~= Map::<Seq<u8>, Seq<u8>>::empty());
        }
        r
    }

    fn find(&self, key: &Vec<u8>) -> (r: Option<usize>)
        requires
            self.wf(),
        ensures
            match r {
                Some(i) => i < self.keys@.len() && (self.keys@[i as int])@ == key@,
                None => forall|i: int|
                    0 <= i < self.keys@.len() ==> (#[trigger] self.keys@[i])@ != key@,
            },
    {
        let n = self.keys.len();
        let mut i: usize = 0;
        while i < n
            invariant
                i <= n,
                n == self.keys@.len(),
                forall|j: int| 0 <= j < i ==> (#[trigger] self.keys@[j])@ != key@,
            decreases n - i,
        {
            if self.keys[i] == *key {
                return Some(i);
            }
            i = i + 1;
        }
        None
    }

    /// Store `value` under `key`, replacing any earlier row.
    pub fn put(&mut self, key: Vec<u8>, value: Vec<u8>)
        requires
            old(self).wf(),
        ensures
            final(self).wf(),
            final(self)@ == old(self)@.insert(key@, value@),
    {
        let found = self.find(&key);
        match found {
            Some(i) => {
                self.vals[i] = value;
                proof {
                    let ghost os = *old(self);
                    assert forall|k: Seq<u8>| true implies #[trigger] self@.contains_key(k)
                        == os@.insert(key@, value@).contains_key(k) by {
                        if self.spec_contains(k) {
                            let w = choose|x: int|
                                0 <= x < self.keys@.len() && (#[trigger] self.keys@[x])@ == k;
                            assert(os.keys@[w]@ == k);
                        }
                        if os.spec_contains(k) {
                            let w = choose|x: int|
                                0 <= x < os.keys@.len() && (#[trigger] os.keys@[x])@ == k;
                            assert(self.keys@[w]@ == k);
                        }
                    }
                    assert forall|k: Seq<u8>| self@.contains_key(k) implies self@[k] == os@.insert(
                        key@,
                        value@,
                    )[k] by {
                        let w = self.key_index(k);
                        assert(self.keys@[w]@ == k);
                        if k == key@ {
                            assert(w == i) by {
                                if w != i {
                                    assert(os.keys@[w]@ != os.keys@[i as int]@);
                                }
                            }
                        } else {
                            assert(w != i);
                            let wo = os.key_index(k);
                            assert(os.keys@[wo]@ == k);
                            assert(wo == w) by {
                                if wo != w {
                                    assert(os.keys@[wo]@ != os.keys@[w]@);
                                }
                            }
                        }
                    }
                    assert(self@ =~= os@.insert(key@, value@));
                }
            },
            None => {
                let ghost os = *self;
                self.keys.push(key);
                self.vals.push(value);
                proof {
                    let n = os.keys@.len();
                    assert forall|k: Seq<u8>| true implies #[trigger] self@.contains_key(k)
                        == os@.insert(self.keys@[n as int]@, value@).contains_key(k) by {
                        if self.spec_contains(k) {
                            let w = choose|x: int|
                                0 <= x < self.keys@.len() && (#[trigger] self.keys@[x])@ == k;
                            if w < n {
                                assert(os.keys@[w]@ == k);
                            }
                        }
                        if os.spec_contains(k) {
                            let w = choose|x: int|
                                0 <= x < os.keys@.len() && (#[trigger] os.keys@[x])@ == k;
                            assert(self.keys@[w]@ == k);
                        }
                    }
                    assert forall|k: Seq<u8>| self@.contains_key(k) implies self@[k] == os@.insert(
                        self.keys@[n as int]@,
                        value@,
                    )[k] by {
                        let w = self.key_index(k);
                        assert(self.keys@[w]@ == k);
                        if k == self.keys@[n as int]@ {
                            assert(w == n) by {
                                if w != n {
                                    assert(os.keys@[w]@ != k);
                                    assert(forall|x: int|
                                        0 <= x < n ==> (#[trigger] os.keys@[x])@ != k);
                                }
                            }
                        } else {
                            assert(w != n);
                            let wo = os.key_index(k);
                            assert(os.keys@[wo]@ == k);
                            assert(wo == w) by {
                                if wo != w {
                                    assert(os.keys@[wo]@ != os.keys@[w]@);
                                }
                            }
                        }
                    }
                    assert(self@ =~= os@.insert(self.keys@[n as int]@, value@));
                }
            },
        }
    }

    /// Fetch the value stored under `key`, if any.
    pub fn get(&self, key: &Vec<u8>) -> (r: Option<Vec<u8>>)
        requires
            self.wf(),
        ensures
            match r {
                Some(v) => self@.contains_key(key@) && v@ == self@[key@],
                None => !self@.contains_key(key@),
            },
    {
        let found = self.find(key);
        match found {
            Some(i) => {
                proof {
                    let w = self.key_index(key@);
                    assert(self.keys@[w]@ == key@);
                    assert(w == i) by {
                        if w != i as int {
                            assert(self.keys@[w]@ != self.keys@[i as int]@);
                        }
                    }
                }
                Some(slice_to_vec(self.vals[i].as_slice()))
            },
            None => None,
        }
    }

    /// Remove the row stored under `key`, if any.
    pub fn delete(&mut self, key: &Vec<u8>)
        requires
            old(self).wf(),
        ensures
            final(self).wf(),
            final(self)@ == old(self)@.remove(key@),
    {
        let found = self.find(key);
        match found {
            Some(i) => {
                let ghost os = *self;
                self.keys.remove(i);
                self.vals.remove(i);
                proof {
                    let n = self.keys@.len();
                    assert forall|x: int, y: int| 0 <= x < y < n implies (
                    #[trigger] self.keys@[x])@ != (#[trigger] self.keys@[y])@ by {
                        let ox: int = if x < i { x } else { x + 1 };
                        let oy: int = if y < i { y } else { y + 1 };
                        assert(os.keys@[ox]@ != os.keys@[oy]@);
                    }
                    assert forall|k: Seq<u8>| true implies #[trigger] self@.contains_key(k) == os@
                        .remove(key@).contains_key(k) by {
                        if self.spec_contains(k) {
                            let w = choose|x: int|
                                0 <= x < self.keys@.len() && (#[trigger] self.keys@[x])@ == k;
                            let ow: int = if w < i { w } else { w + 1 };
                            assert(os.keys@[ow]@ == k);
                            assert(k != key@) by {
                                if ow != i {
                                    assert(os.keys@[ow]@ != os.keys@[i as int]@);
                                }
                            }
                        }
                        if os.spec_contains(k) && k != key@ {
                            let w = choose|x: int|
                                0 <= x < os.keys@.len() && (#[trigger] os.keys@[x])@ == k;
                            assert(w != i);
                            let nw: int = if w < i { w } else { w - 1 };
                            assert(self.keys@[nw]@ == k);
                        }
                    }
                    assert forall|k: Seq<u8>| self@.contains_key(k) implies self@[k] == os@.remove(
                        key@,
                    )[k] by {
                        let w = self.key_index(k);
                        assert(self.keys@[w]@ == k);
                        let ow: int = if w < i { w } else { w + 1 };
                        assert(os.keys@[ow]@ == k);
                        let wo = os.key_index(k);
                        assert(os.keys@[wo]@ == k);
                        assert(wo == ow) by {
                            if wo != ow {
                                assert(os.keys@[wo]@ != os.keys@[ow]@);
                            }
                        }
                    }
                    assert(self@ =~= os@.remove(key@));
                }
            },
            None => {
                proof {
                    assert(!self@.contains_key(key@));
                    assert(self@ =~= self@.remove(key@));
                }
            },
        }
    }

    /// Number of rows held.
    pub fn row_count(&self) -> (n: usize)
        ensures
            n == self.spec_row_count(),
    {
        self.keys.len()
    }

    /// Borrow the key of row `i`.
    pub fn key_at_index(&self, i: usize) -> (k: &Vec<u8>)
        requires
            self.wf(),
            i < self.spec_row_count(),
        ensures
            k@ == self.spec_key(i as int),
            self@.contains_key(k@),
    {
        let k = &self.keys[i];
        proof {
            assert(self.keys@[i as int]@ == k@);
        }
        k
    }
}

/// One pending modification of a stored value, applied by the store's
/// merge operator.
#[derive(Debug, Clone)]
pub enum MergeOp {
    /// Raise the little-endian counter at `offset`, never lowering it.
    UpdateU64NoLessThan { offset: usize, value: u64 },
    /// Overwrite the little-endian counter at `offset`.
    SetU64 { offset: usize, value: u64 },
    /// Store `0` if nothing is stored yet.
    PutIfAbsent(Vec<u8>),
}

/// What one merge operand does to a stored value; an operand whose
/// counter does not fit leaves the value unchanged.
pub open spec fn merge_one(s: Seq<u8>, op: MergeOp) -> Seq<u8> {
    match op {
        MergeOp::UpdateU64NoLessThan { offset, value } => if s.len() >= offset + 8 {
            if spec_u64_from_le_bytes(s.subrange(offset as int, offset + 8)) < value {
                s.subrange(0, offset as int) + spec_u64_to_le_bytes(value) + s.subrange(
                    offset + 8,
                    s.len() as int,
                )
            } else {
                s
            }
        } else {
            s
        },
        MergeOp::SetU64 { offset, value } => if s.len() >= offset + 8 {
            s.subrange(0, offset as int) + spec_u64_to_le_bytes(value) + s.subrange(
                offset + 8,
                s.len() as int,
            )
        } else {
            s
        },
        MergeOp::PutIfAbsent(v) => if s.len() == 0 {
            v@
        } else {
            s
        },
    }
}

/// A batch of merge operands applied in order.
pub open spec fn merge_all(s: Seq<u8>, ops: Seq<MergeOp>) -> Seq<u8>
    decreases ops.len(),
{
    if ops.len() == 0 {
        s
    } else {
        merge_all(merge_one(s, ops[0]), ops.skip(1))
    }
}

/// Write a u64 little-endian into the middle of a value.
fn write_le_at(v: &mut Vec<u8>, off: usize, val: u64)
    requires
        off + 8 <= old(v)@.len(),
    ensures
        final(v)@ == old(v)@.subrange(0, off as int) + spec_u64_to_le_bytes(val) + old(
            v,
        )@.subrange(off + 8, old(v)@.len() as int),
{
    let b = u64_to_le_bytes(val);
    let vl = v.len();
    let mut k: usize = 0;
    while k < 8
        invariant
            k <= 8,
            b@ == spec_u64_to_le_bytes(val),
            b@.len() == 8,
            off + 8 <= vl,
            vl == old(v)@.len(),
            off + 8 <= old(v)@.len(),
            v@.len() == old(v)@.len(),
            forall|x: int| 0 <= x < off ==> v@[x] == old(v)@[x],
            forall|x: int| 0 <= x < k ==> v@[off + x] == b@[x],
            forall|x: int| off + 8 <= x < v@.len() ==> v@[x] == old(v)@[x],
        decreases 8 - k,
    {
        v[off + k] = b[k];
        k = k + 1;
    }
    proof {
        assert(v@ =~= old(v)@.subrange(0, off as int) + spec_u64_to_le_bytes(val) + old(
            v,
        )@.subrange(off + 8, old(v)@.len() as int));
    }
}

/// The full-merge callback of the metadata store: fold every pending
/// operand over the stored value; an empty outcome means no value.
pub fn full_merge(existing_val: Option<&Vec<u8>>, operands: &Vec<MergeOp>) -> (r: Option<Vec<u8>>)
    ensures
        ({
            let init = match existing_val {
                Some(v) => v@,
                None => Seq::<u8>::empty(),
            };
            let out = merge_all(init, operands@);
            match r {
                Some(v) => v@ == out && out.len() > 0,
                None => out.len() == 0,
            }
        }),
{
    let ghost init = match existing_val {
        Some(v) => v@,
        None => Seq::<u8>::empty(),
    };
    let mut new_val: Vec<u8> = match existing_val {
        Some(v) => slice_to_vec(v.as_slice()),
        None => Vec::new(),
    };
    let n = operands.len();
    proof {
        assert(operands@.skip(0) =~= operands@);
        assert(new_val@ == init);
    }
    let mut i: usize = 0;
    while i < n
        invariant
            i <= n,
            n == operands@.len(),
            merge_all(init, operands@) == merge_all(new_val@, operands@.skip(i as int)),
        decreases n - i,
    {
        let ghost prev = new_val@;
        let op = &operands[i];
        match op {
            MergeOp::UpdateU64NoLessThan { offset, value } => {
                let off = *offset;
                let val = *value;
                if off <= new_val.len() && new_val.len() - off >= 8 {
                    let sl = slice_subrange(new_val.as_slice(), off, off + 8);
                    let cur = u64_from_le_bytes(sl);
                    proof {
                        assert(cur == spec_u64_from_le_bytes(prev.subrange(off as int, off + 8)));
                    }
                    if cur < val {
                        write_le_at(&mut new_val, off, val);
                    }
                }
            },
            MergeOp::SetU64 { offset, value } => {
                let off = *offset;
                let val = *value;
                if off <= new_val.len() && new_val.len() - off >= 8 {
                    write_le_at(&mut new_val, off, val);
                }
            },
            MergeOp::PutIfAbsent(v) => {
                if new_val.len() == 0 {
                    new_val = slice_to_vec(v.as_slice());
                }
            },
        }
        proof {
            assert(new_val@ == merge_one(prev, operands@[i as int]));
            let rest = operands@.skip(i as int);
            assert(rest[0] == operands@[i as int]);
            assert(rest.skip(1) =~= operands@.skip(i + 1));
            assert(merge_all(prev, rest) == merge_all(new_val@, operands@.skip(i + 1)));
        }
        i = i + 1;
    }
    proof {
        assert(operands@.skip(n as int) =~= Seq::<MergeOp>::empty());
        assert(merge_all(new_val@, operands@.skip(n as int)) == new_val@);
    }
    if new_val.len() == 0 {
        None
    } else {
        Some(new_val)
    }
}

/// The partial-merge callback: operands are never combined ahead of a
/// full merge.
pub fn partial_merge(existing_val: Option<&Vec<u8>>, operands: &Vec<MergeOp>) -> (r: Option<
    Vec<u8>,
>)
    ensures
        r is None,
{
    None
}

} // verus!
