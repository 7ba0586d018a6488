//! Maps sparse 64-bit ids to the dense positions at which they were inserted.
//!
//! Ids are bucketed by their high 40 bits. A bucket is a sorted vector of
//! packed words `(low24 << 40) | position`, searched by bisection.
use vstd::prelude::*;

verus! {

/// Number of low id bits that stand inside a bucket.
pub const BUCKET_BITS: u64 = 24;

/// Number of ids that one bucket covers.
pub const BUCKET_SIZE: u64 = 0x100_0000;

/// Upper bound (exclusive) of dense positions: they are packed in 40 bits.
pub const MAX_IDS: u64 = 0x100_0000_0000;

/// A packed bucket entry: the low bits of an id above its position.
#[verifier::opaque]
pub open spec fn pack(low: int, pos: int) -> int {
    low * MAX_IDS + pos
}

#[verifier::opaque]
pub open spec fn entry_low(e: u64) -> int {
    e as int / MAX_IDS as int
}

#[verifier::opaque]
pub open spec fn entry_pos(e: u64) -> int {
    e as int % MAX_IDS as int
}

/// The first position whose slot holds `x`, if any.
pub open spec fn position_of(slots: Seq<Option<u64>>, x: u64) -> Option<u64> {
    if exists|i: int| 0 <= i < slots.len() && slots[i] == Some(x) {
        Some((choose|i: int|
            0 <= i < slots.len() && slots[i] == Some(x)
                && forall|j: int| 0 <= j < i ==> slots[j] != Some(x)) as u64)
    } else {
        None
    }
}

proof fn lemma_pack(low: int, pos: int)
    requires
        0 <= low < BUCKET_SIZE,
        0 <= pos < MAX_IDS,
    ensures
        0 <= pack(low, pos) <= u64::MAX,
        pack(low, pos) / MAX_IDS as int == low,
        pack(low, pos) % MAX_IDS as int == pos,
        entry_low(pack(low, pos) as u64) == low,
        entry_pos(pack(low, pos) as u64) == pos,
{
    reveal(pack);
    reveal(entry_low);
    reveal(entry_pos);
    assert(0 <= low * 0x100_0000_0000 + pos <= 0xffff_ffff_ffff_ffff) by (nonlinear_arith)
        requires 0 <= low < 0x100_0000, 0 <= pos < 0x100_0000_0000;
    vstd::arithmetic::div_mod::lemma_fundamental_div_mod_converse(
        pack(low, pos), MAX_IDS as int, low, pos);
}

proof fn lemma_pack_order(e1: u64, e2: u64)
    ensures
        e1 < e2 ==> entry_low(e1) <= entry_low(e2),
        entry_low(e1) < entry_low(e2) ==> e1 < e2,
        entry_low(e1) == entry_low(e2) ==> (e1 < e2 <==> entry_pos(e1) < entry_pos(e2)),
        e1 as int == pack(entry_low(e1), entry_pos(e1)),
        0 <= entry_pos(e1) < MAX_IDS,
        entry_low(e1) < BUCKET_SIZE,
{
    reveal(pack);
    reveal(entry_low);
    reveal(entry_pos);
    vstd::arithmetic::div_mod::lemma_fundamental_div_mod(e1 as int, MAX_IDS as int);
    vstd::arithmetic::div_mod::lemma_fundamental_div_mod(e2 as int, MAX_IDS as int);
    vstd::arithmetic::div_mod::lemma_mod_bound(e1 as int, MAX_IDS as int);
    vstd::arithmetic::div_mod::lemma_mod_bound(e2 as int, MAX_IDS as int);
    if e1 < e2 {
        vstd::arithmetic::div_mod::lemma_div_is_ordered(e1 as int, e2 as int, MAX_IDS as int);
    }
    assert(entry_low(e1) < BUCKET_SIZE) by {
        vstd::arithmetic::div_mod::lemma_div_is_ordered(e1 as int, u64::MAX as int, MAX_IDS as int);
    }
}

proof fn lemma_entry_bits(e: u64)
    ensures
        entry_low(e) == (e >> 40) as int,
        entry_pos(e) == (e & 0xff_ffff_ffff) as int,
{
    reveal(entry_low);
    reveal(entry_pos);
    assert((e >> 40) as int == e as int / 0x100_0000_0000 && (e & 0xff_ffff_ffff) as int == e as int % 0x100_0000_0000) by (bit_vector);
}

/// Bucket and low bits of an id.
#[verifier::opaque]
pub open spec fn bucket_of(x: u64) -> int {
    x as int / BUCKET_SIZE as int
}

#[verifier::opaque]
pub open spec fn low_of(x: u64) -> int {
    x as int % BUCKET_SIZE as int
}

/// Entries of a bucket are strictly increasing.
pub open spec fn sorted_strictly(v: Seq<u64>) -> bool {
    forall|k1: int, k2: int| 0 <= k1 < k2 < v.len() ==> #[trigger] v[k1] < #[trigger] v[k2]
}

/// Whether the buckets `data` index exactly the ids of `slots`.
pub open spec fn buckets_index(data: Seq<Vec<u64>>, slots: Seq<Option<u64>>) -> bool {
    &&& slots.len() <= MAX_IDS
    &&& forall|b: int, k: int| 0 <= b < data.len() && 0 <= k < data[b]@.len() ==> {
        let e = #[trigger] data[b]@[k];
        &&& 0 <= entry_pos(e) < slots.len()
        &&& slots[entry_pos(e)] == Some((b * BUCKET_SIZE + entry_low(e)) as u64)
    }
    &&& forall|b: int| 0 <= b < data.len() ==> sorted_strictly(#[trigger] data[b]@)
    &&& forall|i: int| 0 <= i < slots.len() && (#[trigger] slots[i]).is_some() ==> {
        let y = slots[i].unwrap();
        &&& 0 <= bucket_of(y) < data.len()
        &&& data[bucket_of(y)]@.contains(pack(low_of(y), i) as u64)
    }
}

/// Appends empty buckets until bucket `b` exists.
fn grow_buckets(data: &mut Vec<Vec<u64>>, b: u64)
    ensures
        final(data)@.len() > b,
        final(data)@.len() >= old(data)@.len(),
        forall|i: int| 0 <= i < old(data)@.len() ==> #[trigger] final(data)@[i] == old(data)@[i],
        forall|i: int| old(data)@.len() <= i < final(data)@.len() ==> (#[trigger] final(data)@[i])@.len() == 0,
{
    while data.len() as u64 <= b
        invariant
            data@.len() >= old(data)@.len(),
            forall|i: int| 0 <= i < old(data)@.len() ==> #[trigger] data@[i] == old(data)@[i],
            forall|i: int| old(data)@.len() <= i < data@.len() ==> (#[trigger] data@[i])@.len() == 0,
        decreases b + 1 - data@.len(),
    {
        data.push(Vec::new());
    }
}

proof fn lemma_grow_keeps_index(data: Seq<Vec<u64>>, nd: Seq<Vec<u64>>, slots: Seq<Option<u64>>)
    requires
        buckets_index(data, slots),
        nd.len() >= data.len(),
        forall|i: int| 0 <= i < data.len() ==> #[trigger] nd[i] == data[i],
        forall|i: int| data.len() <= i < nd.len() ==> (#[trigger] nd[i])@.len() == 0,
    ensures
        buckets_index(nd, slots),
{
    assert forall|i: int| 0 <= i < slots.len() && (#[trigger] slots[i]).is_some() implies {
        let y = slots[i].unwrap();
        &&& 0 <= bucket_of(y) < nd.len()
        &&& nd[bucket_of(y)]@.contains(pack(low_of(y), i) as u64)
    } by {
        let y = slots[i].unwrap();
        assert(slots[i].is_some());
        assert(bucket_of(y) < data.len());
        assert(data[bucket_of(y)]@.contains(pack(low_of(y), i) as u64));
        assert(nd[bucket_of(y)] == data[bucket_of(y)]);
    }
    assert forall|b: int, k: int| 0 <= b < nd.len() && 0 <= k < nd[b]@.len() implies {
        let e = #[trigger] nd[b]@[k];
        &&& 0 <= entry_pos(e) < slots.len()
        &&& slots[entry_pos(e)] == Some((b * BUCKET_SIZE + entry_low(e)) as u64)
    } by {
        assert(nd[b] == data[b]);
    }
    assert forall|b: int| 0 <= b < nd.len() implies sorted_strictly(#[trigger] nd[b]@) by {
        if b < data.len() {
            assert(nd[b] == data[b]);
        } else {
            assert(nd[b]@.len() == 0);
        }
    }
}

/// Index of the first entry of the sorted `v` that is not below `key`.
fn lower_bound(v: &Vec<u64>, key: u64) -> (r: usize)
    requires
        sorted_strictly(v@),
    ensures
        r <= v@.len(),
        forall|k: int| 0 <= k < r ==> v@[k] < key,
        forall|k: int| r <= k < v@.len() ==> v@[k] >= key,
{
    let mut lo: usize = 0;
    let mut hi: usize = v.len();
    while lo < hi
        invariant
            0 <= lo <= hi <= v@.len(),
            sorted_strictly(v@),
            forall|k: int| 0 <= k < lo ==> v@[k] < key,
            forall|k: int| hi <= k < v@.len() ==> v@[k] >= key,
        decreases hi - lo,
    {
        let m = lo + (hi - lo) / 2;
        if v[m] < key {
            proof {
                assert forall|k: int| 0 <= k <= m implies v@[k] < key by {
                    if k < m {
                        assert(v@[k] < v@[m as int]);
                    }
                }
            }
            lo = m + 1;
        } else {
            proof {
                assert forall|k: int| m <= k < v@.len() implies v@[k] >= key by {
                    if k > m {
                        assert(v@[m as int] < v@[k]);
                    }
                }
            }
            hi = m;
        }
    }
    lo
}

#[verifier::rlimit(80)]
proof fn lemma_insert_entries(
    data: Seq<Vec<u64>>,
    nd: Seq<Vec<u64>>,
    slots: Seq<Option<u64>>,
    x: u64,
    lo: int,
    entry: u64,
)
    requires
        buckets_index(data, slots),
        slots.len() < MAX_IDS,
        0 <= bucket_of(x) < data.len(),
        entry as int == pack(low_of(x), slots.len() as int),
        0 <= lo <= data[bucket_of(x)]@.len(),
        nd.len() == data.len(),
        nd[bucket_of(x)]@ == data[bucket_of(x)]@.insert(lo, entry),
        forall|b: int| 0 <= b < data.len() && b != bucket_of(x) ==> nd[b]@ == data[b]@,
    ensures
        forall|b: int, k: int| 0 <= b < nd.len() && 0 <= k < nd[b]@.len() ==> {
            let e = #[trigger] nd[b]@[k];
            &&& 0 <= entry_pos(e) < slots.len() + 1
            &&& slots.push(Some(x))[entry_pos(e)] == Some((b * BUCKET_SIZE + entry_low(e)) as u64)
        },
{
    let n = slots.len() as int;
    let id_set = bucket_of(x);
    let bucket = data[id_set]@;
    let ns = slots.push(Some(x));
    lemma_id_split(x);
    lemma_pack(low_of(x), n);
    assert forall|b: int, k: int| 0 <= b < nd.len() && 0 <= k < nd[b]@.len() implies {
        let e = #[trigger] nd[b]@[k];
        &&& 0 <= entry_pos(e) < ns.len()
        &&& ns[entry_pos(e)] == Some((b * BUCKET_SIZE + entry_low(e)) as u64)
    } by {
        if b == id_set && k == lo {
            assert(nd[b]@[k] == entry);
        } else if b == id_set && k > lo {
            let e = bucket[k - 1];
            assert(nd[b]@[k] == e);
            assert(data[b]@[k - 1] == e);
        } else if b == id_set {
            let e = bucket[k];
            assert(nd[b]@[k] == e);
            assert(data[b]@[k] == e);
        } else {
            assert(nd[b]@[k] == data[b]@[k]);
        }
    }
}

proof fn lemma_sorted_insert(v: Seq<u64>, lo: int, e: u64)
    requires
        sorted_strictly(v),
        0 <= lo <= v.len(),
        forall|k: int| 0 <= k < lo ==> v[k] < e,
        forall|k: int| lo <= k < v.len() ==> v[k] > e,
    ensures
        sorted_strictly(v.insert(lo, e)),
{
    let nb = v.insert(lo, e);
    assert forall|k1: int, k2: int| 0 <= k1 < k2 < nb.len() implies #[trigger] nb[k1] < #[trigger] nb[k2] by {
        if k1 < lo && k2 > lo {
            assert(nb[k2] == v[k2 - 1]);
            assert(nb[k1] == v[k1]);
        } else if k1 > lo {
            assert(nb[k1] == v[k1 - 1] && nb[k2] == v[k2 - 1]);
        } else if k1 == lo {
            assert(nb[k2] == v[k2 - 1]);
        } else if k2 == lo {
            assert(nb[k1] == v[k1]);
        } else {
            assert(nb[k1] == v[k1] && nb[k2] == v[k2]);
        }
    }
}

#[verifier::rlimit(60)]
proof fn lemma_insert_sorted(
    data: Seq<Vec<u64>>,
    nd: Seq<Vec<u64>>,
    slots: Seq<Option<u64>>,
    x: u64,
    lo: int,
    entry: u64,
)
    requires
        buckets_index(data, slots),
        slots.len() < MAX_IDS,
        0 <= bucket_of(x) < data.len(),
        entry as int == pack(low_of(x), slots.len() as int),
        0 <= lo <= data[bucket_of(x)]@.len(),
        forall|k: int| 0 <= k < lo ==> data[bucket_of(x)]@[k] < entry,
        forall|k: int| lo <= k < data[bucket_of(x)]@.len() ==> data[bucket_of(x)]@[k] >= entry,
        nd.len() == data.len(),
        nd[bucket_of(x)]@ == data[bucket_of(x)]@.insert(lo, entry),
        forall|b: int| 0 <= b < data.len() && b != bucket_of(x) ==> nd[b]@ == data[b]@,
    ensures
        forall|b: int| 0 <= b < nd.len() ==> sorted_strictly(#[trigger] nd[b]@),
{
    let n = slots.len() as int;
    let id_set = bucket_of(x);
    let bucket = data[id_set]@;
    lemma_id_split(x);
    lemma_pack(low_of(x), n);
    assert forall|k: int| lo <= k < bucket.len() implies bucket[k] > entry by {
        let e = bucket[k];
        assert(data[id_set]@[k] == e);
        assert(entry_pos(e) < n);
        lemma_pack_order(e, entry);
    }
    assert(sorted_strictly(data[id_set]@));
    lemma_sorted_insert(bucket, lo, entry);
    assert forall|b: int| 0 <= b < nd.len() implies sorted_strictly(#[trigger] nd[b]@) by {
        if b != id_set {
            assert(nd[b]@ == data[b]@);
            assert(sorted_strictly(data[b]@));
        }
    }
}

#[verifier::rlimit(80)]
proof fn lemma_insert_complete(
    data: Seq<Vec<u64>>,
    nd: Seq<Vec<u64>>,
    slots: Seq<Option<u64>>,
    x: u64,
    lo: int,
    entry: u64,
)
    requires
        buckets_index(data, slots),
        slots.len() < MAX_IDS,
        0 <= bucket_of(x) < data.len(),
        entry as int == pack(low_of(x), slots.len() as int),
        0 <= lo <= data[bucket_of(x)]@.len(),
        nd.len() == data.len(),
        nd[bucket_of(x)]@ == data[bucket_of(x)]@.insert(lo, entry),
        forall|b: int| 0 <= b < data.len() && b != bucket_of(x) ==> nd[b]@ == data[b]@,
    ensures
        forall|i: int| 0 <= i < slots.len() + 1 && (#[trigger] slots.push(Some(x))[i]).is_some() ==> {
            let y = slots.push(Some(x))[i].unwrap();
            &&& 0 <= bucket_of(y) < nd.len()
            &&& nd[bucket_of(y)]@.contains(pack(low_of(y), i) as u64)
        },
{
    let n = slots.len() as int;
    let id_set = bucket_of(x);
    let bucket = data[id_set]@;
    let nb = nd[id_set]@;
    let ns = slots.push(Some(x));
    assert forall|i: int| 0 <= i < ns.len() && (#[trigger] ns[i]).is_some() implies {
        let y = ns[i].unwrap();
        &&& 0 <= bucket_of(y) < nd.len()
        &&& nd[bucket_of(y)]@.contains(pack(low_of(y), i) as u64)
    } by {
        let y = ns[i].unwrap();
        if i == n {
            assert(nb[lo] == entry);
        } else {
            assert(slots[i] == ns[i]);
            assert(slots[i].is_some());
            let c = pack(low_of(y), i) as u64;
            assert(data[bucket_of(y)]@.contains(c));
            let k = data[bucket_of(y)]@.index_of(c);
            if bucket_of(y) == id_set {
                if k < lo {
                    assert(nb[k] == c);
                } else {
                    assert(nb[k + 1] == c);
                }
            } else {
                assert(nd[bucket_of(y)]@[k] == c);
            }
        }
    }
}

/// `p` is the first position that holds `x`.
proof fn lemma_position_found(slots: Seq<Option<u64>>, x: u64, p: int)
    requires
        0 <= p < slots.len(),
        slots[p] == Some(x),
        forall|j: int| 0 <= j < p ==> slots[j] != Some(x),
    ensures
        position_of(slots, x) == Some(p as u64),
{
    let w = choose|i: int| 0 <= i < slots.len() && slots[i] == Some(x)
        && forall|j: int| 0 <= j < i ==> slots[j] != Some(x);
    assert(w == p) by {
        if w < p {
        } else if w > p {
            assert(slots[p] == Some(x));
        }
    }
}

/// Bisection found the entry of `x` at `lo`.
#[verifier::rlimit(40)]
proof fn lemma_lookup_found(data: Seq<Vec<u64>>, slots: Seq<Option<u64>>, x: u64, lo: int)
    requires
        buckets_index(data, slots),
        0 <= bucket_of(x) < data.len(),
        0 <= lo < data[bucket_of(x)]@.len(),
        forall|k: int| 0 <= k < lo ==> data[bucket_of(x)]@[k] < pack(low_of(x), 0),
        entry_low(data[bucket_of(x)]@[lo]) == low_of(x),
    ensures
        position_of(slots, x) == Some(entry_pos(data[bucket_of(x)]@[lo]) as u64),
{
    let bv = data[bucket_of(x)]@;
    let e = bv[lo];
    let pos = entry_pos(e);
    let low = low_of(x);
    lemma_id_split(x);
    lemma_pack(low, 0);
    lemma_pack_order(e, e);
    assert(sorted_strictly(bv));
    assert(slots[pos] == Some(x));
    assert forall|j: int| 0 <= j < pos implies slots[j] != Some(x) by {
        if slots[j] == Some(x) {
            assert(slots[j].is_some());
            let c = pack(low, j) as u64;
            lemma_pack(low, j);
            assert(bv.contains(c));
            let k = bv.index_of(c);
            lemma_pack_order(c, e);
            if k < lo {
                lemma_pack_order(c, pack(low, 0) as u64);
            } else if k > lo {
                assert(e < c);
            }
        }
    }
    lemma_position_found(slots, x, pos);
}

/// An id whose bucket entries all lie outside its key range is in no slot.
proof fn lemma_missing_slot(bv: Seq<u64>, slots: Seq<Option<u64>>, x: u64, lo: int, i: int)
    requires
        sorted_strictly(bv),
        0 <= lo <= bv.len(),
        0 <= i < slots.len(),
        0 <= low_of(x) < BUCKET_SIZE,
        i < MAX_IDS,
        forall|k: int| 0 <= k < lo ==> bv[k] < pack(low_of(x), 0),
        forall|k: int| lo <= k < bv.len() ==> bv[k] >= pack(low_of(x), 0),
        lo < bv.len() ==> entry_low(bv[lo]) != low_of(x),
    ensures
        !bv.contains(pack(low_of(x), i) as u64),
{
    let low = low_of(x);
    let c = pack(low, i) as u64;
    lemma_pack(low, i);
    lemma_pack(low, 0);
    if bv.contains(c) {
        let k = bv.index_of(c);
        lemma_pack_order(c, pack(low, 0) as u64);
        if k >= lo {
            let e = bv[lo];
            lemma_pack_order(e, c);
            lemma_pack_order(pack(low, 0) as u64, e);
            if k > lo {
                assert(e < c);
            }
        }
    }
}

/// Bisection found no entry of `x`.
proof fn lemma_lookup_missing(data: Seq<Vec<u64>>, slots: Seq<Option<u64>>, x: u64, lo: int)
    requires
        buckets_index(data, slots),
        0 <= bucket_of(x) < data.len(),
        0 <= lo <= data[bucket_of(x)]@.len(),
        forall|k: int| 0 <= k < lo ==> data[bucket_of(x)]@[k] < pack(low_of(x), 0),
        forall|k: int| lo <= k < data[bucket_of(x)]@.len() ==> data[bucket_of(x)]@[k] >= pack(low_of(x), 0),
        lo < data[bucket_of(x)]@.len() ==> entry_low(data[bucket_of(x)]@[lo]) != low_of(x),
    ensures
        position_of(slots, x) == None::<u64>,
{
    let bv = data[bucket_of(x)]@;
    lemma_id_split(x);
    assert(sorted_strictly(bv));
    assert forall|i: int| 0 <= i < slots.len() implies slots[i] != Some(x) by {
        if slots[i] == Some(x) {
            assert(slots[i].is_some());
            lemma_missing_slot(bv, slots, x, lo, i);
        }
    }
}

proof fn lemma_id_split(x: u64)
    ensures
        0 <= low_of(x) < BUCKET_SIZE,
        x as int == bucket_of(x) * BUCKET_SIZE + low_of(x),
        bucket_of(x) == (x >> 24) as int,
        low_of(x) == (x & 0xff_ffff) as int,
        bucket_of(x) < MAX_IDS,
{
    reveal(bucket_of);
    reveal(low_of);
    assert((x >> 24) as int == x as int / 0x100_0000 && (x & 0xff_ffff) as int == x as int % 0x100_0000) by (bit_vector);
    vstd::arithmetic::div_mod::lemma_fundamental_div_mod(x as int, BUCKET_SIZE as int);
    assert(x >> 24 < 0x100_0000_0000) by (bit_vector);
}

/// The table while ids are inserted.
pub struct IdTableBuilder {
    data: Vec<Vec<u64>>,
    next_id: u64,
    slots: Ghost<Seq<Option<u64>>>,
}

/// The frozen table, queried by id.
pub struct IdTable {
    data: Vec<Vec<u64>>,
    slots: Ghost<Seq<Option<u64>>>,
}

impl View for IdTableBuilder {
    type V = Seq<Option<u64>>;

    /// Slot `i` holds the id that got position `i`, or nothing where the
    /// position was skipped.
    closed spec fn view(&self) -> Seq<Option<u64>> {
        self.slots@
    }
}

impl View for IdTable {
    type V = Seq<Option<u64>>;

    closed spec fn view(&self) -> Seq<Option<u64>> {
        self.slots@
    }
}

impl IdTableBuilder {
    pub closed spec fn wf(&self) -> bool {
        &&& self.next_id == self.slots@.len()
        &&& buckets_index(self.data@, self.slots@)
    }

    pub fn new() -> (r: Self)
        ensures
            r.wf(),
            r@ == Seq::<Option<u64>>::empty(),
    {
        IdTableBuilder { data: Vec::new(), next_id: 0, slots: Ghost(Seq::empty()) }
    }

    /// Number of positions handed out so far.
    pub fn len(&self) -> (r: u64)
        requires
            self.wf(),
        ensures
            r == self@.len(),
            r <= MAX_IDS,
    {
        self.next_id
    }

    /// Inserts an id and returns its dense position: the number of positions
    /// handed out before.
    pub fn insert(&mut self, x: u64) -> (r: u64)
        requires
            old(self).wf(),
            old(self)@.len() < MAX_IDS,
        ensures
            final(self).wf(),
            r == old(self)@.len(),
            final(self)@ == old(self)@.push(Some(x)),
    {
        let ghost old_slots = self.slots@;
        let ghost old_data = self.data@;
        let id_set64 = x >> 24;
        let low = x & 0xff_ffff;
        grow_buckets(&mut self.data, id_set64);
        let n_buckets = self.data.len();
        proof {
            lemma_id_split(x);
            assert(id_set64 < n_buckets);
        }
        let id_set = id_set64 as usize;
        assert(id_set as int == id_set64 as int);
        assert(id_set64 as int == bucket_of(x));
        let ghost mid = self.data@;
        proof {
            lemma_grow_keeps_index(old_data, mid, old_slots);
        }
        let n = self.next_id;
        proof {
            lemma_pack(low as int, n as int);
        }
        assert((low << 40) | n == low * 0x100_0000_0000 + n) by (bit_vector)
            requires low < 0x100_0000, n < 0x100_0000_0000;
        let entry: u64 = (low << 40) | n;
        let lo = lower_bound(&self.data[id_set], entry);
        self.data[id_set].insert(lo, entry);
        self.next_id = n + 1;
        self.slots = Ghost(old_slots.push(Some(x)));
        proof {
            assert(self.data@.len() == mid.len());
            assert(self.data@[id_set as int]@ == mid[id_set as int]@.insert(lo as int, entry));
            assert(entry as int == pack(low_of(x), old_slots.len() as int));
            let nd = self.data@;
            lemma_insert_entries(mid, nd, old_slots, x, lo as int, entry);
            lemma_insert_sorted(mid, nd, old_slots, x, lo as int, entry);
            lemma_insert_complete(mid, nd, old_slots, x, lo as int, entry);
        }
        n
    }

    /// Advances the next position by `count` without inserting an id.
    pub fn skip(&mut self, count: u32)
        requires
            old(self).wf(),
            old(self)@.len() + count <= MAX_IDS,
        ensures
            final(self).wf(),
            final(self)@ == old(self)@ + Seq::new(count as nat, |i: int| None::<u64>),
    {
        self.next_id = self.next_id + count as u64;
        self.slots = Ghost(self.slots@ + Seq::new(count as nat, |i: int| None::<u64>));
        proof {
            let ns = self.slots@;
            assert forall|i: int| 0 <= i < ns.len() && (#[trigger] ns[i]).is_some() implies i < old(self).slots@.len() && ns[i] == old(self).slots@[i] by {}
        }
    }

    /// Freezes the table.
    pub fn build(self) -> (r: IdTable)
        requires
            self.wf(),
        ensures
            r.wf(),
            r@ == self@,
    {
        IdTable { data: self.data, slots: self.slots }
    }

    /// Freezes the table; the same as `build`.
    pub fn finalize(self) -> (r: IdTable)
        requires
            self.wf(),
        ensures
            r.wf(),
            r@ == self@,
    {
        self.build()
    }
}

impl IdTable {
    pub closed spec fn wf(&self) -> bool {
        buckets_index(self.data@, self.slots@)
    }

    /// The position at which `x` was first inserted, or `None` where it was
    /// never inserted.
    pub fn get(&self, x: u64) -> (r: Option<u64>)
        requires
            self.wf(),
        ensures
            r == position_of(self@, x),
    {
        let ghost slots = self.slots@;
        let ghost data = self.data@;
        proof {
            lemma_id_split(x);
        }
        let id_set64 = x >> 24;
        let low = x & 0xff_ffff;
        if id_set64 >= self.data.len() as u64 {
            proof {
                assert forall|i: int| 0 <= i < slots.len() implies slots[i] != Some(x) by {
                    if slots[i] == Some(x) {
                        assert(slots[i].is_some());
                    }
                }
            }
            return None;
        }
        let id_set = id_set64 as usize;
        let bucket = &self.data[id_set];
        proof {
            lemma_pack(low as int, 0);
        }
        assert((low << 40) == low * 0x100_0000_0000) by (bit_vector)
            requires low < 0x100_0000;
        let key: u64 = low << 40;
        assert(sorted_strictly(bucket@));
        let lo = lower_bound(bucket, key);
        proof {
            assert(bucket@ == data[bucket_of(x)]@);
            if lo < bucket@.len() {
                lemma_entry_bits(bucket@[lo as int]);
            }
        }
        if lo < bucket.len() && (bucket[lo] >> 40) == low {
            let e = bucket[lo];
            let pos = e & 0xff_ffff_ffff;
            proof {
                lemma_entry_bits(e);
                lemma_lookup_found(data, slots, x, lo as int);
            }
            Some(pos)
        } else {
            proof {
                lemma_lookup_missing(data, slots, x, lo as int);
            }
            None
        }
    }

    /// `get` as a 32-bit position; `None` also where the position does not
    /// fit in 32 bits.
    pub fn find(&self, x: u64) -> (r: Option<u32>)
        requires
            self.wf(),
        ensures
            r == (match position_of(self@, x) {
                Some(i) => if i <= u32::MAX { Some(i as u32) } else { None },
                None => None,
            }),
    {
        match self.get(x) {
            Some(i) => if i <= u32::MAX as u64 { Some(i as u32) } else { None },
            None => None,
        }
    }
}

} // verus!
