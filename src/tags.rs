//! Deduplicated tags while compiling, and tag lookups over a compiled
//! archive. Lookups work on raw bytes of the string pool.
use vstd::prelude::*;
use std::ops::Range;
use crate::hashmaps::{TagIndexMap, tag_entries, tag_index_new, tag_index_get, tag_index_insert};
use crate::osm::{Osm, Tag};
use vstd::string::StringSliceAdditionalSpecFns;

verus! {

#[verifier::external_type_specification]
#[verifier::external_body]
pub struct ExUtf8Error(std::str::Utf8Error);

/// Relies on `std::str::from_utf8`: it succeeds exactly on valid UTF-8, and
/// the string it gives holds the same bytes.
#[verifier::external_body]
pub(crate) fn from_utf8(b: &[u8]) -> (r: Result<&str, std::str::Utf8Error>)
    ensures
        r is Ok <==> vstd::utf8::valid_utf8(b@),
        r is Ok ==> r->Ok_0.spec_bytes() == b@,
{
    std::str::from_utf8(b)
}

/// No tag occurs twice.
pub open spec fn tags_distinct(tags: Seq<Tag>) -> bool {
    forall|i: int, j: int| 0 <= i < j < tags.len() ==> tags[i] != tags[j]
}

/// The tags after interning `t`: appended unless already there.
pub open spec fn tag_interned(tags: Seq<Tag>, t: Tag) -> Seq<Tag> {
    if tags.contains(t) { tags } else { tags.push(t) }
}

/// The deduplicated tag column and the per-entity tag index column.
pub struct TagSerializer {
    tags: Vec<Tag>,
    tags_index: Vec<u64>,
    dedup: TagIndexMap,
    named: Ghost<Seq<nat>>,
}

impl TagSerializer {
    pub closed spec fn wf(&self) -> bool {
        &&& tags_distinct(self.tags@)
        &&& forall|k: (u64, u64)| #[trigger] tag_entries(self.dedup).contains_key(k)
            <==> self.tags@.contains(Tag { key_idx: k.0, value_idx: k.1 })
        &&& forall|i: int| 0 <= i < self.tags@.len()
            ==> tag_entries(self.dedup)[(#[trigger] self.tags@[i]).key_idx_pair()] == i
        &&& forall|i: int| 0 <= i < self.tags_index@.len() ==> #[trigger] self.tags_index@[i] < self.tags@.len()
        &&& forall|t: int| 0 <= t < self.tags@.len() ==> #[trigger] self.named_by(t) < self.tags_index@.len()
            && self.tags_index@[self.named_by(t)] == t
        &&& self.named@.len() == self.tags@.len()
    }

    /// An index row that names tag row `t`.
    pub closed spec fn named_by(&self, t: int) -> int {
        self.named@[t] as int
    }

    /// The columns stay within `usize`, every index row names a tag, and no
    /// tag occurs twice.
    pub proof fn lemma_wf(&self)
        requires
            self.wf(),
        ensures
            self.index().len() <= usize::MAX,
            forall|q: int| 0 <= q < self.index().len() ==> #[trigger] self.index()[q] < self.tags().len(),
            tags_distinct(self.tags()),
            forall|t: int| 0 <= t < self.tags().len() ==> 0 <= #[trigger] self.named_by(t) < self.index().len()
                && self.index()[self.named_by(t)] == t,
    {
        assert(self.tags_index.len() == self.tags_index@.len());
    }

    /// The tag that index row `q` names.
    pub open spec fn tag_of_row(&self, q: int) -> Tag {
        self.tags()[self.index()[q] as int]
    }

    /// The tag rows.
    pub closed spec fn tags(&self) -> Seq<Tag> {
        self.tags@
    }

    /// The tag index rows: one position in `tags()` per tag instance.
    pub closed spec fn index(&self) -> Seq<u64> {
        self.tags_index@
    }

    pub fn new() -> (r: Self)
        ensures
            r.wf(),
            r.tags() == Seq::<Tag>::empty(),
            r.index() == Seq::<u64>::empty(),
    {
        TagSerializer { tags: Vec::new(), tags_index: Vec::new(), dedup: tag_index_new(), named: Ghost(Seq::empty()) }
    }

    /// Records one tag instance: the tag row of `(key_idx, val_idx)`,
    /// appended if new, gets one more index row.
    pub fn serialize(&mut self, key_idx: u64, val_idx: u64)
        requires
            old(self).wf(),
        ensures
            final(self).wf(),
            final(self).tags() == tag_interned(old(self).tags(), Tag { key_idx, value_idx: val_idx }),
            final(self).index() == old(self).index().push(
                final(self).tags().index_of(Tag { key_idx, value_idx: val_idx }) as u64),
            final(self).index().len() == old(self).index().len() + 1,
            forall|q: int| 0 <= q < old(self).index().len() ==> #[trigger] final(self).tag_of_row(q) == old(self).tag_of_row(q),
            final(self).tag_of_row(old(self).index().len() as int) == (Tag { key_idx, value_idx: val_idx }),
    {
        let t = Tag { key_idx, value_idx: val_idx };
        let ghost old_tags = self.tags@;
        let idx = match tag_index_get(&self.dedup, (key_idx, val_idx)) {
            Some(idx) => {
                proof {
                    assert(tag_entries(self.dedup).contains_key((key_idx, val_idx)));
                    assert(old_tags.contains(t));
                    let i = old_tags.index_of(t);
                    assert(old_tags[i].key_idx_pair() == (key_idx, val_idx));
                    assert(idx == i);
                }
                idx
            },
            None => {
                proof {
                    assert(!tag_entries(self.dedup).contains_key((key_idx, val_idx)));
                }
                let idx = self.tags.len() as u64;
                self.tags.push(t);
                self.named = Ghost(self.named@.push(self.tags_index@.len()));
                tag_index_insert(&mut self.dedup, (key_idx, val_idx), idx);
                proof {
                    let nt = self.tags@;
                    assert(nt == old_tags.push(t));
                    assert forall|a: int, b: int| 0 <= a < b < nt.len() implies nt[a] != nt[b] by {
                        if b == old_tags.len() {
                            assert(old_tags.contains(nt[a]));
                        }
                    }
                    assert forall|k: (u64, u64)| #[trigger] tag_entries(self.dedup).contains_key(k)
                        <==> nt.contains(Tag { key_idx: k.0, value_idx: k.1 }) by {
                        let tk = Tag { key_idx: k.0, value_idx: k.1 };
                        if old_tags.contains(tk) {
                            let i = old_tags.index_of(tk);
                            assert(nt[i] == tk);
                        }
                        if nt.contains(tk) {
                            let i = nt.index_of(tk);
                            if i < old_tags.len() {
                                assert(old_tags[i] == tk);
                            }
                        }
                        if k == (key_idx, val_idx) {
                            assert(nt[old_tags.len() as int] == tk);
                        }
                    }
                    assert forall|i: int| 0 <= i < nt.len()
                        implies tag_entries(self.dedup)[(#[trigger] nt[i]).key_idx_pair()] == i by {
                        if i < old_tags.len() {
                            assert(old_tags[i] == nt[i]);
                            assert(old_tags.contains(nt[i]));
                            assert(nt[i] != t);
                        }
                    }
                    assert(nt[old_tags.len() as int] == t);
                    assert(nt.contains(t));
                }
                idx
            },
        };
        self.tags_index.push(idx);
        proof {
            let nt = self.tags@;
            assert(nt.contains(t));
            let j = nt.index_of(t);
            assert(nt[idx as int] == t);
            assert(j == idx);
            assert forall|u: int| 0 <= u < self.tags@.len() implies #[trigger] self.named_by(u) < self.tags_index@.len()
                && self.tags_index@[self.named_by(u)] == u by {
                if u < old_tags.len() {
                    assert(self.named@[u] == old(self).named@[u]);
                    assert(old(self).named_by(u) < old(self).tags_index@.len());
                    assert(self.tags_index@[self.named_by(u)] == old(self).tags_index@[old(self).named_by(u)]);
                }
            }
            assert forall|q: int| 0 <= q < old(self).index().len() implies #[trigger] self.tag_of_row(q) == old(self).tag_of_row(q) by {
                assert(self.tags_index@[q] == old(self).tags_index@[q]);
                assert(old(self).tags_index@[q] < old_tags.len());
            }
        }
    }

    /// Number of index rows so far: where the next entity's tag range starts.
    pub fn next_index(&self) -> (r: u64)
        requires
            self.wf(),
        ensures
            r == self.index().len(),
    {
        self.tags_index.len() as u64
    }

    /// Hands out the two columns.
    pub fn close(self) -> (r: (Vec<Tag>, Vec<u64>))
        requires
            self.wf(),
        ensures
            r.0@ == self.tags(),
            r.1@ == self.index(),
            tags_distinct(r.0@),
            forall|i: int| 0 <= i < r.1@.len() ==> #[trigger] r.1@[i] < r.0@.len(),
    {
        (self.tags, self.tags_index)
    }
}

impl Tag {
    pub open spec fn key_idx_pair(&self) -> (u64, u64) {
        (self.key_idx, self.value_idx)
    }
}

/// Index of the first `\0` at or after `o`, or the end of the pool.
pub open spec fn string_end(pool: Seq<u8>, o: int) -> int
    decreases pool.len() - o,
{
    if o < 0 || o >= pool.len() {
        pool.len() as int
    } else if pool[o] == 0 {
        o
    } else {
        string_end(pool, o + 1)
    }
}

/// The string of the pool that starts at `o`: up to the next `\0`.
pub open spec fn substring(pool: Seq<u8>, o: int) -> Seq<u8> {
    pool.subrange(o, string_end(pool, o))
}

/// Whether a block that starts at a string holds the string `s`: `s`
/// followed by a `\0` or by the end of the pool.
pub open spec fn block_matches(block: Seq<u8>, s: Seq<u8>) -> bool {
    &&& s.len() <= block.len()
    &&& block.subrange(0, s.len() as int) == s
    &&& (s.len() == block.len() || block[s.len() as int] == 0)
}

/// The rest of the pool from the key of the tag of index row `i`.
pub open spec fn key_block(a: &Osm, i: int) -> Seq<u8> {
    a.stringtable@.subrange(a.tag_at(i).key_idx as int, a.stringtable@.len() as int)
}

/// The rest of the pool from the value of the tag of index row `i`.
pub open spec fn value_block(a: &Osm, i: int) -> Seq<u8> {
    a.stringtable@.subrange(a.tag_at(i).value_idx as int, a.stringtable@.len() as int)
}

pub open spec fn key_str(a: &Osm, i: int) -> Seq<u8> {
    substring(a.stringtable@, a.tag_at(i).key_idx as int)
}

pub open spec fn value_str(a: &Osm, i: int) -> Seq<u8> {
    substring(a.stringtable@, a.tag_at(i).value_idx as int)
}

/// The first index row in `[i, end)` whose key is `key`.
pub open spec fn first_key_match(a: &Osm, i: int, end: int, key: Seq<u8>) -> Option<int>
    decreases end - i,
{
    if i >= end {
        None
    } else if block_matches(key_block(a, i), key) {
        Some(i)
    } else {
        first_key_match(a, i + 1, end, key)
    }
}

/// `range` is a range of tag index rows of `a`.
pub open spec fn valid_range(a: &Osm, range: Range<u64>) -> bool {
    range.start <= range.end <= a.tags_index@.len()
}

/// What a call of `predicate` on the blocks of index row `i` may return.
pub open spec fn predicate_says<P: Fn(&[u8], &[u8]) -> bool>(predicate: P, a: &Osm, i: int, b: bool) -> bool {
    exists|k: &[u8], v: &[u8]| k@ == key_block(a, i) && v@ == value_block(a, i) && predicate.ensures((k, v), b)
}

/// The string that starts at offset `o` of `pool`.
pub fn substring_raw(pool: &[u8], o: usize) -> (r: &[u8])
    requires
        o <= pool@.len(),
    ensures
        r@ == substring(pool@, o as int),
{
    let mut e = o;
    while e < pool.len() && pool[e] != 0
        invariant
            o <= e <= pool@.len(),
            string_end(pool@, o as int) == string_end(pool@, e as int),
        decreases pool@.len() - e,
    {
        e = e + 1;
    }
    vstd::slice::slice_subrange(pool, o, e)
}

/// Whether `block` holds the string `s`.
pub fn block_holds(block: &[u8], s: &[u8]) -> (r: bool)
    ensures
        r == block_matches(block@, s@),
{
    if s.len() > block.len() {
        return false;
    }
    let mut i: usize = 0;
    while i < s.len()
        invariant
            s@.len() <= block@.len(),
            0 <= i <= s@.len(),
            forall|j: int| 0 <= j < i ==> block@[j] == s@[j],
        decreases s@.len() - i,
    {
        if block[i] != s[i] {
            proof {
                assert(block@.subrange(0, s@.len() as int)[i as int] != s@[i as int]);
            }
            return false;
        }
        i = i + 1;
    }
    assert(block@.subrange(0, s@.len() as int) =~= s@);
    s.len() == block.len() || block[s.len()] == 0
}

fn tag_of<'a>(archive: &'a Osm, idx: u64) -> (r: &'a Tag)
    requires
        archive.tags_wf(),
        idx < archive.tags_index@.len(),
    ensures
        *r == archive.tag_at(idx as int),
        r.key_idx <= archive.stringtable@.len(),
        r.value_idx <= archive.stringtable@.len(),
{
    let n_index = archive.tags_index.len();
    let n_tags = archive.tags.len();
    assert(idx < n_index);
    let t = archive.tags_index[idx as usize];
    assert(t < n_tags);
    &archive.tags[t as usize]
}

/// The `(key, value)` pairs of the tag index rows in `range`.
pub fn iter_tags<'a>(archive: &'a Osm, range: Range<u64>) -> (r: Vec<(&'a [u8], &'a [u8])>)
    requires
        archive.tags_wf(),
        valid_range(archive, range),
    ensures
        r@.len() == range.end - range.start,
        forall|i: int| 0 <= i < r@.len() ==> {
            &&& (#[trigger] r@[i]).0@ == key_str(archive, range.start + i)
            &&& r@[i].1@ == value_str(archive, range.start + i)
        },
{
    let strings = archive.stringtable.as_slice();
    let n = strings.len();
    let mut result: Vec<(&'a [u8], &'a [u8])> = Vec::new();
    let mut idx = range.start;
    while idx < range.end
        invariant
            archive.tags_wf(),
            valid_range(archive, range),
            range.start <= idx <= range.end,
            strings@ == archive.stringtable@,
            n == strings@.len(),
            result@.len() == idx - range.start,
            forall|i: int| 0 <= i < result@.len() ==> {
                &&& (#[trigger] result@[i]).0@ == key_str(archive, range.start + i)
                &&& result@[i].1@ == value_str(archive, range.start + i)
            },
        decreases range.end - idx,
    {
        let tag = tag_of(archive, idx);
        let key = substring_raw(strings, tag.key_idx as usize);
        let val = substring_raw(strings, tag.value_idx as usize);
        result.push((key, val));
        idx = idx + 1;
    }
    result
}

/// The `(key, value)` pairs of the tag index rows in `range`; the same as
/// `iter_tags`.
pub fn tags_raw<'a>(archive: &'a Osm, range: Range<u64>) -> (r: Vec<(&'a [u8], &'a [u8])>)
    requires
        archive.tags_wf(),
        valid_range(archive, range),
    ensures
        r@.len() == range.end - range.start,
        forall|i: int| 0 <= i < r@.len() ==> {
            &&& (#[trigger] r@[i]).0@ == key_str(archive, range.start + i)
            &&& r@[i].1@ == value_str(archive, range.start + i)
        },
{
    iter_tags(archive, range)
}

/// The `(key, value)` pairs of the tag index rows in `range`, as strings:
/// one result per row, an error where its key or value is not UTF-8.
pub fn tags<'a>(archive: &'a Osm, range: Range<u64>) -> (r: Vec<Result<(&'a str, &'a str), std::str::Utf8Error>>)
    requires
        archive.tags_wf(),
        valid_range(archive, range),
    ensures
        r@.len() == range.end - range.start,
        forall|i: int| 0 <= i < r@.len() ==> ((#[trigger] r@[i]) is Ok
            <==> vstd::utf8::valid_utf8(key_str(archive, range.start + i))
                && vstd::utf8::valid_utf8(value_str(archive, range.start + i))),
        forall|i: int| 0 <= i < r@.len() && (#[trigger] r@[i]) is Ok ==> {
            &&& r@[i]->Ok_0.0.spec_bytes() == key_str(archive, range.start + i)
            &&& r@[i]->Ok_0.1.spec_bytes() == value_str(archive, range.start + i)
        },
{
    let raw = iter_tags(archive, range);
    let n = raw.len();
    let mut result: Vec<Result<(&'a str, &'a str), std::str::Utf8Error>> = Vec::new();
    let mut i: usize = 0;
    while i < n
        invariant
            n == raw@.len(),
            n == range.end - range.start,
            0 <= i <= n,
            forall|k: int| 0 <= k < n ==> {
                &&& (#[trigger] raw@[k]).0@ == key_str(archive, range.start + k)
                &&& raw@[k].1@ == value_str(archive, range.start + k)
            },
            result@.len() == i,
            forall|k: int| 0 <= k < i ==> ((#[trigger] result@[k]) is Ok
                <==> vstd::utf8::valid_utf8(key_str(archive, range.start + k))
                    && vstd::utf8::valid_utf8(value_str(archive, range.start + k))),
            forall|k: int| 0 <= k < i && (#[trigger] result@[k]) is Ok ==> {
                &&& result@[k]->Ok_0.0.spec_bytes() == key_str(archive, range.start + k)
                &&& result@[k]->Ok_0.1.spec_bytes() == value_str(archive, range.start + k)
            },
        decreases n - i,
    {
        let (k, v) = raw[i];
        proof {
            assert(raw@[i as int].0@ == key_str(archive, range.start + i));
        }
        let item = match from_utf8(k) {
            Ok(key) => match from_utf8(v) {
                Ok(val) => Ok((key, val)),
                Err(e) => Err(e),
            },
            Err(e) => Err(e),
        };
        let ghost before = result@;
        result.push(item);
        proof {
            assert forall|m: int| 0 <= m < i + 1 implies ((#[trigger] result@[m]) is Ok
                <==> vstd::utf8::valid_utf8(key_str(archive, range.start + m))
                    && vstd::utf8::valid_utf8(value_str(archive, range.start + m))) by {
                if m < i {
                    assert(result@[m] == before[m]);
                }
            }
            assert forall|m: int| 0 <= m < i + 1 && (#[trigger] result@[m]) is Ok implies {
                &&& result@[m]->Ok_0.0.spec_bytes() == key_str(archive, range.start + m)
                &&& result@[m]->Ok_0.1.spec_bytes() == value_str(archive, range.start + m)
            } by {
                if m < i {
                    assert(result@[m] == before[m]);
                }
            }
        }
        i = i + 1;
    }
    result
}

/// The value, as a string, of the first tag in `range` whose key is `key`;
/// an error where that value is not UTF-8.
pub fn get_tag<'a>(archive: &'a Osm, range: Range<u64>, key: &[u8]) -> (r: Result<Option<&'a str>, std::str::Utf8Error>)
    requires
        archive.tags_wf(),
        valid_range(archive, range),
    ensures
        match first_key_match(archive, range.start as int, range.end as int, key@) {
            None => r == Ok::<Option<&str>, std::str::Utf8Error>(None),
            Some(i) => {
                &&& (r is Ok <==> vstd::utf8::valid_utf8(value_str(archive, i)))
                &&& r is Ok ==> r->Ok_0 is Some && r->Ok_0->Some_0.spec_bytes() == value_str(archive, i)
            },
        },
{
    match find_tag(archive, range, key) {
        Some(v) => match from_utf8(v) {
            Ok(s) => Ok(Some(s)),
            Err(e) => Err(e),
        },
        None => Ok(None),
    }
}

/// The value of the first tag in `range` on whose key block and value block
/// `predicate` holds. The blocks run from the key resp. value to the end of
/// the pool: the predicate itself looks for the `\0` that ends them.
pub fn find_tag_by<'a>(
    archive: &'a Osm,
    range: Range<u64>,
    predicate: impl Fn(&[u8], &[u8]) -> bool,
) -> (r: Option<&'a [u8]>)
    requires
        archive.tags_wf(),
        valid_range(archive, range),
        forall|k: &[u8], v: &[u8]| predicate.requires((k, v)),
    ensures
        match r {
            Some(v) => exists|i: int| range.start <= i < range.end
                && predicate_says(predicate, archive, i, true)
                && (forall|j: int| range.start <= j < i ==> predicate_says(predicate, archive, j, false))
                && v@ == value_str(archive, i),
            None => forall|j: int| range.start <= j < range.end ==> predicate_says(predicate, archive, j, false),
        },
{
    let strings = archive.stringtable.as_slice();
    let n = strings.len();
    let mut idx = range.start;
    while idx < range.end
        invariant
            archive.tags_wf(),
            valid_range(archive, range),
            range.start <= idx <= range.end,
            strings@ == archive.stringtable@,
            n == strings@.len(),
            forall|k: &[u8], v: &[u8]| predicate.requires((k, v)),
            forall|j: int| range.start <= j < idx ==> predicate_says(predicate, archive, j, false),
        decreases range.end - idx,
    {
        let tag = tag_of(archive, idx);
        let key_block = vstd::slice::slice_subrange(strings, tag.key_idx as usize, n);
        let value_block = vstd::slice::slice_subrange(strings, tag.value_idx as usize, n);
        let hit = predicate(key_block, value_block);
        proof {
            assert(predicate_says(predicate, archive, idx as int, hit));
        }
        if hit {
            let v = substring_raw(strings, tag.value_idx as usize);
            proof {
                let i = idx as int;
                assert(range.start <= i < range.end && predicate_says(predicate, archive, i, true)
                    && (forall|j: int| range.start <= j < i ==> predicate_says(predicate, archive, j, false))
                    && v@ == value_str(archive, i));
            }
            return Some(v);
        }
        idx = idx + 1;
    }
    None
}

/// The value of the first tag in `range` whose key is `key`.
pub fn find_tag<'a>(archive: &'a Osm, range: Range<u64>, key: &[u8]) -> (r: Option<&'a [u8]>)
    requires
        archive.tags_wf(),
        valid_range(archive, range),
    ensures
        r.is_some() == first_key_match(archive, range.start as int, range.end as int, key@).is_some(),
        r.is_some() ==> r.unwrap()@ == value_str(
            archive,
            first_key_match(archive, range.start as int, range.end as int, key@).unwrap(),
        ),
{
    let strings = archive.stringtable.as_slice();
    let n = strings.len();
    let mut idx = range.start;
    while idx < range.end
        invariant
            archive.tags_wf(),
            valid_range(archive, range),
            range.start <= idx <= range.end,
            strings@ == archive.stringtable@,
            n == strings@.len(),
            first_key_match(archive, range.start as int, range.end as int, key@)
                == first_key_match(archive, idx as int, range.end as int, key@),
        decreases range.end - idx,
    {
        let tag = tag_of(archive, idx);
        let key_block = vstd::slice::slice_subrange(strings, tag.key_idx as usize, n);
        if block_holds(key_block, key) {
            return Some(substring_raw(strings, tag.value_idx as usize));
        }
        idx = idx + 1;
    }
    None
}

/// The value of the first tag in `range` whose key is `key`; the same as
/// `find_tag`.
pub fn get_tag_raw<'a>(archive: &'a Osm, range: Range<u64>, key: &[u8]) -> (r: Option<&'a [u8]>)
    requires
        archive.tags_wf(),
        valid_range(archive, range),
    ensures
        r.is_some() == first_key_match(archive, range.start as int, range.end as int, key@).is_some(),
        r.is_some() ==> r.unwrap()@ == value_str(
            archive,
            first_key_match(archive, range.start as int, range.end as int, key@).unwrap(),
        ),
{
    find_tag(archive, range, key)
}

/// Whether the first tag in `range` whose key is `key` has the value
/// `value`. A later tag with the same key is not looked at.
pub fn has_tag(archive: &Osm, range: Range<u64>, key: &[u8], value: &[u8]) -> (r: bool)
    requires
        archive.tags_wf(),
        valid_range(archive, range),
    ensures
        r == match first_key_match(archive, range.start as int, range.end as int, key@) {
            Some(i) => block_matches(value_block(archive, i), value@),
            None => false,
        },
{
    let strings = archive.stringtable.as_slice();
    let n = strings.len();
    let mut idx = range.start;
    while idx < range.end
        invariant
            archive.tags_wf(),
            valid_range(archive, range),
            range.start <= idx <= range.end,
            strings@ == archive.stringtable@,
            n == strings@.len(),
            first_key_match(archive, range.start as int, range.end as int, key@)
                == first_key_match(archive, idx as int, range.end as int, key@),
        decreases range.end - idx,
    {
        let tag = tag_of(archive, idx);
        let key_block = vstd::slice::slice_subrange(strings, tag.key_idx as usize, n);
        if block_holds(key_block, key) {
            let value_block = vstd::slice::slice_subrange(strings, tag.value_idx as usize, n);
            return block_holds(value_block, value);
        }
        idx = idx + 1;
    }
    false
}

} // verus!
