//! The whole state of a compile, phase after phase, and the archive it
//! ends in.
use vstd::prelude::*;
use crate::compile::{
    Error, serialize_dense_nodes, serialize_ways, serialize_relations, index_relations, node_rows, way_rows,
    relation_rows, lemma_lists_len_mono, lemma_lists_len_nonneg, lemma_block_seqs,
};
use crate::ids::{IdTable, IdTableBuilder};
use crate::osm::{
    Header, Ids, Node, Osm, Relation, RelationMember, Tag, Way, ranges_ok, node_firsts, way_tag_firsts,
    way_ref_firsts, relation_firsts,
};
use crate::osmpbf::{HeaderBlock, PrimitiveBlock, lists_len, ref_ids_all, lemma_ref_ids_all_concat, way_tag_lists, relation_tag_lists,
    node_tag_list, node_tag_lists};
use crate::plan::{serialize_header, NANO};
use crate::stats::Stats;
use crate::strings::{StringTable, all_distinct, interned, interned_all, is_string_start, lemma_interned, pool_bytes};
use crate::compile::{pair_tag, rows_name, block_refs, string_views, member_rows, all_utf8, strings_room};
use crate::laws::law_offsets_start_strings;
use crate::tags::{TagSerializer, tags_distinct};

verus! {

proof fn lemma_ranges_append(a: Seq<u64>, b: Seq<u64>, start: int, end: int)
    requires
        ranges_ok(a, start),
        ranges_ok(b, end),
        forall|i: int| 0 <= i < b.len() ==> #[trigger] b[i] >= start,
        start <= end,
    ensures
        ranges_ok(a + b, end),
{
    let c = a + b;
    assert forall|i: int, j: int| 0 <= i <= j < c.len() implies #[trigger] c[i] <= #[trigger] c[j] by {
        if j < a.len() {
            assert(c[i] == a[i] && c[j] == a[j]);
        } else if i < a.len() {
            assert(c[i] == a[i] && c[j] == b[j - a.len()]);
        } else {
            assert(c[i] == b[i - a.len()] && c[j] == b[j - a.len()]);
        }
    }
    assert forall|i: int| 0 <= i < c.len() implies #[trigger] c[i] <= end by {
        if i < a.len() {
            assert(c[i] == a[i]);
        } else {
            assert(c[i] == b[i - a.len()]);
        }
    }
}

/// Starts `start + lists_len(lists, k)` never decrease and end at the total.
proof fn lemma_list_starts<T>(firsts: Seq<u64>, lists: Seq<Seq<T>>, start: int)
    requires
        firsts.len() <= lists.len(),
        start >= 0,
        start + lists_len(lists, lists.len() as int) <= u64::MAX,
        forall|k: int| 0 <= k < firsts.len() ==> #[trigger] firsts[k] == (start + lists_len(lists, k)) as u64,
    ensures
        ranges_ok(firsts, start + lists_len(lists, lists.len() as int)),
        forall|k: int| 0 <= k < firsts.len() ==> #[trigger] firsts[k] >= start,
{
    assert forall|k: int| 0 <= k < firsts.len() implies start <= #[trigger] firsts[k] <= start + lists_len(lists, lists.len() as int) by {
        lemma_lists_len_nonneg(lists, k);
        lemma_lists_len_mono(lists, k, lists.len() as int);
    }
    assert forall|i: int, j: int| 0 <= i <= j < firsts.len() implies #[trigger] firsts[i] <= #[trigger] firsts[j] by {
        lemma_lists_len_mono(lists, i, j);
        lemma_lists_len_nonneg(lists, i);
        lemma_lists_len_mono(lists, j, lists.len() as int);
    }
}

/// Reference starts of way rows never decrease and end at the total.
proof fn lemma_ref_starts(ws: Seq<crate::osmpbf::Way>, firsts: Seq<u64>, start: int)
    requires
        firsts.len() == ws.len(),
        start >= 0,
        start + ref_ids_all(ws).len() <= u64::MAX,
        forall|k: int| 0 <= k < firsts.len() ==> #[trigger] firsts[k] == (start + ref_ids_all(ws.take(k)).len()) as u64,
    ensures
        ranges_ok(firsts, start + ref_ids_all(ws).len()),
        forall|k: int| 0 <= k < firsts.len() ==> #[trigger] firsts[k] >= start,
{
    assert forall|i: int, j: int| 0 <= i <= j <= ws.len() implies ref_ids_all(ws.take(i)).len() <= ref_ids_all(ws.take(j)).len() by {
        assert(ws.take(j) == ws.take(i) + ws.take(j).skip(i));
        lemma_ref_ids_all_concat(ws.take(i), ws.take(j).skip(i));
    }
    assert(ws.take(ws.len() as int) == ws);
    assert forall|i: int, j: int| 0 <= i <= j < firsts.len() implies #[trigger] firsts[i] <= #[trigger] firsts[j] by {
        assert(ref_ids_all(ws.take(j)).len() <= ref_ids_all(ws.take(ws.len() as int)).len());
    }
    assert forall|k: int| 0 <= k < firsts.len() implies #[trigger] firsts[k] <= start + ref_ids_all(ws).len() by {
        assert(ref_ids_all(ws.take(k)).len() <= ref_ids_all(ws.take(ws.len() as int)).len());
    }
}

/// Both offsets of tag `t` start strings of `bytes`.
pub open spec fn tag_starts(bytes: Seq<u8>, t: Tag) -> bool {
    is_string_start(bytes, t.key_idx as int) && is_string_start(bytes, t.value_idx as int)
}

/// Interning strings keeps the pool's bytes as a prefix and holds each of them.
proof fn lemma_interned_all(ss: Seq<Seq<u8>>, strs: Seq<Seq<u8>>)
    requires
        all_distinct(ss),
    ensures
        all_distinct(interned_all(ss, strs)),
        pool_bytes(ss).len() <= pool_bytes(interned_all(ss, strs)).len(),
        pool_bytes(interned_all(ss, strs)).subrange(0, pool_bytes(ss).len() as int) == pool_bytes(ss),
        forall|i: int| 0 <= i < strs.len() ==> interned_all(ss, strs).contains(#[trigger] strs[i]),
        forall|x: Seq<u8>| ss.contains(x) ==> interned_all(ss, strs).contains(x),
    decreases strs.len(),
{
    if strs.len() > 0 {
        let d = strs.drop_last();
        lemma_interned_all(ss, d);
        let mid = interned_all(ss, d);
        lemma_interned(mid, strs.last());
        let out = interned(mid, strs.last());
        if !mid.contains(strs.last()) {
            assert(out.drop_last() == mid);
            assert(pool_bytes(out) == pool_bytes(mid) + strs.last() + seq![0u8]);
            assert(pool_bytes(out).subrange(0, pool_bytes(mid).len() as int) == pool_bytes(mid));
        }
        assert(pool_bytes(out).subrange(0, pool_bytes(ss).len() as int)
            == pool_bytes(out).subrange(0, pool_bytes(mid).len() as int).subrange(0, pool_bytes(ss).len() as int));
        assert forall|i: int| 0 <= i < strs.len() implies out.contains(#[trigger] strs[i]) by {
            if i < strs.len() - 1 {
                assert(d[i] == strs[i]);
                assert(mid.contains(d[i]));
                let k = mid.index_of(d[i]);
                assert(out[k] == strs[i]);
            }
        }
        assert forall|x: Seq<u8>| ss.contains(x) implies out.contains(x) by {
            assert(mid.contains(x));
            let k = mid.index_of(x);
            assert(out[k] == x);
        }
    }
}

/// Interning one string keeps the pool's bytes as a prefix.
proof fn lemma_interned_bytes(ss: Seq<Seq<u8>>, s: Seq<u8>)
    requires
        all_distinct(ss),
    ensures
        all_distinct(interned(ss, s)),
        pool_bytes(ss).len() <= pool_bytes(interned(ss, s)).len(),
        pool_bytes(interned(ss, s)).subrange(0, pool_bytes(ss).len() as int) == pool_bytes(ss),
{
    lemma_interned_all(ss, seq![s]);
    assert(seq![s].drop_last() =~= Seq::<Seq<u8>>::empty());
    assert(interned_all(ss, Seq::<Seq<u8>>::empty()) == ss);
    assert(seq![s].last() == s);
    assert(interned_all(ss, seq![s]) == interned(ss, s));
}

/// Tags whose offsets start strings of a pool keep doing so as it grows.
proof fn lemma_rows_kept_start(t: TagSerializer, b: Seq<u8>, b2: Seq<u8>)
    requires
        b.len() <= b2.len(),
        b2.subrange(0, b.len() as int) == b,
        forall|q: int| 0 <= q < t.index().len() ==> tag_starts(b, #[trigger] t.tag_of_row(q)),
    ensures
        forall|q: int| 0 <= q < t.index().len() ==> tag_starts(b2, #[trigger] t.tag_of_row(q)),
{
    assert forall|q: int| 0 <= q < t.index().len() implies tag_starts(b2, #[trigger] t.tag_of_row(q)) by {
        lemma_starts_kept(b, b2, t.tag_of_row(q).key_idx as int);
        lemma_starts_kept(b, b2, t.tag_of_row(q).value_idx as int);
    }
}

/// Offsets that start strings of a pool keep doing so as the pool grows.
proof fn lemma_starts_kept(b: Seq<u8>, b2: Seq<u8>, o: int)
    requires
        b.len() <= b2.len(),
        b2.subrange(0, b.len() as int) == b,
        is_string_start(b, o),
    ensures
        is_string_start(b2, o),
{
    if o > 0 {
        assert(b2.subrange(0, b.len() as int)[o - 1] == b2[o - 1]);
    }
}

/// Where the pairs of `lists` name strings that start in `bytes`, so do
/// the tags of the rows that `rows_name` describes.
proof fn lemma_rows_start(t: TagSerializer, refs: Seq<u64>, lists: Seq<Seq<(int, int)>>, start: int, bytes: Seq<u8>)
    requires
        rows_name(t, refs, lists, start),
        start >= 0,
        forall|k: int, q: int| 0 <= k < lists.len() && 0 <= q < lists[k].len() ==> tag_starts(bytes, #[trigger] pair_tag(refs, lists[k][q])),
    ensures
        forall|r: int| start <= r < start + lists_len(lists, lists.len() as int) ==> tag_starts(bytes, #[trigger] t.tag_of_row(r)),
    decreases lists.len(),
{
    if lists.len() > 0 {
        let d = lists.drop_last();
        let n = lists.len() - 1;
        assert forall|k: int| 0 <= k <= d.len() implies lists_len(d, k) == lists_len(lists, k) by {
            lemma_lists_len_prefix(lists, k);
        }
        assert forall|k: int, q: int| 0 <= k < d.len() && 0 <= q < d[k].len()
            implies t.tag_of_row(start + lists_len(d, k) + q) == #[trigger] pair_tag(refs, d[k][q]) by {
            assert(d[k] == lists[k]);
            assert(t.tag_of_row(start + lists_len(lists, k) + q) == pair_tag(refs, lists[k][q]));
        }
        assert forall|k: int, q: int| 0 <= k < d.len() && 0 <= q < d[k].len() implies tag_starts(bytes, #[trigger] pair_tag(refs, d[k][q])) by {
            assert(d[k] == lists[k]);
        }
        lemma_rows_start(t, refs, d, start, bytes);
        assert forall|r: int| start <= r < start + lists_len(lists, lists.len() as int) implies tag_starts(bytes, #[trigger] t.tag_of_row(r)) by {
            if r >= start + lists_len(d, d.len() as int) {
                let q = r - start - lists_len(lists, n);
                assert(lists_len(lists, lists.len() as int) == lists_len(lists, n) + lists[n].len());
                assert(t.tag_of_row(start + lists_len(lists, n) + q) == pair_tag(refs, lists[n][q]));
            }
        }
    }
}

proof fn lemma_lists_len_prefix<T>(lists: Seq<Seq<T>>, k: int)
    requires
        0 <= k < lists.len(),
    ensures
        lists_len(lists.drop_last(), k) == lists_len(lists, k),
    decreases k,
{
    if k > 0 {
        lemma_lists_len_prefix(lists, k - 1);
        assert(lists.drop_last()[k - 1] == lists[k - 1]);
    }
}

/// The offsets of a block's strings in a pool that interned them start
/// strings.
proof fn lemma_refs_start(block: &PrimitiveBlock, old_pool: Seq<Seq<u8>>, i: int)
    requires
        all_distinct(old_pool),
        0 <= i < block.stringtable@.len(),
        pool_bytes(interned_all(old_pool, string_views(block.stringtable@))).len() <= u64::MAX,
    ensures
        is_string_start(pool_bytes(interned_all(old_pool, string_views(block.stringtable@))),
            block_refs(block, interned_all(old_pool, string_views(block.stringtable@)))[i] as int),
{
    let strs = string_views(block.stringtable@);
    let pool = interned_all(old_pool, strs);
    lemma_interned_all(old_pool, strs);
    assert(strs[i] == block.stringtable@[i]@);
    assert(pool.contains(strs[i]));
    law_offsets_start_strings(pool, strs[i]);
    crate::strings::lemma_pool_holds(pool, pool.index_of(strs[i]));
    assert(block_refs(block, pool)[i] as int == crate::strings::offset_of(pool, strs[i]));
}

/// Every pair of `lists` names strings of a table of `ns` strings.
pub open spec fn pairs_in(lists: Seq<Seq<(int, int)>>, ns: int) -> bool {
    forall|k: int, q: int| 0 <= k < lists.len() && 0 <= q < lists[k].len()
        ==> 0 <= (#[trigger] lists[k][q]).0 < ns && 0 <= lists[k][q].1 < ns
}

proof fn lemma_pairs_in_concat(a: Seq<Seq<(int, int)>>, b: Seq<Seq<(int, int)>>, ns: int)
    requires
        pairs_in(a, ns),
        pairs_in(b, ns),
    ensures
        pairs_in(a + b, ns),
{
    let c = a + b;
    assert forall|k: int, q: int| 0 <= k < c.len() && 0 <= q < c[k].len()
        implies 0 <= (#[trigger] c[k][q]).0 < ns && 0 <= c[k][q].1 < ns by {
        if k < a.len() {
            assert(c[k] == a[k]);
        } else {
            assert(c[k] == b[k - a.len()]);
        }
    }
}

proof fn lemma_tag_list_in(kv: Seq<i32>, pos: int, ns: int)
    requires
        node_tag_list(kv, pos, ns).is_some(),
    ensures
        forall|q: int| 0 <= q < node_tag_list(kv, pos, ns).unwrap().0.len()
            ==> 0 <= (#[trigger] node_tag_list(kv, pos, ns).unwrap().0[q]).0 < ns
                && 0 <= node_tag_list(kv, pos, ns).unwrap().0[q].1 < ns,
    decreases kv.len() - pos,
{
    if kv[pos] != 0 {
        lemma_tag_list_in(kv, pos + 2, ns);
        let rest = node_tag_list(kv, pos + 2, ns).unwrap().0;
        let l = node_tag_list(kv, pos, ns).unwrap().0;
        assert forall|q: int| 0 <= q < l.len() implies 0 <= (#[trigger] l[q]).0 < ns && 0 <= l[q].1 < ns by {
            if q > 0 {
                assert(l[q] == rest[q - 1]);
            }
        }
    }
}

proof fn lemma_tag_lists_in(kv: Seq<i32>, pos: int, count: int, ns: int)
    requires
        node_tag_lists(kv, pos, count, ns).is_some(),
    ensures
        pairs_in(node_tag_lists(kv, pos, count, ns).unwrap(), ns),
    decreases count,
{
    if count > 0 {
        if pos >= kv.len() {
            lemma_tag_lists_in(kv, pos, count - 1, ns);
            lemma_pairs_in_concat(seq![Seq::<(int, int)>::empty()], node_tag_lists(kv, pos, count - 1, ns).unwrap(), ns);
        } else {
            let r = node_tag_list(kv, pos, ns).unwrap();
            lemma_tag_list_in(kv, pos, ns);
            lemma_tag_lists_in(kv, r.1, count - 1, ns);
            assert(pairs_in(seq![r.0], ns));
            lemma_pairs_in_concat(seq![r.0], node_tag_lists(kv, r.1, count - 1, ns).unwrap(), ns);
        }
    } else {
        assert(pairs_in(Seq::<Seq<(int, int)>>::empty(), ns));
    }
}

proof fn lemma_node_tags_in(block: &PrimitiveBlock, g: int)
    requires
        block.dense_valid(),
        0 <= g <= block.primitivegroup@.len(),
    ensures
        pairs_in(block.node_tags(g), block.stringtable@.len() as int),
    decreases g,
{
    let ns = block.stringtable@.len() as int;
    if g > 0 {
        lemma_node_tags_in(block, g - 1);
        assert(block.primitivegroup@[g - 1].dense.is_some());
        let d = block.dense_of(g - 1);
        lemma_tag_lists_in(d.keys_vals@, 0, d.id@.len() as int, ns);
        lemma_pairs_in_concat(block.node_tags(g - 1), d.tag_lists(ns), ns);
    } else {
        assert(pairs_in(Seq::<Seq<(int, int)>>::empty(), ns));
    }
}

proof fn lemma_way_tags_in(block: &PrimitiveBlock, g: int)
    requires
        block.ways_valid(),
        0 <= g <= block.primitivegroup@.len(),
    ensures
        pairs_in(way_tag_lists(block.all_ways(g)), block.stringtable@.len() as int),
    decreases g,
{
    let ns = block.stringtable@.len() as int;
    if g > 0 {
        lemma_way_tags_in(block, g - 1);
        let ws = block.primitivegroup@[g - 1].ways@;
        assert(way_tag_lists(block.all_ways(g)) =~= way_tag_lists(block.all_ways(g - 1)) + way_tag_lists(ws));
        assert forall|k: int, q: int| 0 <= k < way_tag_lists(ws).len() && 0 <= q < way_tag_lists(ws)[k].len()
            implies 0 <= (#[trigger] way_tag_lists(ws)[k][q]).0 < ns && 0 <= way_tag_lists(ws)[k][q].1 < ns by {
            assert(block.primitivegroup@[g - 1].ways@[k].valid(ns));
        }
        lemma_pairs_in_concat(way_tag_lists(block.all_ways(g - 1)), way_tag_lists(ws), ns);
    } else {
        assert(way_tag_lists(block.all_ways(0)) =~= Seq::<Seq<(int, int)>>::empty());
    }
}

proof fn lemma_relation_tags_in(block: &PrimitiveBlock, g: int)
    requires
        block.relations_valid(),
        0 <= g <= block.primitivegroup@.len(),
    ensures
        pairs_in(relation_tag_lists(block.all_relations(g)), block.stringtable@.len() as int),
    decreases g,
{
    let ns = block.stringtable@.len() as int;
    if g > 0 {
        lemma_relation_tags_in(block, g - 1);
        let rs = block.primitivegroup@[g - 1].relations@;
        assert(relation_tag_lists(block.all_relations(g)) =~= relation_tag_lists(block.all_relations(g - 1)) + relation_tag_lists(rs));
        assert forall|k: int, q: int| 0 <= k < relation_tag_lists(rs).len() && 0 <= q < relation_tag_lists(rs)[k].len()
            implies 0 <= (#[trigger] relation_tag_lists(rs)[k][q]).0 < ns && 0 <= relation_tag_lists(rs)[k][q].1 < ns by {
            assert(block.primitivegroup@[g - 1].relations@[k].valid(ns));
        }
        lemma_pairs_in_concat(relation_tag_lists(block.all_relations(g - 1)), relation_tag_lists(rs), ns);
    } else {
        assert(relation_tag_lists(block.all_relations(0)) =~= Seq::<Seq<(int, int)>>::empty());
    }
}

/// After a block was serialized, every tag index row names a tag whose
/// offsets start strings of the new pool.
proof fn lemma_block_rows_start(
    old_tags: TagSerializer,
    t: TagSerializer,
    block: &PrimitiveBlock,
    old_pool: Seq<Seq<u8>>,
    lists: Seq<Seq<(int, int)>>,
)
    requires
        all_distinct(old_pool),
        pool_bytes(interned_all(old_pool, string_views(block.stringtable@))).len() <= u64::MAX,
        forall|q: int| 0 <= q < old_tags.index().len() ==> tag_starts(pool_bytes(old_pool), #[trigger] old_tags.tag_of_row(q)),
        crate::compile::rows_kept(t, old_tags, old_tags.index().len() as int),
        rows_name(t, block_refs(block, interned_all(old_pool, string_views(block.stringtable@))), lists, old_tags.index().len() as int),
        t.index().len() == old_tags.index().len() + lists_len(lists, lists.len() as int),
        pairs_in(lists, block.stringtable@.len() as int),
    ensures
        forall|q: int| 0 <= q < t.index().len() ==> tag_starts(pool_bytes(interned_all(old_pool, string_views(block.stringtable@))), #[trigger] t.tag_of_row(q)),
{
    let pool = interned_all(old_pool, string_views(block.stringtable@));
    let bytes = pool_bytes(pool);
    let refs = block_refs(block, pool);
    let start = old_tags.index().len() as int;
    lemma_interned_all(old_pool, string_views(block.stringtable@));
    assert forall|k: int, q: int| 0 <= k < lists.len() && 0 <= q < lists[k].len() implies tag_starts(bytes, #[trigger] pair_tag(refs, lists[k][q])) by {
        let p = lists[k][q];
        lemma_refs_start(block, old_pool, p.0);
        lemma_refs_start(block, old_pool, p.1);
    }
    lemma_rows_start(t, refs, lists, start, bytes);
    assert forall|q: int| 0 <= q < t.index().len() implies tag_starts(bytes, #[trigger] t.tag_of_row(q)) by {
        if q < start {
            assert(t.tag_of_row(q) == old_tags.tag_of_row(q));
            let tg = old_tags.tag_of_row(q);
            lemma_starts_kept(pool_bytes(old_pool), bytes, tg.key_idx as int);
            lemma_starts_kept(pool_bytes(old_pool), bytes, tg.value_idx as int);
        }
    }
}

/// Every member role starts a string of `bytes`.
pub open spec fn roles_start(members: Seq<Vec<RelationMember>>, bytes: Seq<u8>) -> bool {
    forall|k: int, m: int| 0 <= k < members.len() && 0 <= m < members[k]@.len()
        ==> is_string_start(bytes, (#[trigger] members[k]@[m]).role() as int)
}

proof fn lemma_roles_kept(members: Seq<Vec<RelationMember>>, b: Seq<u8>, b2: Seq<u8>)
    requires
        b.len() <= b2.len(),
        b2.subrange(0, b.len() as int) == b,
        roles_start(members, b),
    ensures
        roles_start(members, b2),
{
    assert forall|k: int, m: int| 0 <= k < members.len() && 0 <= m < members[k]@.len()
        implies is_string_start(b2, (#[trigger] members[k]@[m]).role() as int) by {
        lemma_starts_kept(b, b2, members[k]@[m].role() as int);
    }
}

proof fn lemma_all_relations_valid(block: &PrimitiveBlock, g: int)
    requires
        block.relations_valid(),
        0 <= g <= block.primitivegroup@.len(),
    ensures
        forall|k: int| 0 <= k < block.all_relations(g).len()
            ==> (#[trigger] block.all_relations(g)[k]).valid(block.stringtable@.len() as int),
    decreases g,
{
    if g > 0 {
        lemma_all_relations_valid(block, g - 1);
        let prev = block.all_relations(g - 1);
        let rs = block.primitivegroup@[g - 1].relations@;
        assert forall|k: int| 0 <= k < block.all_relations(g).len()
            implies (#[trigger] block.all_relations(g)[k]).valid(block.stringtable@.len() as int) by {
            if k < prev.len() {
                assert(block.all_relations(g)[k] == prev[k]);
            } else {
                assert(block.all_relations(g)[k] == rs[k - prev.len()]);
                assert(block.primitivegroup@[g - 1].relations@[k - prev.len()].valid(block.stringtable@.len() as int));
            }
        }
    }
}

/// The roles of the member rows of a block's relations start strings of
/// the pool that interned the block's strings.
proof fn lemma_member_rows_start(
    block: &PrimitiveBlock,
    old_pool: Seq<Seq<u8>>,
    nt: Seq<Option<u64>>,
    wt: Seq<Option<u64>>,
    rt: Seq<Option<u64>>,
    k: int,
    m: int,
)
    requires
        block.relations_valid(),
        all_distinct(old_pool),
        pool_bytes(interned_all(old_pool, string_views(block.stringtable@))).len() <= u64::MAX,
        0 <= k < block.all_relations(block.primitivegroup@.len() as int).len(),
        0 <= m < block.all_relations(block.primitivegroup@.len() as int)[k].memids@.len(),
    ensures
        is_string_start(pool_bytes(interned_all(old_pool, string_views(block.stringtable@))),
            member_rows(block.all_relations(block.primitivegroup@.len() as int)[k], nt, wt, rt,
                block_refs(block, interned_all(old_pool, string_views(block.stringtable@))))[m].role() as int),
{
    let r = block.all_relations(block.primitivegroup@.len() as int)[k];
    lemma_all_relations_valid(block, block.primitivegroup@.len() as int);
    assert(r.valid(block.stringtable@.len() as int));
    assert(0 <= r.roles_sid@[m] < block.stringtable@.len());
    lemma_refs_start(block, old_pool, r.roles_sid@[m] as int);
}

/// The state of a compile: the string pool, the tags, and every column
/// with the id table of its entities.
pub struct ArchiveBuilder {
    stringtable: StringTable,
    tags: TagSerializer,
    header: Header,
    nodes: Vec<Node>,
    node_ids: Option<Vec<u64>>,
    nodes_table: IdTableBuilder,
    ways: Vec<Way>,
    way_ids: Option<Vec<u64>>,
    ways_table: IdTableBuilder,
    nodes_index: Vec<Option<u64>>,
    relations: Vec<Relation>,
    relation_ids: Option<Vec<u64>>,
    relation_members: Vec<Vec<RelationMember>>,
    relations_table: IdTableBuilder,
    stats: Stats,
}

impl ArchiveBuilder {
    pub closed spec fn wf(&self) -> bool {
        &&& self.stringtable.wf()
        &&& self.tags.wf()
        &&& self.nodes_table.wf()
        &&& self.ways_table.wf()
        &&& self.relations_table.wf()
        &&& ranges_ok(node_firsts(self.nodes@), self.tags.index().len() as int)
        &&& ranges_ok(way_tag_firsts(self.ways@), self.tags.index().len() as int)
        &&& ranges_ok(way_ref_firsts(self.ways@), self.nodes_index@.len() as int)
        &&& ranges_ok(relation_firsts(self.relations@), self.tags.index().len() as int)
        &&& forall|q: int| 0 <= q < self.tags.index().len() ==> tag_starts(self.stringtable.bytes(), #[trigger] self.tags.tag_of_row(q))
        &&& roles_start(self.relation_members@, self.stringtable.bytes())
        &&& self.node_ids.is_some() == self.way_ids.is_some()
        &&& self.node_ids.is_some() == self.relation_ids.is_some()
    }

    /// Whether the ids of the entities are kept.
    pub closed spec fn keeps_ids(&self) -> bool {
        self.node_ids.is_some()
    }

    /// The ids inserted in the node, way and relation tables.
    pub closed spec fn node_slots(&self) -> Seq<Option<u64>> {
        self.nodes_table@
    }

    pub closed spec fn way_slots(&self) -> Seq<Option<u64>> {
        self.ways_table@
    }

    pub closed spec fn relation_slots(&self) -> Seq<Option<u64>> {
        self.relations_table@
    }

    /// The columns so far.
    pub closed spec fn nodes(&self) -> Seq<Node> {
        self.nodes@
    }

    pub closed spec fn ways(&self) -> Seq<Way> {
        self.ways@
    }

    pub closed spec fn relations(&self) -> Seq<Relation> {
        self.relations@
    }

    pub closed spec fn nodes_index(&self) -> Seq<Option<u64>> {
        self.nodes_index@
    }

    pub closed spec fn header(&self) -> Header {
        self.header
    }

    /// The member rows of each relation.
    pub closed spec fn members(&self) -> Seq<Vec<RelationMember>> {
        self.relation_members@
    }

    /// The OSM ids kept for the nodes, ways and relations, where ids are kept.
    pub closed spec fn node_ids(&self) -> Option<Seq<u64>> {
        match self.node_ids { Some(v) => Some(v@), None => None }
    }

    pub closed spec fn way_ids(&self) -> Option<Seq<u64>> {
        match self.way_ids { Some(v) => Some(v@), None => None }
    }

    pub closed spec fn relation_ids(&self) -> Option<Seq<u64>> {
        match self.relation_ids { Some(v) => Some(v@), None => None }
    }

    /// The strings of the pool.
    pub closed spec fn pool(&self) -> Seq<Seq<u8>> {
        self.stringtable@
    }

    /// The tag index rows.
    pub closed spec fn tag_index(&self) -> Seq<u64> {
        self.tags.index()
    }

    /// The tag that tag index row `q` names.
    pub closed spec fn tag_of_row(&self, q: int) -> Tag {
        self.tags.tag_of_row(q)
    }

    /// The deduplicated tags and their index rows.
    pub closed spec fn tag_state(&self) -> TagSerializer {
        self.tags
    }

    /// The counts so far.
    pub closed spec fn stats(&self) -> Stats {
        self.stats
    }

    /// An empty compile; `keep_ids` keeps the OSM id of every entity.
    pub fn new(keep_ids: bool) -> (r: Self)
        ensures
            r.wf(),
            r.keeps_ids() == keep_ids,
            r.stats() == Stats::new_spec(),
    {
        let r = ArchiveBuilder {
            stringtable: StringTable::new(),
            tags: TagSerializer::new(),
            header: Header {
                coord_scale: 0,
                bbox_left: 0,
                bbox_right: 0,
                bbox_top: 0,
                bbox_bottom: 0,
                writingprogram_idx: 0,
                source_idx: 0,
                replication_timestamp: 0,
                replication_sequence_number: 0,
                replication_base_url_idx: 0,
            },
            nodes: Vec::new(),
            node_ids: if keep_ids { Some(Vec::new()) } else { None },
            nodes_table: IdTableBuilder::new(),
            ways: Vec::new(),
            way_ids: if keep_ids { Some(Vec::new()) } else { None },
            ways_table: IdTableBuilder::new(),
            nodes_index: Vec::new(),
            relations: Vec::new(),
            relation_ids: if keep_ids { Some(Vec::new()) } else { None },
            relation_members: Vec::new(),
            relations_table: IdTableBuilder::new(),
            stats: Stats::new(),
        };
        proof {
            assert(node_firsts(r.nodes@) =~= Seq::<u64>::empty());
            assert(way_tag_firsts(r.ways@) =~= Seq::<u64>::empty());
            assert(way_ref_firsts(r.ways@) =~= Seq::<u64>::empty());
            assert(relation_firsts(r.relations@) =~= Seq::<u64>::empty());
        }
        r
    }

    /// Writes the header row; see `serialize_header`.
    pub fn set_header(&mut self, header_block: &HeaderBlock, coord_scale: i32) -> (r: Result<(), Error>)
        requires
            old(self).wf(),
            0 < coord_scale <= NANO,
        ensures
            final(self).wf(),
            final(self).stats() == old(self).stats(),
            r is Err <==> pool_bytes(old(self).pool()).len() + crate::plan::header_room(header_block) > usize::MAX,
            r is Err ==> final(self).pool() == old(self).pool() && final(self).header() == old(self).header(),
            r is Ok ==> final(self).pool() == crate::plan::header_pool(old(self).pool(), header_block),
            r is Ok ==> final(self).header() == crate::plan::header_row(header_block, coord_scale, final(self).pool()),
            final(self).nodes() == old(self).nodes(),
            final(self).tag_index() == old(self).tag_index(),
    {
        let ghost pool0 = self.stringtable@;
        proof {
            self.stringtable.lemma_wf();
        }
        let h = serialize_header(header_block, coord_scale, &mut self.stringtable);
        proof {
            if h is Ok {
                let pool1 = interned(pool0, crate::plan::writing_program());
                lemma_interned_bytes(pool0, crate::plan::writing_program());
                let pool2 = match &header_block.source { Some(s) => interned(pool1, s@), None => pool1 };
                match &header_block.source { Some(s) => lemma_interned_bytes(pool1, s@), None => {} }
                match &header_block.osmosis_replication_base_url { Some(s) => lemma_interned_bytes(pool2, s@), None => {} }
                let b0 = pool_bytes(pool0);
                let b1 = pool_bytes(pool1);
                let b2 = pool_bytes(pool2);
                let b3 = self.stringtable.bytes();
                assert(b2.subrange(0, b0.len() as int) == b2.subrange(0, b1.len() as int).subrange(0, b0.len() as int));
                assert(b3.subrange(0, b0.len() as int) == b3.subrange(0, b2.len() as int).subrange(0, b0.len() as int));
                lemma_rows_kept_start(self.tags, b0, b3);
                lemma_roles_kept(self.relation_members@, b0, b3);
            }
        }
        match h {
            Ok(h) => {
                self.header = h;
                Ok(())
            },
            Err(e) => Err(e),
        }
    }

    /// Serializes a block of dense nodes; see `serialize_dense_nodes`.
    pub fn add_dense_nodes(&mut self, block: &PrimitiveBlock, granularity: i32) -> (r: Result<(), Error>)
        requires
            old(self).wf(),
            granularity > 0,
        ensures
            final(self).wf(),
            (r == Err::<(), Error>(Error::InvalidBlock)) <==> !block.dense_valid(),
            (r == Err::<(), Error>(Error::TooManyEntities)) <==> block.dense_valid()
                && old(self).node_slots().len() + block.dense_before(block.primitivegroup@.len() as int) > crate::ids::MAX_IDS,
            (r == Err::<(), Error>(Error::NonUtf8String)) <==> block.dense_valid()
                && old(self).node_slots().len() + block.dense_before(block.primitivegroup@.len() as int) <= crate::ids::MAX_IDS
                && !all_utf8(string_views(block.stringtable@)),
            (r == Err::<(), Error>(Error::StringPoolFull)) <==> block.dense_valid()
                && old(self).node_slots().len() + block.dense_before(block.primitivegroup@.len() as int) <= crate::ids::MAX_IDS
                && all_utf8(string_views(block.stringtable@))
                && pool_bytes(old(self).pool()).len() + strings_room(string_views(block.stringtable@)) > usize::MAX,
            r is Ok <==> block.dense_valid()
                && old(self).node_slots().len() + block.dense_before(block.primitivegroup@.len() as int) <= crate::ids::MAX_IDS
                && all_utf8(string_views(block.stringtable@))
                && pool_bytes(old(self).pool()).len() + strings_room(string_views(block.stringtable@)) <= usize::MAX,
            r is Err ==> final(self).nodes() == old(self).nodes() && final(self).node_slots() == old(self).node_slots()
                && final(self).node_ids() == old(self).node_ids() && final(self).stats() == old(self).stats()
                && final(self).pool() == old(self).pool() && final(self).tag_index() == old(self).tag_index(),
            r is Ok ==> {
                let gs = block.primitivegroup@.len() as int;
                let start = old(self).tag_index().len() as int;
                &&& final(self).pool() == interned_all(old(self).pool(), string_views(block.stringtable@))
                &&& final(self).nodes() == old(self).nodes() + node_rows(block.node_lats(granularity, gs),
                    block.node_lons(granularity, gs), block.node_tags(gs), start)
                &&& final(self).node_slots() == old(self).node_slots() + block.node_ids(gs).map_values(|x: u64| Some(x))
                &&& old(self).node_ids() is Some ==> final(self).node_ids() == Some(old(self).node_ids()->Some_0 + block.node_ids(gs))
                &&& old(self).node_ids() is None ==> final(self).node_ids() is None
                &&& final(self).stats() == (Stats {
                    num_nodes: old(self).stats().num_nodes.saturating_add(block.dense_before(gs) as usize),
                    ..old(self).stats()
                })
                &&& final(self).tag_index().len() == start + lists_len(block.node_tags(gs), block.node_tags(gs).len() as int)
                &&& rows_name(final(self).tag_state(), block_refs(block, final(self).pool()), block.node_tags(gs), start)
            },
    {
        let ghost start = self.tags.index().len() as int;
        let ghost old_nodes = self.nodes@;
        let ghost old_tags = self.tags;
        let ghost old_pool = self.stringtable@;
        proof {
            self.tags.lemma_wf();
            self.stringtable.lemma_wf();
        }
        let r = serialize_dense_nodes(block, granularity, &mut self.nodes, &mut self.node_ids,
            &mut self.nodes_table, &mut self.stringtable, &mut self.tags);
        match r {
            Ok(s) => {
                self.stats.num_nodes = self.stats.num_nodes.saturating_add(s.num_nodes);
                proof {
                    let gs = block.primitivegroup@.len() as int;
                    lemma_block_seqs(block, granularity, gs);
                    let lists = block.node_tags(gs);
                    let rows = node_rows(block.node_lats(granularity, gs), block.node_lons(granularity, gs), lists, start);
                    self.tags.lemma_wf();
                    lemma_lists_len_nonneg(lists, lists.len() as int);
                    assert(self.tags.index().len() >= start);
                    assert(node_firsts(self.nodes@) =~= node_firsts(old_nodes) + node_firsts(rows));
                    lemma_list_starts(node_firsts(rows), lists, start);
                    lemma_ranges_append(node_firsts(old_nodes), node_firsts(rows), start,
                        start + lists_len(lists, lists.len() as int));
                    old_tags.lemma_wf();
                    self.stringtable.lemma_wf();
                    lemma_node_tags_in(block, gs);
                    lemma_block_rows_start(old_tags, self.tags, block, old_pool, lists);
                    lemma_interned_all(old_pool, string_views(block.stringtable@));
                    lemma_roles_kept(self.relation_members@, pool_bytes(old_pool), self.stringtable.bytes());
                    assert(self.stringtable@ == interned_all(old_pool, string_views(block.stringtable@)));
                }
                Ok(())
            },
            Err(e) => {
                proof {
                    assert forall|q: int| 0 <= q < self.tags.index().len()
                        implies tag_starts(self.stringtable.bytes(), #[trigger] self.tags.tag_of_row(q)) by {
                        assert(self.tags.tag_of_row(q) == old_tags.tag_of_row(q));
                    }
                }
                Err(e)
            },
        }
    }

    /// Serializes a block of ways with its resolved node references; see
    /// `serialize_ways`.
    pub fn add_ways(&mut self, block: &PrimitiveBlock, resolved: &[Option<u64>]) -> (r: Result<(), Error>)
        requires
            old(self).wf(),
        ensures
            final(self).wf(),
            (r == Err::<(), Error>(Error::Internal)) <==> resolved@.len() != ref_ids_all(block.all_ways(block.primitivegroup@.len() as int)).len(),
            (r == Err::<(), Error>(Error::InvalidBlock)) <==> resolved@.len() == ref_ids_all(block.all_ways(block.primitivegroup@.len() as int)).len() && !block.ways_valid(),
            (r == Err::<(), Error>(Error::TooManyEntities)) <==> resolved@.len() == ref_ids_all(block.all_ways(block.primitivegroup@.len() as int)).len() && block.ways_valid()
                && old(self).way_slots().len() + block.all_ways(block.primitivegroup@.len() as int).len() > crate::ids::MAX_IDS,
            (r == Err::<(), Error>(Error::NonUtf8String)) <==> resolved@.len() == ref_ids_all(block.all_ways(block.primitivegroup@.len() as int)).len() && block.ways_valid()
                && old(self).way_slots().len() + block.all_ways(block.primitivegroup@.len() as int).len() <= crate::ids::MAX_IDS
                && !all_utf8(string_views(block.stringtable@)),
            (r == Err::<(), Error>(Error::StringPoolFull)) <==> resolved@.len() == ref_ids_all(block.all_ways(block.primitivegroup@.len() as int)).len() && block.ways_valid()
                && old(self).way_slots().len() + block.all_ways(block.primitivegroup@.len() as int).len() <= crate::ids::MAX_IDS
                && all_utf8(string_views(block.stringtable@))
                && pool_bytes(old(self).pool()).len() + strings_room(string_views(block.stringtable@)) > usize::MAX,
            r is Ok <==> resolved@.len() == ref_ids_all(block.all_ways(block.primitivegroup@.len() as int)).len() && block.ways_valid()
                && old(self).way_slots().len() + block.all_ways(block.primitivegroup@.len() as int).len() <= crate::ids::MAX_IDS
                && all_utf8(string_views(block.stringtable@))
                && pool_bytes(old(self).pool()).len() + strings_room(string_views(block.stringtable@)) <= usize::MAX,
            r is Err ==> final(self).way_ids() == old(self).way_ids() && final(self).stats() == old(self).stats(),
            r is Err ==> final(self).ways() == old(self).ways() && final(self).way_slots() == old(self).way_slots()
                && final(self).nodes_index() == old(self).nodes_index()
                && final(self).pool() == old(self).pool() && final(self).tag_index() == old(self).tag_index(),
            r is Ok ==> {
                let ws = block.all_ways(block.primitivegroup@.len() as int);
                let start = old(self).tag_index().len() as int;
                &&& final(self).pool() == interned_all(old(self).pool(), string_views(block.stringtable@))
                &&& final(self).ways() == old(self).ways() + way_rows(ws, start, old(self).nodes_index().len() as int)
                &&& final(self).way_slots() == old(self).way_slots() + crate::compile::way_ids_of(ws).map_values(|x: u64| Some(x))
                &&& final(self).nodes_index() == old(self).nodes_index() + resolved@
                &&& old(self).way_ids() is Some ==> final(self).way_ids() == Some(old(self).way_ids()->Some_0 + crate::compile::way_ids_of(ws))
                &&& old(self).way_ids() is None ==> final(self).way_ids() is None
                &&& final(self).stats() == (Stats {
                    num_ways: old(self).stats().num_ways.saturating_add(ws.len() as usize),
                    ..old(self).stats()
                })
                &&& final(self).tag_index().len() == start + lists_len(way_tag_lists(ws), ws.len() as int)
                &&& rows_name(final(self).tag_state(), block_refs(block, final(self).pool()), way_tag_lists(ws), start)
            },
    {
        let n_resolved = resolved.len();
        match crate::osmpbf::ref_ids_count(block) {
            Some(n) => {
                if n != n_resolved {
                    return Err(Error::Internal);
                }
            },
            None => {
                return Err(Error::Internal);
            },
        }
        let ghost start = self.tags.index().len() as int;
        let ghost rs = self.nodes_index@.len() as int;
        let ghost old_ways = self.ways@;
        let ghost old_tags = self.tags;
        let ghost old_pool = self.stringtable@;
        proof {
            self.tags.lemma_wf();
            self.stringtable.lemma_wf();
        }
        let r = serialize_ways(block, resolved, &mut self.ways, &mut self.way_ids, &mut self.ways_table,
            &mut self.stringtable, &mut self.tags, &mut self.nodes_index);
        match r {
            Ok(s) => {
                self.stats.num_ways = self.stats.num_ways.saturating_add(s.num_ways);
                proof {
                    let ws = block.all_ways(block.primitivegroup@.len() as int);
                    let lists = way_tag_lists(ws);
                    let rows = way_rows(ws, start, rs);
                    self.tags.lemma_wf();
                    lemma_lists_len_nonneg(lists, lists.len() as int);
                    assert(self.nodes_index.len() == self.nodes_index@.len());
                    assert(way_tag_firsts(self.ways@) =~= way_tag_firsts(old_ways) + way_tag_firsts(rows));
                    assert(way_ref_firsts(self.ways@) =~= way_ref_firsts(old_ways) + way_ref_firsts(rows));
                    lemma_list_starts(way_tag_firsts(rows), lists, start);
                    lemma_ranges_append(way_tag_firsts(old_ways), way_tag_firsts(rows), start,
                        start + lists_len(lists, lists.len() as int));
                    lemma_ref_starts(ws, way_ref_firsts(rows), rs);
                    lemma_ranges_append(way_ref_firsts(old_ways), way_ref_firsts(rows), rs,
                        rs + ref_ids_all(ws).len());
                    self.stringtable.lemma_wf();
                    lemma_way_tags_in(block, block.primitivegroup@.len() as int);
                    lemma_block_rows_start(old_tags, self.tags, block, old_pool, lists);
                    lemma_interned_all(old_pool, string_views(block.stringtable@));
                    lemma_roles_kept(self.relation_members@, pool_bytes(old_pool), self.stringtable.bytes());
                    assert(self.stringtable@ == interned_all(old_pool, string_views(block.stringtable@)));
                }
                Ok(())
            },
            Err(e) => {
                proof {
                    assert forall|q: int| 0 <= q < self.tags.index().len()
                        implies tag_starts(self.stringtable.bytes(), #[trigger] self.tags.tag_of_row(q)) by {
                        assert(self.tags.tag_of_row(q) == old_tags.tag_of_row(q));
                    }
                }
                Err(e)
            },
        }
    }

    /// Adds the counts of a resolution of way references.
    pub fn add_stats(&mut self, s: Stats)
        requires
            old(self).wf(),
        ensures
            final(self).wf(),
            final(self).stats().num_nodes == old(self).stats().num_nodes.saturating_add(s.num_nodes),
            final(self).stats().num_ways == old(self).stats().num_ways.saturating_add(s.num_ways),
            final(self).stats().num_relations == old(self).stats().num_relations.saturating_add(s.num_relations),
            final(self).stats().num_unresolved_node_ids == old(self).stats().num_unresolved_node_ids.saturating_add(s.num_unresolved_node_ids),
            final(self).stats().num_unresolved_way_ids == old(self).stats().num_unresolved_way_ids.saturating_add(s.num_unresolved_way_ids),
            final(self).stats().num_unresolved_rel_ids == old(self).stats().num_unresolved_rel_ids.saturating_add(s.num_unresolved_rel_ids),
            final(self).nodes() == old(self).nodes(),
            final(self).ways() == old(self).ways(),
            final(self).relations() == old(self).relations(),
    {
        self.stats.num_nodes = self.stats.num_nodes.saturating_add(s.num_nodes);
        self.stats.num_ways = self.stats.num_ways.saturating_add(s.num_ways);
        self.stats.num_relations = self.stats.num_relations.saturating_add(s.num_relations);
        self.stats.num_unresolved_node_ids = self.stats.num_unresolved_node_ids.saturating_add(s.num_unresolved_node_ids);
        self.stats.num_unresolved_way_ids = self.stats.num_unresolved_way_ids.saturating_add(s.num_unresolved_way_ids);
        self.stats.num_unresolved_rel_ids = self.stats.num_unresolved_rel_ids.saturating_add(s.num_unresolved_rel_ids);
    }

    /// Ends the way phase: appends the sentinel way, which closes the last
    /// way's tag and node ranges, and freezes the way table.
    pub fn finish_ways(&mut self) -> (r: IdTable)
        requires
            old(self).wf(),
        ensures
            final(self).wf(),
            r.wf(),
            r@ == old(self).way_slots(),
            final(self).ways() == old(self).ways().push(Way {
                tag_first_idx: old(self).tag_index().len() as u64,
                ref_first_idx: old(self).nodes_index().len() as u64,
            }),
    {
        proof {
            self.tags.lemma_wf();
        }
        let end = self.tags.next_index();
        let refs_end = self.nodes_index.len() as u64;
        let ghost old_ways = self.ways@;
        self.ways.push(Way { tag_first_idx: end, ref_first_idx: refs_end });
        proof {
            assert(way_tag_firsts(self.ways@) =~= way_tag_firsts(old_ways) + seq![end]);
            assert(way_ref_firsts(self.ways@) =~= way_ref_firsts(old_ways) + seq![refs_end]);
            lemma_ranges_append(way_tag_firsts(old_ways), seq![end], end as int, end as int);
            lemma_ranges_append(way_ref_firsts(old_ways), seq![refs_end], refs_end as int, refs_end as int);
        }
        let mut table = IdTableBuilder::new();
        std::mem::swap(&mut table, &mut self.ways_table);
        table.build()
    }

    /// Inserts the relation ids of a block; see `index_relations`.
    pub fn index_relations(&mut self, block: &PrimitiveBlock) -> (r: Result<(), Error>)
        requires
            old(self).wf(),
        ensures
            final(self).wf(),
            r is Err <==> old(self).relation_slots().len() + block.all_relations(block.primitivegroup@.len() as int).len() > crate::ids::MAX_IDS,
            r is Err ==> final(self).relation_slots() == old(self).relation_slots(),
            r is Ok ==> final(self).relation_slots() == old(self).relation_slots()
                + crate::compile::relation_ids_of(block.all_relations(block.primitivegroup@.len() as int)).map_values(|x: u64| Some(x)),
    {
        index_relations(block, &mut self.relations_table)
    }

    /// Freezes the relation table built by `index_relations`.
    pub fn build_relations_index(&mut self) -> (r: IdTable)
        requires
            old(self).wf(),
        ensures
            final(self).wf(),
            r.wf(),
            r@ == old(self).relation_slots(),
    {
        let mut table = IdTableBuilder::new();
        std::mem::swap(&mut table, &mut self.relations_table);
        table.build()
    }

    /// Serializes a block of relations; see `serialize_relations`.
    pub fn add_relations(
        &mut self,
        block: &PrimitiveBlock,
        nodes_id_to_idx: &IdTable,
        ways_id_to_idx: &IdTable,
        relations_id_to_idx: &IdTable,
    ) -> (r: Result<(), Error>)
        requires
            old(self).wf(),
            nodes_id_to_idx.wf(),
            ways_id_to_idx.wf(),
            relations_id_to_idx.wf(),
        ensures
            final(self).wf(),
            (r == Err::<(), Error>(Error::InvalidBlock)) <==> !block.relations_valid(),
            (r == Err::<(), Error>(Error::NonUtf8String)) <==> block.relations_valid()
                && !all_utf8(string_views(block.stringtable@)),
            (r == Err::<(), Error>(Error::StringPoolFull)) <==> block.relations_valid()
                && all_utf8(string_views(block.stringtable@))
                && pool_bytes(old(self).pool()).len() + strings_room(string_views(block.stringtable@)) > usize::MAX,
            r is Ok <==> block.relations_valid()
                && all_utf8(string_views(block.stringtable@))
                && pool_bytes(old(self).pool()).len() + strings_room(string_views(block.stringtable@)) <= usize::MAX,
            r is Err ==> final(self).relations() == old(self).relations() && final(self).members() == old(self).members()
                && final(self).relation_ids() == old(self).relation_ids() && final(self).stats() == old(self).stats()
                && final(self).pool() == old(self).pool() && final(self).tag_index() == old(self).tag_index(),
            r is Ok ==> {
                let rs = block.all_relations(block.primitivegroup@.len() as int);
                let start = old(self).tag_index().len() as int;
                &&& final(self).pool() == interned_all(old(self).pool(), string_views(block.stringtable@))
                &&& final(self).relations() == old(self).relations() + relation_rows(rs, start)
                &&& old(self).relation_ids() is Some ==> final(self).relation_ids() == Some(old(self).relation_ids()->Some_0 + crate::compile::relation_ids_of(rs))
                &&& old(self).relation_ids() is None ==> final(self).relation_ids() is None
                &&& final(self).members().len() == old(self).members().len() + rs.len()
                &&& forall|k: int| 0 <= k < old(self).members().len() ==> #[trigger] final(self).members()[k] == old(self).members()[k]
                &&& forall|k: int| 0 <= k < rs.len() ==> #[trigger] final(self).members()[old(self).members().len() + k]@
                    == crate::compile::member_rows_all(rs, nodes_id_to_idx@, ways_id_to_idx@, relations_id_to_idx@,
                        block_refs(block, final(self).pool()))[k]
                &&& final(self).stats() == (Stats {
                    num_relations: old(self).stats().num_relations.saturating_add(crate::compile::sat(rs.len() as int)),
                    num_unresolved_node_ids: old(self).stats().num_unresolved_node_ids.saturating_add(crate::compile::sat(
                        crate::compile::count_absent_all(crate::compile::member_rows_all(rs, nodes_id_to_idx@, ways_id_to_idx@,
                            relations_id_to_idx@, block_refs(block, final(self).pool())), 0))),
                    num_unresolved_way_ids: old(self).stats().num_unresolved_way_ids.saturating_add(crate::compile::sat(
                        crate::compile::count_absent_all(crate::compile::member_rows_all(rs, nodes_id_to_idx@, ways_id_to_idx@,
                            relations_id_to_idx@, block_refs(block, final(self).pool())), 1))),
                    num_unresolved_rel_ids: old(self).stats().num_unresolved_rel_ids.saturating_add(crate::compile::sat(
                        crate::compile::count_absent_all(crate::compile::member_rows_all(rs, nodes_id_to_idx@, ways_id_to_idx@,
                            relations_id_to_idx@, block_refs(block, final(self).pool())), 2))),
                    ..old(self).stats()
                })
                &&& final(self).tag_index().len() == start + lists_len(relation_tag_lists(rs), rs.len() as int)
                &&& rows_name(final(self).tag_state(), block_refs(block, final(self).pool()), relation_tag_lists(rs), start)
            },
    {
        let ghost start = self.tags.index().len() as int;
        let ghost old_rel = self.relations@;
        let ghost old_members = self.relation_members@;
        let ghost old_tags = self.tags;
        let ghost old_pool = self.stringtable@;
        proof {
            self.tags.lemma_wf();
            self.stringtable.lemma_wf();
        }
        let r = serialize_relations(block, nodes_id_to_idx, ways_id_to_idx, relations_id_to_idx,
            &mut self.stringtable, &mut self.relations, &mut self.relation_ids, &mut self.relation_members, &mut self.tags);
        match r {
            Ok(s) => {
                self.stats.num_relations = self.stats.num_relations.saturating_add(s.num_relations);
                self.stats.num_unresolved_node_ids = self.stats.num_unresolved_node_ids.saturating_add(s.num_unresolved_node_ids);
                self.stats.num_unresolved_way_ids = self.stats.num_unresolved_way_ids.saturating_add(s.num_unresolved_way_ids);
                self.stats.num_unresolved_rel_ids = self.stats.num_unresolved_rel_ids.saturating_add(s.num_unresolved_rel_ids);
                proof {
                    let rs = block.all_relations(block.primitivegroup@.len() as int);
                    let lists = relation_tag_lists(rs);
                    let rows = relation_rows(rs, start);
                    self.tags.lemma_wf();
                    lemma_lists_len_nonneg(lists, lists.len() as int);
                    assert(relation_firsts(self.relations@) =~= relation_firsts(old_rel) + relation_firsts(rows));
                    lemma_list_starts(relation_firsts(rows), lists, start);
                    lemma_ranges_append(relation_firsts(old_rel), relation_firsts(rows), start,
                        start + lists_len(lists, lists.len() as int));
                    self.stringtable.lemma_wf();
                    lemma_relation_tags_in(block, block.primitivegroup@.len() as int);
                    lemma_block_rows_start(old_tags, self.tags, block, old_pool, lists);
                    lemma_interned_all(old_pool, string_views(block.stringtable@));
                    lemma_roles_kept(old_members, pool_bytes(old_pool), self.stringtable.bytes());
                    let bytes = self.stringtable.bytes();
                    let mem = self.relation_members@;
                    assert forall|k: int, m: int| 0 <= k < mem.len() && 0 <= m < mem[k]@.len()
                        implies is_string_start(bytes, (#[trigger] mem[k]@[m]).role() as int) by {
                        if k < old_members.len() {
                            assert(mem[k] == old_members[k]);
                        } else {
                            let k2 = k - old_members.len();
                            assert(mem[old_members.len() + k2]@ == crate::compile::member_rows_all(rs, nodes_id_to_idx@, ways_id_to_idx@,
                                relations_id_to_idx@, block_refs(block, self.stringtable@))[k2]);
                            lemma_member_rows_start(block, old_pool, nodes_id_to_idx@, ways_id_to_idx@, relations_id_to_idx@, k2, m);
                        }
                    }
                    assert(self.stringtable@ == interned_all(old_pool, string_views(block.stringtable@)));
                }
                Ok(())
            },
            Err(e) => {
                proof {
                    assert forall|q: int| 0 <= q < self.tags.index().len()
                        implies tag_starts(self.stringtable.bytes(), #[trigger] self.tags.tag_of_row(q)) by {
                        assert(self.tags.tag_of_row(q) == old_tags.tag_of_row(q));
                    }
                }
                Err(e)
            },
        }
    }

    /// Ends the compile: appends the sentinel relation and hands out the
    /// archive and the counts.
    pub fn finish(self) -> (r: (Osm, Stats))
        requires
            self.wf(),
        ensures
            r.0.ranges_wf(),
            tags_distinct(r.0.tags@),
            forall|i: int| 0 <= i < r.0.tags_index@.len() ==> #[trigger] r.0.tags_index@[i] < r.0.tags@.len(),
            r.0.relations@.len() >= 1,
            r.0.relations@.last().tag_first_idx == r.0.tags_index@.len(),
            forall|t: int| 0 <= t < r.0.tags@.len() ==> tag_starts(r.0.stringtable@, #[trigger] r.0.tags@[t]),
            roles_start(r.0.relation_members@, r.0.stringtable@),
            r.0.header == self.header(),
            r.0.nodes@ == self.nodes(),
            r.0.ways@ == self.ways(),
            r.0.relations@ == self.relations().push(Relation { tag_first_idx: self.tag_index().len() as u64 }),
            r.0.tags_index@ == self.tag_index(),
            r.0.nodes_index@ == self.nodes_index(),
            r.0.stringtable@ == pool_bytes(self.pool()),
            r.0.relation_members@ == self.members(),
            r.0.ids is Some == self.node_ids() is Some,
            r.0.ids is Some ==> r.0.ids->Some_0.nodes@ == self.node_ids()->Some_0
                && r.0.ids->Some_0.ways@ == self.way_ids()->Some_0
                && r.0.ids->Some_0.relations@ == self.relation_ids()->Some_0,
            r.1 == self.stats(),
    {
        let mut relations = self.relations;
        proof {
            self.tags.lemma_wf();
        }
        let end = self.tags.next_index();
        let ghost old_rel = relations@;
        relations.push(Relation { tag_first_idx: end });
        proof {
            assert(relation_firsts(relations@) =~= relation_firsts(old_rel) + seq![end]);
            lemma_ranges_append(relation_firsts(old_rel), seq![end], end as int, end as int);
        }
        proof {
            assert forall|t: int| 0 <= t < self.tags.tags().len() implies tag_starts(self.stringtable.bytes(), #[trigger] self.tags.tags()[t]) by {
                let q = self.tags.named_by(t);
                assert(self.tags.tag_of_row(q) == self.tags.tags()[t]);
            }
        }
        let (tags, tags_index) = self.tags.close();
        let ids = match (self.node_ids, self.way_ids, self.relation_ids) {
            (Some(n), Some(w), Some(r)) => Some(Ids { nodes: n, ways: w, relations: r }),
            _ => None,
        };
        let osm = Osm {
            header: self.header,
            nodes: self.nodes,
            ways: self.ways,
            relations,
            tags,
            tags_index,
            nodes_index: self.nodes_index,
            relation_members: self.relation_members,
            stringtable: self.stringtable.into_bytes(),
            ids,
        };
        (osm, self.stats)
    }

    /// Ends the node phase: appends the sentinel node, whose range start
    /// closes the last node's tags, and freezes the node table.
    pub fn finish_nodes(&mut self) -> (r: IdTable)
        requires
            old(self).wf(),
        ensures
            final(self).wf(),
            r.wf(),
            r@ == old(self).node_slots(),
            final(self).nodes() == old(self).nodes().push(Node { lat: 0, lon: 0, tag_first_idx: old(self).tag_index().len() as u64 }),
    {
        proof {
            self.tags.lemma_wf();
        }
        let end = self.tags.next_index();
        let ghost old_nodes = self.nodes@;
        self.nodes.push(Node { lat: 0, lon: 0, tag_first_idx: end });
        proof {
            assert(node_firsts(self.nodes@) =~= node_firsts(old_nodes) + seq![end]);
            lemma_ranges_append(node_firsts(old_nodes), seq![end], end as int, end as int);
        }
        let mut table = IdTableBuilder::new();
        std::mem::swap(&mut table, &mut self.nodes_table);
        table.build()
    }
}

} // verus!
