//! The entity serializers of the compiler: they turn decoded blocks into
//! archive rows, intern strings and tags, and rewrite ids as dense positions.
use vstd::prelude::*;
use crate::ids::{IdTable, IdTableBuilder, MAX_IDS};
use crate::osm::{Node, Tag, RelationMember};
use crate::osm;
use crate::ids::position_of;
use crate::osmpbf::{PrimitiveBlock, DenseNodes, delta_sum, node_tag_list, node_tag_lists, scaled_coord, lists_len, lemma_tag_lists_len, lemma_tag_list_end,
    ref_ids_all, lemma_ref_ids_all_concat, way_tag_lists, Relation, relation_tag_lists};
use crate::stats::Stats;
use crate::strings::{StringTable, interned_all, offset_of, lemma_interned, is_string_start};
use crate::tags::TagSerializer;

verus! {

/// Why a compile stopped.
#[derive(Clone, Copy, PartialEq, Eq, Structural, Debug)]
pub enum Error {
    /// A string of a block's string table is not UTF-8.
    NonUtf8String,
    /// The string pool would outgrow the address space.
    StringPoolFull,
    /// A block breaks the structure that its kind asks for.
    InvalidBlock,
    /// More entities of one kind than dense positions can number.
    TooManyEntities,
    /// A block of plain, not dense, nodes.
    NodesBlock,
    /// Not exactly one header block; the number found.
    HeaderCount(usize),
    /// A block granularity that is not positive.
    InvalidGranularity,
    /// A block of changesets, which archives do not hold.
    Changesets,
    /// A blob with neither raw nor zlib data.
    UnknownCompression,
    /// A blob whose payload differs from its declared size.
    BlobSize,
    /// References resolved for another block than the one serialized.
    Internal,
}

/// Whether `b` is valid UTF-8.
fn is_utf8(b: &[u8]) -> (r: bool)
    ensures
        r == vstd::utf8::valid_utf8(b@),
{
    crate::tags::from_utf8(b).is_ok()
}

/// The byte strings of a string table.
pub open spec fn string_views(v: Seq<Vec<u8>>) -> Seq<Seq<u8>> {
    v.map_values(|s: Vec<u8>| s@)
}

/// Bytes that interning all of `strings` may add: each string and its `\0`.
pub open spec fn strings_room(strings: Seq<Seq<u8>>) -> int
    decreases strings.len(),
{
    if strings.len() == 0 {
        0
    } else {
        strings_room(strings.drop_last()) + strings.last().len() + 1
    }
}

/// Whether every string is valid UTF-8.
pub open spec fn all_utf8(strings: Seq<Seq<u8>>) -> bool {
    forall|i: int| 0 <= i < strings.len() ==> vstd::utf8::valid_utf8(#[trigger] strings[i])
}

/// Interns the strings of a block's string table and returns the offset of
/// each. Fails, with the pool unchanged, where a string is not UTF-8, or
/// where the pool could outgrow the address space.
pub fn add_string_table(pbf_stringtable: &Vec<Vec<u8>>, stringtable: &mut StringTable) -> (r: Result<Vec<u64>, Error>)
    requires
        old(stringtable).wf(),
    ensures
        final(stringtable).wf(),
        match r {
            Ok(refs) => {
                &&& all_utf8(string_views(pbf_stringtable@))
                &&& old(stringtable).bytes().len() + strings_room(string_views(pbf_stringtable@)) <= usize::MAX
                &&& final(stringtable)@ == interned_all(old(stringtable)@, string_views(pbf_stringtable@))
                &&& refs@.len() == pbf_stringtable@.len()
                &&& forall|i: int| 0 <= i < refs@.len() ==> #[trigger] refs@[i] == offset_of(final(stringtable)@, pbf_stringtable@[i]@)
                &&& forall|i: int| 0 <= i < refs@.len() ==> is_string_start(final(stringtable).bytes(), #[trigger] refs@[i] as int)
                    && final(stringtable).bytes().subrange(refs@[i] as int, refs@[i] + pbf_stringtable@[i]@.len() + 1)
                        == pbf_stringtable@[i]@.push(0u8)
            },
            Err(e) => {
                &&& *final(stringtable) == *old(stringtable)
                &&& (e == Error::NonUtf8String || e == Error::StringPoolFull)
                &&& (e == Error::NonUtf8String <==> !all_utf8(string_views(pbf_stringtable@)))
                &&& (e == Error::StringPoolFull <==> all_utf8(string_views(pbf_stringtable@))
                    && old(stringtable).bytes().len() + strings_room(string_views(pbf_stringtable@)) > usize::MAX)
            },
        },
{
    let ghost views = string_views(pbf_stringtable@);
    let n = pbf_stringtable.len();
    // check every string first, so that a failure leaves the pool as it was
    proof {
        stringtable.lemma_wf();
        assert(views.take(0).len() == 0);
    }
    let mut room: usize = stringtable.next_index() as usize;
    let mut fits = true;
    let mut i: usize = 0;
    while i < n
        invariant
            n == pbf_stringtable@.len(),
            views == string_views(pbf_stringtable@),
            0 <= i <= n,
            forall|j: int| 0 <= j < i ==> vstd::utf8::valid_utf8(#[trigger] views[j]),
            fits ==> room == stringtable.bytes().len() + strings_room(views.take(i as int)),
            !fits ==> stringtable.bytes().len() + strings_room(views.take(i as int)) > usize::MAX,
            stringtable.wf(),
        decreases n - i,
    {
        let s = pbf_stringtable[i].as_slice();
        assert(s@ == views[i as int]);
        if !is_utf8(s) {
            return Err(Error::NonUtf8String);
        }
        proof {
            assert(views.take(i + 1).drop_last() == views.take(i as int));
            assert(views.take(i + 1).last() == views[i as int]);
        }
        if fits {
            if room <= usize::MAX - 1 && s.len() <= usize::MAX - 1 - room {
                room = room + s.len() + 1;
            } else {
                fits = false;
            }
        } else {
            proof {
                assert(strings_room(views.take(i + 1)) >= strings_room(views.take(i as int)));
                lemma_room_nonneg(views.take(i as int));
            }
        }
        i = i + 1;
    }
    assert(views.take(n as int) == views);
    if !fits {
        return Err(Error::StringPoolFull);
    }
    let ghost old_pool = stringtable@;
    proof {
        assert(views.subrange(0, n as int) == views);
        assert(views.take(0).len() == 0);
    }
    let mut result: Vec<u64> = Vec::with_capacity(n);
    let mut i: usize = 0;
    while i < n
        invariant
            n == pbf_stringtable@.len(),
            views == string_views(pbf_stringtable@),
            0 <= i <= n,
            stringtable.wf(),
            stringtable@ == interned_all(old_pool, views.take(i as int)),
            stringtable.bytes().len() + strings_room(views.subrange(i as int, n as int)) <= usize::MAX,
            result@.len() == i,
            forall|j: int| 0 <= j < i ==> stringtable@.contains(#[trigger] views[j]),
            forall|j: int| 0 <= j < i ==> #[trigger] result@[j] == offset_of(stringtable@, views[j]),
        decreases n - i,
    {
        let s = pbf_stringtable[i].as_slice();
        assert(s@ == views[i as int]);
        proof {
            lemma_room_split(views.subrange(i as int, n as int));
            assert(views.subrange(i as int, n as int).first() == views[i as int]);
            assert(views.subrange(i as int, n as int).drop_first() == views.subrange(i + 1, n as int));
        }
        let ghost before = stringtable@;
        proof {
            stringtable.lemma_wf();
            lemma_room_nonneg(views.subrange(i + 1, n as int));
        }
        let off = stringtable.insert_bytes(s);
        proof {
            lemma_interned(before, s@);
            assert(views.take(i + 1).drop_last() == views.take(i as int));
            assert(views.take(i + 1).last() == views[i as int]);
            assert forall|j: int| 0 <= j < i implies stringtable@.contains(#[trigger] views[j]) by {
                let k = before.index_of(views[j]);
                assert(stringtable@[k] == views[j]);
            }
        }
        result.push(off);
        i = i + 1;
    }
    proof {
        assert(views.take(n as int) == views);
        assert forall|i: int| 0 <= i < result@.len() implies is_string_start(stringtable.bytes(), #[trigger] result@[i] as int)
            && stringtable.bytes().subrange(result@[i] as int, result@[i] + pbf_stringtable@[i]@.len() + 1)
                == pbf_stringtable@[i]@.push(0u8) by {
            assert(views[i] == pbf_stringtable@[i]@);
            let k = stringtable@.index_of(views[i]);
            crate::strings::lemma_pool_holds(stringtable@, k);
        }
    }
    Ok(result)
}

proof fn lemma_room_nonneg(strings: Seq<Seq<u8>>)
    ensures
        strings_room(strings) >= 0,
    decreases strings.len(),
{
    if strings.len() > 0 {
        lemma_room_nonneg(strings.drop_last());
    }
}

/// The room of a sequence is that of its first string plus that of the rest.
proof fn lemma_room_split(strings: Seq<Seq<u8>>)
    requires
        strings.len() > 0,
    ensures
        strings_room(strings) == strings.first().len() + 1 + strings_room(strings.drop_first()),
    decreases strings.len(),
{
    lemma_room_nonneg(strings.drop_first());
    if strings.len() > 1 {
        lemma_room_split(strings.drop_last());
        assert(strings.drop_last().drop_first() == strings.drop_first().drop_last());
        assert(strings.drop_last().first() == strings.first());
        assert(strings.drop_first().last() == strings.last());
        assert(strings_room(strings.drop_first()) == strings_room(strings.drop_first().drop_last()) + strings.last().len() + 1);
        assert(strings_room(strings) == strings_room(strings.drop_last()) + strings.last().len() + 1);
    } else {
        assert(strings.drop_first().len() == 0);
        assert(strings.drop_last().len() == 0);
        assert(strings.last() == strings.first());
        assert(strings_room(strings.drop_last()) == 0);
        assert(strings_room(strings.drop_first()) == 0);
    }
}

/// The tag that a pair of string table indexes names, through the offsets
/// `refs` of the strings.
pub open spec fn pair_tag(refs: Seq<u64>, p: (int, int)) -> Tag {
    Tag { key_idx: refs[p.0], value_idx: refs[p.1] }
}

/// Node rows for the given coordinates and tag lists, whose tag ranges
/// start at tag index row `start`.
pub open spec fn node_rows(lats: Seq<i32>, lons: Seq<i32>, lists: Seq<Seq<(int, int)>>, start: int) -> Seq<Node> {
    Seq::new(lats.len(), |k: int| Node { lat: lats[k], lon: lons[k], tag_first_idx: (start + lists_len(lists, k)) as u64 })
}

/// The tag index rows from `start` on name the tags of `lists`, list after
/// list.
pub open spec fn rows_name(tags: TagSerializer, refs: Seq<u64>, lists: Seq<Seq<(int, int)>>, start: int) -> bool {
    forall|k: int, q: int| 0 <= k < lists.len() && 0 <= q < lists[k].len()
        ==> tags.tag_of_row(start + lists_len(lists, k) + q) == #[trigger] pair_tag(refs, lists[k][q])
}

/// Tag rows before `n` are those of `old`.
pub open spec fn rows_kept(tags: TagSerializer, old: TagSerializer, n: int) -> bool {
    forall|q: int| 0 <= q < n ==> #[trigger] tags.tag_of_row(q) == old.tag_of_row(q)
}

/// Whether `kv` holds `count` valid tag lists; returns the same as
/// `node_tag_lists(kv, 0, count, ns).is_some()`.
fn check_tag_lists(kv: &Vec<i32>, count: usize, ns: usize) -> (r: bool)
    ensures
        r == node_tag_lists(kv@, 0, count as int, ns as int).is_some(),
{
    let n = kv.len();
    let mut pos: usize = 0;
    let mut i: usize = 0;
    while i < count
        invariant
            n == kv@.len(),
            0 <= i <= count,
            0 <= pos <= kv@.len(),
            node_tag_lists(kv@, 0, count as int, ns as int).is_some()
                == node_tag_lists(kv@, pos as int, count - i, ns as int).is_some(),
        decreases count - i,
    {
        if pos < n {
            let start = pos;
            loop
                invariant_except_break
                    start <= pos <= kv@.len(),
                    node_tag_list(kv@, start as int, ns as int).is_some() == node_tag_list(kv@, pos as int, ns as int).is_some(),
                    node_tag_list(kv@, start as int, ns as int).is_some() ==>
                        node_tag_list(kv@, start as int, ns as int).unwrap().1 == node_tag_list(kv@, pos as int, ns as int).unwrap().1,
                invariant
                    n == kv@.len(),
                    start < kv@.len(),
                    0 <= i < count,
                    node_tag_lists(kv@, 0, count as int, ns as int).is_some()
                        == node_tag_lists(kv@, start as int, count - i, ns as int).is_some(),
                ensures
                    start < pos <= kv@.len(),
                    node_tag_list(kv@, start as int, ns as int).is_some(),
                    node_tag_list(kv@, start as int, ns as int).unwrap().1 == pos,
                decreases kv@.len() - pos,
            {
                if pos >= n {
                    return false;
                }
                let k = kv[pos];
                if k == 0 {
                    pos = pos + 1;
                    break;
                }
                if pos + 1 >= n || k < 0 || k as usize >= ns || kv[pos + 1] < 0 || kv[pos + 1] as usize >= ns {
                    return false;
                }
                pos = pos + 2;
            }
        }
        i = i + 1;
    }
    pos >= kv.len()
}

/// A coordinate as the archive stores it, see `scaled_coord`.
pub fn rescale(offset: i64, gran: i32, sum: i64, div: i32) -> (r: i32)
    requires
        div > 0,
    ensures
        r == scaled_coord(offset, gran, sum, div),
{
    assert(-0x8000_0000_0000_0000_0000_0000 <= gran * sum <= 0x8000_0000_0000_0000_0000_0000) by (nonlinear_arith)
        requires -0x8000_0000 <= gran <= 0x7fff_ffff, -0x8000_0000_0000_0000 <= sum <= 0x7fff_ffff_ffff_ffff;
    let v: i128 = offset as i128 + (gran as i128) * (sum as i128);
    let d = div as i128;
    let q: i128 = if v >= 0 { v / d } else { -((-v) / d) };
    q as i32
}

/// Serializes one node's tag list, read from position `pos` of `kv`, and
/// returns the position after its `0`.
fn serialize_node_tags(kv: &Vec<i32>, pos: usize, refs: &Vec<u64>, tags: &mut TagSerializer) -> (r: usize)
    requires
        old(tags).wf(),
        node_tag_list(kv@, pos as int, refs@.len() as int).is_some(),
    ensures
        final(tags).wf(),
        r == node_tag_list(kv@, pos as int, refs@.len() as int).unwrap().1,
        final(tags).index().len() == old(tags).index().len()
            + node_tag_list(kv@, pos as int, refs@.len() as int).unwrap().0.len(),
        rows_kept(*final(tags), *old(tags), old(tags).index().len() as int),
        forall|q: int| 0 <= q < node_tag_list(kv@, pos as int, refs@.len() as int).unwrap().0.len()
            ==> final(tags).tag_of_row(old(tags).index().len() + q)
                == pair_tag(refs@, #[trigger] node_tag_list(kv@, pos as int, refs@.len() as int).unwrap().0[q]),
{
    let ghost ns = refs@.len() as int;
    let ghost full = node_tag_list(kv@, pos as int, ns).unwrap();
    let ghost start_len = tags.index().len();
    let ghost mut done: Seq<(int, int)> = Seq::empty();
    let mut p = pos;
    let n = kv.len();
    loop
        invariant
            n == kv@.len(),
            tags.wf(),
            node_tag_list(kv@, p as int, ns).is_some(),
            full.0 == done + node_tag_list(kv@, p as int, ns).unwrap().0,
            full.1 == node_tag_list(kv@, p as int, ns).unwrap().1,
            tags.index().len() == start_len + done.len(),
            start_len == old(tags).index().len(),
            ns == refs@.len(),
            full == node_tag_list(kv@, pos as int, ns).unwrap(),
            rows_kept(*tags, *old(tags), start_len as int),
            forall|q: int| 0 <= q < done.len() ==> tags.tag_of_row(start_len + q) == pair_tag(refs@, #[trigger] done[q]),
        decreases kv@.len() - p,
    {
        let k = kv[p];
        if k == 0 {
            proof {
                assert(done + Seq::<(int, int)>::empty() == done);
                assert forall|q: int| 0 <= q < full.0.len() implies tags.tag_of_row(start_len + q) == pair_tag(refs@, #[trigger] full.0[q]) by {
                    assert(full.0[q] == done[q]);
                }
            }
            return p + 1;
        }
        let v = kv[p + 1];
        let ghost before = *tags;
        let ghost rest = node_tag_list(kv@, p + 2, ns).unwrap();
        proof {
            assert(full.0 == done.push((k as int, v as int)) + rest.0) by {
                assert(seq![(k as int, v as int)] + rest.0 == node_tag_list(kv@, p as int, ns).unwrap().0);
                assert(done + (seq![(k as int, v as int)] + rest.0) == done.push((k as int, v as int)) + rest.0);
            }
        }
        tags.serialize(refs[k as usize], refs[v as usize]);
        proof {
            assert forall|q: int| 0 <= q < done.len() + 1 implies tags.tag_of_row(start_len + q) == pair_tag(refs@, #[trigger] done.push((k as int, v as int))[q]) by {
                if q < done.len() {
                    assert(done.push((k as int, v as int))[q] == done[q]);
                    assert(tags.tag_of_row(start_len + q) == before.tag_of_row(start_len + q));
                }
            }
            assert forall|q: int| 0 <= q < start_len implies #[trigger] tags.tag_of_row(q) == old(tags).tag_of_row(q) by {
                assert(tags.tag_of_row(q) == before.tag_of_row(q));
            }
            done = done.push((k as int, v as int));
        }
        p = p + 2;
    }
}

/// `lists_len` of a prefix only looks at that prefix.
proof fn lemma_lists_len_concat<T>(a: Seq<Seq<T>>, b: Seq<Seq<T>>, k: int)
    requires
        0 <= k <= a.len() + b.len(),
    ensures
        k <= a.len() ==> lists_len(a + b, k) == lists_len(a, k),
        k >= a.len() ==> lists_len(a + b, k) == lists_len(a, a.len() as int) + lists_len(b, k - a.len()),
    decreases k,
{
    if k > 0 {
        lemma_lists_len_concat(a, b, k - 1);
        if k > a.len() {
            assert((a + b)[k - 1] == b[k - 1 - a.len()]);
        } else {
            assert((a + b)[k - 1] == a[k - 1]);
        }
    }
}

pub proof fn lemma_lists_len_nonneg<T>(a: Seq<Seq<T>>, k: int)
    ensures
        lists_len(a, k) >= 0,
        0 <= k ==> lists_len(a, k) <= lists_len(a, k + 1),
    decreases k,
{
    if k > 0 {
        lemma_lists_len_nonneg(a, k - 1);
    }
}

/// Serializes the dense nodes of one group.
#[verifier::rlimit(60)]
fn serialize_dense_group(
    d: &DenseNodes,
    refs: &Vec<u64>,
    lat_offset: i64,
    lon_offset: i64,
    pbf_gran: i32,
    granularity: i32,
    nodes: &mut Vec<Node>,
    node_ids: &mut Option<Vec<u64>>,
    nodes_id_to_idx: &mut IdTableBuilder,
    tags: &mut TagSerializer,
)
    requires
        granularity > 0,
        d.valid(refs@.len() as int),
        old(tags).wf(),
        old(nodes_id_to_idx).wf(),
        old(nodes_id_to_idx)@.len() + d.id@.len() <= MAX_IDS,
    ensures
        final(tags).wf(),
        final(nodes_id_to_idx).wf(),
        final(nodes)@ == old(nodes)@ + node_rows(
            d.lats(lat_offset, pbf_gran, granularity),
            d.lons(lon_offset, pbf_gran, granularity),
            d.tag_lists(refs@.len() as int),
            old(tags).index().len() as int,
        ),
        final(nodes_id_to_idx)@ == old(nodes_id_to_idx)@ + d.ids().map_values(|x: u64| Some(x)),
        old(node_ids).is_some() == final(node_ids).is_some(),
        old(node_ids).is_some() ==> final(node_ids).unwrap()@ == old(node_ids).unwrap()@ + d.ids(),
        final(tags).index().len() == old(tags).index().len()
            + lists_len(d.tag_lists(refs@.len() as int), d.id@.len() as int),
        rows_kept(*final(tags), *old(tags), old(tags).index().len() as int),
        rows_name(*final(tags), refs@, d.tag_lists(refs@.len() as int), old(tags).index().len() as int),
{
    let ghost ns = refs@.len() as int;
    let ghost lists = d.tag_lists(ns);
    let ghost lats = d.lats(lat_offset, pbf_gran, granularity);
    let ghost lons = d.lons(lon_offset, pbf_gran, granularity);
    let ghost ids = d.ids();
    let ghost start = old(tags).index().len() as int;
    let ghost old_nodes = nodes@;
    let ghost old_table = nodes_id_to_idx@;
    let ghost old_ids = *node_ids;
    let ghost rows = node_rows(lats, lons, lists, start);
    let n = d.id.len();
    let kv = &d.keys_vals;
    let kv_len = kv.len();
    let mut pos: usize = 0;
    let mut id: i64 = 0;
    let mut lat: i64 = 0;
    let mut lon: i64 = 0;
    let mut i: usize = 0;
    proof {
        lemma_tag_lists_len(kv@, 0, n as int, ns);
        assert(lists.subrange(0, n as int) == lists);
    }
    while i < n
        invariant
            n == d.id@.len(),
            kv_len == kv@.len(),
            kv == &d.keys_vals,
            d.valid(ns),
            granularity > 0,
            ns == refs@.len(),
            lists == d.tag_lists(ns),
            lats == d.lats(lat_offset, pbf_gran, granularity),
            lons == d.lons(lon_offset, pbf_gran, granularity),
            ids == d.ids(),
            rows == node_rows(lats, lons, lists, start),
            lists.len() == n,
            0 <= i <= n,
            pos <= kv_len,
            node_tag_lists(kv@, pos as int, n - i, ns) == Some(lists.subrange(i as int, n as int)),
            id == delta_sum(d.id@, i as int),
            lat == delta_sum(d.lat@, i as int),
            lon == delta_sum(d.lon@, i as int),
            tags.wf(),
            nodes_id_to_idx.wf(),
            nodes_id_to_idx@.len() == old_table.len() + i,
            old_table.len() + n <= MAX_IDS,
            forall|k: int| 0 <= k < old_table.len() ==> #[trigger] nodes_id_to_idx@[k] == old_table[k],
            forall|k: int| 0 <= k < i ==> #[trigger] nodes_id_to_idx@[old_table.len() + k] == Some(ids[k]),
            nodes@.len() == old_nodes.len() + i,
            forall|k: int| 0 <= k < old_nodes.len() ==> #[trigger] nodes@[k] == old_nodes[k],
            forall|k: int| 0 <= k < i ==> #[trigger] nodes@[old_nodes.len() + k] == rows[k],
            old_ids.is_some() == node_ids.is_some(),
            old_ids.is_some() ==> node_ids.unwrap()@.len() == old_ids.unwrap()@.len() + i,
            old_ids.is_some() ==> forall|k: int| 0 <= k < old_ids.unwrap()@.len() ==> #[trigger] node_ids.unwrap()@[k] == old_ids.unwrap()@[k],
            old_ids.is_some() ==> forall|k: int| 0 <= k < i ==> #[trigger] node_ids.unwrap()@[old_ids.unwrap()@.len() + k] == ids[k],
            start == old(tags).index().len(),
            tags.index().len() == start + lists_len(lists, i as int),
            rows_kept(*tags, *old(tags), start),
            forall|k: int, q: int| 0 <= k < i && 0 <= q < lists[k].len()
                ==> tags.tag_of_row(start + lists_len(lists, k) + q) == #[trigger] pair_tag(refs@, lists[k][q]),
        decreases n - i,
    {
        id = id.wrapping_add(d.id[i]);
        lat = lat.wrapping_add(d.lat[i]);
        lon = lon.wrapping_add(d.lon[i]);
        let index = nodes_id_to_idx.insert(id as u64);
        match node_ids {
            Some(v) => {
                v.push(id as u64);
            },
            None => {},
        }
        let first = tags.next_index();
        let row = Node {
            lat: rescale(lat_offset, pbf_gran, lat, granularity),
            lon: rescale(lon_offset, pbf_gran, lon, granularity),
            tag_first_idx: first,
        };
        nodes.push(row);
        let ghost before_tags = *tags;
        let ghost rest = lists.subrange(i as int, n as int);
        proof {
            assert(rest[0] == lists[i as int]);
            assert(rows[i as int] == row);
            lemma_lists_len_nonneg(lists, i as int);
        }
        if pos < kv_len {
            proof {
                let r = node_tag_list(kv@, pos as int, ns).unwrap();
                assert(node_tag_lists(kv@, pos as int, n - i, ns) == Some(seq![r.0] + node_tag_lists(kv@, r.1, n - i - 1, ns).unwrap()));
                assert((seq![r.0] + node_tag_lists(kv@, r.1, n - i - 1, ns).unwrap()).drop_first() == node_tag_lists(kv@, r.1, n - i - 1, ns).unwrap());
                assert(rest.drop_first() == lists.subrange(i + 1, n as int));
                assert(r.0 == lists[i as int]);
                lemma_tag_list_end(kv@, pos as int, ns);
            }
            pos = serialize_node_tags(kv, pos, refs, tags);
        } else {
            proof {
                assert(node_tag_lists(kv@, pos as int, n - i, ns) == Some(seq![Seq::<(int, int)>::empty()] + node_tag_lists(kv@, pos as int, n - i - 1, ns).unwrap()));
                assert((seq![Seq::<(int, int)>::empty()] + node_tag_lists(kv@, pos as int, n - i - 1, ns).unwrap()).drop_first() == node_tag_lists(kv@, pos as int, n - i - 1, ns).unwrap());
                assert(rest.drop_first() == lists.subrange(i + 1, n as int));
                assert(lists[i as int] == Seq::<(int, int)>::empty());
            }
        }
        proof {
            assert(lists_len(lists, i + 1) == lists_len(lists, i as int) + lists[i as int].len());
            assert forall|k: int, q: int| 0 <= k < i + 1 && 0 <= q < lists[k].len()
                implies tags.tag_of_row(start + lists_len(lists, k) + q) == #[trigger] pair_tag(refs@, lists[k][q]) by {
                if k < i {
                    lemma_lists_len_nonneg(lists, k);
                    assert(lists_len(lists, k) + lists[k].len() == lists_len(lists, k + 1));
                    lemma_lists_len_mono(lists, k + 1, i as int);
                    assert(tags.tag_of_row(start + lists_len(lists, k) + q) == before_tags.tag_of_row(start + lists_len(lists, k) + q));
                }
            }
            assert forall|q: int| 0 <= q < start implies #[trigger] tags.tag_of_row(q) == old(tags).tag_of_row(q) by {
                assert(tags.tag_of_row(q) == before_tags.tag_of_row(q));
            }
            assert(ids[i as int] == id as u64);
        }
        i = i + 1;
    }
    proof {
        assert forall|j: int| old_nodes.len() <= j < nodes@.len() implies nodes@[j] == (old_nodes + rows)[j] by {
            let k = j - old_nodes.len();
            assert(nodes@[old_nodes.len() + k] == rows[k]);
        }
        assert forall|j: int| old_table.len() <= j < nodes_id_to_idx@.len()
            implies nodes_id_to_idx@[j] == (old_table + ids.map_values(|x: u64| Some(x)))[j] by {
            let k = j - old_table.len();
            assert(nodes_id_to_idx@[old_table.len() + k] == Some(ids[k]));
        }
        if old_ids.is_some() {
            let a = old_ids.unwrap()@;
            assert forall|j: int| a.len() <= j < node_ids.unwrap()@.len()
                implies node_ids.unwrap()@[j] == (a + ids)[j] by {
                let k = j - a.len();
                assert(node_ids.unwrap()@[a.len() + k] == ids[k]);
            }
        }
        assert(nodes@ =~= old_nodes + rows);
        assert(nodes_id_to_idx@ =~= old_table + ids.map_values(|x: u64| Some(x)));
        if old_ids.is_some() {
            assert(node_ids.unwrap()@ =~= old_ids.unwrap()@ + ids);
        }
    }
}

pub proof fn lemma_lists_len_mono<T>(a: Seq<Seq<T>>, j: int, k: int)
    requires
        0 <= j <= k,
    ensures
        lists_len(a, j) <= lists_len(a, k),
    decreases k - j,
{
    if j < k {
        lemma_lists_len_mono(a, j, k - 1);
        lemma_lists_len_nonneg(a, k - 1);
    }
}

/// The offsets in `pool` of the strings of a block's string table.
pub open spec fn block_refs(block: &PrimitiveBlock, pool: Seq<Seq<u8>>) -> Seq<u64> {
    Seq::new(block.stringtable@.len(), |i: int| offset_of(pool, block.stringtable@[i]@) as u64)
}

proof fn lemma_node_rows_concat(
    la: Seq<i32>, lb: Seq<i32>, oa: Seq<i32>, ob: Seq<i32>,
    ta: Seq<Seq<(int, int)>>, tb: Seq<Seq<(int, int)>>, start: int,
)
    requires
        la.len() == oa.len() && oa.len() == ta.len(),
        lb.len() == ob.len() && ob.len() == tb.len(),
    ensures
        node_rows(la + lb, oa + ob, ta + tb, start)
            == node_rows(la, oa, ta, start) + node_rows(lb, ob, tb, start + lists_len(ta, ta.len() as int)),
{
    let l = node_rows(la + lb, oa + ob, ta + tb, start);
    let r = node_rows(la, oa, ta, start) + node_rows(lb, ob, tb, start + lists_len(ta, ta.len() as int));
    assert forall|k: int| 0 <= k < l.len() implies l[k] == r[k] by {
        lemma_lists_len_concat(ta, tb, k);
    }
    assert(l =~= r);
}

proof fn lemma_rows_name_concat(t: TagSerializer, refs: Seq<u64>, ta: Seq<Seq<(int, int)>>, tb: Seq<Seq<(int, int)>>, start: int)
    requires
        rows_name(t, refs, ta, start),
        rows_name(t, refs, tb, start + lists_len(ta, ta.len() as int)),
    ensures
        rows_name(t, refs, ta + tb, start),
{
    let l = ta + tb;
    assert forall|k: int, q: int| 0 <= k < l.len() && 0 <= q < l[k].len()
        implies t.tag_of_row(start + lists_len(l, k) + q) == #[trigger] pair_tag(refs, l[k][q]) by {
        lemma_lists_len_concat(ta, tb, k);
        if k < ta.len() {
            assert(l[k] == ta[k]);
        } else {
            assert(l[k] == tb[k - ta.len()]);
            assert(t.tag_of_row(start + lists_len(ta, ta.len() as int) + lists_len(tb, k - ta.len()) + q) == pair_tag(refs, tb[k - ta.len()][q]));
        }
    }
}

proof fn lemma_rows_name_kept(t: TagSerializer, old: TagSerializer, refs: Seq<u64>, ta: Seq<Seq<(int, int)>>, start: int)
    requires
        rows_name(old, refs, ta, start),
        rows_kept(t, old, start + lists_len(ta, ta.len() as int)),
        start >= 0,
    ensures
        rows_name(t, refs, ta, start),
{
    assert forall|k: int, q: int| 0 <= k < ta.len() && 0 <= q < ta[k].len()
        implies t.tag_of_row(start + lists_len(ta, k) + q) == #[trigger] pair_tag(refs, ta[k][q]) by {
        lemma_lists_len_nonneg(ta, k);
        lemma_lists_len_mono(ta, k + 1, ta.len() as int);
        assert(old.tag_of_row(start + lists_len(ta, k) + q) == pair_tag(refs, ta[k][q]));
    }
}

pub proof fn lemma_block_seqs(block: &PrimitiveBlock, div: i32, g: int)
    requires
        block.dense_valid(),
        0 <= g <= block.primitivegroup@.len(),
    ensures
        block.node_lats(div, g).len() == block.dense_before(g),
        block.node_lons(div, g).len() == block.dense_before(g),
        block.node_tags(g).len() == block.dense_before(g),
        block.node_ids(g).len() == block.dense_before(g),
        block.dense_before(g) >= 0,
    decreases g,
{
    if g > 0 {
        lemma_block_seqs(block, div, g - 1);
        let d = block.dense_of(g - 1);
        assert(block.primitivegroup@[g - 1].dense.is_some());
        lemma_tag_lists_len(d.keys_vals@, 0, d.id@.len() as int, block.stringtable@.len() as int);
    }
}

/// Serializes a block of dense nodes: one node row per node, its id
/// inserted in `nodes_id_to_idx` (and kept in `node_ids` where ids are
/// kept), its tags interned. Checks the block first: on an error nothing
/// changed.
#[verifier::rlimit(60)]
pub fn serialize_dense_nodes(
    block: &PrimitiveBlock,
    granularity: i32,
    nodes: &mut Vec<Node>,
    node_ids: &mut Option<Vec<u64>>,
    nodes_id_to_idx: &mut IdTableBuilder,
    stringtable: &mut StringTable,
    tags: &mut TagSerializer,
) -> (r: Result<Stats, Error>)
    requires
        granularity > 0,
        old(nodes_id_to_idx).wf(),
        old(stringtable).wf(),
        old(tags).wf(),
    ensures
        final(nodes_id_to_idx).wf(),
        final(stringtable).wf(),
        final(tags).wf(),
        r is Err ==> {
            &&& final(nodes)@ == old(nodes)@
            &&& *final(node_ids) == *old(node_ids)
            &&& final(nodes_id_to_idx)@ == old(nodes_id_to_idx)@
            &&& *final(stringtable) == *old(stringtable)
            &&& final(tags).tags() == old(tags).tags()
            &&& final(tags).index() == old(tags).index()
        },
        (r == Err::<Stats, Error>(Error::InvalidBlock)) <==> !block.dense_valid(),
        (r == Err::<Stats, Error>(Error::TooManyEntities)) <==> block.dense_valid()
            && old(nodes_id_to_idx)@.len() + block.dense_before(block.primitivegroup@.len() as int) > MAX_IDS,
        (r == Err::<Stats, Error>(Error::NonUtf8String)) <==> block.dense_valid()
            && old(nodes_id_to_idx)@.len() + block.dense_before(block.primitivegroup@.len() as int) <= MAX_IDS
            && !all_utf8(string_views(block.stringtable@)),
        (r == Err::<Stats, Error>(Error::StringPoolFull)) <==> block.dense_valid()
            && old(nodes_id_to_idx)@.len() + block.dense_before(block.primitivegroup@.len() as int) <= MAX_IDS
            && all_utf8(string_views(block.stringtable@))
            && old(stringtable).bytes().len() + strings_room(string_views(block.stringtable@)) > usize::MAX,
        r is Ok <==> block.dense_valid()
            && old(nodes_id_to_idx)@.len() + block.dense_before(block.primitivegroup@.len() as int) <= MAX_IDS
            && all_utf8(string_views(block.stringtable@))
            && old(stringtable).bytes().len() + strings_room(string_views(block.stringtable@)) <= usize::MAX,
        r is Ok ==> {
            let gs = block.primitivegroup@.len() as int;
            let start = old(tags).index().len() as int;
            &&& final(stringtable)@ == interned_all(old(stringtable)@, string_views(block.stringtable@))
            &&& final(nodes)@ == old(nodes)@ + node_rows(block.node_lats(granularity, gs),
                block.node_lons(granularity, gs), block.node_tags(gs), start)
            &&& final(nodes_id_to_idx)@ == old(nodes_id_to_idx)@ + block.node_ids(gs).map_values(|x: u64| Some(x))
            &&& old(node_ids).is_some() == final(node_ids).is_some()
            &&& old(node_ids).is_some() ==> final(node_ids).unwrap()@ == old(node_ids).unwrap()@ + block.node_ids(gs)
            &&& final(tags).index().len() == start + lists_len(block.node_tags(gs), block.node_tags(gs).len() as int)
            &&& rows_kept(*final(tags), *old(tags), start)
            &&& rows_name(*final(tags), block_refs(block, final(stringtable)@), block.node_tags(gs), start)
            &&& r->Ok_0 == (Stats {
                num_nodes: block.dense_before(gs) as usize,
                num_ways: 0,
                num_relations: 0,
                num_unresolved_node_ids: 0,
                num_unresolved_way_ids: 0,
                num_unresolved_rel_ids: 0,
            })
        },
{
    let groups = &block.primitivegroup;
    let ng = groups.len();
    let ns = block.stringtable.len();
    let room: u64 = MAX_IDS - nodes_id_to_idx.len();
    let mut total: u64 = 0;
    let mut too_many = false;
    let mut g: usize = 0;
    while g < ng
        invariant
            ng == groups@.len(),
            groups == &block.primitivegroup,
            ns == block.stringtable@.len(),
            0 <= g <= ng,
            nodes_id_to_idx.wf(),
            stringtable.wf(),
            tags.wf(),
            *stringtable == *old(stringtable),
            *tags == *old(tags),
            *nodes_id_to_idx == *old(nodes_id_to_idx),
            *nodes == *old(nodes),
            *node_ids == *old(node_ids),
            room == MAX_IDS - nodes_id_to_idx@.len(),
            forall|h: int| 0 <= h < g ==> {
                &&& (#[trigger] block.primitivegroup@[h]).dense.is_some()
                &&& block.primitivegroup@[h].dense.unwrap().valid(ns as int)
            },
            block.dense_before(g as int) >= 0,
            too_many ==> block.dense_before(g as int) > room,
            !too_many ==> total == block.dense_before(g as int) && total <= room,
        decreases ng - g,
    {
        match &groups[g].dense {
            None => {
                return Err(Error::InvalidBlock);
            },
            Some(d) => {
                let n = d.id.len();
                if d.lat.len() != n || d.lon.len() != n || !check_tag_lists(&d.keys_vals, n, ns) {
                    return Err(Error::InvalidBlock);
                }
                if !too_many {
                    if n as u64 > room - total {
                        too_many = true;
                    } else {
                        total = total + n as u64;
                    }
                }
            },
        }
        g = g + 1;
    }
    proof {
        assert(block.dense_valid());
    }
    if too_many {
        return Err(Error::TooManyEntities);
    }
    let refs = match add_string_table(&block.stringtable, stringtable) {
        Ok(refs) => refs,
        Err(e) => {
            return Err(e);
        },
    };
    let pbf_granularity = match block.granularity {
        Some(v) => v,
        None => 100,
    };
    let lat_offset = match block.lat_offset {
        Some(v) => v,
        None => 0,
    };
    let lon_offset = match block.lon_offset {
        Some(v) => v,
        None => 0,
    };
    proof {
        assert(refs@ =~= block_refs(block, stringtable@));
    }
    let ghost start = tags.index().len() as int;
    let ghost old_nodes = nodes@;
    let ghost old_table = nodes_id_to_idx@;
    let ghost old_ids = *node_ids;
    let ghost old_tags = *tags;
    let mut g: usize = 0;
    proof {
        assert(block.node_lats(granularity, 0) =~= Seq::<i32>::empty());
        assert(old_nodes + node_rows(Seq::empty(), Seq::empty(), Seq::empty(), start) =~= old_nodes);
        assert(old_table + Seq::<u64>::empty().map_values(|x: u64| Some(x)) =~= old_table);
        if old_ids.is_some() {
            assert(old_ids.unwrap()@ + Seq::<u64>::empty() =~= old_ids.unwrap()@);
        }
    }
    while g < ng
        invariant
            ng == groups@.len(),
            groups == &block.primitivegroup,
            ns == block.stringtable@.len(),
            refs@ == block_refs(block, stringtable@),
            refs@.len() == ns,
            granularity > 0,
            block.dense_valid(),
            pbf_granularity == block.gran(),
            lat_offset == block.lat_off(),
            lon_offset == block.lon_off(),
            0 <= g <= ng,
            stringtable.wf(),
            nodes_id_to_idx.wf(),
            tags.wf(),
            old_table.len() + block.dense_before(ng as int) <= MAX_IDS,
            start == old(tags).index().len(),
            old_tags == *old(tags),
            nodes@ == old_nodes + node_rows(block.node_lats(granularity, g as int),
                block.node_lons(granularity, g as int), block.node_tags(g as int), start),
            nodes_id_to_idx@ == old_table + block.node_ids(g as int).map_values(|x: u64| Some(x)),
            old_ids.is_some() == node_ids.is_some(),
            old_ids.is_some() ==> node_ids.unwrap()@ == old_ids.unwrap()@ + block.node_ids(g as int),
            tags.index().len() == start + lists_len(block.node_tags(g as int), block.node_tags(g as int).len() as int),
            rows_kept(*tags, old_tags, start),
            rows_name(*tags, refs@, block.node_tags(g as int), start),
        decreases ng - g,
    {
        proof {
            lemma_block_seqs(block, granularity, g as int);
            lemma_block_seqs(block, granularity, g + 1);
            lemma_block_dense_mono(block, g + 1, ng as int);
            assert(block.primitivegroup@[g as int].dense.is_some());
        }
        match &groups[g].dense {
            Some(d) => {
                let ghost before = *tags;
                let ghost t0 = block.node_tags(g as int);
                let ghost tl = d.tag_lists(ns as int);
                serialize_dense_group(d, &refs, lat_offset, lon_offset, pbf_granularity, granularity,
                    nodes, node_ids, nodes_id_to_idx, tags);
                proof {
                    assert(block.dense_of(g as int) == *d);
                    lemma_node_rows_concat(block.node_lats(granularity, g as int), d.lats(lat_offset, pbf_granularity, granularity),
                        block.node_lons(granularity, g as int), d.lons(lon_offset, pbf_granularity, granularity),
                        t0, tl, start);
                    assert(block.node_tags(g + 1) == t0 + tl);
                    assert(nodes@ =~= old_nodes + node_rows(block.node_lats(granularity, g + 1),
                        block.node_lons(granularity, g + 1), block.node_tags(g + 1), start));
                    assert(nodes_id_to_idx@ =~= old_table + block.node_ids(g + 1).map_values(|x: u64| Some(x)));
                    if old_ids.is_some() {
                        assert(node_ids.unwrap()@ =~= old_ids.unwrap()@ + block.node_ids(g + 1));
                    }
                    lemma_lists_len_concat(t0, tl, (t0.len() + tl.len()) as int);
                    lemma_rows_name_kept(*tags, before, refs@, t0, start);
                    lemma_rows_name_concat(*tags, refs@, t0, tl, start);
                    lemma_lists_len_nonneg(t0, t0.len() as int);
                    assert forall|q: int| 0 <= q < start implies #[trigger] tags.tag_of_row(q) == old_tags.tag_of_row(q) by {
                        assert(tags.tag_of_row(q) == before.tag_of_row(q));
                    }
                }
            },
            None => {},
        }
        g = g + 1;
    }
    proof {
        lemma_block_seqs(block, granularity, ng as int);
    }
    Ok(Stats {
        num_nodes: #[verifier::truncate] (total as usize),
        num_ways: 0,
        num_relations: 0,
        num_unresolved_node_ids: 0,
        num_unresolved_way_ids: 0,
        num_unresolved_rel_ids: 0,
    })
}

proof fn lemma_block_dense_mono(block: &PrimitiveBlock, g: int, h: int)
    requires
        block.dense_valid(),
        0 <= g <= h <= block.primitivegroup@.len(),
    ensures
        block.dense_before(g) <= block.dense_before(h),
    decreases h - g,
{
    if g < h {
        lemma_block_dense_mono(block, g, h - 1);
    }
}

/// Number of absent entries.
pub open spec fn count_none(s: Seq<Option<u64>>) -> int
    decreases s.len(),
{
    if s.len() == 0 {
        0
    } else {
        count_none(s.drop_last()) + if s.last().is_none() { 1int } else { 0int }
    }
}

proof fn lemma_count_none_bound(s: Seq<Option<u64>>)
    ensures
        0 <= count_none(s) <= s.len(),
    decreases s.len(),
{
    if s.len() > 0 {
        lemma_count_none_bound(s.drop_last());
    }
}

/// Resolves the node references of a block's ways against the node table:
/// one entry per reference, absent where the node is not in the table. The
/// statistics count the absent ones.
#[verifier::rlimit(80)]
pub fn resolve_ways(block: &PrimitiveBlock, nodes_id_to_idx: &IdTable) -> (r: (Vec<Option<u64>>, Stats))
    requires
        nodes_id_to_idx.wf(),
    ensures
        r.0@ == ref_ids_all(block.all_ways(block.primitivegroup@.len() as int))
            .map_values(|id: u64| position_of(nodes_id_to_idx@, id)),
        r.1 == (Stats {
            num_nodes: 0,
            num_ways: 0,
            num_relations: 0,
            num_unresolved_node_ids: count_none(r.0@) as usize,
            num_unresolved_way_ids: 0,
            num_unresolved_rel_ids: 0,
        }),
{
    let ghost table = nodes_id_to_idx@;
    let mut result: Vec<Option<u64>> = Vec::new();
    let mut unresolved: usize = 0;
    let groups = &block.primitivegroup;
    let ng = groups.len();
    let mut g: usize = 0;
    while g < ng
        invariant
            ng == groups@.len(),
            groups == &block.primitivegroup,
            0 <= g <= ng,
            nodes_id_to_idx.wf(),
            table == nodes_id_to_idx@,
            result@ == ref_ids_all(block.all_ways(g as int)).map_values(|id: u64| position_of(table, id)),
            unresolved == count_none(result@),
        decreases ng - g,
    {
        let ways = &groups[g].ways;
        let nw = ways.len();
        let mut j: usize = 0;
        while j < nw
            invariant
                ng == groups@.len(),
                groups == &block.primitivegroup,
                0 <= g < ng,
                ways == &block.primitivegroup@[g as int].ways,
                nw == ways@.len(),
                0 <= j <= nw,
                nodes_id_to_idx.wf(),
                table == nodes_id_to_idx@,
                result@ == ref_ids_all(block.all_ways(g as int) + ways@.take(j as int)).map_values(|id: u64| position_of(table, id)),
                unresolved == count_none(result@),
            decreases nw - j,
        {
            let w = &ways[j];
            let ghost prefix = block.all_ways(g as int) + ways@.take(j as int);
            let ghost before = result@;
            let nr = w.refs.len();
            let mut node_ref: i64 = 0;
            let mut i: usize = 0;
            while i < nr
                invariant
                    nr == w.refs@.len(),
                    0 <= i <= nr,
                    nodes_id_to_idx.wf(),
                    table == nodes_id_to_idx@,
                    node_ref == delta_sum(w.refs@, i as int),
                    result@ == before + w.ref_ids().take(i as int).map_values(|id: u64| position_of(table, id)),
                    unresolved == count_none(result@),
                decreases nr - i,
            {
                node_ref = node_ref.wrapping_add(w.refs[i]);
                let idx = nodes_id_to_idx.get(node_ref as u64);
                let ghost old_result = result@;
                result.push(idx);
                let len = result.len();
                proof {
                    lemma_count_none_bound(old_result);
                    assert(result@.drop_last() == old_result);
                }
                if idx.is_none() {
                    unresolved = unresolved + 1;
                }
                proof {
                    assert(w.ref_ids().take(i + 1) == w.ref_ids().take(i as int).push(node_ref as u64));
                    assert(result@ =~= before + w.ref_ids().take(i + 1).map_values(|id: u64| position_of(table, id)));
                }
                i = i + 1;
            }
            proof {
                assert(w.ref_ids().take(nr as int) == w.ref_ids());
                assert(ways@.take(j + 1) == ways@.take(j as int).push(*w));
                assert((prefix + ways@.take(j as int).push(*w)).len() >= 0);
                assert(block.all_ways(g as int) + ways@.take(j + 1) == prefix.push(*w));
                assert(prefix.push(*w).drop_last() == prefix);
                assert(ref_ids_all(prefix.push(*w)) == ref_ids_all(prefix) + w.ref_ids());
                assert(result@ =~= ref_ids_all(prefix.push(*w)).map_values(|id: u64| position_of(table, id)));
            }
            j = j + 1;
        }
        proof {
            assert(ways@.take(nw as int) == ways@);
        }
        g = g + 1;
    }
    proof {
        lemma_count_none_bound(result@);
    }
    (result, Stats {
        num_nodes: 0,
        num_ways: 0,
        num_relations: 0,
        num_unresolved_node_ids: unresolved,
        num_unresolved_way_ids: 0,
        num_unresolved_rel_ids: 0,
    })
}

/// Way rows for the ways `ws`, whose tag ranges start at tag index row `ts`
/// and node ranges at node index row `rs`.
pub open spec fn way_rows(ws: Seq<crate::osmpbf::Way>, ts: int, rs: int) -> Seq<osm::Way> {
    Seq::new(ws.len(), |k: int| osm::Way {
        tag_first_idx: (ts + lists_len(way_tag_lists(ws), k)) as u64,
        ref_first_idx: (rs + ref_ids_all(ws.take(k)).len()) as u64,
    })
}

/// The OSM ids of the ways `ws`.
pub open spec fn way_ids_of(ws: Seq<crate::osmpbf::Way>) -> Seq<u64> {
    Seq::new(ws.len(), |k: int| ws[k].id as u64)
}

proof fn lemma_way_rows_push(p: Seq<crate::osmpbf::Way>, w: crate::osmpbf::Way, ts: int, rs: int)
    ensures
        way_rows(p.push(w), ts, rs) == way_rows(p, ts, rs).push(osm::Way {
            tag_first_idx: (ts + lists_len(way_tag_lists(p), p.len() as int)) as u64,
            ref_first_idx: (rs + ref_ids_all(p).len()) as u64,
        }),
        way_tag_lists(p.push(w)) == way_tag_lists(p) + seq![w.pairs()],
        lists_len(way_tag_lists(p.push(w)), (p.len() + 1) as int) == lists_len(way_tag_lists(p), p.len() as int) + w.pairs().len(),
        way_ids_of(p.push(w)) == way_ids_of(p).push(w.id as u64),
        ref_ids_all(p.push(w)) == ref_ids_all(p) + w.ref_ids(),
{
    let q = p.push(w);
    assert(way_tag_lists(q) =~= way_tag_lists(p) + seq![w.pairs()]);
    assert(q.drop_last() == p);
    let l = way_rows(q, ts, rs);
    let r = way_rows(p, ts, rs).push(osm::Way {
        tag_first_idx: (ts + lists_len(way_tag_lists(p), p.len() as int)) as u64,
        ref_first_idx: (rs + ref_ids_all(p).len()) as u64,
    });
    assert forall|k: int| 0 <= k < l.len() implies l[k] == r[k] by {
        lemma_lists_len_concat(way_tag_lists(p), seq![w.pairs()], k);
        assert(q.take(k) == p.take(k) || k == p.len());
        if k == p.len() {
            assert(q.take(k) == p);
        }
    }
    assert(l =~= r);
    lemma_lists_len_concat(way_tag_lists(p), seq![w.pairs()], (p.len() + 1) as int);
    assert(lists_len(seq![w.pairs()], 1) == lists_len(seq![w.pairs()], 0) + w.pairs().len());
    assert(way_ids_of(q) =~= way_ids_of(p).push(w.id as u64));
}

/// Serializes a block of ways: one way row per way, its id inserted in
/// `ways_id_to_idx` (and kept in `way_ids` where ids are kept), its tags
/// interned, and its resolved node references, taken in order from
/// `nodes_id_to_idx`, appended to `nodes_index`. Checks the block first: on
/// an error nothing changed.
#[verifier::rlimit(80)]
pub fn serialize_ways(
    block: &PrimitiveBlock,
    nodes_id_to_idx: &[Option<u64>],
    ways: &mut Vec<osm::Way>,
    way_ids: &mut Option<Vec<u64>>,
    ways_id_to_idx: &mut IdTableBuilder,
    stringtable: &mut StringTable,
    tags: &mut TagSerializer,
    nodes_index: &mut Vec<Option<u64>>,
) -> (r: Result<Stats, Error>)
    requires
        old(ways_id_to_idx).wf(),
        old(stringtable).wf(),
        old(tags).wf(),
        nodes_id_to_idx@.len() == ref_ids_all(block.all_ways(block.primitivegroup@.len() as int)).len(),
    ensures
        final(ways_id_to_idx).wf(),
        final(stringtable).wf(),
        final(tags).wf(),
        r is Err ==> {
            &&& final(ways)@ == old(ways)@
            &&& *final(way_ids) == *old(way_ids)
            &&& final(ways_id_to_idx)@ == old(ways_id_to_idx)@
            &&& *final(stringtable) == *old(stringtable)
            &&& final(tags).tags() == old(tags).tags()
            &&& final(tags).index() == old(tags).index()
            &&& final(nodes_index)@ == old(nodes_index)@
        },
        (r == Err::<Stats, Error>(Error::InvalidBlock)) <==> !block.ways_valid(),
        (r == Err::<Stats, Error>(Error::TooManyEntities)) <==> block.ways_valid()
            && old(ways_id_to_idx)@.len() + block.all_ways(block.primitivegroup@.len() as int).len() > MAX_IDS,
        (r == Err::<Stats, Error>(Error::NonUtf8String)) <==> block.ways_valid()
            && old(ways_id_to_idx)@.len() + block.all_ways(block.primitivegroup@.len() as int).len() <= MAX_IDS
            && !all_utf8(string_views(block.stringtable@)),
        (r == Err::<Stats, Error>(Error::StringPoolFull)) <==> block.ways_valid()
            && old(ways_id_to_idx)@.len() + block.all_ways(block.primitivegroup@.len() as int).len() <= MAX_IDS
            && all_utf8(string_views(block.stringtable@))
            && old(stringtable).bytes().len() + strings_room(string_views(block.stringtable@)) > usize::MAX,
        r is Ok <==> block.ways_valid()
            && old(ways_id_to_idx)@.len() + block.all_ways(block.primitivegroup@.len() as int).len() <= MAX_IDS
            && all_utf8(string_views(block.stringtable@))
            && old(stringtable).bytes().len() + strings_room(string_views(block.stringtable@)) <= usize::MAX,
        r is Ok ==> {
            let ws = block.all_ways(block.primitivegroup@.len() as int);
            let start = old(tags).index().len() as int;
            &&& final(stringtable)@ == interned_all(old(stringtable)@, string_views(block.stringtable@))
            &&& final(ways)@ == old(ways)@ + way_rows(ws, start, old(nodes_index)@.len() as int)
            &&& final(ways_id_to_idx)@ == old(ways_id_to_idx)@ + way_ids_of(ws).map_values(|x: u64| Some(x))
            &&& old(way_ids).is_some() == final(way_ids).is_some()
            &&& old(way_ids).is_some() ==> final(way_ids).unwrap()@ == old(way_ids).unwrap()@ + way_ids_of(ws)
            &&& final(nodes_index)@ == old(nodes_index)@ + nodes_id_to_idx@
            &&& final(tags).index().len() == start + lists_len(way_tag_lists(ws), ws.len() as int)
            &&& rows_kept(*final(tags), *old(tags), start)
            &&& rows_name(*final(tags), block_refs(block, final(stringtable)@), way_tag_lists(ws), start)
            &&& r->Ok_0 == (Stats {
                num_nodes: 0,
                num_ways: ws.len() as usize,
                num_relations: 0,
                num_unresolved_node_ids: 0,
                num_unresolved_way_ids: 0,
                num_unresolved_rel_ids: 0,
            })
        },
{
    let groups = &block.primitivegroup;
    let ng = groups.len();
    let ns = block.stringtable.len();
    let room: u64 = MAX_IDS - ways_id_to_idx.len();
    let mut total: u64 = 0;
    let mut too_many = false;
    let mut g: usize = 0;
    while g < ng
        invariant
            ng == groups@.len(),
            groups == &block.primitivegroup,
            ns == block.stringtable@.len(),
            0 <= g <= ng,
            ways_id_to_idx.wf(),
            stringtable.wf(),
            tags.wf(),
            *stringtable == *old(stringtable),
            *tags == *old(tags),
            *ways_id_to_idx == *old(ways_id_to_idx),
            *ways == *old(ways),
            *way_ids == *old(way_ids),
            *nodes_index == *old(nodes_index),
            room == MAX_IDS - ways_id_to_idx@.len(),
            forall|h: int, j: int| 0 <= h < g && 0 <= j < block.primitivegroup@[h].ways@.len()
                ==> (#[trigger] block.primitivegroup@[h].ways@[j]).valid(ns as int),
            too_many ==> block.all_ways(g as int).len() > room,
            !too_many ==> total == block.all_ways(g as int).len() && total <= room,
        decreases ng - g,
    {
        let gw = &groups[g].ways;
        let nw = gw.len();
        let mut j: usize = 0;
        while j < nw
            invariant
                ng == groups@.len(),
                groups == &block.primitivegroup,
                0 <= g < ng,
                ways_id_to_idx.wf(),
                stringtable.wf(),
                tags.wf(),
                *stringtable == *old(stringtable),
                *tags == *old(tags),
                *ways_id_to_idx == *old(ways_id_to_idx),
                *ways == *old(ways),
                *way_ids == *old(way_ids),
                *nodes_index == *old(nodes_index),
                gw == &block.primitivegroup@[g as int].ways,
                nw == gw@.len(),
                ns == block.stringtable@.len(),
                0 <= j <= nw,
                forall|k: int| 0 <= k < j ==> (#[trigger] gw@[k]).valid(ns as int),
            decreases nw - j,
        {
            let w = &gw[j];
            let nk = w.keys.len();
            proof {
                assert(block.primitivegroup@[g as int].ways@[j as int] == *w);
            }
            if nk != w.vals.len() {
                return Err(Error::InvalidBlock);
            }
            let mut i: usize = 0;
            while i < nk
                invariant
                    ng == groups@.len(),
                    groups == &block.primitivegroup,
                    0 <= g < ng,
                    0 <= j < nw,
                    gw == &block.primitivegroup@[g as int].ways,
                    nw == gw@.len(),
                    *w == gw@[j as int],
                    ns == block.stringtable@.len(),
                    ways_id_to_idx.wf(),
                    stringtable.wf(),
                    tags.wf(),
                    *stringtable == *old(stringtable),
                    *tags == *old(tags),
                    *ways_id_to_idx == *old(ways_id_to_idx),
                    *ways == *old(ways),
                    *way_ids == *old(way_ids),
                    *nodes_index == *old(nodes_index),
                    nk == w.keys@.len(),
                    nk == w.vals@.len(),
                    0 <= i <= nk,
                    forall|q: int| 0 <= q < i ==> (#[trigger] w.keys@[q]) < ns && w.vals@[q] < ns,
                decreases nk - i,
            {
                if w.keys[i] as usize >= ns || w.vals[i] as usize >= ns {
                    proof {
                        assert(!(w.keys@[i as int] < ns && w.vals@[i as int] < ns));
                        assert(!w.valid(ns as int));
                    }
                    return Err(Error::InvalidBlock);
                }
                i = i + 1;
            }
            j = j + 1;
        }
        if !too_many {
            if nw as u64 > room - total {
                too_many = true;
            } else {
                total = total + nw as u64;
            }
        }
        g = g + 1;
    }
    proof {
        assert(block.ways_valid());
    }
    if too_many {
        return Err(Error::TooManyEntities);
    }
    let refs = match add_string_table(&block.stringtable, stringtable) {
        Ok(refs) => refs,
        Err(e) => {
            return Err(e);
        },
    };
    proof {
        assert(refs@ =~= block_refs(block, stringtable@));
    }
    let ghost ts = tags.index().len() as int;
    let ghost rs = nodes_index@.len() as int;
    let ghost old_ways = ways@;
    let ghost old_table = ways_id_to_idx@;
    let ghost old_ids = *way_ids;
    let ghost old_tags = *tags;
    let ghost old_ni = nodes_index@;
    let ghost n_all = block.primitivegroup@.len() as int;
    let n_res = nodes_id_to_idx.len();
    let mut pos: usize = 0;
    let mut g: usize = 0;
    proof {
        assert(old_ways + way_rows(Seq::empty(), ts, rs) =~= old_ways);
        assert(old_table + way_ids_of(Seq::empty()).map_values(|x: u64| Some(x)) =~= old_table);
        if old_ids.is_some() {
            assert(old_ids.unwrap()@ + way_ids_of(Seq::empty()) =~= old_ids.unwrap()@);
        }
        assert(nodes_id_to_idx@.take(0) =~= Seq::<Option<u64>>::empty());
        assert(old_ni + nodes_id_to_idx@.take(0) =~= old_ni);
    }
    while g < ng
        invariant
            ng == groups@.len(),
            n_all == ng,
            groups == &block.primitivegroup,
            ns == block.stringtable@.len(),
            refs@ == block_refs(block, stringtable@),
            refs@.len() == ns,
            block.ways_valid(),
            0 <= g <= ng,
            stringtable.wf(),
            ways_id_to_idx.wf(),
            tags.wf(),
            old_table.len() + block.all_ways(ng as int).len() <= MAX_IDS,
            ts == old(tags).index().len(),
            rs == old(nodes_index)@.len(),
            rs == old_ni.len(),
            old_tags == *old(tags),
            nodes_id_to_idx@.len() == ref_ids_all(block.all_ways(ng as int)).len(),
            n_res == nodes_id_to_idx@.len(),
            pos == ref_ids_all(block.all_ways(g as int)).len(),
            ways@ == old_ways + way_rows(block.all_ways(g as int), ts, rs),
            ways_id_to_idx@ == old_table + way_ids_of(block.all_ways(g as int)).map_values(|x: u64| Some(x)),
            old_ids.is_some() == way_ids.is_some(),
            old_ids.is_some() ==> way_ids.unwrap()@ == old_ids.unwrap()@ + way_ids_of(block.all_ways(g as int)),
            nodes_index@ == old_ni + nodes_id_to_idx@.take(pos as int),
            tags.index().len() == ts + lists_len(way_tag_lists(block.all_ways(g as int)), block.all_ways(g as int).len() as int),
            rows_kept(*tags, old_tags, ts),
            rows_name(*tags, refs@, way_tag_lists(block.all_ways(g as int)), ts),
        decreases ng - g,
    {
        let gw = &groups[g].ways;
        let nw = gw.len();
        let mut j: usize = 0;
        proof {
            assert(gw@.take(0) =~= Seq::<crate::osmpbf::Way>::empty());
            assert(block.all_ways(g as int) + gw@.take(0) == block.all_ways(g as int));
            block.lemma_way_refs_grow(g + 1, ng as int);
            lemma_ref_ids_all_concat(block.all_ways(g as int), gw@);
            lemma_all_ways_len(block, g + 1, ng as int);
        }
        while j < nw
            invariant
                ng == groups@.len(),
                groups == &block.primitivegroup,
                ns == block.stringtable@.len(),
                refs@ == block_refs(block, stringtable@),
                refs@.len() == ns,
                block.ways_valid(),
                0 <= g < ng,
                gw == &block.primitivegroup@[g as int].ways,
                nw == gw@.len(),
                0 <= j <= nw,
                stringtable.wf(),
                ways_id_to_idx.wf(),
                tags.wf(),
                old_table.len() + (block.all_ways(g as int) + gw@).len() <= MAX_IDS,
                ts == old(tags).index().len(),
                rs == old(nodes_index)@.len(),
                rs == old_ni.len(),
                old_tags == *old(tags),
                ref_ids_all(block.all_ways(g as int) + gw@).len() <= nodes_id_to_idx@.len(),
                n_res == nodes_id_to_idx@.len(),
                pos == ref_ids_all(block.all_ways(g as int) + gw@.take(j as int)).len(),
                ways@ == old_ways + way_rows(block.all_ways(g as int) + gw@.take(j as int), ts, rs),
                ways_id_to_idx@ == old_table + way_ids_of(block.all_ways(g as int) + gw@.take(j as int)).map_values(|x: u64| Some(x)),
                old_ids.is_some() == way_ids.is_some(),
                old_ids.is_some() ==> way_ids.unwrap()@ == old_ids.unwrap()@ + way_ids_of(block.all_ways(g as int) + gw@.take(j as int)),
                nodes_index@ == old_ni + nodes_id_to_idx@.take(pos as int),
                tags.index().len() == ts + lists_len(way_tag_lists(block.all_ways(g as int) + gw@.take(j as int)),
                    (block.all_ways(g as int) + gw@.take(j as int)).len() as int),
                rows_kept(*tags, old_tags, ts),
                rows_name(*tags, refs@, way_tag_lists(block.all_ways(g as int) + gw@.take(j as int)), ts),
            decreases nw - j,
        {
            let w = &gw[j];
            let ghost p = block.all_ways(g as int) + gw@.take(j as int);
            proof {
                assert(gw@.take(j + 1) == gw@.take(j as int).push(*w));
                assert(block.all_ways(g as int) + gw@.take(j + 1) == p.push(*w));
                assert(w.valid(ns as int));
                lemma_ref_ids_all_concat(p, gw@.skip(j + 1));
                assert(p.push(*w) + gw@.skip(j + 1) == block.all_ways(g as int) + gw@) by {
                    assert(gw@.take(j + 1) + gw@.skip(j + 1) == gw@);
                }
                lemma_ref_ids_all_concat(p.push(*w), gw@.skip(j + 1));
                lemma_way_rows_push(p, *w, ts, rs);
                assert(p.push(*w).len() <= (block.all_ways(g as int) + gw@).len());
            }
            let ni_len = nodes_index.len();
            proof {
                assert(pos <= n_res);
                assert(ni_len == rs + pos);
            }
            let row = osm::Way { tag_first_idx: tags.next_index(), ref_first_idx: ni_len as u64 };
            let ghost before = *tags;
            let ghost ws0 = ways@;
            let ghost wi0 = *way_ids;
            let ghost wt0 = *ways_id_to_idx;
            let nk = w.keys.len();
            let mut i: usize = 0;
            while i < nk
                invariant
                    nk == w.keys@.len(),
                    w.valid(ns as int),
                    refs@.len() == ns,
                    0 <= i <= nk,
                    ways@ == ws0,
                    *way_ids == wi0,
                    *ways_id_to_idx == wt0,
                    tags.wf(),
                    tags.index().len() == before.index().len() + i,
                    rows_kept(*tags, before, before.index().len() as int),
                    forall|q: int| 0 <= q < i ==> tags.tag_of_row(before.index().len() + q) == pair_tag(refs@, #[trigger] w.pairs()[q]),
                decreases nk - i,
            {
                let ghost mid = *tags;
                tags.serialize(refs[w.keys[i] as usize], refs[w.vals[i] as usize]);
                proof {
                    assert forall|q: int| 0 <= q < i + 1 implies tags.tag_of_row(before.index().len() + q) == pair_tag(refs@, #[trigger] w.pairs()[q]) by {
                        if q < i {
                            assert(tags.tag_of_row(before.index().len() + q) == mid.tag_of_row(before.index().len() + q));
                        }
                    }
                    assert forall|q: int| 0 <= q < before.index().len() implies #[trigger] tags.tag_of_row(q) == before.tag_of_row(q) by {
                        assert(tags.tag_of_row(q) == mid.tag_of_row(q));
                    }
                }
                i = i + 1;
            }
            let nr = w.refs.len();
            let mut k: usize = 0;
            let ghost ni0 = nodes_index@;
            while k < nr
                invariant
                    nr == w.refs@.len(),
                    0 <= k <= nr,
                    pos + nr <= nodes_id_to_idx@.len(),
                    n_res == nodes_id_to_idx@.len(),
                    ways@ == ws0,
                    *way_ids == wi0,
                    *ways_id_to_idx == wt0,
                    nodes_index@ == ni0 + nodes_id_to_idx@.subrange(pos as int, pos + k),
                decreases nr - k,
            {
                nodes_index.push(nodes_id_to_idx[pos + k]);
                proof {
                    assert(nodes_id_to_idx@.subrange(pos as int, pos + k + 1) == nodes_id_to_idx@.subrange(pos as int, pos + k).push(nodes_id_to_idx@[pos + k]));
                }
                k = k + 1;
            }
            let index = ways_id_to_idx.insert(w.id as u64);
            match way_ids {
                Some(v) => {
                    v.push(w.id as u64);
                },
                None => {},
            }
            ways.push(row);
            proof {
                assert(nodes_id_to_idx@.take(pos + nr) == nodes_id_to_idx@.take(pos as int) + nodes_id_to_idx@.subrange(pos as int, pos + nr));
                lemma_lists_len_nonneg(way_tag_lists(p), p.len() as int);
                let t1 = way_tag_lists(p);
                let t2 = seq![w.pairs()];
                assert forall|k2: int, q: int| 0 <= k2 < t2.len() && 0 <= q < t2[k2].len()
                    implies tags.tag_of_row(ts + lists_len(t1, t1.len() as int) + lists_len(t2, k2) + q) == #[trigger] pair_tag(refs@, t2[k2][q]) by {
                    assert(k2 == 0);
                    assert(lists_len(t2, 0) == 0);
                }
                lemma_rows_name_kept(*tags, before, refs@, t1, ts);
                lemma_rows_name_concat(*tags, refs@, t1, t2, ts);
                assert forall|q: int| 0 <= q < ts implies #[trigger] tags.tag_of_row(q) == old_tags.tag_of_row(q) by {
                    assert(tags.tag_of_row(q) == before.tag_of_row(q));
                }
                assert(ways_id_to_idx@ =~= old_table + way_ids_of(p.push(*w)).map_values(|x: u64| Some(x)));
                if old_ids.is_some() {
                    assert(way_ids.unwrap()@ =~= old_ids.unwrap()@ + way_ids_of(p.push(*w)));
                }
                assert(ws0 == old_ways + way_rows(p, ts, rs));
                assert(row.tag_first_idx == (ts + lists_len(way_tag_lists(p), p.len() as int)) as u64);
                assert(row.ref_first_idx == (rs + ref_ids_all(p).len()) as u64);
                assert(ways@ == ws0.push(row));
                assert(ways@ =~= old_ways + way_rows(p.push(*w), ts, rs));
            }
            pos = pos + nr;
            j = j + 1;
        }
        proof {
            assert(gw@.take(nw as int) == gw@);
        }
        g = g + 1;
    }
    proof {
        assert(nodes_id_to_idx@.take(pos as int) == nodes_id_to_idx@);
    }
    Ok(Stats {
        num_nodes: 0,
        num_ways: #[verifier::truncate] (total as usize),
        num_relations: 0,
        num_unresolved_node_ids: 0,
        num_unresolved_way_ids: 0,
        num_unresolved_rel_ids: 0,
    })
}

pub proof fn lemma_all_ways_len(block: &PrimitiveBlock, g: int, h: int)
    requires
        0 <= g <= h,
    ensures
        block.all_ways(g).len() <= block.all_ways(h).len(),
    decreases h - g,
{
    if g < h {
        lemma_all_ways_len(block, g, h - 1);
    }
}

/// The member row of member `i` of relation `r`: its target looked up in
/// the table of its kind, and the offset of its role.
pub open spec fn member_row(r: Relation, i: int, nt: Seq<Option<u64>>, wt: Seq<Option<u64>>, rt: Seq<Option<u64>>, refs: Seq<u64>) -> RelationMember {
    let id = delta_sum(r.memids@, i + 1) as u64;
    let role = refs[r.roles_sid@[i] as int];
    if r.types@[i] == 0 {
        RelationMember::NodeMember { node_idx: position_of(nt, id), role_idx: role }
    } else if r.types@[i] == 1 {
        RelationMember::WayMember { way_idx: position_of(wt, id), role_idx: role }
    } else {
        RelationMember::RelationMember { relation_idx: position_of(rt, id), role_idx: role }
    }
}

pub open spec fn member_rows(r: Relation, nt: Seq<Option<u64>>, wt: Seq<Option<u64>>, rt: Seq<Option<u64>>, refs: Seq<u64>) -> Seq<RelationMember> {
    Seq::new(r.memids@.len(), |i: int| member_row(r, i, nt, wt, rt, refs))
}

/// Whether member `m` is of kind `kind` (`0` node, `1` way, `2` relation)
/// and did not resolve.
pub open spec fn absent(m: RelationMember, kind: int) -> bool {
    match m {
        RelationMember::NodeMember { node_idx, .. } => kind == 0 && node_idx.is_none(),
        RelationMember::WayMember { way_idx, .. } => kind == 1 && way_idx.is_none(),
        RelationMember::RelationMember { relation_idx, .. } => kind == 2 && relation_idx.is_none(),
    }
}

/// Number of unresolved members of kind `kind`.
pub open spec fn count_absent(ms: Seq<RelationMember>, kind: int) -> int
    decreases ms.len(),
{
    if ms.len() == 0 {
        0
    } else {
        count_absent(ms.drop_last(), kind) + if absent(ms.last(), kind) { 1int } else { 0int }
    }
}

/// Number of unresolved members of kind `kind` over the members of relations.
pub open spec fn count_absent_all(rows: Seq<Seq<RelationMember>>, kind: int) -> int
    decreases rows.len(),
{
    if rows.len() == 0 {
        0
    } else {
        count_absent_all(rows.drop_last(), kind) + count_absent(rows.last(), kind)
    }
}

/// A count as `usize`, saturating at its largest value.
pub open spec fn sat(x: int) -> usize {
    if x > usize::MAX { usize::MAX } else { x as usize }
}

proof fn lemma_count_absent_bound(ms: Seq<RelationMember>, kind: int)
    ensures
        0 <= count_absent(ms, kind) <= ms.len(),
    decreases ms.len(),
{
    if ms.len() > 0 {
        lemma_count_absent_bound(ms.drop_last(), kind);
    }
}

/// The member rows of one relation, and how many of its node, way and
/// relation members did not resolve.
#[verifier::rlimit(60)]
fn relation_members_of(
    r: &Relation,
    refs: &Vec<u64>,
    nodes_id_to_idx: &IdTable,
    ways_id_to_idx: &IdTable,
    relations_id_to_idx: &IdTable,
) -> (res: (Vec<RelationMember>, usize, usize, usize))
    requires
        r.valid(refs@.len() as int),
        nodes_id_to_idx.wf(),
        ways_id_to_idx.wf(),
        relations_id_to_idx.wf(),
    ensures
        res.0@ == member_rows(*r, nodes_id_to_idx@, ways_id_to_idx@, relations_id_to_idx@, refs@),
        res.1 == count_absent(res.0@, 0),
        res.2 == count_absent(res.0@, 1),
        res.3 == count_absent(res.0@, 2),
{
    let ghost target = member_rows(*r, nodes_id_to_idx@, ways_id_to_idx@, relations_id_to_idx@, refs@);
    let n = r.memids.len();
    let mut members: Vec<RelationMember> = Vec::new();
    let mut un: usize = 0;
    let mut uw: usize = 0;
    let mut ur: usize = 0;
    let mut memid: i64 = 0;
    let mut i: usize = 0;
    while i < n
        invariant
            n == r.memids@.len(),
            r.valid(refs@.len() as int),
            nodes_id_to_idx.wf(),
            ways_id_to_idx.wf(),
            relations_id_to_idx.wf(),
            target == member_rows(*r, nodes_id_to_idx@, ways_id_to_idx@, relations_id_to_idx@, refs@),
            0 <= i <= n,
            memid == delta_sum(r.memids@, i as int),
            members@ == target.take(i as int),
            un == count_absent(members@, 0),
            uw == count_absent(members@, 1),
            ur == count_absent(members@, 2),
        decreases n - i,
    {
        memid = memid.wrapping_add(r.memids[i]);
        let role = refs[r.roles_sid[i] as usize];
        let t = r.types[i];
        proof {
            lemma_count_absent_bound(members@, 0);
            lemma_count_absent_bound(members@, 1);
            lemma_count_absent_bound(members@, 2);
        }
        let m = if t == 0 {
            let idx = nodes_id_to_idx.get(memid as u64);
            if idx.is_none() {
                un = un + 1;
            }
            RelationMember::NodeMember { node_idx: idx, role_idx: role }
        } else if t == 1 {
            let idx = ways_id_to_idx.get(memid as u64);
            if idx.is_none() {
                uw = uw + 1;
            }
            RelationMember::WayMember { way_idx: idx, role_idx: role }
        } else {
            let idx = relations_id_to_idx.get(memid as u64);
            if idx.is_none() {
                ur = ur + 1;
            }
            RelationMember::RelationMember { relation_idx: idx, role_idx: role }
        };
        let ghost before = members@;
        members.push(m);
        proof {
            assert(m == target[i as int]);
            assert(members@ =~= target.take(i + 1));
            assert(members@.drop_last() == before);
        }
        i = i + 1;
    }
    proof {
        assert(target.take(n as int) =~= target);
    }
    (members, un, uw, ur)
}

/// Inserts the ids of a block's relations in the relation table, in order:
/// the pre-pass that lets relations reference relations of any block. Fails,
/// with the table unchanged, where the table would overflow.
pub fn index_relations(block: &PrimitiveBlock, relations_id_to_idx: &mut IdTableBuilder) -> (r: Result<(), Error>)
    requires
        old(relations_id_to_idx).wf(),
    ensures
        final(relations_id_to_idx).wf(),
        r is Err <==> old(relations_id_to_idx)@.len() + block.all_relations(block.primitivegroup@.len() as int).len() > MAX_IDS,
        r is Err ==> r == Err::<(), Error>(Error::TooManyEntities) && final(relations_id_to_idx)@ == old(relations_id_to_idx)@,
        r is Ok ==> final(relations_id_to_idx)@ == old(relations_id_to_idx)@
            + relation_ids_of(block.all_relations(block.primitivegroup@.len() as int)).map_values(|x: u64| Some(x)),
{
    let groups = &block.primitivegroup;
    let ng = groups.len();
    let room: u64 = MAX_IDS - relations_id_to_idx.len();
    let mut total: u64 = 0;
    let mut g: usize = 0;
    while g < ng
        invariant
            ng == groups@.len(),
            groups == &block.primitivegroup,
            0 <= g <= ng,
            relations_id_to_idx.wf(),
            *relations_id_to_idx == *old(relations_id_to_idx),
            room == MAX_IDS - relations_id_to_idx@.len(),
            total == block.all_relations(g as int).len(),
            total <= room,
        decreases ng - g,
    {
        let n = groups[g].relations.len() as u64;
        if n > room - total {
            proof {
                lemma_all_relations_len(block, g + 1, ng as int);
            }
            return Err(Error::TooManyEntities);
        }
        total = total + n;
        g = g + 1;
    }
    let ghost old_table = relations_id_to_idx@;
    let mut g: usize = 0;
    proof {
        assert(old_table + relation_ids_of(Seq::empty()).map_values(|x: u64| Some(x)) =~= old_table);
    }
    while g < ng
        invariant
            ng == groups@.len(),
            groups == &block.primitivegroup,
            0 <= g <= ng,
            relations_id_to_idx.wf(),
            old_table.len() + block.all_relations(ng as int).len() <= MAX_IDS,
            relations_id_to_idx@ == old_table + relation_ids_of(block.all_relations(g as int)).map_values(|x: u64| Some(x)),
        decreases ng - g,
    {
        let rels = &groups[g].relations;
        let nr = rels.len();
        let mut j: usize = 0;
        proof {
            assert(rels@.take(0) =~= Seq::<Relation>::empty());
            assert(block.all_relations(g as int) + rels@.take(0) == block.all_relations(g as int));
            lemma_all_relations_len(block, g + 1, ng as int);
        }
        while j < nr
            invariant
                ng == groups@.len(),
                groups == &block.primitivegroup,
                0 <= g < ng,
                rels == &block.primitivegroup@[g as int].relations,
                nr == rels@.len(),
                0 <= j <= nr,
                relations_id_to_idx.wf(),
                old_table.len() + (block.all_relations(g as int) + rels@).len() <= MAX_IDS,
                relations_id_to_idx@ == old_table + relation_ids_of(block.all_relations(g as int) + rels@.take(j as int)).map_values(|x: u64| Some(x)),
            decreases nr - j,
        {
            let ghost p = block.all_relations(g as int) + rels@.take(j as int);
            relations_id_to_idx.insert(rels[j].id as u64);
            proof {
                assert(rels@.take(j + 1) == rels@.take(j as int).push(rels@[j as int]));
                assert(block.all_relations(g as int) + rels@.take(j + 1) == p.push(rels@[j as int]));
                assert(relation_ids_of(p.push(rels@[j as int])) =~= relation_ids_of(p).push(rels@[j as int].id as u64));
                assert(relations_id_to_idx@ =~= old_table + relation_ids_of(p.push(rels@[j as int])).map_values(|x: u64| Some(x)));
            }
            j = j + 1;
        }
        proof {
            assert(rels@.take(nr as int) == rels@);
        }
        g = g + 1;
    }
    Ok(())
}

/// The OSM ids of the relations `rs`.
pub open spec fn relation_ids_of(rs: Seq<Relation>) -> Seq<u64> {
    Seq::new(rs.len(), |k: int| rs[k].id as u64)
}

proof fn lemma_all_relations_len(block: &PrimitiveBlock, g: int, h: int)
    requires
        0 <= g <= h,
    ensures
        block.all_relations(g).len() <= block.all_relations(h).len(),
    decreases h - g,
{
    if g < h {
        lemma_all_relations_len(block, g, h - 1);
    }
}

/// Relation rows for the relations `rs`, whose tag ranges start at tag
/// index row `ts`.
pub open spec fn relation_rows(rs: Seq<Relation>, ts: int) -> Seq<osm::Relation> {
    Seq::new(rs.len(), |k: int| osm::Relation { tag_first_idx: (ts + lists_len(relation_tag_lists(rs), k)) as u64 })
}

/// Member rows of each of the relations `rs`.
pub open spec fn member_rows_all(rs: Seq<Relation>, nt: Seq<Option<u64>>, wt: Seq<Option<u64>>, rt: Seq<Option<u64>>, refs: Seq<u64>) -> Seq<Seq<RelationMember>> {
    Seq::new(rs.len(), |k: int| member_rows(rs[k], nt, wt, rt, refs))
}

proof fn lemma_relation_push(p: Seq<Relation>, r: Relation, ts: int, nt: Seq<Option<u64>>, wt: Seq<Option<u64>>, rt: Seq<Option<u64>>, refs: Seq<u64>)
    ensures
        relation_rows(p.push(r), ts) == relation_rows(p, ts).push(osm::Relation {
            tag_first_idx: (ts + lists_len(relation_tag_lists(p), p.len() as int)) as u64,
        }),
        relation_tag_lists(p.push(r)) == relation_tag_lists(p) + seq![r.pairs()],
        relation_ids_of(p.push(r)) == relation_ids_of(p).push(r.id as u64),
        member_rows_all(p.push(r), nt, wt, rt, refs) == member_rows_all(p, nt, wt, rt, refs).push(member_rows(r, nt, wt, rt, refs)),
        forall|kind: int| #[trigger] count_absent_all(member_rows_all(p.push(r), nt, wt, rt, refs), kind)
            == count_absent_all(member_rows_all(p, nt, wt, rt, refs), kind) + count_absent(member_rows(r, nt, wt, rt, refs), kind),
{
    let q = p.push(r);
    assert(relation_tag_lists(q) =~= relation_tag_lists(p) + seq![r.pairs()]);
    let l = relation_rows(q, ts);
    let rr = relation_rows(p, ts).push(osm::Relation { tag_first_idx: (ts + lists_len(relation_tag_lists(p), p.len() as int)) as u64 });
    assert forall|k: int| 0 <= k < l.len() implies l[k] == rr[k] by {
        lemma_lists_len_concat(relation_tag_lists(p), seq![r.pairs()], k);
    }
    assert(l =~= rr);
    assert(relation_ids_of(q) =~= relation_ids_of(p).push(r.id as u64));
    let m = member_rows_all(q, nt, wt, rt, refs);
    assert(m =~= member_rows_all(p, nt, wt, rt, refs).push(member_rows(r, nt, wt, rt, refs)));
    assert(m.drop_last() == member_rows_all(p, nt, wt, rt, refs));
}

proof fn lemma_count_absent_all_nonneg(rows: Seq<Seq<RelationMember>>, kind: int)
    ensures
        count_absent_all(rows, kind) >= 0,
    decreases rows.len(),
{
    if rows.len() > 0 {
        lemma_count_absent_all_nonneg(rows.drop_last(), kind);
        lemma_count_absent_bound(rows.last(), kind);
    }
}

/// Serializes a block of relations: one relation row per relation, its
/// OSM id kept in `relation_ids` where ids are kept, its tags interned,
/// and one list of member rows, each target looked up in the table of its
/// kind. The statistics count relations and unresolved members, saturating.
/// Checks the block first: on an error nothing changed.
#[verifier::rlimit(80)]
pub fn serialize_relations(
    block: &PrimitiveBlock,
    nodes_id_to_idx: &IdTable,
    ways_id_to_idx: &IdTable,
    relations_id_to_idx: &IdTable,
    stringtable: &mut StringTable,
    relations: &mut Vec<osm::Relation>,
    relation_ids: &mut Option<Vec<u64>>,
    relation_members: &mut Vec<Vec<RelationMember>>,
    tags: &mut TagSerializer,
) -> (r: Result<Stats, Error>)
    requires
        nodes_id_to_idx.wf(),
        ways_id_to_idx.wf(),
        relations_id_to_idx.wf(),
        old(stringtable).wf(),
        old(tags).wf(),
    ensures
        final(stringtable).wf(),
        final(tags).wf(),
        r is Err ==> {
            &&& final(relations)@ == old(relations)@
            &&& *final(relation_ids) == *old(relation_ids)
            &&& final(relation_members)@ == old(relation_members)@
            &&& *final(stringtable) == *old(stringtable)
            &&& final(tags).tags() == old(tags).tags()
            &&& final(tags).index() == old(tags).index()
        },
        (r == Err::<Stats, Error>(Error::InvalidBlock)) <==> !block.relations_valid(),
        (r == Err::<Stats, Error>(Error::NonUtf8String)) <==> block.relations_valid()
            && !all_utf8(string_views(block.stringtable@)),
        (r == Err::<Stats, Error>(Error::StringPoolFull)) <==> block.relations_valid()
            && all_utf8(string_views(block.stringtable@))
            && old(stringtable).bytes().len() + strings_room(string_views(block.stringtable@)) > usize::MAX,
        r is Ok <==> block.relations_valid()
            && all_utf8(string_views(block.stringtable@))
            && old(stringtable).bytes().len() + strings_room(string_views(block.stringtable@)) <= usize::MAX,
        r is Ok ==> {
            let rs = block.all_relations(block.primitivegroup@.len() as int);
            let start = old(tags).index().len() as int;
            let refs = block_refs(block, final(stringtable)@);
            let rows = member_rows_all(rs, nodes_id_to_idx@, ways_id_to_idx@, relations_id_to_idx@, refs);
            &&& final(stringtable)@ == interned_all(old(stringtable)@, string_views(block.stringtable@))
            &&& final(relations)@ == old(relations)@ + relation_rows(rs, start)
            &&& old(relation_ids).is_some() == final(relation_ids).is_some()
            &&& old(relation_ids).is_some() ==> final(relation_ids).unwrap()@ == old(relation_ids).unwrap()@ + relation_ids_of(rs)
            &&& final(relation_members)@.len() == old(relation_members)@.len() + rs.len()
            &&& forall|k: int| 0 <= k < old(relation_members)@.len() ==> #[trigger] final(relation_members)@[k] == old(relation_members)@[k]
            &&& forall|k: int| 0 <= k < rs.len() ==> #[trigger] final(relation_members)@[old(relation_members)@.len() + k]@ == rows[k]
            &&& final(tags).index().len() == start + lists_len(relation_tag_lists(rs), rs.len() as int)
            &&& rows_kept(*final(tags), *old(tags), start)
            &&& rows_name(*final(tags), refs, relation_tag_lists(rs), start)
            &&& r->Ok_0 == (Stats {
                num_nodes: 0,
                num_ways: 0,
                num_relations: sat(rs.len() as int),
                num_unresolved_node_ids: sat(count_absent_all(rows, 0)),
                num_unresolved_way_ids: sat(count_absent_all(rows, 1)),
                num_unresolved_rel_ids: sat(count_absent_all(rows, 2)),
            })
        },
{
    let groups = &block.primitivegroup;
    let ng = groups.len();
    let ns = block.stringtable.len();
    let mut g: usize = 0;
    while g < ng
        invariant
            ng == groups@.len(),
            groups == &block.primitivegroup,
            ns == block.stringtable@.len(),
            0 <= g <= ng,
            stringtable.wf(),
            tags.wf(),
            *stringtable == *old(stringtable),
            *tags == *old(tags),
            *relations == *old(relations),
            *relation_ids == *old(relation_ids),
            *relation_members == *old(relation_members),
            forall|h: int, j: int| 0 <= h < g && 0 <= j < block.primitivegroup@[h].relations@.len()
                ==> (#[trigger] block.primitivegroup@[h].relations@[j]).valid(ns as int),
        decreases ng - g,
    {
        let rels = &groups[g].relations;
        let nr = rels.len();
        let mut j: usize = 0;
        while j < nr
            invariant
                ng == groups@.len(),
                groups == &block.primitivegroup,
                0 <= g < ng,
                rels == &block.primitivegroup@[g as int].relations,
                nr == rels@.len(),
                ns == block.stringtable@.len(),
                0 <= j <= nr,
                stringtable.wf(),
                tags.wf(),
                *stringtable == *old(stringtable),
                *tags == *old(tags),
                *relations == *old(relations),
                *relation_ids == *old(relation_ids),
                *relation_members == *old(relation_members),
                forall|h: int, k: int| 0 <= h < g && 0 <= k < block.primitivegroup@[h].relations@.len()
                    ==> (#[trigger] block.primitivegroup@[h].relations@[k]).valid(ns as int),
                forall|k: int| 0 <= k < j ==> (#[trigger] rels@[k]).valid(ns as int),
            decreases nr - j,
        {
            let r = &rels[j];
            proof {
                assert(block.primitivegroup@[g as int].relations@[j as int] == *r);
            }
            if !relation_valid(r, ns) {
                return Err(Error::InvalidBlock);
            }
            j = j + 1;
        }
        g = g + 1;
    }
    proof {
        assert(block.relations_valid());
    }
    let refs = match add_string_table(&block.stringtable, stringtable) {
        Ok(refs) => refs,
        Err(e) => {
            return Err(e);
        },
    };
    proof {
        assert(refs@ =~= block_refs(block, stringtable@));
    }
    let ghost nt = nodes_id_to_idx@;
    let ghost wt = ways_id_to_idx@;
    let ghost rt = relations_id_to_idx@;
    let ghost ts = tags.index().len() as int;
    let ghost old_rel = relations@;
    let ghost old_ids = *relation_ids;
    let ghost old_tags = *tags;
    let ghost old_mem = relation_members@;
    let mut count: usize = 0;
    let mut un: usize = 0;
    let mut uw: usize = 0;
    let mut ur: usize = 0;
    let mut g: usize = 0;
    proof {
        assert(old_rel + relation_rows(Seq::empty(), ts) =~= old_rel);
        if old_ids.is_some() {
            assert(old_ids.unwrap()@ + relation_ids_of(Seq::empty()) =~= old_ids.unwrap()@);
        }
    }
    while g < ng
        invariant
            ng == groups@.len(),
            groups == &block.primitivegroup,
            ns == block.stringtable@.len(),
            refs@ == block_refs(block, stringtable@),
            refs@.len() == ns,
            block.relations_valid(),
            0 <= g <= ng,
            nodes_id_to_idx.wf(),
            ways_id_to_idx.wf(),
            relations_id_to_idx.wf(),
            nt == nodes_id_to_idx@,
            wt == ways_id_to_idx@,
            rt == relations_id_to_idx@,
            stringtable.wf(),
            tags.wf(),
            ts == old(tags).index().len(),
            old_tags == *old(tags),
            relations@ == old_rel + relation_rows(block.all_relations(g as int), ts),
            old_ids.is_some() == relation_ids.is_some(),
            old_ids.is_some() ==> relation_ids.unwrap()@ == old_ids.unwrap()@ + relation_ids_of(block.all_relations(g as int)),
            relation_members@.len() == old_mem.len() + block.all_relations(g as int).len(),
            forall|k: int| 0 <= k < old_mem.len() ==> #[trigger] relation_members@[k] == old_mem[k],
            forall|k: int| 0 <= k < block.all_relations(g as int).len() ==> #[trigger] relation_members@[old_mem.len() + k]@
                == member_rows_all(block.all_relations(g as int), nt, wt, rt, refs@)[k],
            count == sat(block.all_relations(g as int).len() as int),
            un == sat(count_absent_all(member_rows_all(block.all_relations(g as int), nt, wt, rt, refs@), 0)),
            uw == sat(count_absent_all(member_rows_all(block.all_relations(g as int), nt, wt, rt, refs@), 1)),
            ur == sat(count_absent_all(member_rows_all(block.all_relations(g as int), nt, wt, rt, refs@), 2)),
            tags.index().len() == ts + lists_len(relation_tag_lists(block.all_relations(g as int)), block.all_relations(g as int).len() as int),
            rows_kept(*tags, old_tags, ts),
            rows_name(*tags, refs@, relation_tag_lists(block.all_relations(g as int)), ts),
        decreases ng - g,
    {
        let rels = &groups[g].relations;
        let nr = rels.len();
        let mut j: usize = 0;
        proof {
            assert(rels@.take(0) =~= Seq::<Relation>::empty());
            assert(block.all_relations(g as int) + rels@.take(0) == block.all_relations(g as int));
        }
        while j < nr
            invariant
                ng == groups@.len(),
                groups == &block.primitivegroup,
                ns == block.stringtable@.len(),
                refs@ == block_refs(block, stringtable@),
                refs@.len() == ns,
                block.relations_valid(),
                0 <= g < ng,
                rels == &block.primitivegroup@[g as int].relations,
                nr == rels@.len(),
                0 <= j <= nr,
                nodes_id_to_idx.wf(),
                ways_id_to_idx.wf(),
                relations_id_to_idx.wf(),
                nt == nodes_id_to_idx@,
                wt == ways_id_to_idx@,
                rt == relations_id_to_idx@,
                stringtable.wf(),
                tags.wf(),
                ts == old(tags).index().len(),
                old_tags == *old(tags),
                relations@ == old_rel + relation_rows(block.all_relations(g as int) + rels@.take(j as int), ts),
                old_ids.is_some() == relation_ids.is_some(),
                old_ids.is_some() ==> relation_ids.unwrap()@ == old_ids.unwrap()@ + relation_ids_of(block.all_relations(g as int) + rels@.take(j as int)),
                relation_members@.len() == old_mem.len() + (block.all_relations(g as int) + rels@.take(j as int)).len(),
                forall|k: int| 0 <= k < old_mem.len() ==> #[trigger] relation_members@[k] == old_mem[k],
                forall|k: int| 0 <= k < (block.all_relations(g as int) + rels@.take(j as int)).len() ==> #[trigger] relation_members@[old_mem.len() + k]@
                    == member_rows_all(block.all_relations(g as int) + rels@.take(j as int), nt, wt, rt, refs@)[k],
                count == sat((block.all_relations(g as int) + rels@.take(j as int)).len() as int),
                un == sat(count_absent_all(member_rows_all(block.all_relations(g as int) + rels@.take(j as int), nt, wt, rt, refs@), 0)),
                uw == sat(count_absent_all(member_rows_all(block.all_relations(g as int) + rels@.take(j as int), nt, wt, rt, refs@), 1)),
                ur == sat(count_absent_all(member_rows_all(block.all_relations(g as int) + rels@.take(j as int), nt, wt, rt, refs@), 2)),
                tags.index().len() == ts + lists_len(relation_tag_lists(block.all_relations(g as int) + rels@.take(j as int)),
                    (block.all_relations(g as int) + rels@.take(j as int)).len() as int),
                rows_kept(*tags, old_tags, ts),
                rows_name(*tags, refs@, relation_tag_lists(block.all_relations(g as int) + rels@.take(j as int)), ts),
            decreases nr - j,
        {
            let r = &rels[j];
            let ghost p = block.all_relations(g as int) + rels@.take(j as int);
            proof {
                assert(rels@.take(j + 1) == rels@.take(j as int).push(*r));
                assert(block.all_relations(g as int) + rels@.take(j + 1) == p.push(*r));
                assert(block.primitivegroup@[g as int].relations@[j as int] == *r);
                assert(r.valid(ns as int));
                lemma_relation_push(p, *r, ts, nt, wt, rt, refs@);
                lemma_count_absent_all_nonneg(member_rows_all(p, nt, wt, rt, refs@), 0);
                lemma_count_absent_all_nonneg(member_rows_all(p, nt, wt, rt, refs@), 1);
                lemma_count_absent_all_nonneg(member_rows_all(p, nt, wt, rt, refs@), 2);
            }
            let row = osm::Relation { tag_first_idx: tags.next_index() };
            let ghost before = *tags;
            let ghost rel0 = relations@;
            let ghost ids0 = *relation_ids;
            let ghost mem0 = relation_members@;
            let nk = r.keys.len();
            let mut i: usize = 0;
            while i < nk
                invariant
                    nk == r.keys@.len(),
                    r.valid(ns as int),
                    refs@.len() == ns,
                    0 <= i <= nk,
                    relations@ == rel0,
                    *relation_ids == ids0,
                    relation_members@ == mem0,
                    tags.wf(),
                    tags.index().len() == before.index().len() + i,
                    rows_kept(*tags, before, before.index().len() as int),
                    forall|q: int| 0 <= q < i ==> tags.tag_of_row(before.index().len() + q) == pair_tag(refs@, #[trigger] r.pairs()[q]),
                decreases nk - i,
            {
                let ghost mid = *tags;
                tags.serialize(refs[r.keys[i] as usize], refs[r.vals[i] as usize]);
                proof {
                    assert forall|q: int| 0 <= q < i + 1 implies tags.tag_of_row(before.index().len() + q) == pair_tag(refs@, #[trigger] r.pairs()[q]) by {
                        if q < i {
                            assert(tags.tag_of_row(before.index().len() + q) == mid.tag_of_row(before.index().len() + q));
                        }
                    }
                    assert forall|q: int| 0 <= q < before.index().len() implies #[trigger] tags.tag_of_row(q) == before.tag_of_row(q) by {
                        assert(tags.tag_of_row(q) == mid.tag_of_row(q));
                    }
                }
                i = i + 1;
            }
            let (members, n_un, n_uw, n_ur) = relation_members_of(r, &refs, nodes_id_to_idx, ways_id_to_idx, relations_id_to_idx);
            relations.push(row);
            match relation_ids {
                Some(v) => {
                    v.push(r.id as u64);
                },
                None => {},
            }
            relation_members.push(members);
            count = count.saturating_add(1);
            un = un.saturating_add(n_un);
            uw = uw.saturating_add(n_uw);
            ur = ur.saturating_add(n_ur);
            proof {
                let t1 = relation_tag_lists(p);
                let t2 = seq![r.pairs()];
                lemma_lists_len_nonneg(t1, t1.len() as int);
                lemma_lists_len_concat(t1, t2, (p.len() + 1) as int);
                assert(lists_len(t2, 1) == lists_len(t2, 0) + r.pairs().len());
                assert forall|k2: int, q: int| 0 <= k2 < t2.len() && 0 <= q < t2[k2].len()
                    implies tags.tag_of_row(ts + lists_len(t1, t1.len() as int) + lists_len(t2, k2) + q) == #[trigger] pair_tag(refs@, t2[k2][q]) by {
                    assert(k2 == 0);
                    assert(lists_len(t2, 0) == 0);
                }
                lemma_rows_name_kept(*tags, before, refs@, t1, ts);
                lemma_rows_name_concat(*tags, refs@, t1, t2, ts);
                assert forall|q: int| 0 <= q < ts implies #[trigger] tags.tag_of_row(q) == old_tags.tag_of_row(q) by {
                    assert(tags.tag_of_row(q) == before.tag_of_row(q));
                }
                assert(relations@ =~= old_rel + relation_rows(p.push(*r), ts));
                if old_ids.is_some() {
                    assert(relation_ids.unwrap()@ =~= old_ids.unwrap()@ + relation_ids_of(p.push(*r)));
                }
                let nrows = member_rows_all(p.push(*r), nt, wt, rt, refs@);
                assert forall|k: int| 0 <= k < p.push(*r).len() implies #[trigger] relation_members@[old_mem.len() + k]@ == nrows[k] by {
                    if k < p.len() {
                        assert(relation_members@[old_mem.len() + k] == mem0[old_mem.len() + k]);
                    }
                }
                assert forall|k: int| 0 <= k < old_mem.len() implies #[trigger] relation_members@[k] == old_mem[k] by {
                    assert(relation_members@[k] == mem0[k]);
                }
            }
            j = j + 1;
        }
        proof {
            assert(rels@.take(nr as int) == rels@);
        }
        g = g + 1;
    }
    Ok(Stats {
        num_nodes: 0,
        num_ways: 0,
        num_relations: count,
        num_unresolved_node_ids: un,
        num_unresolved_way_ids: uw,
        num_unresolved_rel_ids: ur,
    })
}

/// Whether a relation is valid against a string table of `ns` strings.
fn relation_valid(r: &Relation, ns: usize) -> (b: bool)
    ensures
        b == r.valid(ns as int),
{
    let nk = r.keys.len();
    if nk != r.vals.len() {
        return false;
    }
    let mut i: usize = 0;
    while i < nk
        invariant
            nk == r.keys@.len(),
            nk == r.vals@.len(),
            0 <= i <= nk,
            forall|q: int| 0 <= q < i ==> (#[trigger] r.keys@[q]) < ns && r.vals@[q] < ns,
        decreases nk - i,
    {
        if r.keys[i] as usize >= ns || r.vals[i] as usize >= ns {
            proof {
                assert(!(r.keys@[i as int] < ns && r.vals@[i as int] < ns));
            }
            return false;
        }
        i = i + 1;
    }
    let nm = r.memids.len();
    if r.roles_sid.len() != nm || r.types.len() != nm {
        return false;
    }
    let mut i: usize = 0;
    while i < nm
        invariant
            nm == r.memids@.len(),
            nm == r.roles_sid@.len(),
            nm == r.types@.len(),
            0 <= i <= nm,
            forall|q: int| 0 <= q < i ==> 0 <= #[trigger] r.roles_sid@[q] < ns,
            forall|q: int| 0 <= q < i ==> 0 <= #[trigger] r.types@[q] <= 2,
        decreases nm - i,
    {
        if r.roles_sid[i] < 0 || r.roles_sid[i] as usize >= ns || r.types[i] < 0 || r.types[i] > 2 {
            proof {
                assert(!(0 <= r.roles_sid@[i as int] < ns) || !(0 <= r.types@[i as int] <= 2));
            }
            return false;
        }
        i = i + 1;
    }
    true
}

} // verus!
