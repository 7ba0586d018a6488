//! Laws that relate the library's operations, proved over their contracts.
use vstd::prelude::*;
use crate::compile::{count_none, count_absent, member_rows, member_row, absent};
use crate::ids::position_of;
use crate::osmpbf::Relation;
use crate::strings::{StringTable, all_distinct, interned, offset_of, pool_bytes, is_string_start, lemma_pool_holds, lemma_interned};

verus! {

/// A string that the pool holds stands at its offset, followed by `\0`.
pub proof fn law_pool_holds(st: &StringTable, s: Seq<u8>)
    requires
        st.wf(),
        st@.contains(s),
    ensures
        offset_of(st@, s) + s.len() + 1 <= st.bytes().len(),
        st.bytes().subrange(offset_of(st@, s), offset_of(st@, s) + s.len() + 1) == s.push(0u8),
{
    let i = st@.index_of(s);
    lemma_pool_holds(st@, i);
}

/// The empty string, once interned, sits on a `\0`.
pub proof fn law_empty_string(st: &StringTable)
    requires
        st.wf(),
        st@.contains(Seq::<u8>::empty()),
    ensures
        st.bytes()[offset_of(st@, Seq::<u8>::empty())] == 0,
{
    law_pool_holds(st, Seq::<u8>::empty());
    let o = offset_of(st@, Seq::<u8>::empty());
    assert(st.bytes().subrange(o, o + 1)[0] == st.bytes()[o]);
}

/// Every offset that the pool hands out is the start of a string: the
/// first byte, or one right after a `\0`.
pub proof fn law_offsets_start_strings(ss: Seq<Seq<u8>>, s: Seq<u8>)
    requires
        ss.contains(s),
    ensures
        is_string_start(pool_bytes(ss), offset_of(ss, s)),
{
    lemma_pool_holds(ss, ss.index_of(s));
}

/// Interning a string again changes nothing and gives the same offset.
pub proof fn law_insert_repeat(ss: Seq<Seq<u8>>, s: Seq<u8>)
    requires
        all_distinct(ss),
    ensures
        interned(interned(ss, s), s) == interned(ss, s),
        offset_of(interned(interned(ss, s), s), s) == offset_of(interned(ss, s), s),
{
    lemma_interned(ss, s);
}

/// Where every referenced id is in the table, no reference is left
/// unresolved.
pub proof fn law_consistent_refs_resolve(ids: Seq<u64>, slots: Seq<Option<u64>>)
    requires
        forall|i: int| 0 <= i < ids.len() ==> in_table(slots, #[trigger] ids[i]),
    ensures
        count_none(ids.map_values(|id: u64| position_of(slots, id))) == 0,
    decreases ids.len(),
{
    if ids.len() > 0 {
        let r = ids.map_values(|id: u64| position_of(slots, id));
        let d = ids.drop_last();
        assert forall|i: int| 0 <= i < d.len() implies in_table(slots, #[trigger] d[i]) by {
            assert(d[i] == ids[i]);
        }
        law_consistent_refs_resolve(d, slots);
        assert(r.drop_last() =~= d.map_values(|id: u64| position_of(slots, id)));
        let x = ids[ids.len() - 1];
        assert(in_table(slots, x));
        assert(r.last() == position_of(slots, x));
    }
}

/// Where every member of a relation names an id of the table of its kind,
/// no member of that kind is left unresolved.
pub proof fn law_consistent_members_resolve(
    r: Relation,
    nt: Seq<Option<u64>>,
    wt: Seq<Option<u64>>,
    rt: Seq<Option<u64>>,
    refs: Seq<u64>,
    kind: int,
)
    requires
        0 <= kind <= 2,
        r.types@.len() == r.memids@.len(),
        forall|i: int| 0 <= i < r.types@.len() ==> 0 <= #[trigger] r.types@[i] <= 2,
        forall|i: int| 0 <= i < r.memids@.len() && r.types@[i] == kind
            ==> in_table(if kind == 0 { nt } else if kind == 1 { wt } else { rt }, #[trigger] r.member_ids()[i]),
    ensures
        count_absent(member_rows(r, nt, wt, rt, refs), kind) == 0,
{
    let ms = member_rows(r, nt, wt, rt, refs);
    assert forall|i: int| 0 <= i < ms.len() implies !absent(#[trigger] ms[i], kind) by {
        assert(ms[i] == member_row(r, i, nt, wt, rt, refs));
        assert(r.member_ids()[i] == delta_sum_id(r, i));
        assert(0 <= r.types@[i] <= 2);
        if r.types@[i] == kind {
            let x = r.member_ids()[i];
            assert(in_table(if kind == 0 { nt } else if kind == 1 { wt } else { rt }, x));
        }
    }
    lemma_no_absent(ms, kind);
}

/// Whether some slot of table `t` holds `x`.
pub open spec fn in_table(t: Seq<Option<u64>>, x: u64) -> bool {
    exists|k: int| 0 <= k < t.len() && t[k] == Some(x)
}

spec fn delta_sum_id(r: Relation, i: int) -> u64 {
    crate::osmpbf::delta_sum(r.memids@, i + 1) as u64
}

proof fn lemma_no_absent(ms: Seq<crate::osm::RelationMember>, kind: int)
    requires
        forall|i: int| 0 <= i < ms.len() ==> !absent(#[trigger] ms[i], kind),
    ensures
        count_absent(ms, kind) == 0,
    decreases ms.len(),
{
    if ms.len() > 0 {
        lemma_no_absent(ms.drop_last(), kind);
        assert(!absent(ms[ms.len() - 1], kind));
    }
}

/// An id in a slot has a first slot.
proof fn lemma_first_slot(slots: Seq<Option<u64>>, x: u64, i: int)
    requires
        0 <= i < slots.len(),
        slots[i] == Some(x),
    ensures
        exists|m: int| 0 <= m < slots.len() && slots[m] == Some(x) && forall|j: int| 0 <= j < m ==> slots[j] != Some(x),
    decreases i,
{
    if exists|j: int| 0 <= j < i && slots[j] == Some(x) {
        let j = choose|j: int| 0 <= j < i && slots[j] == Some(x);
        lemma_first_slot(slots, x, j);
    } else {
        assert(forall|j: int| 0 <= j < i ==> slots[j] != Some(x));
    }
}

/// The ids kept beside a table built from them give back the id that a
/// lookup found: `ids[get(x)] == x`.
pub proof fn law_ids_round_trip(ids: Seq<u64>, x: u64)
    requires
        ids.len() <= u64::MAX,
        position_of(ids.map_values(|y: u64| Some(y)), x).is_some(),
    ensures
        ids[position_of(ids.map_values(|y: u64| Some(y)), x).unwrap() as int] == x,
{
    let slots = ids.map_values(|y: u64| Some(y));
    let i = choose|i: int| 0 <= i < slots.len() && slots[i] == Some(x);
    lemma_first_slot(slots, x, i);
    let p = choose|m: int| 0 <= m < slots.len() && slots[m] == Some(x)
        && forall|j: int| 0 <= j < m ==> slots[j] != Some(x);
    assert(position_of(slots, x) == Some(p as u64));
    assert(slots[p] == Some(ids[p]));
}

} // verus!
