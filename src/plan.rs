//! What the compiler decides before it serializes entities: the archive's
//! coordinate scale, which blocks form each phase, and the header row.
use vstd::prelude::*;
use crate::compile::Error;
use crate::osm::Header;
use crate::osmpbf::{BlockIndex, BlockType, HeaderBlock, trunc_div};
use crate::strings::{StringTable, interned, offset_of, lemma_interned};

verus! {

/// Nanodegrees per degree: the finest granularity a block can have.
pub const NANO: i32 = 1_000_000_000;

pub open spec fn gcd_spec(a: nat, b: nat) -> nat
    decreases b,
{
    if b == 0 { a } else { gcd_spec(b, a % b) }
}

/// Greatest common divisor of two positive numbers.
pub fn gcd(a: i32, b: i32) -> (r: i32)
    requires
        a > 0,
        b > 0,
    ensures
        r == gcd_spec(a as nat, b as nat),
        0 < r <= a,
{
    let mut x = a;
    let mut y = b;
    while y != 0
        invariant
            x > 0,
            y >= 0,
            gcd_spec(x as nat, y as nat) == gcd_spec(a as nat, b as nat),
        decreases y,
    {
        let t = x % y;
        x = y;
        y = t;
    }
    proof {
        lemma_gcd_bound(a as nat, b as nat);
    }
    x
}

proof fn lemma_gcd_bound(a: nat, b: nat)
    requires
        a > 0,
    ensures
        0 < gcd_spec(a, b) <= a,
        b > 0 ==> gcd_spec(a, b) <= b,
    decreases b,
{
    if b > 0 {
        let m = a % b;
        assert(m < b) by (nonlinear_arith) requires b > 0, m == a % b;
        lemma_gcd_bound(b, m);
        if a < b {
            assert(m == a) by (nonlinear_arith) requires 0 < a < b, m == a % b;
        }
    }
}

/// The gcd of `NANO` and the granularities of the dense node blocks in
/// `blocks[..n]`.
pub open spec fn common_granularity(blocks: Seq<BlockIndex>, n: int) -> int
    decreases n,
{
    if n <= 0 {
        NANO as int
    } else {
        let b = blocks[n - 1];
        let g = common_granularity(blocks, n - 1);
        if b.block_type == BlockType::DenseNodes && b.granularity.is_some() {
            gcd_spec(g as nat, b.granularity.unwrap() as nat) as int
        } else {
            g
        }
    }
}

/// Every dense node block that sets a granularity sets a positive one.
pub open spec fn granularities_valid(blocks: Seq<BlockIndex>) -> bool {
    forall|i: int| 0 <= i < blocks.len() && (#[trigger] blocks[i]).block_type == BlockType::DenseNodes
        && blocks[i].granularity.is_some() ==> blocks[i].granularity.unwrap() > 0
}

/// The blocks of `blocks` of type `t`, in order.
pub open spec fn of_type(blocks: Seq<BlockIndex>, t: BlockType) -> Seq<BlockIndex> {
    blocks.filter(|b: BlockIndex| b.block_type == t)
}

/// Blocks in file order.
pub open spec fn by_start(v: Seq<BlockIndex>) -> bool {
    forall|a: int, b: int| 0 <= a < b < v.len() ==> #[trigger] v[a].blob_start <= #[trigger] v[b].blob_start
}

/// Inserts `b` into `v`, which is in file order, keeping file order.
fn insert_by_start(v: &mut Vec<BlockIndex>, b: BlockIndex)
    requires
        by_start(old(v)@),
    ensures
        by_start(final(v)@),
        final(v)@.to_multiset() == old(v)@.to_multiset().insert(b),
{
    let n = v.len();
    let mut pos: usize = n;
    while pos > 0 && v[pos - 1].blob_start > b.blob_start
        invariant
            0 <= pos <= n,
            n == v@.len(),
            v@ == old(v)@,
            forall|k: int| pos <= k < n ==> #[trigger] v@[k].blob_start > b.blob_start,
        decreases pos,
    {
        pos = pos - 1;
    }
    let ghost before = v@;
    v.insert(pos, b);
    proof {
        vstd::seq_lib::to_multiset_insert(before, pos as int, b);
        let w = v@;
        assert forall|x: int, y: int| 0 <= x < y < w.len() implies #[trigger] w[x].blob_start <= #[trigger] w[y].blob_start by {
            if y < pos {
                assert(w[x] == before[x] && w[y] == before[y]);
            } else if y == pos {
                assert(w[x] == before[x]);
                if pos > 0 {
                    assert(before[x].blob_start <= before[pos - 1].blob_start || x == pos - 1);
                }
            } else if x == pos {
                assert(w[y] == before[y - 1]);
            } else if x < pos {
                assert(w[x] == before[x] && w[y] == before[y - 1]);
            } else {
                assert(w[x] == before[x - 1] && w[y] == before[y - 1]);
            }
        }
    }
}

/// The blocks of each phase and the archive's coordinate frame.
pub struct BlockPlan {
    pub header: BlockIndex,
    pub dense_nodes: Vec<BlockIndex>,
    pub ways: Vec<BlockIndex>,
    pub relations: Vec<BlockIndex>,
    /// The gcd of the block granularities: what stored coordinates count.
    pub granularity: i32,
    /// Units of a stored coordinate per degree: `NANO / granularity`.
    pub coord_scale: i32,
}

/// Plans a compile from the block index: the common granularity of the
/// dense node blocks, and the blocks of each phase. Fails on a
/// granularity that is not positive, on a block of plain nodes, and
/// where there is not exactly one header block, in this order.
pub fn plan_blocks(blocks: &Vec<BlockIndex>) -> (r: Result<BlockPlan, Error>)
    ensures
        (r == Err::<BlockPlan, Error>(Error::InvalidGranularity)) <==> !granularities_valid(blocks@),
        (r == Err::<BlockPlan, Error>(Error::NodesBlock)) <==> granularities_valid(blocks@)
            && of_type(blocks@, BlockType::Nodes).len() > 0,
        (r is Err && r != Err::<BlockPlan, Error>(Error::InvalidGranularity) && r != Err::<BlockPlan, Error>(Error::NodesBlock))
            <==> granularities_valid(blocks@) && of_type(blocks@, BlockType::Nodes).len() == 0
                && of_type(blocks@, BlockType::Header).len() != 1,
        r is Err ==> r == Err::<BlockPlan, Error>(Error::InvalidGranularity) || r == Err::<BlockPlan, Error>(Error::NodesBlock)
            || r == Err::<BlockPlan, Error>(Error::HeaderCount(of_type(blocks@, BlockType::Header).len() as usize)),
        r is Ok ==> {
            let p = r->Ok_0;
            &&& p.header == of_type(blocks@, BlockType::Header)[0]
            &&& p.dense_nodes@.to_multiset() == of_type(blocks@, BlockType::DenseNodes).to_multiset()
            &&& p.ways@.to_multiset() == of_type(blocks@, BlockType::Ways).to_multiset()
            &&& p.relations@.to_multiset() == of_type(blocks@, BlockType::Relations).to_multiset()
            &&& by_start(p.dense_nodes@) && by_start(p.ways@) && by_start(p.relations@)
            &&& p.granularity == common_granularity(blocks@, blocks@.len() as int)
            &&& p.granularity > 0
            &&& p.coord_scale == NANO / p.granularity
        },
{
    let n = blocks.len();
    let mut g: i32 = NANO;
    let mut i: usize = 0;
    while i < n
        invariant
            n == blocks@.len(),
            0 <= i <= n,
            0 < g <= NANO,
            g == common_granularity(blocks@, i as int),
            forall|k: int| 0 <= k < i && (#[trigger] blocks@[k]).block_type == BlockType::DenseNodes
                && blocks@[k].granularity.is_some() ==> blocks@[k].granularity.unwrap() > 0,
        decreases n - i,
    {
        let b = blocks[i];
        if b.block_type == BlockType::DenseNodes {
            match b.granularity {
                Some(bg) => {
                    if bg <= 0 {
                        return Err(Error::InvalidGranularity);
                    }
                    g = gcd(g, bg);
                },
                None => {},
            }
        }
        i = i + 1;
    }
    let ghost all = blocks@;
    let mut headers: Vec<BlockIndex> = Vec::new();
    let mut dense: Vec<BlockIndex> = Vec::new();
    let mut ways: Vec<BlockIndex> = Vec::new();
    let mut relations: Vec<BlockIndex> = Vec::new();
    let mut has_nodes = false;
    let mut i: usize = 0;
    proof {
        assert(all.take(0) =~= Seq::<BlockIndex>::empty());
        assert(dense@ =~= of_type(all.take(0), BlockType::DenseNodes));
        assert(ways@ =~= of_type(all.take(0), BlockType::Ways));
        assert(relations@ =~= of_type(all.take(0), BlockType::Relations));
    }
    while i < n
        invariant
            n == blocks@.len(),
            all == blocks@,
            0 <= i <= n,
            headers@ == of_type(all.take(i as int), BlockType::Header),
            dense@.to_multiset() == of_type(all.take(i as int), BlockType::DenseNodes).to_multiset(),
            ways@.to_multiset() == of_type(all.take(i as int), BlockType::Ways).to_multiset(),
            relations@.to_multiset() == of_type(all.take(i as int), BlockType::Relations).to_multiset(),
            by_start(dense@) && by_start(ways@) && by_start(relations@),
            has_nodes == (of_type(all.take(i as int), BlockType::Nodes).len() > 0),
        decreases n - i,
    {
        let b = blocks[i];
        proof {
            assert(all.take(i + 1) == all.take(i as int).push(b));
            reveal_filter_push(all.take(i as int), b);
        }
        match b.block_type {
            BlockType::Header => headers.push(b),
            BlockType::Nodes => {
                has_nodes = true;
            },
            BlockType::DenseNodes => insert_by_start(&mut dense, b),
            BlockType::Ways => insert_by_start(&mut ways, b),
            BlockType::Relations => insert_by_start(&mut relations, b),
        }
        proof {
            vstd::seq_lib::to_multiset_build(of_type(all.take(i as int), b.block_type), b);
        }
        i = i + 1;
    }
    proof {
        assert(all.take(n as int) == all);
    }
    if has_nodes {
        return Err(Error::NodesBlock);
    }
    if headers.len() != 1 {
        return Err(Error::HeaderCount(headers.len()));
    }
    let header = headers[0];
    Ok(BlockPlan { header, dense_nodes: dense, ways, relations, granularity: g, coord_scale: NANO / g })
}

/// Filtering a sequence with one more element.
proof fn reveal_filter_push(s: Seq<BlockIndex>, b: BlockIndex)
    ensures
        forall|t: BlockType| #[trigger] of_type(s.push(b), t)
            == if b.block_type == t { of_type(s, t).push(b) } else { of_type(s, t) },
{
    assert forall|t: BlockType| #[trigger] of_type(s.push(b), t)
        == if b.block_type == t { of_type(s, t).push(b) } else { of_type(s, t) } by {
        let f = |x: BlockIndex| x.block_type == t;
        s.lemma_filter_push(b, f);
    }
}

/// The bytes of the name of the program that writes archives.
pub open spec fn writing_program() -> Seq<u8> {
    seq![111u8, 115u8, 109u8, 102u8, 108u8, 97u8, 116u8, 99u8]
}

/// A bounding box coordinate in the archive's scale.
pub open spec fn scaled_bbox(v: i64, coord_scale: i32) -> i32 {
    trunc_div(v as int, (NANO / coord_scale) as int) as i32
}

/// Pool room that the header strings may take.
pub open spec fn header_room(h: &HeaderBlock) -> int {
    writing_program().len() + 1
        + (match h.source { Some(s) => s@.len() + 1int, None => 0int })
        + (match h.osmosis_replication_base_url { Some(s) => s@.len() + 1int, None => 0int })
}

/// The header row: the coordinate scale, the bounding box in that scale,
/// the writing program, the source and the replication fields, with their
/// strings interned in the pool. Fails, with the pool unchanged, where the
/// pool could outgrow the address space.
pub fn serialize_header(header_block: &HeaderBlock, coord_scale: i32, stringtable: &mut StringTable) -> (r: Result<Header, Error>)
    requires
        old(stringtable).wf(),
        0 < coord_scale <= NANO,
    ensures
        final(stringtable).wf(),
        r is Err <==> old(stringtable).bytes().len() + header_room(header_block) > usize::MAX,
        r is Err ==> r == Err::<Header, Error>(Error::StringPoolFull) && *final(stringtable) == *old(stringtable),
        r is Ok ==> final(stringtable)@ == header_pool(old(stringtable)@, header_block),
        r is Ok ==> r->Ok_0 == header_row(header_block, coord_scale, header_pool(old(stringtable)@, header_block)),
{
    let mut room: usize = 9;
    let used = stringtable.next_index();
    proof {
        stringtable.lemma_wf();
    }
    let mut fits = (used as usize) <= usize::MAX - room;
    let mut total: usize = if fits { used as usize + room } else { 0 };
    match &header_block.source {
        Some(s) => {
            if fits && s.len() < usize::MAX - total {
                total = total + s.len() + 1;
            } else {
                fits = false;
            }
        },
        None => {},
    }
    match &header_block.osmosis_replication_base_url {
        Some(s) => {
            if fits && s.len() < usize::MAX - total {
                total = total + s.len() + 1;
            } else {
                fits = false;
            }
        },
        None => {},
    }
    if !fits {
        return Err(Error::StringPoolFull);
    }
    let d = NANO / coord_scale;
    assert(d > 0) by (nonlinear_arith) requires 0 < coord_scale <= 1_000_000_000, d == 1_000_000_000i32 / coord_scale;
    let mut header = Header {
        coord_scale,
        bbox_left: 0,
        bbox_right: 0,
        bbox_top: 0,
        bbox_bottom: 0,
        writingprogram_idx: 0,
        source_idx: 0,
        replication_timestamp: 0,
        replication_sequence_number: 0,
        replication_base_url_idx: 0,
    };
    match &header_block.bbox {
        Some(b) => {
            header.bbox_left = div_toward_zero(b.left, d);
            header.bbox_right = div_toward_zero(b.right, d);
            header.bbox_top = div_toward_zero(b.top, d);
            header.bbox_bottom = div_toward_zero(b.bottom, d);
        },
        None => {},
    }
    let program: Vec<u8> = vec![111u8, 115u8, 109u8, 102u8, 108u8, 97u8, 116u8, 99u8];
    assert(program@ == writing_program());
    let ghost pool0 = stringtable@;
    header.writingprogram_idx = stringtable.insert_bytes(program.as_slice());
    proof {
        lemma_interned(pool0, writing_program());
        stringtable.lemma_wf();
    }
    let ghost pool1 = stringtable@;
    match &header_block.source {
        Some(s) => {
            let off = stringtable.insert_bytes(s.as_slice());
            proof {
                lemma_interned(pool1, s@);
                stringtable.lemma_wf();
            }
            header.source_idx = off;
        },
        None => {},
    }
    let ghost pool2 = stringtable@;
    match header_block.osmosis_replication_timestamp {
        Some(t) => header.replication_timestamp = t,
        None => {},
    }
    match header_block.osmosis_replication_sequence_number {
        Some(t) => header.replication_sequence_number = t,
        None => {},
    }
    match &header_block.osmosis_replication_base_url {
        Some(s) => {
            let off = stringtable.insert_bytes(s.as_slice());
            proof {
                lemma_interned(pool2, s@);
            }
            header.replication_base_url_idx = off;
        },
        None => {},
    }
    Ok(header)
}

/// The pool after the header strings are interned: the writing program,
/// then the source and the replication base URL where they are set.
pub open spec fn header_pool(pool: Seq<Seq<u8>>, h: &HeaderBlock) -> Seq<Seq<u8>> {
    let pool1 = interned(pool, writing_program());
    let pool2 = match h.source { Some(s) => interned(pool1, s@), None => pool1 };
    match h.osmosis_replication_base_url { Some(s) => interned(pool2, s@), None => pool2 }
}

/// The header row of `h` in the archive's scale, with its strings at their
/// offsets in `pool`; absent fields are zero.
pub open spec fn header_row(h: &HeaderBlock, coord_scale: i32, pool: Seq<Seq<u8>>) -> Header {
    Header {
        coord_scale,
        bbox_left: match h.bbox { Some(b) => scaled_bbox(b.left, coord_scale), None => 0i32 },
        bbox_right: match h.bbox { Some(b) => scaled_bbox(b.right, coord_scale), None => 0i32 },
        bbox_top: match h.bbox { Some(b) => scaled_bbox(b.top, coord_scale), None => 0i32 },
        bbox_bottom: match h.bbox { Some(b) => scaled_bbox(b.bottom, coord_scale), None => 0i32 },
        writingprogram_idx: offset_of(pool, writing_program()) as u64,
        source_idx: match h.source { Some(s) => offset_of(pool, s@) as u64, None => 0u64 },
        replication_timestamp: match h.osmosis_replication_timestamp { Some(t) => t, None => 0i64 },
        replication_sequence_number: match h.osmosis_replication_sequence_number { Some(t) => t, None => 0i64 },
        replication_base_url_idx: match h.osmosis_replication_base_url { Some(s) => offset_of(pool, s@) as u64, None => 0u64 },
    }
}

/// `v / d` rounded toward zero, as a 32-bit integer.
fn div_toward_zero(v: i64, d: i32) -> (r: i32)
    requires
        d > 0,
    ensures
        r == trunc_div(v as int, d as int) as i32,
{
    let w = v as i128;
    let dd = d as i128;
    let q: i128 = if w >= 0 { w / dd } else { -((-w) / dd) };
    q as i32
}

} // verus!
