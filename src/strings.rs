//! A deduplicating pool of `\0`-terminated byte strings.
use vstd::prelude::*;
use crate::hashmaps::{StringIndexMap, string_entries, string_index_new, string_index_get, string_index_insert};
use vstd::string::StringSliceAdditionalSpecFns;

verus! {

/// The bytes of a pool that holds `ss`, in this order: each string followed
/// by a `\0`.
pub open spec fn pool_bytes(ss: Seq<Seq<u8>>) -> Seq<u8>
    decreases ss.len(),
{
    if ss.len() == 0 {
        Seq::empty()
    } else {
        pool_bytes(ss.drop_last()) + ss.last() + seq![0u8]
    }
}

/// Offset at which the `i`-th string of the pool starts.
pub open spec fn pool_offset(ss: Seq<Seq<u8>>, i: int) -> int {
    pool_bytes(ss.take(i)).len() as int
}

/// No string occurs twice.
pub open spec fn all_distinct(ss: Seq<Seq<u8>>) -> bool {
    forall|i: int, j: int| 0 <= i < j < ss.len() ==> ss[i] != ss[j]
}

/// Offset of string `s` in a pool that holds `ss`.
pub open spec fn offset_of(ss: Seq<Seq<u8>>, s: Seq<u8>) -> int {
    pool_offset(ss, ss.index_of(s))
}

/// The strings after interning `s`: appended unless already there.
pub open spec fn interned(ss: Seq<Seq<u8>>, s: Seq<u8>) -> Seq<Seq<u8>> {
    if ss.contains(s) { ss } else { ss.push(s) }
}

/// `offset` is the start of a string of `bytes`: the first byte, or one
/// right after a `\0`.
pub open spec fn is_string_start(bytes: Seq<u8>, offset: int) -> bool {
    offset == 0 || (0 < offset <= bytes.len() && bytes[offset - 1] == 0)
}

pub proof fn lemma_pool_bytes_len_monotone(ss: Seq<Seq<u8>>, i: int)
    requires
        0 <= i <= ss.len(),
    ensures
        pool_bytes(ss.take(i)).len() <= pool_bytes(ss).len(),
        pool_bytes(ss).subrange(0, pool_bytes(ss.take(i)).len() as int) == pool_bytes(ss.take(i)),
    decreases ss.len(),
{
    if i < ss.len() {
        assert(ss.take(ss.len() as int) == ss);
        let d = ss.drop_last();
        assert(d.take(i) == ss.take(i));
        lemma_pool_bytes_len_monotone(d, i);
        let pd = pool_bytes(d);
        assert(pool_bytes(ss) == pd + ss.last() + seq![0u8]);
        assert(pool_bytes(ss).subrange(0, pd.len() as int) == pd);
        assert(pool_bytes(ss).subrange(0, pool_bytes(ss.take(i)).len() as int)
            == pd.subrange(0, pool_bytes(ss.take(i)).len() as int));
    } else {
        assert(ss.take(i) == ss);
    }
}

/// The `i`-th string of the pool stands at its offset, followed by `\0`.
pub proof fn lemma_pool_holds(ss: Seq<Seq<u8>>, i: int)
    requires
        0 <= i < ss.len(),
    ensures
        pool_offset(ss, i) + ss[i].len() + 1 <= pool_bytes(ss).len(),
        pool_bytes(ss).subrange(pool_offset(ss, i), pool_offset(ss, i) + ss[i].len() + 1)
            == ss[i].push(0u8),
        is_string_start(pool_bytes(ss), pool_offset(ss, i)),
    decreases ss.len(),
{
    let d = ss.drop_last();
    let pd = pool_bytes(d);
    let b = pool_bytes(ss);
    assert(b == pd + ss.last() + seq![0u8]);
    if i == ss.len() - 1 {
        assert(ss.take(i) == d);
        assert(b.subrange(pd.len() as int, b.len() as int) == ss[i].push(0u8));
        if i > 0 {
            lemma_pool_holds(d, i - 1);
            assert(d.take(i - 1) == ss.take(i - 1));
            assert(d.take(i) == d);
            assert(d.take(i).drop_last() == d.take(i - 1));
            assert(pd[pd.len() - 1] == pd.subrange(pool_offset(d, i - 1), pool_offset(d, i - 1) + d[i - 1].len() + 1)[d[i - 1].len() as int]);
        }
    } else {
        lemma_pool_holds(d, i);
        assert(d.take(i) == ss.take(i));
        assert(b.subrange(0, pd.len() as int) == pd);
        assert(b.subrange(pool_offset(ss, i), pool_offset(ss, i) + ss[i].len() + 1)
            == pd.subrange(pool_offset(ss, i), pool_offset(ss, i) + ss[i].len() + 1));
        if pool_offset(ss, i) > 0 {
            assert(b[pool_offset(ss, i) - 1] == pd[pool_offset(ss, i) - 1]);
        }
    }
}

/// The strings after interning each of `strings`, in order.
pub open spec fn interned_all(ss: Seq<Seq<u8>>, strings: Seq<Seq<u8>>) -> Seq<Seq<u8>>
    decreases strings.len(),
{
    if strings.len() == 0 {
        ss
    } else {
        interned(interned_all(ss, strings.drop_last()), strings.last())
    }
}

/// Interning keeps the strings distinct, keeps those already there at their
/// offsets, and adds at most `s.len() + 1` bytes.
pub proof fn lemma_interned(ss: Seq<Seq<u8>>, s: Seq<u8>)
    requires
        all_distinct(ss),
    ensures
        all_distinct(interned(ss, s)),
        interned(ss, s).contains(s),
        ss.is_prefix_of(interned(ss, s)),
        pool_bytes(interned(ss, s)).len() <= pool_bytes(ss).len() + s.len() + 1,
        forall|t: Seq<u8>| ss.contains(t) ==> #[trigger] offset_of(interned(ss, s), t) == offset_of(ss, t),
{
    let ns = interned(ss, s);
    if !ss.contains(s) {
        assert(ns.drop_last() == ss);
        assert(ns[ss.len() as int] == s);
        assert forall|a: int, b: int| 0 <= a < b < ns.len() implies ns[a] != ns[b] by {
            if b == ss.len() {
                assert(ss[a] == ns[a]);
            }
        }
        assert forall|t: Seq<u8>| ss.contains(t) implies #[trigger] offset_of(ns, t) == offset_of(ss, t) by {
            let i = ss.index_of(t);
            assert(ns[i] == t);
            let j = ns.index_of(t);
            assert(j == i);
            assert(ns.take(i) == ss.take(i));
        }
    } else {
        let i = ss.index_of(s);
        assert(ss[i] == s);
    }
}

/// An append-only, deduplicating store of strings; each is kept once, as its
/// bytes followed by `\0`, at an offset that never changes.
pub struct StringTable {
    data: Vec<u8>,
    indexed_data: StringIndexMap,
    strings: Ghost<Seq<Seq<u8>>>,
}

impl View for StringTable {
    type V = Seq<Seq<u8>>;

    /// The distinct strings of the pool, in the order of their first insertion.
    closed spec fn view(&self) -> Seq<Seq<u8>> {
        self.strings@
    }
}

impl StringTable {
    pub closed spec fn wf(&self) -> bool {
        &&& all_distinct(self@)
        &&& self.data@ == pool_bytes(self@)
        &&& pool_bytes(self@).len() <= usize::MAX
        &&& string_entries(self.indexed_data).dom() == self@.to_set()
        &&& forall|i: int| 0 <= i < self@.len()
            ==> string_entries(self.indexed_data)[#[trigger] self@[i]] == pool_offset(self@, i)
    }

    /// The bytes of the pool.
    pub open spec fn bytes(&self) -> Seq<u8> {
        pool_bytes(self@)
    }

    /// A well-formed pool holds each string once, in at most `usize::MAX` bytes.
    pub proof fn lemma_wf(&self)
        requires
            self.wf(),
        ensures
            all_distinct(self@),
            self.bytes().len() <= usize::MAX,
    {
    }

    pub fn new() -> (r: Self)
        ensures
            r.wf(),
            r@ == Seq::<Seq<u8>>::empty(),
    {
        let r = StringTable { data: Vec::new(), indexed_data: string_index_new(), strings: Ghost(Seq::empty()) };
        proof {
            assert(string_entries(r.indexed_data).dom() =~= r@.to_set());
            assert(r.data@ =~= pool_bytes(r@));
        }
        r
    }

    /// Number of bytes of the pool; the offset that the next new string gets.
    pub fn next_index(&self) -> (r: u64)
        requires
            self.wf(),
        ensures
            r == self.bytes().len(),
    {
        self.data.len() as u64
    }

    /// Interns `s` and returns its offset: the offset it already had if it
    /// was inserted before, else the end of the pool, where it is appended.
    pub fn insert_bytes(&mut self, s: &[u8]) -> (r: u64)
        requires
            old(self).wf(),
            old(self).bytes().len() + s@.len() + 1 <= usize::MAX,
        ensures
            final(self).wf(),
            final(self)@ == interned(old(self)@, s@),
            r == offset_of(final(self)@, s@),
            old(self)@.contains(s@) ==> r == offset_of(old(self)@, s@),
            !old(self)@.contains(s@) ==> r == old(self).bytes().len(),
    {
        proof {
            if self@.contains(s@) {
                let i = self@.index_of(s@);
                assert(self@[i] == s@);
            }
        }
        match string_index_get(&self.indexed_data, s) {
            Some(idx) => {
                proof {
                    assert(self@.to_set().contains(s@));
                    assert(self@.contains(s@));
                    let i = self@.index_of(s@);
                    assert(self@[i] == s@);
                }
                idx
            },
            None => {
                proof {
                    if self@.contains(s@) {
                        let i = self@.index_of(s@);
                        assert(self@.to_set().contains(self@[i]));
                    }
                }
                let idx = self.data.len() as u64;
                let ghost old_strings = self@;
                let ghost old_data = self.data@;
                let mut i: usize = 0;
                while i < s.len()
                    invariant
                        0 <= i <= s@.len(),
                        self.data@ == old_data + s@.subrange(0, i as int),
                        self.indexed_data == old(self).indexed_data,
                        self.strings == old(self).strings,
                    decreases s@.len() - i,
                {
                    self.data.push(s[i]);
                    proof {
                        assert(s@.subrange(0, i + 1) == s@.subrange(0, i as int).push(s@[i as int]));
                    }
                    i = i + 1;
                }
                self.data.push(0u8);
                let key = vstd::slice::slice_to_vec(s);
                string_index_insert(&mut self.indexed_data, key, idx);
                self.strings = Ghost(old_strings.push(s@));
                proof {
                    let ns = self@;
                    assert(s@.subrange(0, s@.len() as int) == s@);
                    assert(ns.drop_last() == old_strings);
                    assert(self.data@ == pool_bytes(ns));
                    assert(ns.take(old_strings.len() as int) == old_strings);
                    assert forall|a: int, b: int| 0 <= a < b < ns.len() implies ns[a] != ns[b] by {
                        if b == old_strings.len() {
                            assert(old_strings[a] == ns[a]);
                            assert(old_strings.contains(ns[a]));
                        }
                    }
                    assert(!old_strings.contains(s@)) by {
                        if old_strings.contains(s@) {
                            let k = old_strings.index_of(s@);
                            assert(old_strings.to_set().contains(old_strings[k]));
                        }
                    }
                    assert forall|x: Seq<u8>| #[trigger] ns.to_set().contains(x)
                        == old_strings.to_set().insert(s@).contains(x) by {
                        if ns.contains(x) {
                            let k = ns.index_of(x);
                            if k < old_strings.len() {
                                assert(old_strings[k] == x);
                                assert(old_strings.contains(x));
                            }
                        }
                        if old_strings.contains(x) {
                            let k = old_strings.index_of(x);
                            assert(ns[k] == x);
                            assert(ns.contains(x));
                        }
                        if x == s@ {
                            assert(ns[old_strings.len() as int] == x);
                            assert(ns.contains(x));
                        }
                    }
                    assert(string_entries(self.indexed_data).dom() =~= ns.to_set());
                    assert forall|k: int| 0 <= k < ns.len()
                        implies string_entries(self.indexed_data)[#[trigger] ns[k]] == pool_offset(ns, k) by {
                        if k < old_strings.len() {
                            assert(ns[k] == old_strings[k]);
                            assert(old_strings.contains(old_strings[k]));
                            assert(ns.take(k) == old_strings.take(k));
                        }
                    }
                    assert(ns[old_strings.len() as int] == s@);
                    assert(ns.contains(s@));
                    let j = ns.index_of(s@);
                    assert(j == old_strings.len());
                }
                idx
            },
        }
    }

    /// Interns the bytes of `s`; see `insert_bytes`.
    pub fn insert(&mut self, s: &str) -> (r: u64)
        requires
            old(self).wf(),
            old(self).bytes().len() + s.spec_bytes().len() + 1 <= usize::MAX,
        ensures
            final(self).wf(),
            final(self)@ == interned(old(self)@, s.spec_bytes()),
            r == offset_of(final(self)@, s.spec_bytes()),
            old(self)@.contains(s.spec_bytes()) ==> r == offset_of(old(self)@, s.spec_bytes()),
            !old(self)@.contains(s.spec_bytes()) ==> r == old(self).bytes().len(),
    {
        self.insert_bytes(s.as_bytes())
    }

    /// The pool as one contiguous byte vector.
    pub fn into_bytes(self) -> (r: Vec<u8>)
        requires
            self.wf(),
        ensures
            r@ == self.bytes(),
    {
        self.data
    }
}

} // verus!
