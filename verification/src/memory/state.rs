//! A flat state that is stored in memory.

use vstd::prelude::*;

use crate::block::Identified;
use crate::chain::{
    ancestor_at, is_ancestor_of, lemma_ancestor_at_own_depth, link_wf, Link,
};
use crate::memory::chain::{MemoryForkTree, MemoryForkTreeQueryError};

verus! {

/// One recorded write: a value (or a tombstone) written under a key by the
/// block `writer`, which sat at `depth` when the write was applied.
#[derive(Clone)]
pub struct FlatEntry<V> {
    /// Depth of the writing block at the time of the write.
    pub depth: usize,
    /// Identifier of the writing block.
    pub writer: u64,
    /// The written value; `None` is an explicit deletion (tombstone).
    pub value: Option<V>,
}

/// The recorded writes of one key are ordered by descending depth, and no
/// `(depth, writer)` pair appears twice.
pub open spec fn entries_wf<V>(s: Seq<FlatEntry<V>>) -> bool {
    forall|i: int, j: int|
        0 <= i < j < s.len() ==> (#[trigger] s[i]).depth >= (#[trigger] s[j]).depth && !(s[i].depth
            == s[j].depth && s[i].writer == s[j].writer)
}

/// Every recorded writer the fork tree knows sits at the depth it was
/// recorded under. This holds whenever the writes were applied through the
/// fork tree now being queried.
pub open spec fn entries_consistent<V>(s: Seq<FlatEntry<V>>, lm: Map<u64, Link>) -> bool {
    forall|i: int|
        0 <= i < s.len() && lm.dom().contains((#[trigger] s[i]).writer) ==> s[i].depth
            == lm[s[i].writer].depth
}

/// Every recorded writer is known to the fork tree.
pub open spec fn writers_known<V>(s: Seq<FlatEntry<V>>, lm: Map<u64, Link>) -> bool {
    forall|i: int| 0 <= i < s.len() ==> lm.dom().contains((#[trigger] s[i]).writer)
}

/// The whole state agrees with a fork tree: every recorded writer is a known
/// block sitting at the depth it was recorded under. States written only
/// through `apply` against this fork tree satisfy it, and reads through the
/// same fork tree then never error and return exactly the visible value.
pub open spec fn state_consistent<V>(m: Map<u64, Seq<FlatEntry<V>>>, lm: Map<u64, Link>) -> bool {
    forall|k: u64| #[trigger]
        m.dom().contains(k) ==> writers_known(m[k], lm) && entries_consistent(m[k], lm)
}

/// Every write recorded at or below depth `d` names a writer the fork tree
/// knows, at a depth not beyond `d`. When this fails, a read may surface the
/// fork tree's error instead of a value.
pub open spec fn writers_ok<V>(s: Seq<FlatEntry<V>>, lm: Map<u64, Link>, d: nat) -> bool {
    forall|i: int|
        0 <= i < s.len() && (#[trigger] s[i]).depth <= d ==> lm.dom().contains(s[i].writer)
            && lm[s[i].writer].depth <= d
}

/// The write visible to block `b` (at depth `d`) among the recorded writes of
/// one key: the first entry, scanning from the deepest recorded depth down,
/// whose depth does not exceed `d` and whose writer is an ancestor of `b`.
/// `None` when no ancestor of `b` ever wrote the key.
pub open spec fn lookup<V>(
    s: Seq<FlatEntry<V>>,
    lm: Map<u64, Link>,
    d: nat,
    b: u64,
) -> Option<Option<V>>
    decreases s.len(),
{
    if s.len() == 0 {
        None
    } else if s[0].depth <= d && is_ancestor_of(lm, b, s[0].writer) {
        Some(s[0].value)
    } else {
        lookup(s.drop_first(), lm, d, b)
    }
}

/// The value visible to block `b` for `key`: the visible write's value,
/// where a recorded tombstone and a key never written both read as `None`.
pub open spec fn visible<V>(
    m: Map<u64, Seq<FlatEntry<V>>>,
    lm: Map<u64, Link>,
    key: u64,
    b: u64,
) -> Option<V> {
    if m.dom().contains(key) {
        match lookup(m[key], lm, lm[b].depth, b) {
            Some(v) => v,
            None => None,
        }
    } else {
        None
    }
}

/// Whether a read of `key` at depth `d` can consult the fork tree for every
/// entry it may scan.
pub open spec fn read_ok<V>(
    m: Map<u64, Seq<FlatEntry<V>>>,
    lm: Map<u64, Link>,
    key: u64,
    d: nat,
) -> bool {
    m.dom().contains(key) ==> writers_ok(m[key], lm, d)
}

/// The recorded writes of one key after recording `e`: the entry with `e`'s
/// depth and writer is overwritten if present, and `e` is placed behind every
/// entry of greater or equal depth otherwise.
pub open spec fn upsert<V>(s: Seq<FlatEntry<V>>, e: FlatEntry<V>) -> Seq<FlatEntry<V>>
    decreases s.len(),
{
    if s.len() == 0 {
        seq![e]
    } else if s[0].depth == e.depth && s[0].writer == e.writer {
        seq![e] + s.drop_first()
    } else if s[0].depth < e.depth {
        seq![e] + s
    } else {
        seq![s[0]] + upsert(s.drop_first(), e)
    }
}

/// The whole state after applying a changeset in order at one depth and
/// writer: each pair records its value under its key, later pairs over
/// earlier ones.
pub open spec fn apply_changeset<V>(
    m: Map<u64, Seq<FlatEntry<V>>>,
    cs: Seq<(u64, Option<V>)>,
    depth: usize,
    writer: u64,
) -> Map<u64, Seq<FlatEntry<V>>>
    decreases cs.len(),
{
    if cs.len() == 0 {
        m
    } else {
        let m2 = apply_changeset(m, cs.drop_last(), depth, writer);
        let kv = cs.last();
        let prev = if m2.dom().contains(kv.0) {
            m2[kv.0]
        } else {
            Seq::empty()
        };
        m2.insert(kv.0, upsert(prev, FlatEntry { depth, writer, value: kv.1 }))
    }
}

/// A flat state that is stored in memory: a key-value store keeping every
/// historical write, tagged with the depth and identifier of the block that
/// produced it. Reads resolve the value visible to a given block by walking
/// depths downward and consulting a fork tree for ancestry.
pub struct MemoryFlatState<V> {
    state: std::collections::HashMap<u64, Vec<FlatEntry<V>>>,
}

impl<V> View for MemoryFlatState<V> {
    type V = Map<u64, Seq<FlatEntry<V>>>;

    closed spec fn view(&self) -> Map<u64, Seq<FlatEntry<V>>> {
        Map::new(|k: u64| self.state@.dom().contains(k), |k: u64| self.state@[k]@)
    }
}

impl<V> MemoryFlatState<V> {
    /// Well-formedness: each key's recorded writes are depth-ordered with no
    /// repeated `(depth, writer)` pair.
    pub open spec fn wf(&self) -> bool {
        forall|k: u64| #[trigger] self@.dom().contains(k) ==> entries_wf(self@[k])
    }

    /// Create a new, empty flat state.
    pub fn new() -> (s: Self)
        ensures
            s@ == Map::<u64, Seq<FlatEntry<V>>>::empty(),
            s.wf(),
    {
        let s = MemoryFlatState { state: std::collections::HashMap::new() };
        proof {
            assert(s@ =~= Map::<u64, Seq<FlatEntry<V>>>::empty());
        }
        s
    }

    /// Get the value visible to `block_id`, resolving ancestry through
    /// `fork_tree`: the nearest write at or above the block, walking from the
    /// deepest recorded depth down to the first writer that is an ancestor of
    /// `block_id`. A tombstone and an unwritten key both read as `None`.
    pub fn get<'a, B: Identified>(
        &'a self,
        key: u64,
        block_id: u64,
        fork_tree: &MemoryForkTree<B>,
    ) -> (r: Result<Option<&'a V>, MemoryForkTreeQueryError>)
        requires
            self.wf(),
            fork_tree.wf(),
        ensures
            ({
                let lm = fork_tree.lm();
                match r {
                    Ok(v) => {
                        &&& lm.dom().contains(block_id)
                        &&& (read_ok(self@, lm, key, lm[block_id].depth) ==> match v {
                            Some(x) => visible(self@, lm, key, block_id) == Some(*x),
                            None => visible(self@, lm, key, block_id) is None,
                        })
                    },
                    Err(MemoryForkTreeQueryError::UnknownBlock) => !lm.dom().contains(block_id)
                        || !read_ok(self@, lm, key, lm[block_id].depth),
                    Err(MemoryForkTreeQueryError::InvalidAncestorDepth) => lm.dom().contains(
                        block_id,
                    ) && !read_ok(self@, lm, key, lm[block_id].depth),
                }
            }),
    {
        let depth = match fork_tree.block_depth(block_id) {
            Ok(d) => d,
            Err(e) => {
                return Err(e);
            },
        };
        let entries = match self.state.get(&key) {
            Some(v) => v,
            None => {
                return Ok(None);
            },
        };
        let ghost lm = fork_tree.lm();
        let ghost s = entries@;
        let ghost d = depth as nat;
        proof {
            assert(s.skip(0) =~= s);
        }
        let mut i: usize = 0;
        while i < entries.len()
            invariant
                self.wf(),
                fork_tree.wf(),
                lm == fork_tree.lm(),
                fork_tree@.dom().contains(block_id),
                d == lm[block_id].depth,
                depth == d,
                self@.dom().contains(key),
                s == self@[key],
                entries@ == s,
                i <= entries.len(),
                lookup(s, lm, d, block_id) == lookup(s.skip(i as int), lm, d, block_id),
            decreases entries.len() - i,
        {
            let e = &entries[i];
            proof {
                assert(s.skip(i as int)[0] == s[i as int]);
            }
            if e.depth <= depth {
                match fork_tree.is_ancestor(block_id, e.writer) {
                    Ok(true) => {
                        proof {
                            assert(lookup(s.skip(i as int), lm, d, block_id) == Some(
                                s[i as int].value,
                            ));
                        }
                        return Ok(e.value.as_ref());
                    },
                    Ok(false) => {
                        proof {
                            assert(s.skip(i as int).drop_first() =~= s.skip(i as int + 1));
                        }
                    },
                    Err(err) => {
                        proof {
                            assert(!writers_ok(s, lm, d));
                        }
                        return Err(err);
                    },
                }
            } else {
                proof {
                    assert(s.skip(i as int).drop_first() =~= s.skip(i as int + 1));
                }
            }
            i += 1;
        }
        proof {
            assert(s.skip(entries.len() as int) =~= Seq::<FlatEntry<V>>::empty());
        }
        Ok(None)
    }

    /// Apply a changeset at `block_id`: record each pair's value under its
    /// key at the block's depth, a later pair overwriting an earlier one for
    /// the same key, and a repeated `(depth, writer)` overwriting the prior
    /// record. Fails, leaving the state unchanged, exactly when the fork tree
    /// does not know the block.
    pub fn apply<B: Identified>(
        &mut self,
        changeset: Vec<(u64, Option<V>)>,
        block_id: u64,
        fork_tree: &MemoryForkTree<B>,
    ) -> (r: Result<(), MemoryForkTreeQueryError>)
        requires
            old(self).wf(),
            fork_tree.wf(),
        ensures
            final(self).wf(),
            match r {
                Ok(()) => fork_tree@.dom().contains(block_id) && final(self)@ == apply_changeset(
                    old(self)@,
                    changeset@,
                    fork_tree@[block_id].depth as usize,
                    block_id,
                ),
                Err(MemoryForkTreeQueryError::UnknownBlock) => !fork_tree@.dom().contains(block_id)
                    && final(self)@ == old(self)@,
                Err(MemoryForkTreeQueryError::InvalidAncestorDepth) => false,
            },
            state_consistent(old(self)@, fork_tree.lm()) ==> state_consistent(
                final(self)@,
                fork_tree.lm(),
            ),
    {
        let depth = match fork_tree.block_depth(block_id) {
            Ok(d) => d,
            Err(e) => {
                return Err(e);
            },
        };
        let ghost cs0 = changeset@;
        let mut items = changeset;
        let ghost mut done: int = 0;
        while items.len() > 0
            invariant
                self.wf(),
                fork_tree.wf(),
                fork_tree@.dom().contains(block_id),
                depth == fork_tree@[block_id].depth,
                0 <= done <= cs0.len(),
                items@ == cs0.skip(done),
                self@ == apply_changeset(old(self)@, cs0.take(done), depth, block_id),
                state_consistent(old(self)@, fork_tree.lm()) ==> state_consistent(
                    self@,
                    fork_tree.lm(),
                ),
            decreases items.len(),
        {
            let (k, v) = items.remove(0);
            let ghost pre = self@;
            let entries = match self.state.remove(&k) {
                Some(v2) => v2,
                None => Vec::new(),
            };
            proof {
                if pre.dom().contains(k) {
                    assert(entries@ == pre[k]);
                } else {
                    assert(entries@ =~= Seq::<FlatEntry<V>>::empty());
                }
            }
            let new_entries = upsert_entries(entries, FlatEntry { depth, writer: block_id, value: v });
            self.state.insert(k, new_entries);
            proof {
                let eg = FlatEntry { depth, writer: block_id, value: v };
                let prev = if pre.dom().contains(k) {
                    pre[k]
                } else {
                    Seq::<FlatEntry<V>>::empty()
                };
                assert(self@ =~= pre.insert(k, upsert(prev, eg)));
                if pre.dom().contains(k) {
                    lemma_upsert_wf(prev, eg);
                } else {
                    lemma_upsert_wf(prev, eg);
                }
                assert forall|k2: u64| #[trigger] self@.dom().contains(k2) implies entries_wf(
                    self@[k2],
                ) by {
                    if k2 != k {
                        assert(pre.dom().contains(k2));
                    }
                }
                let lm = fork_tree.lm();
                if state_consistent(old(self)@, lm) {
                    assert(state_consistent(pre, lm));
                    assert(lm.dom().contains(block_id));
                    assert(lm[block_id].depth == depth);
                    assert(entries_wf(prev) && writers_known(prev, lm) && entries_consistent(
                        prev,
                        lm,
                    )) by {
                        if pre.dom().contains(k) {
                            assert(prev == pre[k]);
                        }
                    }
                    lemma_upsert_consistent(prev, eg, lm);
                    assert forall|k2: u64| #[trigger] self@.dom().contains(k2) implies
                        writers_known(self@[k2], lm) && entries_consistent(self@[k2], lm) by {
                        if k2 != k {
                            assert(pre.dom().contains(k2));
                        }
                    }
                }
                done = done + 1;
                assert(cs0.take(done).drop_last() =~= cs0.take(done - 1));
                assert(cs0.take(done).last() == (k, v));
                assert(items@ =~= cs0.skip(done));
            }
        }
        proof {
            assert(cs0.take(done) =~= cs0);
        }
        Ok(())
    }
}

impl<B: Identified, V: Copy> crate::state::FlatState<MemoryForkTree<B>> for MemoryFlatState<V> {
    type Key = u64;

    type Value = V;

    type QueryError = MemoryForkTreeQueryError;

    open spec fn wf(&self) -> bool {
        forall|k: u64| #[trigger] self@.dom().contains(k) ==> entries_wf(self@[k])
    }

    fn get(&self, key: &u64, block_id: u64, fork_tree: &MemoryForkTree<B>) -> Result<
        Option<V>,
        MemoryForkTreeQueryError,
    > {
        match MemoryFlatState::get(self, *key, block_id, fork_tree) {
            Ok(Some(x)) => Ok(Some(*x)),
            Ok(None) => Ok(None),
            Err(e) => Err(e),
        }
    }
}

impl<B: Identified, V: Copy> crate::state::FlatStateMut<MemoryForkTree<B>> for MemoryFlatState<
    V,
> {
    type ApplyError = MemoryForkTreeQueryError;

    fn apply(
        &mut self,
        changeset: Vec<(u64, Option<V>)>,
        block_id: u64,
        fork_tree: &MemoryForkTree<B>,
    ) -> Result<(), MemoryForkTreeQueryError> {
        MemoryFlatState::apply(self, changeset, block_id, fork_tree)
    }
}

impl<V: Clone> crate::memory::Replicable for MemoryFlatState<V> {
    open spec fn inv(&self) -> bool {
        self.wf()
    }

    fn replicate(&self) -> (r: Self) {
        let r = MemoryFlatState { state: self.state.clone() };
        proof {
            assert(r@ =~= self@);
        }
        r
    }
}

/// Record one write among a key's entries, in place: overwrite the exact
/// `(depth, writer)` record if present, otherwise insert behind every entry
/// of greater or equal depth.
#[verifier::loop_isolation(false)]
fn upsert_entries<V>(entries: Vec<FlatEntry<V>>, e: FlatEntry<V>) -> (r: Vec<FlatEntry<V>>)
    ensures
        r@ == upsert(entries@, e),
{
    let ghost s0 = entries@;
    let ghost eg = e;
    let mut v = entries;
    proof {
        assert(s0.skip(0) =~= s0);
        assert(s0.take(0) + upsert(s0.skip(0), eg) =~= upsert(s0, eg));
    }
    let mut i: usize = 0;
    while i < v.len()
        invariant
            v@ == s0,
            i <= v.len(),
            eg == e,
            upsert(s0, eg) == s0.take(i as int) + upsert(s0.skip(i as int), eg),
        decreases v.len() - i,
    {
        proof {
            assert(s0.skip(i as int)[0] == s0[i as int]);
        }
        if v[i].depth == e.depth && v[i].writer == e.writer {
            proof {
                assert(s0.skip(i as int).drop_first() =~= s0.skip(i as int + 1));
                assert(upsert(s0.skip(i as int), eg) == seq![eg] + s0.skip(i as int + 1));
            }
            let mut v2 = v;
            v2.set(i, e);
            proof {
                assert(v2@ =~= s0.take(i as int) + (seq![eg] + s0.skip(i as int + 1)));
                assert(v2@ == upsert(s0, eg));
            }
            return v2;
        }
        if v[i].depth < e.depth {
            let mut v2 = v;
            v2.insert(i, e);
            proof {
                assert(upsert(s0.skip(i as int), eg) == seq![eg] + s0.skip(i as int));
                assert(v2@ =~= s0.take(i as int) + (seq![eg] + s0.skip(i as int)));
                assert(v2@ == upsert(s0, eg));
            }
            return v2;
        }
        proof {
            assert(s0.skip(i as int).drop_first() =~= s0.skip(i as int + 1));
            assert(upsert(s0.skip(i as int), eg) == seq![s0[i as int]] + upsert(
                s0.skip(i as int + 1),
                eg,
            ));
            assert(s0.take(i as int) + (seq![s0[i as int]] + upsert(s0.skip(i as int + 1), eg))
                =~= s0.take(i as int + 1) + upsert(s0.skip(i as int + 1), eg));
        }
        i += 1;
    }
    proof {
        assert(s0.skip(v.len() as int) =~= Seq::<FlatEntry<V>>::empty());
        assert(upsert(s0.skip(v.len() as int), eg) == seq![eg]);
        assert(s0.take(v.len() as int) =~= s0);
    }
    let mut v2 = v;
    v2.push(e);
    proof {
        assert(v2@ =~= s0 + seq![eg]);
    }
    v2
}

/// Recording a write keeps a key's entries depth-ordered and free of
/// repeated `(depth, writer)` pairs, and every resulting entry is the new
/// record or one already present.
proof fn lemma_upsert_wf<V>(s: Seq<FlatEntry<V>>, e: FlatEntry<V>)
    requires
        entries_wf(s),
    ensures
        entries_wf(upsert(s, e)),
        forall|t: int|
            0 <= t < upsert(s, e).len() ==> upsert(s, e)[t] == e || exists|u: int|
                0 <= u < s.len() && upsert(s, e)[t] == s[u],
    decreases s.len(),
{
    let r = upsert(s, e);
    if s.len() == 0 {
        assert(r == seq![e]);
        assert(r[0] == e);
    } else if s[0].depth == e.depth && s[0].writer == e.writer {
        assert(r == seq![e] + s.drop_first());
        assert forall|t: int| 0 <= t < r.len() implies r[t] == e || exists|u: int|
            0 <= u < s.len() && r[t] == s[u] by {
            if t > 0 {
                assert(r[t] == s[t]);
            }
        }
    } else if s[0].depth < e.depth {
        assert(r == seq![e] + s);
        assert forall|t: int| 0 <= t < r.len() implies r[t] == e || exists|u: int|
            0 <= u < s.len() && r[t] == s[u] by {
            if t > 0 {
                assert(r[t] == s[t - 1]);
            }
        }
    } else {
        let s1 = s.drop_first();
        assert(entries_wf(s1)) by {
            assert forall|i: int, j: int| 0 <= i < j < s1.len() implies (#[trigger] s1[i]).depth
                >= (#[trigger] s1[j]).depth && !(s1[i].depth == s1[j].depth && s1[i].writer
                == s1[j].writer) by {
                assert(s1[i] == s[i + 1]);
                assert(s1[j] == s[j + 1]);
            }
        }
        lemma_upsert_wf(s1, e);
        let r1 = upsert(s1, e);
        assert(r == seq![s[0]] + r1);
        assert forall|t: int| 0 <= t < r.len() implies r[t] == e || exists|u: int|
            0 <= u < s.len() && r[t] == s[u] by {
            if t == 0 {
                assert(r[t] == s[0]);
            } else {
                assert(r[t] == r1[t - 1]);
                if r1[t - 1] == e {
                } else {
                    let u1 = choose|u1: int| 0 <= u1 < s1.len() && r1[t - 1] == s1[u1];
                    assert(s1[u1] == s[u1 + 1]);
                }
            }
        }
        assert forall|i: int, j: int| 0 <= i < j < r.len() implies (#[trigger] r[i]).depth
            >= (#[trigger] r[j]).depth && !(r[i].depth == r[j].depth && r[i].writer
            == r[j].writer) by {
            if i == 0 {
                // r[j] is e or an element of s1; either way its depth does not
                // exceed s[0]'s, and it never repeats s[0]'s (depth, writer).
                assert(r[j] == r1[j - 1]);
                if r1[j - 1] == e {
                    assert(s[0].depth >= e.depth);
                    assert(!(s[0].depth == e.depth && s[0].writer == e.writer));
                } else {
                    let u1 = choose|u1: int| 0 <= u1 < s1.len() && r1[j - 1] == s1[u1];
                    assert(s1[u1] == s[u1 + 1]);
                }
            } else {
                assert(r[i] == r1[i - 1]);
                assert(r[j] == r1[j - 1]);
            }
        }
    }
}

/// A write recorded for a block, then read back at the same block through
/// the same fork tree, returns exactly the written value: the value itself
/// for an insertion, `None` for a tombstone.
pub proof fn lemma_lookup_after_upsert<V>(
    s: Seq<FlatEntry<V>>,
    lm: Map<u64, Link>,
    b: u64,
    v: Option<V>,
)
    requires
        link_wf(lm),
        lm.dom().contains(b),
        lm[b].depth <= usize::MAX,
        entries_wf(s),
        entries_consistent(s, lm),
    ensures
        ({
            let e = FlatEntry { depth: lm[b].depth as usize, writer: b, value: v };
            lookup(upsert(s, e), lm, lm[b].depth, b) == Some(v)
        }),
    decreases s.len(),
{
    let d = lm[b].depth;
    let e = FlatEntry { depth: d as usize, writer: b, value: v };
    lemma_ancestor_at_own_depth(lm, b);
    assert(is_ancestor_of(lm, b, b));
    if s.len() == 0 {
        assert(upsert(s, e) == seq![e]);
        assert(upsert(s, e)[0] == e);
    } else if s[0].depth == e.depth && s[0].writer == e.writer {
        assert(upsert(s, e) == seq![e] + s.drop_first());
        assert((seq![e] + s.drop_first())[0] == e);
    } else if s[0].depth < e.depth {
        assert(upsert(s, e) == seq![e] + s);
        assert((seq![e] + s)[0] == e);
    } else {
        let s1 = s.drop_first();
        assert(entries_wf(s1) && entries_consistent(s1, lm)) by {
            assert forall|i: int| 0 <= i < s1.len() implies s1[i] == s[i + 1] by {}
        }
        lemma_lookup_after_upsert(s1, lm, b, v);
        let r = upsert(s, e);
        assert(r == seq![s[0]] + upsert(s1, e));
        assert(r[0] == s[0]);
        // The head entry is not visible to b: it is either deeper than b, or
        // it sits at b's depth with a different writer, which cannot also be
        // b's ancestor at that depth.
        if s[0].depth <= d && is_ancestor_of(lm, b, s[0].writer) {
            assert(s[0].depth == d);
            assert(lm[s[0].writer].depth == d);
            assert(ancestor_at(lm, b, d) == s[0].writer);
            assert(s[0].writer == b);
            assert(false);
        }
        assert(r.drop_first() =~= upsert(s1, e));
    }
}

/// A state that agrees with the fork tree can be read at any key and block:
/// no scan ever consults the fork tree about an unknown or too-deep writer.
pub proof fn lemma_consistent_read_ok<V>(
    m: Map<u64, Seq<FlatEntry<V>>>,
    lm: Map<u64, Link>,
    key: u64,
    d: nat,
)
    requires
        state_consistent(m, lm),
    ensures
        read_ok(m, lm, key, d),
{
    if m.dom().contains(key) {
        assert forall|i: int|
            0 <= i < m[key].len() && (#[trigger] m[key][i]).depth <= d implies lm.dom().contains(
            m[key][i].writer,
        ) && lm[m[key][i].writer].depth <= d by {
            assert(lm.dom().contains(m[key][i].writer));
        }
    }
}

/// A state that agrees with a fork tree still agrees with it after the tree
/// grows: new blocks never disturb the recorded writers' depths.
pub proof fn lemma_consistent_after_growth<V>(
    m: Map<u64, Seq<FlatEntry<V>>>,
    lm1: Map<u64, Link>,
    lm2: Map<u64, Link>,
)
    requires
        state_consistent(m, lm1),
        forall|x: u64| #[trigger]
            lm1.dom().contains(x) ==> lm2.dom().contains(x) && lm2[x].depth == lm1[x].depth,
    ensures
        state_consistent(m, lm2),
{
    assert forall|k: u64| #[trigger] m.dom().contains(k) implies writers_known(m[k], lm2)
        && entries_consistent(m[k], lm2) by {
        assert(writers_known(m[k], lm1));
        assert(entries_consistent(m[k], lm1));
        assert forall|i: int| 0 <= i < m[k].len() implies lm2.dom().contains(
            (#[trigger] m[k][i]).writer,
        ) && m[k][i].depth == lm2[m[k][i].writer].depth by {
            assert(lm1.dom().contains(m[k][i].writer));
        }
    }
}

/// Recording a consistent entry keeps a key's records consistent with the
/// fork tree.
proof fn lemma_upsert_consistent<V>(s: Seq<FlatEntry<V>>, e: FlatEntry<V>, lm: Map<u64, Link>)
    requires
        entries_wf(s),
        writers_known(s, lm),
        entries_consistent(s, lm),
        lm.dom().contains(e.writer),
        lm[e.writer].depth == e.depth,
    ensures
        writers_known(upsert(s, e), lm),
        entries_consistent(upsert(s, e), lm),
{
    lemma_upsert_wf(s, e);
    let r = upsert(s, e);
    assert forall|t: int| 0 <= t < r.len() implies lm.dom().contains((#[trigger] r[t]).writer)
        && (lm.dom().contains(r[t].writer) ==> r[t].depth == lm[r[t].writer].depth) by {
        if r[t] == e {
        } else {
            let u = choose|u: int| 0 <= u < s.len() && r[t] == s[u];
            assert(lm.dom().contains(s[u].writer));
        }
    }
}

/// Applying a one-pair changeset at a block, then reading the key back at
/// the same block through the same fork tree, returns exactly what was
/// applied: the value for an insertion, `None` for a tombstone.
pub proof fn lemma_apply_get_round_trip<V>(
    m: Map<u64, Seq<FlatEntry<V>>>,
    lm: Map<u64, Link>,
    k: u64,
    v: Option<V>,
    b: u64,
)
    requires
        link_wf(lm),
        lm.dom().contains(b),
        lm[b].depth <= usize::MAX,
        m.dom().contains(k) ==> entries_wf(m[k]) && entries_consistent(m[k], lm),
    ensures
        visible(apply_changeset(m, seq![(k, v)], lm[b].depth as usize, b), lm, k, b) == v,
{
    let d = lm[b].depth as usize;
    let cs = seq![(k, v)];
    let e = FlatEntry { depth: d, writer: b, value: v };
    assert(cs.drop_last() =~= Seq::<(u64, Option<V>)>::empty());
    assert(apply_changeset(m, cs.drop_last(), d, b) == m);
    assert(cs.last() == (k, v));
    let prev = if m.dom().contains(k) {
        m[k]
    } else {
        Seq::<FlatEntry<V>>::empty()
    };
    assert(entries_wf(Seq::<FlatEntry<V>>::empty()));
    assert(entries_consistent(Seq::<FlatEntry<V>>::empty(), lm));
    lemma_lookup_after_upsert(prev, lm, b, v);
    let m2 = apply_changeset(m, cs, d, b);
    assert(m2 == m.insert(k, upsert(prev, e)));
    assert(m2[k] == upsert(prev, e));
}

/// A key whose recorded writers are all foreign to block `b`'s fork reads as
/// unwritten at `b`: state never leaks across diverged forks.
pub proof fn lemma_fork_write_invisible<V>(s: Seq<FlatEntry<V>>, lm: Map<u64, Link>, d: nat, b: u64)
    requires
        forall|i: int| 0 <= i < s.len() ==> !is_ancestor_of(lm, b, (#[trigger] s[i]).writer),
    ensures
        lookup(s, lm, d, b) is None,
    decreases s.len(),
{
    if s.len() > 0 {
        assert(!is_ancestor_of(lm, b, s[0].writer));
        let s1 = s.drop_first();
        assert forall|i: int| 0 <= i < s1.len() implies !is_ancestor_of(
            lm,
            b,
            (#[trigger] s1[i]).writer,
        ) by {
            assert(s1[i] == s[i + 1]);
        }
        lemma_fork_write_invisible(s1, lm, d, b);
    }
}

/// Among all writes visible to block `b`, the deepest one wins: an entry
/// whose depth beats every other visible entry's is the one `lookup`
/// returns. A descendant's own write therefore shadows its ancestors', and
/// an ancestor's write is visible where no deeper one exists.
pub proof fn lemma_deepest_visible_write<V>(
    s: Seq<FlatEntry<V>>,
    lm: Map<u64, Link>,
    b: u64,
    i: int,
)
    requires
        link_wf(lm),
        lm.dom().contains(b),
        entries_wf(s),
        entries_consistent(s, lm),
        0 <= i < s.len(),
        s[i].depth <= lm[b].depth,
        is_ancestor_of(lm, b, s[i].writer),
        forall|j: int|
            0 <= j < s.len() && (#[trigger] s[j]).depth > s[i].depth ==> !(s[j].depth
                <= lm[b].depth && is_ancestor_of(lm, b, s[j].writer)),
    ensures
        lookup(s, lm, lm[b].depth, b) == Some(s[i].value),
    decreases s.len(),
{
    let d = lm[b].depth;
    if i == 0 {
        assert(lookup(s, lm, d, b) == Some(s[0].value));
    } else {
        // The head is not visible: it is deeper than entry i and excluded by
        // hypothesis, or it shares entry i's depth, and two ancestors of b at
        // one depth are one block, contradicting pair uniqueness.
        assert(s[0].depth >= s[i].depth);
        if s[0].depth <= d && is_ancestor_of(lm, b, s[0].writer) {
            assert(s[0].depth == s[i].depth);
            assert(lm[s[0].writer].depth == s[0].depth);
            assert(lm[s[i].writer].depth == s[i].depth);
            assert(ancestor_at(lm, b, s[0].depth as nat) == s[0].writer);
            assert(ancestor_at(lm, b, s[i].depth as nat) == s[i].writer);
            assert(s[0].writer == s[i].writer);
            assert(false);
        }
        let s1 = s.drop_first();
        assert forall|t: int| 0 <= t < s1.len() implies s1[t] == s[t + 1] by {}
        assert(entries_wf(s1));
        assert(entries_consistent(s1, lm));
        assert forall|j: int|
            0 <= j < s1.len() && (#[trigger] s1[j]).depth > s1[i - 1].depth implies !(s1[j].depth
            <= d && is_ancestor_of(lm, b, s1[j].writer)) by {
            assert(s1[j] == s[j + 1]);
        }
        lemma_deepest_visible_write(s1, lm, b, i - 1);
    }
}

} // verus!
