//! The nearest-neighbor index: embeddings keyed by document id inside
//! numbered slots (independent namespaces over one index), with exact
//! k-nearest queries under the configured metric.
//!
//! Queries return candidates ordered ascending by distance, nearest first,
//! at most k of them; ties break by insertion order inside the slot, which is
//! stable for a given build. The whole index is a deterministic function of
//! the insert sequence, the metric and the seed, so repeated fresh builds
//! from the same inserts answer queries identically.
use vstd::prelude::*;
use vstd::math::min;
use vstd::pervasive::VecAdditionalExecFns;
use vstd::relations::{sorted_by, total_ordering};
use vstd::seq_lib::lemma_sorted_unique;
use crate::embedding::{coords_ok, Embedding, MAX_DIMS};
use crate::metric::{dist_spec, distance, Metric};
use crate::StoreError;

verus! {

/// One indexed embedding: a document id inside one slot.
#[derive(Debug)]
pub struct IndexEntry {
    pub slot: u16,
    pub id: u32,
    pub embedding: Embedding,
}

/// The mathematical value of an index entry.
#[verifier::ext_equal]
pub ghost struct EntryView {
    pub slot: u16,
    pub id: u32,
    pub embedding: Seq<i64>,
}

impl View for IndexEntry {
    type V = EntryView;

    open spec fn view(&self) -> EntryView {
        EntryView { slot: self.slot, id: self.id, embedding: self.embedding@ }
    }
}

/// A scored candidate during a query: distance, position inside the slot
/// (the tie-breaker), and the document id.
pub type Scored = (u64, usize, u32);

/// The query order: by distance, then by slot position, then by id. A total
/// order, so a sorted arrangement of candidates is unique.
pub open spec fn scored_leq(a: Scored, b: Scored) -> bool {
    ||| a.0 < b.0
    ||| (a.0 == b.0 && a.1 < b.1)
    ||| (a.0 == b.0 && a.1 == b.1 && a.2 <= b.2)
}

/// The query order as a relation value, shared by specs and proofs.
pub open spec fn scored_order() -> spec_fn(Scored, Scored) -> bool {
    |a: Scored, b: Scored| scored_leq(a, b)
}

pub proof fn lemma_scored_order_total()
    ensures
        total_ordering(scored_order()),
{
    let r = scored_order();
    assert forall|a: Scored, b: Scored| #[trigger] r(a, b) && #[trigger] r(b, a) implies a
        == b by {
        assert(a.0 == b.0 && a.1 == b.1 && a.2 == b.2);
    }
}

/// The entries of one slot, in insertion order.
pub open spec fn slot_entries(entries: Seq<EntryView>, slot: u16) -> Seq<EntryView>
    decreases entries.len(),
{
    if entries.len() == 0 {
        Seq::empty()
    } else {
        let p = slot_entries(entries.drop_last(), slot);
        if entries.last().slot == slot {
            p.push(entries.last())
        } else {
            p
        }
    }
}

/// Every candidate of one slot, scored against a query embedding.
pub open spec fn scored_of(entries: Seq<EntryView>, m: Metric, slot: u16, q: Seq<i64>) -> Seq<
    Scored,
> {
    let se = slot_entries(entries, slot);
    Seq::new(se.len(), |i: int| (dist_spec(m, q, se[i].embedding) as u64, i as usize, se[i].id))
}

/// What a query returns: the k nearest candidates of the slot as (id,
/// distance) pairs, ascending by distance, ties broken by slot position.
pub open spec fn query_spec(
    entries: Seq<EntryView>,
    m: Metric,
    slot: u16,
    q: Seq<i64>,
    k: int,
) -> Seq<(u32, u64)> {
    let sorted = scored_of(entries, m, slot, q).sort_by(scored_order());
    sorted.take(min(k, sorted.len() as int)).map_values(|t: Scored| (t.2, t.0))
}

/// Where an id already sits in a slot: the first position holding it, or -1.
pub open spec fn find_entry(s: Seq<EntryView>, slot: u16, id: u32) -> int
    decreases s.len(),
{
    if s.len() == 0 {
        -1
    } else if s[0].slot == slot && s[0].id == id {
        0
    } else {
        let r = find_entry(s.drop_first(), slot, id);
        if r == -1 {
            -1
        } else {
            r + 1
        }
    }
}

/// What one insert leaves in the index: a fresh (slot, id) is appended, an
/// existing one has its embedding replaced in place.
pub open spec fn insert_spec(s: Seq<EntryView>, e: EntryView) -> Seq<EntryView> {
    let j = find_entry(s, e.slot, e.id);
    if j == -1 {
        s.push(e)
    } else {
        s.update(j, e)
    }
}

pub proof fn lemma_find_entry_at(s: Seq<EntryView>, slot: u16, id: u32, j: int)
    requires
        0 <= j < s.len(),
        s[j].slot == slot && s[j].id == id,
        forall|i: int| 0 <= i < j ==> !((#[trigger] s[i]).slot == slot && s[i].id == id),
    ensures
        find_entry(s, slot, id) == j,
    decreases s.len(),
{
    if j > 0 {
        assert(forall|i: int|
            0 <= i < j - 1 ==> #[trigger] s.drop_first()[i] == s[i + 1]);
        lemma_find_entry_at(s.drop_first(), slot, id, j - 1);
    }
}

pub proof fn lemma_find_entry_none(s: Seq<EntryView>, slot: u16, id: u32)
    requires
        forall|i: int| 0 <= i < s.len() ==> !((#[trigger] s[i]).slot == slot && s[i].id == id),
    ensures
        find_entry(s, slot, id) == -1,
    decreases s.len(),
{
    if s.len() > 0 {
        assert(forall|i: int|
            0 <= i < s.drop_first().len() ==> #[trigger] s.drop_first()[i] == s[i + 1]);
        lemma_find_entry_none(s.drop_first(), slot, id);
    }
}

pub proof fn lemma_find_entry_range(s: Seq<EntryView>, slot: u16, id: u32)
    ensures
        -1 <= find_entry(s, slot, id) < s.len(),
    decreases s.len(),
{
    if s.len() > 0 {
        lemma_find_entry_range(s.drop_first(), slot, id);
    }
}

/// A successful lookup points at an entry carrying the pair.
pub proof fn lemma_find_entry_found(s: Seq<EntryView>, slot: u16, id: u32)
    requires
        find_entry(s, slot, id) != -1,
    ensures
        0 <= find_entry(s, slot, id) < s.len(),
        s[find_entry(s, slot, id)].slot == slot,
        s[find_entry(s, slot, id)].id == id,
    decreases s.len(),
{
    lemma_find_entry_range(s, slot, id);
    if !(s[0].slot == slot && s[0].id == id) {
        lemma_find_entry_range(s.drop_first(), slot, id);
        lemma_find_entry_found(s.drop_first(), slot, id);
        assert(s[find_entry(s, slot, id)] == s.drop_first()[find_entry(s, slot, id) - 1]);
    }
}

/// The converse: a failed lookup means no entry carries the pair.
pub proof fn lemma_find_entry_absent(s: Seq<EntryView>, slot: u16, id: u32)
    requires
        find_entry(s, slot, id) == -1,
    ensures
        forall|i: int| 0 <= i < s.len() ==> !((#[trigger] s[i]).slot == slot && s[i].id == id),
    decreases s.len(),
{
    if s.len() > 0 {
        lemma_find_entry_range(s.drop_first(), slot, id);
        lemma_find_entry_absent(s.drop_first(), slot, id);
        assert(forall|i: int|
            1 <= i < s.len() ==> #[trigger] s[i] == s.drop_first()[i - 1]);
    }
}

/// Inserting keeps (slot, id) pairs unique.
pub proof fn lemma_insert_spec_unique(s: Seq<EntryView>, e: EntryView)
    requires
        unique_slot_ids(s),
    ensures
        unique_slot_ids(insert_spec(s, e)),
{
    let j0 = find_entry(s, e.slot, e.id);
    lemma_find_entry_range(s, e.slot, e.id);
    let t = insert_spec(s, e);
    if j0 == -1 {
        lemma_find_entry_absent(s, e.slot, e.id);
        assert forall|a: int, b: int| 0 <= a < b < t.len() implies !((#[trigger] t[a]).slot == (
        #[trigger] t[b]).slot && t[a].id == t[b].id) by {
            if b == t.len() - 1 {
                assert(t[a] == s[a] && t[b] == e);
            } else {
                assert(t[a] == s[a] && t[b] == s[b]);
            }
        }
    } else {
        lemma_find_entry_found(s, e.slot, e.id);
        assert forall|a: int, b: int| 0 <= a < b < t.len() implies !((#[trigger] t[a]).slot == (
        #[trigger] t[b]).slot && t[a].id == t[b].id) by {
            assert((t[a].slot, t[a].id) == (s[a].slot, s[a].id));
            assert((t[b].slot, t[b].id) == (s[b].slot, s[b].id));
        }
    }
}

/// The index state after a sequence of inserts into one slot, in order.
pub open spec fn insert_all_spec(s: Seq<EntryView>, slot: u16, items: Seq<(u32, Seq<i64>)>) -> Seq<
    EntryView,
>
    decreases items.len(),
{
    if items.len() == 0 {
        s
    } else {
        insert_spec(
            insert_all_spec(s, slot, items.drop_last()),
            EntryView { slot, id: items.last().0, embedding: items.last().1 },
        )
    }
}

impl AnnIndex {
    /// Adds a batch of embeddings under one slot, in order, as one call:
    /// every embedding is validated first, so a failed call changes nothing,
    /// and a successful call leaves exactly the state the same sequence of
    /// single inserts would.
    pub fn insert_batch(&mut self, slot: u16, batch: Vec<(u32, Embedding)>) -> (r: Result<
        (),
        StoreError,
    >)
        requires
            old(self).wf(),
            forall|i: int| 0 <= i < batch@.len() ==> (#[trigger] batch@[i]).1.wf(),
        ensures
            final(self).wf(),
            final(self).dims_spec() == old(self).dims_spec(),
            final(self).metric_spec() == old(self).metric_spec(),
            final(self).seed_spec() == old(self).seed_spec(),
            r is Ok <==> (forall|i: int|
                0 <= i < batch@.len() ==> (#[trigger] batch@[i]).1@.len() == old(
                    self,
                ).dims_spec()),
            r is Ok ==> final(self)@ == insert_all_spec(
                old(self)@,
                slot,
                Seq::new(batch@.len(), |i: int| (batch@[i].0, batch@[i].1@)),
            ),
            r is Err ==> r == Result::<(), StoreError>::Err(StoreError::InvalidEmbedding)
                && final(self)@ == old(self)@,
    {
        let ghost items = Seq::new(batch@.len(), |i: int| (batch@[i].0, batch@[i].1@));
        let mut i: usize = 0;
        while i < batch.len()
            invariant
                i <= batch@.len(),
                self == old(self),
                old(self).wf(),
                forall|j: int|
                    0 <= j < i ==> (#[trigger] batch@[j]).1@.len() == old(self).dims_spec(),
        decreases batch@.len() - i,
        {
            if batch[i].1.len() != self.dims {
                return Err(StoreError::InvalidEmbedding);
            }
            i += 1;
        }
        let mut j: usize = 0;
        let mut batch = batch;
        proof {
            assert(items.take(0) =~= Seq::<(u32, Seq<i64>)>::empty());
        }
        while batch.len() > 0
            invariant
                items.len() <= usize::MAX,
                batch@.len() <= items.len(),
                j == items.len() - batch@.len(),
                forall|x: int|
                    0 <= x < batch@.len() ==> (#[trigger] batch@[x]).1.wf() && batch@[x].1@.len()
                        == old(self).dims_spec() && items[j + x] == (batch@[x].0, batch@[x].1@),
                self.wf(),
                self.dims_spec() == old(self).dims_spec(),
                self.metric_spec() == old(self).metric_spec(),
                self.seed_spec() == old(self).seed_spec(),
                self@ == insert_all_spec(old(self)@, slot, items.take(j as int)),
            decreases batch@.len(),
        {
            let (id, embedding) = batch.remove(0);
            proof {
                assert(items.take(j + 1).drop_last() =~= items.take(j as int));
                assert(items.take(j + 1).last() == (id, embedding@));
            }
            if let Err(_) = self.insert(slot, id, embedding) {
                // Provably unreachable: every embedding was validated above.
                proof {
                    assert(false);
                }
            }
            j += 1;
        }
        proof {
            assert(items.take(items.len() as int) =~= items);
        }
        Ok(())
    }

    /// Removes every entry of every slot; the configuration stays.
    pub fn clear(&mut self)
        requires
            old(self).wf(),
        ensures
            final(self).wf(),
            final(self)@ =~= Seq::<EntryView>::empty(),
            final(self).dims_spec() == old(self).dims_spec(),
            final(self).metric_spec() == old(self).metric_spec(),
            final(self).seed_spec() == old(self).seed_spec(),
    {
        self.entries = Vec::new();
    }
}

/// Every slot entry is an entry of the index carrying that slot.
pub proof fn lemma_slot_entries_member(entries: Seq<EntryView>, slot: u16, i: int)
    requires
        0 <= i < slot_entries(entries, slot).len(),
    ensures
        slot_entries(entries, slot)[i].slot == slot,
        exists|j: int|
            0 <= j < entries.len() && #[trigger] entries[j] == slot_entries(entries, slot)[i],
    decreases entries.len(),
{
    if entries.len() > 0 {
        let p = slot_entries(entries.drop_last(), slot);
        if entries.last().slot == slot && i == p.len() {
            assert(entries[entries.len() - 1] == slot_entries(entries, slot)[i]);
        } else {
            lemma_slot_entries_member(entries.drop_last(), slot, i);
            let j = choose|j: int|
                0 <= j < entries.drop_last().len() && #[trigger] entries.drop_last()[j]
                    == slot_entries(entries.drop_last(), slot)[i];
            assert(entries[j] == slot_entries(entries, slot)[i]);
        }
    }
}

/// Every id a query reports belongs to an index entry of the queried slot.
pub proof fn lemma_query_ids_from_slot(
    entries: Seq<EntryView>,
    m: Metric,
    slot: u16,
    q: Seq<i64>,
    k: int,
    i: int,
)
    requires
        k >= 0,
        0 <= i < query_spec(entries, m, slot, q, k).len(),
    ensures
        exists|j: int|
            0 <= j < entries.len() && (#[trigger] entries[j]).slot == slot && entries[j].id
                == query_spec(entries, m, slot, q, k)[i].0,
{
    lemma_scored_order_total();
    let full = scored_of(entries, m, slot, q);
    let sorted = full.sort_by(scored_order());
    full.lemma_sort_by_ensures(scored_order());
    full.to_multiset_ensures();
    sorted.to_multiset_ensures();
    let res = query_spec(entries, m, slot, q, k);
    assert(sorted.len() == full.len()) by {
        assert(sorted.to_multiset().len() == full.to_multiset().len());
    }
    assert(i < sorted.len());
    assert(sorted.take(min(k, sorted.len() as int))[i] == sorted[i]);
    assert(res[i].0 == sorted[i].2);
    assert(sorted.contains(sorted[i]));
    assert(full.contains(sorted[i])) by {
        assert(sorted.to_multiset().count(sorted[i]) > 0);
        assert(full.to_multiset().count(sorted[i]) > 0);
    }
    let j = choose|j: int| 0 <= j < full.len() && full[j] == sorted[i];
    let se = slot_entries(entries, slot);
    assert(full[j].2 == se[j].id);
    lemma_slot_entries_member(entries, slot, j);
    let x = choose|x: int| 0 <= x < entries.len() && #[trigger] entries[x] == se[j];
    assert(entries[x].slot == slot && entries[x].id == res[i].0);
}

/// The index state an insert sequence builds, starting from empty: each
/// insert leaves exactly `insert_spec` of the state before it.
pub open spec fn build_spec(inserts: Seq<EntryView>) -> Seq<EntryView>
    decreases inserts.len(),
{
    if inserts.len() == 0 {
        Seq::empty()
    } else {
        insert_spec(build_spec(inserts.drop_last()), inserts.last())
    }
}

/// Index determinism: the index state is a pure function of the insert
/// sequence (`insert` ensures its state is `insert_spec` of the state before
/// it), and a query is a pure function of the state, the metric, the slot and
/// the query embedding. Two fresh builds from the same inserted (id,
/// embedding) pairs therefore hold the same entries and answer every query
/// with identical ordered results.
pub proof fn lemma_index_determinism(
    a: Seq<EntryView>,
    b: Seq<EntryView>,
    inserts: Seq<EntryView>,
    m: Metric,
    slot: u16,
    q: Seq<i64>,
    k: int,
)
    requires
        a == build_spec(inserts),
        b == build_spec(inserts),
    ensures
        a == b,
        query_spec(a, m, slot, q, k) == query_spec(b, m, slot, q, k),
{
}

/// Nearest-neighbor ordering: a query reports the slot's candidates
/// ascending by distance, exactly `min(k, candidates)` of them, and nothing
/// it reports is farther than anything it leaves out.
pub proof fn lemma_query_ordered(
    entries: Seq<EntryView>,
    m: Metric,
    slot: u16,
    q: Seq<i64>,
    k: int,
)
    requires
        k >= 0,
    ensures
        query_spec(entries, m, slot, q, k).len() == min(
            k,
            slot_entries(entries, slot).len() as int,
        ),
        forall|i: int, j: int|
            0 <= i < j < query_spec(entries, m, slot, q, k).len() ==> (#[trigger] query_spec(
                entries,
                m,
                slot,
                q,
                k,
            )[i]).1 <= (#[trigger] query_spec(entries, m, slot, q, k)[j]).1,
        forall|i: int, j: int|
            0 <= i < query_spec(entries, m, slot, q, k).len() && query_spec(
                entries,
                m,
                slot,
                q,
                k,
            ).len() <= j < scored_of(entries, m, slot, q).sort_by(scored_order()).len() ==> (
            #[trigger] query_spec(entries, m, slot, q, k)[i]).1 <= (#[trigger] scored_of(
                entries,
                m,
                slot,
                q,
            ).sort_by(scored_order())[j]).0,
{
    lemma_scored_order_total();
    let full = scored_of(entries, m, slot, q);
    let sorted = full.sort_by(scored_order());
    full.lemma_sort_by_ensures(scored_order());
    full.to_multiset_ensures();
    sorted.to_multiset_ensures();
    assert(sorted.len() == full.len());
    let res = query_spec(entries, m, slot, q, k);
    let r = scored_order();
    assert forall|i: int, j: int| 0 <= i < j < res.len() implies (#[trigger] res[i]).1 <= (
    #[trigger] res[j]).1 by {
        assert(r(sorted[i], sorted[j]));
        assert(res[i].1 == sorted[i].0 && res[j].1 == sorted[j].0);
    }
    assert forall|i: int, j: int|
        0 <= i < res.len() && res.len() <= j < sorted.len() implies (#[trigger] res[i]).1 <= (
    #[trigger] sorted[j]).0 by {
        assert(r(sorted[i], sorted[j]));
        assert(res[i].1 == sorted[i].0);
    }
}

/// No two entries share a (slot, id) pair.
pub open spec fn unique_slot_ids(s: Seq<EntryView>) -> bool {
    forall|a: int, b: int|
        0 <= a < b < s.len() ==> !((#[trigger] s[a]).slot == (#[trigger] s[b]).slot && s[a].id
            == s[b].id)
}

/// The nearest-neighbor index.
pub struct AnnIndex {
    dims: usize,
    metric: Metric,
    seed: u64,
    entries: Vec<IndexEntry>,
}

impl View for AnnIndex {
    type V = Seq<EntryView>;

    closed spec fn view(&self) -> Seq<EntryView> {
        Seq::new(self.entries@.len(), |i: int| self.entries@[i]@)
    }
}

impl AnnIndex {
    /// The configured embedding length.
    pub closed spec fn dims_spec(&self) -> usize {
        self.dims
    }

    /// The configured distance policy.
    pub closed spec fn metric_spec(&self) -> Metric {
        self.metric
    }

    /// The build seed this index was constructed with. The index is a
    /// deterministic function of its inserts; the seed is part of the
    /// configuration a reproducible build is identified by.
    pub closed spec fn seed_spec(&self) -> u64 {
        self.seed
    }

    /// The index invariant: bounded dimensionality, well-formed embeddings
    /// of exactly the configured length, one entry per (slot, id).
    pub open spec fn wf(&self) -> bool {
        &&& self.dims_spec() <= MAX_DIMS
        &&& unique_slot_ids(self@)
        &&& forall|i: int|
            0 <= i < self@.len() ==> coords_ok((#[trigger] self@[i]).embedding)
                && self@[i].embedding.len() == self.dims_spec()
    }

    /// An empty index over embeddings of the given length, under the given
    /// metric and build seed. An unrepresentable length is a fatal
    /// configuration error.
    pub fn new(dims: usize, metric: Metric, seed: u64) -> (r: Result<AnnIndex, StoreError>)
        ensures
            dims <= MAX_DIMS <==> r is Ok,
            r matches Ok(ix) ==> ix.wf() && ix@ =~= Seq::<EntryView>::empty() && ix.dims_spec()
                == dims && ix.metric_spec() == metric && ix.seed_spec() == seed,
            r is Err ==> r == Result::<AnnIndex, StoreError>::Err(StoreError::InvalidEmbedding),
    {
        if dims > MAX_DIMS {
            return Err(StoreError::InvalidEmbedding);
        }
        Ok(AnnIndex { dims, metric, seed, entries: Vec::new() })
    }

    /// Number of indexed entries over all slots.
    pub fn len(&self) -> (r: usize)
        ensures
            r == self@.len(),
    {
        self.entries.len()
    }

    fn find(&self, slot: u16, id: u32) -> (r: Option<usize>)
        ensures
            match r {
                Option::Some(i) => i < self@.len() && find_entry(self@, slot, id) == i,
                Option::None => find_entry(self@, slot, id) == -1,
            },
    {
        let mut i: usize = 0;
        while i < self.entries.len()
            invariant
                i <= self@.len(),
                self@.len() == self.entries@.len(),
                forall|j: int| 0 <= j < self@.len() ==> self@[j] == self.entries@[j]@,
                forall|j: int|
                    0 <= j < i ==> !((#[trigger] self@[j]).slot == slot && self@[j].id == id),
            decreases self.entries@.len() - i,
        {
            let e = &self.entries[i];
            if e.slot == slot && e.id == id {
                proof {
                    lemma_find_entry_at(self@, slot, id, i as int);
                }
                return Some(i);
            }
            i += 1;
        }
        proof {
            lemma_find_entry_none(self@, slot, id);
        }
        None
    }

    /// Adds one embedding under (slot, id), replacing what the pair already
    /// held; the index reflects the insert as soon as the call returns. An
    /// embedding of the wrong length is a fatal configuration error and
    /// leaves the index unchanged.
    pub fn insert(&mut self, slot: u16, id: u32, embedding: Embedding) -> (r: Result<
        (),
        StoreError,
    >)
        requires
            old(self).wf(),
            embedding.wf(),
        ensures
            final(self).wf(),
            final(self).dims_spec() == old(self).dims_spec(),
            final(self).metric_spec() == old(self).metric_spec(),
            final(self).seed_spec() == old(self).seed_spec(),
            embedding@.len() == old(self).dims_spec() <==> r is Ok,
            r is Ok ==> final(self)@ == insert_spec(
                old(self)@,
                EntryView { slot, id, embedding: embedding@ },
            ),
            r is Err ==> r == Result::<(), StoreError>::Err(StoreError::InvalidEmbedding)
                && final(self)@ == old(self)@,
    {
        if embedding.len() != self.dims {
            return Err(StoreError::InvalidEmbedding);
        }
        let ghost e = EntryView { slot, id, embedding: embedding@ };
        match self.find(slot, id) {
            Option::Some(i) => {
                proof {
                    lemma_find_entry_found(old(self)@, slot, id);
                }
                self.entries.set(i, IndexEntry { slot, id, embedding });
                proof {
                    assert(self@ =~= insert_spec(old(self)@, e));
                    assert(unique_slot_ids(self@)) by {
                        assert(forall|j: int|
                            0 <= j < self@.len() ==> (#[trigger] self@[j]).slot == old(
                                self,
                            )@[j].slot && self@[j].id == old(self)@[j].id);
                    }
                }
            },
            Option::None => {
                proof {
                    lemma_find_entry_absent(old(self)@, slot, id);
                }
                self.entries.push(IndexEntry { slot, id, embedding });
                proof {
                    assert(self@ =~= insert_spec(old(self)@, e));
                    assert(unique_slot_ids(self@)) by {
                        assert(forall|j: int| 0 <= j < old(self)@.len() ==> self@[j] == old(
                            self,
                        )@[j]);
                        assert(self@[self@.len() - 1] == e);
                    }
                }
            },
        }
        Ok(())
    }
}

/// Inserting an element anywhere in a sequence adds it to the multiset.
proof fn lemma_to_multiset_insert(s: Seq<Scored>, pos: int, x: Scored)
    requires
        0 <= pos <= s.len(),
    ensures
        s.insert(pos, x).to_multiset() =~= s.to_multiset().insert(x),
{
    broadcast use vstd::multiset::group_multiset_axioms;

    let pre = s.subrange(0, pos);
    let post = s.subrange(pos, s.len() as int);
    assert(s.insert(pos, x) == pre.push(x) + post);
    vstd::seq_lib::lemma_multiset_commutative(pre.push(x), post);
    vstd::seq_lib::lemma_multiset_commutative(pre, post);
    assert(s =~= pre + post);
    pre.to_multiset_ensures();
    assert(pre.push(x).to_multiset() =~= pre.to_multiset().insert(x));
}

fn scored_less_eq(a: Scored, b: Scored) -> (r: bool)
    ensures
        r == scored_leq(a, b),
{
    a.0 < b.0 || (a.0 == b.0 && a.1 < b.1) || (a.0 == b.0 && a.1 == b.1 && a.2 <= b.2)
}

fn find_insert_pos(v: &Vec<Scored>, x: Scored) -> (pos: usize)
    ensures
        pos <= v@.len(),
        forall|j: int| 0 <= j < pos ==> scored_leq(#[trigger] v@[j], x),
        pos < v@.len() ==> !scored_leq(v@[pos as int], x),
{
    let mut pos: usize = 0;
    while pos < v.len()
        invariant
            pos <= v@.len(),
            forall|j: int| 0 <= j < pos ==> scored_leq(#[trigger] v@[j], x),
        decreases v@.len() - pos,
    {
        if !scored_less_eq(v[pos], x) {
            return pos;
        }
        pos += 1;
    }
    pos
}

fn sorted_insert(v: &mut Vec<Scored>, x: Scored)
    requires
        sorted_by(old(v)@, scored_order()),
    ensures
        sorted_by(final(v)@, scored_order()),
        final(v)@.to_multiset() =~= old(v)@.to_multiset().insert(x),
        final(v)@.len() == old(v)@.len() + 1,
{
    let pos = find_insert_pos(v, x);
    proof {
        lemma_to_multiset_insert(v@, pos as int, x);
        lemma_scored_order_total();
    }
    v.insert(pos, x);
    proof {
        let s = old(v)@;
        let t = final(v)@;
        assert(t == s.insert(pos as int, x));
        s.insert_ensures(pos as int, x);
        let r = scored_order();
        assert forall|i: int, j: int| 0 <= i < j < t.len() implies #[trigger] r(t[i], t[j]) by {
            if pos < s.len() {
                // The first element not at-or-below x sits after x.
                assert(r(x, s[pos as int]));
            }
            if j < pos {
                assert(t[i] == s[i] && t[j] == s[j]);
            } else if i < pos && j == pos {
                assert(t[i] == s[i] && t[j] == x);
            } else if i < pos && j > pos {
                assert(t[i] == s[i] && t[j] == s[j - 1]);
                assert(r(s[i], s[j - 1]));
            } else if i == pos && j > pos {
                assert(t[i] == x && t[j] == s[j - 1]);
                assert(r(s[pos as int], s[j - 1]));
            } else {
                assert(t[i] == s[i - 1] && t[j] == s[j - 1]);
                assert(r(s[i - 1], s[j - 1]));
            }
        }
    }
}

impl AnnIndex {
    /// The k nearest indexed embeddings of the slot to the query embedding:
    /// (id, distance) pairs ascending by distance, ties broken by insertion
    /// order, at most k of them — fewer only when the slot holds fewer
    /// entries. A query embedding of the wrong length is a fatal
    /// configuration error.
    pub fn query(&self, slot: u16, q: &Embedding, k: usize) -> (r: Result<
        Vec<(u32, u64)>,
        StoreError,
    >)
        requires
            self.wf(),
            q.wf(),
        ensures
            q@.len() == self.dims_spec() <==> r is Ok,
            r matches Ok(v) ==> v@ == query_spec(self@, self.metric_spec(), slot, q@, k as int),
            r is Err ==> r == Result::<Vec<(u32, u64)>, StoreError>::Err(
                StoreError::InvalidEmbedding,
            ),
    {
        if q.len() != self.dims {
            return Err(StoreError::InvalidEmbedding);
        }
        let ghost m = self.metric;
        // Score every entry of the slot, keeping its position as tie-breaker.
        let mut scored: Vec<Scored> = Vec::new();
        let mut i: usize = 0;
        proof {
            assert(self@.take(0) =~= Seq::<EntryView>::empty());
            assert(slot_entries(self@.take(0), slot) =~= Seq::<EntryView>::empty());
            assert(scored@ =~= scored_of(self@.take(0), m, slot, q@));
        }
        while i < self.entries.len()
            invariant
                i <= self.entries@.len(),
                self@.len() == self.entries@.len(),
                forall|j: int| 0 <= j < self@.len() ==> self@[j] == self.entries@[j]@,
                self.wf(),
                q.wf(),
                q@.len() == self.dims_spec(),
                m == self.metric_spec(),
                scored@ == scored_of(self@.take(i as int), m, slot, q@),
                scored@.len() <= i,
            decreases self.entries@.len() - i,
        {
            let ghost pre = slot_entries(self@.take(i as int), slot);
            proof {
                assert(self@.take(i + 1).drop_last() =~= self@.take(i as int));
                assert(self@.take(i + 1).last() == self@[i as int]);
                assert(self@[i as int].embedding.len() == self.dims_spec());
            }
            let e = &self.entries[i];
            if e.slot == slot {
                let d = distance(self.metric, q, &e.embedding);
                let pos = scored.len();
                scored.push((d, pos, e.id));
                proof {
                    let post = slot_entries(self@.take(i + 1), slot);
                    assert(post =~= pre.push(self@[i as int]));
                    assert(scored@ =~= scored_of(self@.take(i + 1), m, slot, q@));
                }
            } else {
                proof {
                    assert(slot_entries(self@.take(i + 1), slot) =~= pre);
                    assert(scored@ =~= scored_of(self@.take(i + 1), m, slot, q@));
                }
            }
            i += 1;
        }
        proof {
            assert(self@.take(self.entries@.len() as int) =~= self@);
        }
        let ghost full = scored_of(self@, m, slot, q@);
        // Arrange the candidates in query order; the order is total, so the
        // arrangement is the unique sorted one.
        let mut arranged: Vec<Scored> = Vec::new();
        let mut j: usize = 0;
        proof {
            scored@.take(0).to_multiset_ensures();
            assert(scored@.take(0) =~= Seq::<Scored>::empty());
            assert(arranged@.to_multiset() =~= scored@.take(0).to_multiset());
        }
        while j < scored.len()
            invariant
                j <= scored@.len(),
                scored@ == full,
                sorted_by(arranged@, scored_order()),
                arranged@.to_multiset() =~= scored@.take(j as int).to_multiset(),
                arranged@.len() == j,
            decreases scored@.len() - j,
        {
            proof {
                scored@.take(j as int).to_multiset_ensures();
                assert(scored@.take(j + 1) =~= scored@.take(j as int).push(scored@[j as int]));
            }
            sorted_insert(&mut arranged, scored[j]);
            j += 1;
        }
        proof {
            assert(scored@.take(scored@.len() as int) =~= scored@);
            lemma_scored_order_total();
            full.lemma_sort_by_ensures(scored_order());
            lemma_sorted_unique(arranged@, full.sort_by(scored_order()), scored_order());
            assert(arranged@ =~= full.sort_by(scored_order()));
        }
        // Keep the k nearest.
        let take_n: usize = if k < arranged.len() {
            k
        } else {
            arranged.len()
        };
        let mut out: Vec<(u32, u64)> = Vec::new();
        let mut t: usize = 0;
        while t < take_n
            invariant
                t <= take_n,
                take_n <= arranged@.len(),
                out@.len() == t,
                forall|x: int|
                    0 <= x < t ==> #[trigger] out@[x] == (arranged@[x].2, arranged@[x].0),
            decreases take_n - t,
        {
            let c = arranged[t];
            out.push((c.2, c.0));
            t += 1;
        }
        proof {
            let sorted = full.sort_by(scored_order());
            assert(out@ =~= sorted.take(min(k as int, sorted.len() as int)).map_values(
                |tr: Scored| (tr.2, tr.0),
            ));
        }
        Ok(out)
    }
}

} // verus!
