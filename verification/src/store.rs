//! The embedding store: the one component external callers use for
//! ingestion and query. It composes the id allocator, the content store and
//! the nearest-neighbor index: assigns ids, drives the embedding oracle,
//! writes index first and content second (so a reader that sees content can
//! always find it through the index), and answers similarity queries.
//!
//! Persistence is the surrounding application's: after each successful
//! mutation it writes `config_snapshot` as the complete replacement of the
//! allocator's state file.
use vstd::prelude::*;
use vstd::string::StringExecFns;
use crate::ann_index::{
    find_entry, insert_spec, lemma_find_entry_absent, lemma_find_entry_found,
    lemma_find_entry_range, lemma_query_ids_from_slot, query_spec, AnnIndex, EntryView,
};
use crate::config_state::{render_state_spec, AllocatorState};
use crate::content_store::{ContentStore, DBEntry, RecordView};
use crate::embedding::{Embeddable, Embedding, DEFAULT_DIMS, MAX_DIMS};
use crate::metric::{norm_sq_spec, Metric};
use crate::receipt::{blake3_hash, commit_message_spec, parse_receipt_spec, ProgramId};
use crate::simcheck::{matched_spec, similarity_milli_spec};
use crate::StoreError;

verus! {

/// Construction-time configuration of a store instance: where its three
/// persisted artifacts live (content database, index database, allocator
/// state file — all owned by the surrounding application), which oracle
/// embeds content, the embedding length, the default index slot, and the
/// build seed.
#[derive(Debug)]
pub struct DBConfig<T> {
    pub db_path: String,
    pub embedded_path: String,
    pub config_path: String,
    pub embed_engine: T,
    pub dimensions: usize,
    pub index: u16,
    pub seed: u64,
}

impl<T: Default> Default for DBConfig<T> {
    fn default() -> (r: DBConfig<T>)
        ensures
            r.db_path@ == "db"@,
            r.embedded_path@ == "embedded"@,
            r.config_path@ == "config"@,
            r.dimensions == DEFAULT_DIMS,
            r.index == 0,
            r.seed == 42,
    {
        DBConfig {
            db_path: String::from_str("db"),
            embedded_path: String::from_str("embedded"),
            config_path: String::from_str("config"),
            embed_engine: T::default(),
            dimensions: DEFAULT_DIMS,
            index: 0,
            seed: 42,
        }
    }
}

impl<T: Default> DBConfig<T> {
    /// The default layout under one base directory: the three artifacts side
    /// by side.
    pub fn from_base_dir(base_dir: &str) -> (r: DBConfig<T>)
        ensures
            r.db_path@ == base_dir@ + "/db"@,
            r.embedded_path@ == base_dir@ + "/embedded"@,
            r.config_path@ == base_dir@ + "/config"@,
            r.dimensions == DEFAULT_DIMS,
            r.index == 0,
            r.seed == 42,
    {
        DBConfig {
            db_path: String::from_str(base_dir).concat("/db"),
            embedded_path: String::from_str(base_dir).concat("/embedded"),
            config_path: String::from_str(base_dir).concat("/config"),
            embed_engine: T::default(),
            dimensions: DEFAULT_DIMS,
            index: 0,
            seed: 42,
        }
    }
}

/// Content table and index entries correspond one to one under a slot, with
/// equal embeddings.
pub open spec fn state_synced(c: Map<u32, RecordView>, ix: Seq<EntryView>, slot: u16) -> bool {
    &&& forall|j: int|
        0 <= j < ix.len() && (#[trigger] ix[j]).slot == slot ==> c.contains_key(ix[j].id)
            && c[ix[j].id].embedding == ix[j].embedding
    &&& forall|id: u32|
        #[trigger] c.contains_key(id) ==> exists|j: int|
            0 <= j < ix.len() && (#[trigger] ix[j]).slot == slot && ix[j].id == id
}

/// Every stored id lies below the counter.
pub open spec fn state_ids_bounded(c: Map<u32, RecordView>, next: u32) -> bool {
    forall|id: u32| #[trigger] c.contains_key(id) ==> id < next
}

/// One completed put keeps content and index in step: the new record and
/// index entry correspond, everything else is untouched.
proof fn lemma_put_step_synced(
    c: Map<u32, RecordView>,
    ix: Seq<EntryView>,
    slot: u16,
    id: u32,
    emb: Seq<i64>,
    content: Seq<u8>,
)
    requires
        state_synced(c, ix, slot),
        crate::ann_index::unique_slot_ids(ix),
    ensures
        state_synced(
            c.insert(id, RecordView { content, embedding: emb }),
            insert_spec(ix, EntryView { slot, id, embedding: emb }),
            slot,
        ),
{
    let e = EntryView { slot, id, embedding: emb };
    let c2 = c.insert(id, RecordView { content, embedding: emb });
    let ix2 = insert_spec(ix, e);
    let j0 = find_entry(ix, slot, id);
    lemma_find_entry_range(ix, slot, id);
    if j0 == -1 {
        lemma_find_entry_absent(ix, slot, id);
        assert forall|j: int|
            0 <= j < ix2.len() && (#[trigger] ix2[j]).slot == slot implies c2.contains_key(
            ix2[j].id,
        ) && c2[ix2[j].id].embedding == ix2[j].embedding by {
            if j < ix.len() {
                assert(ix2[j] == ix[j]);
                assert(ix[j].id != id);
            } else {
                assert(ix2[j] == e);
            }
        }
        assert forall|x: u32| #[trigger] c2.contains_key(x) implies exists|j: int|
            0 <= j < ix2.len() && (#[trigger] ix2[j]).slot == slot && ix2[j].id == x by {
            if x == id {
                assert(ix2[ix.len() as int].slot == slot && ix2[ix.len() as int].id == x);
            } else {
                let j = choose|j: int|
                    0 <= j < ix.len() && (#[trigger] ix[j]).slot == slot && ix[j].id == x;
                assert(ix2[j].slot == slot && ix2[j].id == x);
            }
        }
    } else {
        lemma_find_entry_found(ix, slot, id);
        assert forall|j: int|
            0 <= j < ix2.len() && (#[trigger] ix2[j]).slot == slot implies c2.contains_key(
            ix2[j].id,
        ) && c2[ix2[j].id].embedding == ix2[j].embedding by {
            if j != j0 {
                assert(ix2[j] == ix[j]);
                // Only one entry of the slot carries this id.
                assert(ix[j].id != id);
            } else {
                assert(ix2[j] == e);
            }
        }
        assert forall|x: u32| #[trigger] c2.contains_key(x) implies exists|j: int|
            0 <= j < ix2.len() && (#[trigger] ix2[j]).slot == slot && ix2[j].id == x by {
            if x == id {
                assert(ix2[j0].slot == slot && ix2[j0].id == x);
            } else {
                let j = choose|j: int|
                    0 <= j < ix.len() && (#[trigger] ix[j]).slot == slot && ix[j].id == x;
                assert(j != j0);
                assert(ix2[j].slot == slot && ix2[j].id == x);
            }
        }
    }
}

/// The embedding store.
pub struct SimpleDBNN<T: Embeddable> {
    content: ContentStore,
    nn: AnnIndex,
    allocator: AllocatorState,
    embed_engine: T,
    dimensions: usize,
    index: u16,
}

impl<T: Embeddable> SimpleDBNN<T> {
    /// The content table: document id to record.
    pub closed spec fn content_view(&self) -> Map<u32, RecordView> {
        self.content@
    }

    /// The index entries, in insertion order.
    pub closed spec fn index_view(&self) -> Seq<EntryView> {
        self.nn@
    }

    /// The next document id the allocator will issue.
    pub closed spec fn next_id_spec(&self) -> u32 {
        self.allocator.next_id
    }

    /// The configured embedding length.
    pub closed spec fn dims_spec(&self) -> usize {
        self.dimensions
    }

    /// The default index slot of this store.
    pub closed spec fn slot_spec(&self) -> u16 {
        self.index
    }

    /// The configured distance policy.
    pub closed spec fn metric_spec(&self) -> Metric {
        self.nn.metric_spec()
    }

    /// The embedding oracle.
    pub closed spec fn engine_spec(&self) -> T {
        self.embed_engine
    }

    /// The store invariant: both component stores well-formed over the same
    /// embedding length.
    pub closed spec fn wf(&self) -> bool {
        &&& self.content.wf()
        &&& self.nn.wf()
        &&& self.nn.dims_spec() == self.dims_spec()
        &&& self.dims_spec() <= MAX_DIMS
    }

    /// The cross-store invariant: under the store's slot, content ids and
    /// index entries correspond one to one, with equal embeddings. Each
    /// completed `put` establishes it; the component-level writes (`put_db`,
    /// `put_nn`) can break it, exactly as a crash between the two underlying
    /// writes would.
    pub open spec fn synced(&self) -> bool {
        state_synced(self.content_view(), self.index_view(), self.slot_spec())
    }

    /// The allocator invariant: every stored id lies below the next id to
    /// issue, so issued ids are never reused.
    pub open spec fn ids_bounded(&self) -> bool {
        state_ids_bounded(self.content_view(), self.next_id_spec())
    }

    /// A fresh store over empty component stores, recovering the allocator
    /// from the saved bytes of its state file (`None` or unparseable bytes
    /// start the counter at zero, never failing the caller). An embedding
    /// length beyond what the engine supports is a fatal configuration
    /// error.
    ///
    /// Opening the persisted artifacts at the configured paths is the
    /// application's work; it hands in the state file's bytes.
    pub fn new(
        embed_engine: T,
        dimensions: usize,
        index: u16,
        seed: u64,
        metric: Metric,
        saved_state: &Option<Vec<u8>>,
    ) -> (r: Result<SimpleDBNN<T>, StoreError>)
        ensures
            dimensions <= MAX_DIMS <==> r is Ok,
            r matches Ok(s) ==> {
                &&& s.wf()
                &&& s.synced()
                &&& s.ids_bounded()
                &&& s.content_view() =~= Map::<u32, RecordView>::empty()
                &&& s.index_view() =~= Seq::<EntryView>::empty()
                &&& s.dims_spec() == dimensions
                &&& s.slot_spec() == index
                &&& s.metric_spec() == metric
                &&& (match saved_state {
                    Option::Some(b) => s.next_id_spec() == crate::config_state::recover_spec(
                        Option::Some(b@),
                    ),
                    Option::None => s.next_id_spec() == 0,
                })
            },
            r is Err ==> r == Result::<SimpleDBNN<T>, StoreError>::Err(StoreError::InvalidEmbedding),
    {
        let nn = match AnnIndex::new(dimensions, metric, seed) {
            Ok(nn) => nn,
            Err(e) => {
                return Err(e);
            },
        };
        let allocator = AllocatorState::load(saved_state);
        Ok(
            SimpleDBNN {
                content: ContentStore::new(),
                nn,
                allocator,
                embed_engine,
                dimensions,
                index,
            },
        )
    }

    /// A fresh store from a configuration; the application opens the paths
    /// the configuration names and hands in the state file's bytes.
    pub fn from_config(config: DBConfig<T>, metric: Metric, saved_state: &Option<Vec<u8>>) -> (r:
        Result<SimpleDBNN<T>, StoreError>)
        ensures
            config.dimensions <= MAX_DIMS <==> r is Ok,
            r matches Ok(s) ==> {
                &&& s.wf()
                &&& s.synced()
                &&& s.ids_bounded()
                &&& s.content_view() =~= Map::<u32, RecordView>::empty()
                &&& s.index_view() =~= Seq::<EntryView>::empty()
                &&& s.dims_spec() == config.dimensions
                &&& s.slot_spec() == config.index
                &&& s.metric_spec() == metric
                &&& (match saved_state {
                    Option::Some(b) => s.next_id_spec() == crate::config_state::recover_spec(
                        Option::Some(b@),
                    ),
                    Option::None => s.next_id_spec() == 0,
                })
            },
            r is Err ==> r == Result::<SimpleDBNN<T>, StoreError>::Err(StoreError::InvalidEmbedding),
    {
        Self::new(
            config.embed_engine,
            config.dimensions,
            config.index,
            config.seed,
            metric,
            saved_state,
        )
    }

    /// The current allocator counter.
    pub fn get_current_id(self) -> (r: u32)
        ensures
            r == self.next_id_spec(),
    {
        self.allocator.next_id
    }

    /// The current allocator counter, without consuming the store.
    pub fn current_id(&self) -> (r: u32)
        ensures
            r == self.next_id_spec(),
    {
        self.allocator.next_id
    }

    /// Overwrites the allocator counter.
    pub fn update_id(&mut self, id: u32)
        ensures
            final(self).next_id_spec() == id,
            final(self).content_view() == old(self).content_view(),
            final(self).index_view() == old(self).index_view(),
            final(self).wf() == old(self).wf(),
            final(self).dims_spec() == old(self).dims_spec(),
            final(self).slot_spec() == old(self).slot_spec(),
            final(self).metric_spec() == old(self).metric_spec(),
            final(self).engine_spec() == old(self).engine_spec(),
    {
        self.allocator.advance(id);
    }

    /// The bytes to persist as the allocator's state file: the save step
    /// after each successful mutation.
    pub fn config_snapshot(&self) -> (r: Vec<u8>)
        ensures
            r@ == render_state_spec(self.next_id_spec()),
    {
        self.allocator.render()
    }

    /// Writes one record to the content store only, under the given id. A
    /// component-level write: it leaves the index alone, so it does not
    /// maintain the cross-store invariant — `put` does.
    pub fn put_db(&mut self, content: &[u8], id: u32, embedding: Embedding) -> (r: Result<
        (),
        StoreError,
    >)
        requires
            old(self).wf(),
            embedding.wf(),
        ensures
            r is Ok,
            final(self).wf(),
            final(self).content_view() == old(self).content_view().insert(
                id,
                RecordView { content: content@, embedding: embedding@ },
            ),
            final(self).index_view() == old(self).index_view(),
            final(self).next_id_spec() == old(self).next_id_spec(),
            final(self).dims_spec() == old(self).dims_spec(),
            final(self).slot_spec() == old(self).slot_spec(),
            final(self).metric_spec() == old(self).metric_spec(),
            final(self).engine_spec() == old(self).engine_spec(),
    {
        let entry = DBEntry::new(vstd::slice::slice_to_vec(content), embedding);
        self.content.put(id, entry);
        Ok(())
    }

    /// Reads the record stored under an id. An absent id is `Ok(None)`,
    /// never an error.
    pub fn get_db(&self, id: u32) -> (r: Result<Option<DBEntry>, StoreError>)
        requires
            self.wf(),
        ensures
            r matches Ok(opt) && (match opt {
                Option::Some(e) => self.content_view().contains_key(id) && e@
                    == self.content_view()[id],
                Option::None => !self.content_view().contains_key(id),
            }),
    {
        match self.content.get(id) {
            Option::Some(e) => Ok(Some(e.duplicate())),
            Option::None => Ok(None),
        }
    }

    /// Embeds content through the oracle and writes the embedding to the
    /// index only, under (slot, id); returns the embedding. A
    /// component-level write, like `put_db`. An embedding of the wrong
    /// length is a fatal configuration error and changes nothing.
    pub fn put_nn(&mut self, content: &[u8], id: u32, index: u16) -> (r: Result<
        Embedding,
        StoreError,
    >)
        requires
            old(self).wf(),
        ensures
            final(self).wf(),
            r is Ok <==> old(self).engine_spec().embedding_spec(content@).len() == old(self).dims_spec(),
            r matches Ok(emb) ==> emb@ == old(self).engine_spec().embedding_spec(content@)
                && final(self).index_view() == insert_spec(
                old(self).index_view(),
                EntryView { slot: index, id, embedding: emb@ },
            ),
            r is Err ==> r == Result::<Embedding, StoreError>::Err(StoreError::InvalidEmbedding)
                && final(self).index_view() == old(self).index_view(),
            final(self).content_view() == old(self).content_view(),
            final(self).next_id_spec() == old(self).next_id_spec(),
            final(self).dims_spec() == old(self).dims_spec(),
            final(self).slot_spec() == old(self).slot_spec(),
            final(self).metric_spec() == old(self).metric_spec(),
            final(self).engine_spec() == old(self).engine_spec(),
    {
        let embedding = self.embed_engine.to_embedding(vstd::slice::slice_to_vec(content));
        let returned = embedding.duplicate();
        match self.nn.insert(index, id, embedding) {
            Ok(()) => Ok(returned),
            Err(e) => Err(e),
        }
    }

    /// Embeds content and returns the ids and distances of its nearest
    /// indexed neighbors in the given slot: ascending by distance, at most
    /// `n_results` of them.
    pub fn get_nn(&self, content: &[u8], index: u16, n_results: usize) -> (r: Result<
        Vec<(u32, u64)>,
        StoreError,
    >)
        requires
            self.wf(),
        ensures
            r is Ok <==> self.engine_spec().embedding_spec(content@).len() == self.dims_spec(),
            r matches Ok(v) ==> v@ == query_spec(
                self.index_view(),
                self.metric_spec(),
                index,
                self.engine_spec().embedding_spec(content@),
                n_results as int,
            ),
            r is Err ==> r == Result::<Vec<(u32, u64)>, StoreError>::Err(
                StoreError::InvalidEmbedding,
            ),
    {
        let embedding = self.embed_engine.to_embedding(vstd::slice::slice_to_vec(content));
        self.nn.query(index, &embedding, n_results)
    }

    /// What one completed `put` leaves of the store state (content table,
    /// index entries, allocator counter): the record under the issued id, the
    /// embedding in the index under the store's slot, the counter one ahead.
    pub open spec fn put_state_spec(
        engine: T,
        slot: u16,
        c: Map<u32, RecordView>,
        ix: Seq<EntryView>,
        next: u32,
        content: Seq<u8>,
    ) -> (Map<u32, RecordView>, Seq<EntryView>, u32)
        recommends
            next < u32::MAX,
    {
        let emb = engine.embedding_spec(content);
        (
            c.insert(next, RecordView { content, embedding: emb }),
            insert_spec(ix, EntryView { slot, id: next, embedding: emb }),
            (next + 1) as u32,
        )
    }

    /// Ingests one document: issues the next id, embeds the content through
    /// the oracle, writes the index first and the content store second, and
    /// advances the allocator; returns the computed embedding as a side
    /// confirmation. The caller persists `config_snapshot()` afterwards.
    ///
    /// Fails, changing nothing, when the oracle's embedding does not match
    /// the configured length (a fatal configuration error) or when the id
    /// space is exhausted; ids are never reused.
    pub fn put(&mut self, content: &[u8]) -> (r: Result<Embedding, StoreError>)
        requires
            old(self).wf(),
        ensures
            final(self).wf(),
            final(self).dims_spec() == old(self).dims_spec(),
            final(self).slot_spec() == old(self).slot_spec(),
            final(self).metric_spec() == old(self).metric_spec(),
            final(self).engine_spec() == old(self).engine_spec(),
            r is Ok <==> (old(self).engine_spec().embedding_spec(content@).len() == old(self).dims_spec() && old(self).next_id_spec() < u32::MAX),
            r matches Ok(emb) ==> {
                let st = Self::put_state_spec(
                    old(self).engine_spec(),
                    old(self).slot_spec(),
                    old(self).content_view(),
                    old(self).index_view(),
                    old(self).next_id_spec(),
                    content@,
                );
                &&& emb@ == old(self).engine_spec().embedding_spec(content@)
                &&& final(self).content_view() == st.0
                &&& final(self).index_view() == st.1
                &&& final(self).next_id_spec() == st.2
            },
            r is Err ==> final(self).content_view() == old(self).content_view()
                && final(self).index_view() == old(self).index_view()
                && final(self).next_id_spec() == old(self).next_id_spec(),
            r == Result::<Embedding, StoreError>::Err(StoreError::InvalidEmbedding)
                <==> old(self).engine_spec().embedding_spec(content@).len() != old(self).dims_spec(),
            r == Result::<Embedding, StoreError>::Err(StoreError::IdSpaceExhausted)
                <==> (old(self).engine_spec().embedding_spec(content@).len() == old(self).dims_spec()
                    && old(self).next_id_spec() == u32::MAX),
            old(self).synced() && r is Ok ==> final(self).synced(),
            old(self).ids_bounded() ==> final(self).ids_bounded(),
    {
        let embedding = self.embed_engine.to_embedding(vstd::slice::slice_to_vec(content));
        if embedding.len() != self.dimensions {
            return Err(StoreError::InvalidEmbedding);
        }
        let current = self.allocator.next_id;
        if current == u32::MAX {
            return Err(StoreError::IdSpaceExhausted);
        }
        let returned = embedding.duplicate();
        let stored = embedding.duplicate();
        let ghost e = EntryView { slot: self.index, id: current, embedding: embedding@ };
        let ghost old_ix = self.nn@;
        if let Err(e) = self.nn.insert(self.index, current, embedding) {
            return Err(e);
        }
        self.content.put(current, DBEntry::new(vstd::slice::slice_to_vec(content), stored));
        self.allocator.advance(current + 1);
        proof {
            if old(self).synced() {
                lemma_put_step_synced(
                    old(self).content_view(),
                    old_ix,
                    self.index,
                    current,
                    e.embedding,
                    content@,
                );
            }
        }
        Ok(returned)
    }

    /// Answers a similarity query: embeds the query content, takes the `nn`
    /// nearest ids from the index, and resolves each against the content
    /// store. An id the index reports but the content store lacks is a
    /// consistency violation and fails the whole call — never a silently
    /// skipped result; under the cross-store invariant that cannot happen,
    /// and a well-dimensioned query is owed a full answer.
    pub fn get(&self, content: &[u8], nn: usize) -> (r: Result<
        Vec<(u32, u64, DBEntry)>,
        StoreError,
    >)
        requires
            self.wf(),
        ensures
            ({
                let hits = query_spec(
                    self.index_view(),
                    self.metric_spec(),
                    self.slot_spec(),
                    self.engine_spec().embedding_spec(content@),
                    nn as int,
                );
                match r {
                    Result::Ok(v) => {
                        &&& self.engine_spec().embedding_spec(content@).len()
                            == self.dims_spec()
                        &&& v@.len() == hits.len()
                        &&& forall|i: int|
                            0 <= i < hits.len() ==> (#[trigger] v@[i]).0 == hits[i].0 && v@[i].1
                                == hits[i].1 && self.content_view().contains_key(hits[i].0)
                                && v@[i].2@ == self.content_view()[hits[i].0]
                    },
                    Result::Err(StoreError::InvalidEmbedding) => self.engine_spec().embedding_spec(
                        content@,
                    ).len() != self.dims_spec(),
                    Result::Err(StoreError::ConsistencyViolation) => {
                        &&& self.engine_spec().embedding_spec(content@).len()
                            == self.dims_spec()
                        &&& exists|i: int|
                            0 <= i < hits.len() && !self.content_view().contains_key(
                                (#[trigger] hits[i]).0,
                            )
                    },
                    Result::Err(_) => false,
                }
            }),
            self.synced() && self.engine_spec().embedding_spec(content@).len() == self.dims_spec()
                ==> r is Ok,
    {
        let ghost q = self.engine_spec().embedding_spec(content@);
        let ghost hits_spec = query_spec(
            self.index_view(),
            self.metric_spec(),
            self.slot_spec(),
            q,
            nn as int,
        );
        let hits = match self.get_nn(content, self.index, nn) {
            Ok(h) => h,
            Err(e) => {
                return Err(e);
            },
        };
        let mut out: Vec<(u32, u64, DBEntry)> = Vec::new();
        let mut i: usize = 0;
        while i < hits.len()
            invariant
                i <= hits@.len(),
                hits@ == hits_spec,
                hits_spec == query_spec(
                    self.index_view(),
                    self.metric_spec(),
                    self.slot_spec(),
                    q,
                    nn as int,
                ),
                q == self.engine_spec().embedding_spec(content@),
                q.len() == self.dims_spec(),
                self.wf(),
                out@.len() == i,
                forall|j: int|
                    0 <= j < i ==> (#[trigger] out@[j]).0 == hits@[j].0 && out@[j].1 == hits@[j].1
                        && self.content_view().contains_key(hits@[j].0) && out@[j].2@
                        == self.content_view()[hits@[j].0],
            decreases hits@.len() - i,
        {
            let (id, dist) = hits[i];
            match self.content.get(id) {
                Option::Some(entry) => {
                    out.push((id, dist, entry.duplicate()));
                },
                Option::None => {
                    proof {
                        assert(!self.content_view().contains_key(hits_spec[i as int].0));
                        if self.synced() {
                            lemma_query_ids_from_slot(
                                self.index_view(),
                                self.metric_spec(),
                                self.slot_spec(),
                                q,
                                nn as int,
                                i as int,
                            );
                            let j = choose|j: int|
                                0 <= j < self.index_view().len() && (#[trigger] self.index_view()[j]).slot
                                    == self.slot_spec() && self.index_view()[j].id == hits_spec[i as int].0;
                            assert(self.content_view().contains_key(hits_spec[i as int].0));
                        }
                    }
                    return Err(StoreError::ConsistencyViolation);
                },
            }
            i += 1;
        }
        Ok(out)
    }

    /// The store state after ingesting a sequence of contents one after
    /// another, oldest first: the fold of single-put steps. `put_batch`
    /// leaves exactly this state, so a batch is equivalent to the same
    /// sequence of `put` calls over the same contiguous id range.
    pub open spec fn puts_state_spec(
        engine: T,
        slot: u16,
        c: Map<u32, RecordView>,
        ix: Seq<EntryView>,
        next: u32,
        contents: Seq<Seq<u8>>,
    ) -> (Map<u32, RecordView>, Seq<EntryView>, u32)
        decreases contents.len(),
    {
        if contents.len() == 0 {
            (c, ix, next)
        } else {
            let prev = Self::puts_state_spec(engine, slot, c, ix, next, contents.drop_last());
            Self::put_state_spec(engine, slot, prev.0, prev.1, prev.2, contents.last())
        }
    }

    /// Batch equivalence for the cross-store correspondence: the fold of
    /// single-put steps keeps content and index in step and the index pairs
    /// unique, whatever ids it issues.
    pub proof fn lemma_puts_state_synced(
        engine: T,
        slot: u16,
        c: Map<u32, RecordView>,
        ix: Seq<EntryView>,
        next: u32,
        contents: Seq<Seq<u8>>,
    )
        requires
            state_synced(c, ix, slot),
            crate::ann_index::unique_slot_ids(ix),
        ensures
            ({
                let st = Self::puts_state_spec(engine, slot, c, ix, next, contents);
                state_synced(st.0, st.1, slot) && crate::ann_index::unique_slot_ids(st.1)
            }),
        decreases contents.len(),
    {
        if contents.len() > 0 {
            Self::lemma_puts_state_synced(engine, slot, c, ix, next, contents.drop_last());
            let prev = Self::puts_state_spec(engine, slot, c, ix, next, contents.drop_last());
            let emb = engine.embedding_spec(contents.last());
            lemma_put_step_synced(prev.0, prev.1, slot, prev.2, emb, contents.last());
            crate::ann_index::lemma_insert_spec_unique(
                prev.1,
                EntryView { slot, id: prev.2, embedding: emb },
            );
        }
    }

    /// The fold of single-put steps issues exactly the contiguous ids
    /// `next .. next + n` and keeps every stored id below the counter.
    pub proof fn lemma_puts_state_ids(
        engine: T,
        slot: u16,
        c: Map<u32, RecordView>,
        ix: Seq<EntryView>,
        next: u32,
        contents: Seq<Seq<u8>>,
    )
        requires
            state_ids_bounded(c, next),
            next + contents.len() <= u32::MAX,
        ensures
            ({
                let st = Self::puts_state_spec(engine, slot, c, ix, next, contents);
                st.2 == next + contents.len() && state_ids_bounded(st.0, st.2)
            }),
        decreases contents.len(),
    {
        if contents.len() > 0 {
            Self::lemma_puts_state_ids(engine, slot, c, ix, next, contents.drop_last());
        }
    }

    /// Ingests a batch of documents under a contiguous id range, in input
    /// order, into the given index slot: all embeddings are computed and
    /// validated first, so a failed call changes nothing, and a successful
    /// call leaves exactly the state the same sequence of single `put` calls
    /// would. One allocator advance covers the whole batch; the caller
    /// persists `config_snapshot()` afterwards.
    pub fn put_batch(&mut self, batch: Vec<Vec<u8>>, index: u16) -> (r: Result<(), StoreError>)
        requires
            old(self).wf(),
        ensures
            final(self).wf(),
            final(self).dims_spec() == old(self).dims_spec(),
            final(self).slot_spec() == old(self).slot_spec(),
            final(self).metric_spec() == old(self).metric_spec(),
            final(self).engine_spec() == old(self).engine_spec(),
            r is Ok <==> ((forall|i: int|
                0 <= i < batch@.len() ==> old(self).engine_spec().embedding_spec(
                    (#[trigger] batch@[i])@,
                ).len() == old(self).dims_spec()) && old(self).next_id_spec() + batch@.len()
                <= u32::MAX),
            r is Ok ==> {
                let st = Self::puts_state_spec(
                    old(self).engine_spec(),
                    index,
                    old(self).content_view(),
                    old(self).index_view(),
                    old(self).next_id_spec(),
                    Seq::new(batch@.len(), |i: int| batch@[i]@),
                );
                &&& final(self).content_view() == st.0
                &&& final(self).index_view() == st.1
                &&& final(self).next_id_spec() == st.2
            },
            r is Err ==> final(self).content_view() == old(self).content_view()
                && final(self).index_view() == old(self).index_view()
                && final(self).next_id_spec() == old(self).next_id_spec(),
            r == Result::<(), StoreError>::Err(StoreError::InvalidEmbedding)
                <==> (exists|i: int|
                0 <= i < batch@.len() && old(self).engine_spec().embedding_spec(
                    (#[trigger] batch@[i])@,
                ).len() != old(self).dims_spec()),
            r == Result::<(), StoreError>::Err(StoreError::IdSpaceExhausted)
                <==> ((forall|i: int|
                0 <= i < batch@.len() ==> old(self).engine_spec().embedding_spec(
                    (#[trigger] batch@[i])@,
                ).len() == old(self).dims_spec()) && old(self).next_id_spec() + batch@.len()
                > u32::MAX),
            old(self).synced() && index == old(self).slot_spec() && r is Ok
                ==> final(self).synced(),
            old(self).ids_bounded() && r is Ok ==> final(self).ids_bounded(),
    {
        let ghost contents = Seq::new(batch@.len(), |i: int| batch@[i]@);
        // Compute and validate every embedding before touching any state.
        let mut embeds: Vec<Embedding> = Vec::new();
        let mut i: usize = 0;
        while i < batch.len()
            invariant
                i <= batch@.len(),
                contents == Seq::new(batch@.len(), |x: int| batch@[x]@),
                self == old(self),
                old(self).wf(),
                embeds@.len() == i,
                forall|j: int|
                    0 <= j < i ==> (#[trigger] embeds@[j])@ == old(self).engine_spec().embedding_spec(
                        contents[j],
                    ) && embeds@[j]@.len() == old(self).dims_spec() && embeds@[j].wf(),
            decreases batch@.len() - i,
        {
            let emb = self.embed_engine.to_embedding(
                vstd::slice::slice_to_vec(batch[i].as_slice()),
            );
            if emb.len() != self.dimensions {
                return Err(StoreError::InvalidEmbedding);
            }
            embeds.push(emb);
            i += 1;
        }
        proof {
            assert forall|x: int| 0 <= x < batch@.len() implies old(
                self,
            ).engine_spec().embedding_spec((#[trigger] batch@[x])@).len() == old(
                self,
            ).dims_spec() by {
                assert(contents[x] == batch@[x]@);
                assert(embeds@[x]@ == old(self).engine_spec().embedding_spec(contents[x]));
            }
        }
        // Reserve the whole contiguous id range.
        let start = self.allocator.next_id;
        if batch.len() as u64 > (0xffff_ffffu32 - start) as u64 {
            return Err(StoreError::IdSpaceExhausted);
        }
        // Apply the writes; nothing below can fail.
        let mut j: usize = 0;
        while j < batch.len()
            invariant
                j <= batch@.len(),
                contents == Seq::new(batch@.len(), |x: int| batch@[x]@),
                embeds@.len() == batch@.len(),
                forall|x: int|
                    0 <= x < batch@.len() ==> (#[trigger] embeds@[x])@ == old(
                        self,
                    ).engine_spec().embedding_spec(contents[x]) && embeds@[x]@.len() == old(
                        self,
                    ).dims_spec() && embeds@[x].wf(),
                start == old(self).next_id_spec(),
                start + batch@.len() <= u32::MAX,
                self.wf(),
                self.dims_spec() == old(self).dims_spec(),
                self.slot_spec() == old(self).slot_spec(),
                self.metric_spec() == old(self).metric_spec(),
                self.engine_spec() == old(self).engine_spec(),
                self.next_id_spec() == old(self).next_id_spec(),
                ({
                    let st = Self::puts_state_spec(
                        old(self).engine_spec(),
                        index,
                        old(self).content_view(),
                        old(self).index_view(),
                        start,
                        contents.take(j as int),
                    );
                    &&& self.content_view() == st.0
                    &&& self.index_view() == st.1
                    &&& st.2 == start + j
                }),
            decreases batch@.len() - j,
        {
            let ghost st_j = Self::puts_state_spec(
                old(self).engine_spec(),
                index,
                old(self).content_view(),
                old(self).index_view(),
                start,
                contents.take(j as int),
            );
            let id: u32 = start + (j as u32);
            let emb_ix = embeds[j].duplicate();
            let emb_db = embeds[j].duplicate();
            proof {
                assert(contents.take(j + 1).drop_last() =~= contents.take(j as int));
                assert(contents.take(j + 1).last() == contents[j as int]);
            }
            if let Err(e) = self.nn.insert(index, id, emb_ix) {
                // Provably unreachable: every embedding was validated above.
                proof {
                    assert(false);
                }
            }
            self.content.put(id, DBEntry::new(vstd::slice::slice_to_vec(batch[j].as_slice()), emb_db));
            j += 1;
        }
        proof {
            assert(contents.take(batch@.len() as int) =~= contents);
        }
        self.allocator.advance(start + (batch.len() as u32));
        proof {
            if old(self).synced() && index == old(self).slot_spec() {
                Self::lemma_puts_state_synced(
                    old(self).engine_spec(),
                    index,
                    old(self).content_view(),
                    old(self).index_view(),
                    start,
                    contents,
                );
            }
            if old(self).ids_bounded() {
                Self::lemma_puts_state_ids(
                    old(self).engine_spec(),
                    index,
                    old(self).content_view(),
                    old(self).index_view(),
                    start,
                    contents,
                );
            }
        }
        Ok(())
    }

    /// Empties the content store and the index; the allocator keeps its
    /// counter, so ids stay unique until the persisted state file is removed
    /// too and a reload restarts the counter. Meant for test and reset use.
    pub fn clear(&mut self) -> (r: Result<(), StoreError>)
        requires
            old(self).wf(),
        ensures
            r is Ok,
            final(self).wf(),
            final(self).synced(),
            final(self).ids_bounded(),
            final(self).content_view() =~= Map::<u32, RecordView>::empty(),
            final(self).index_view() =~= Seq::<EntryView>::empty(),
            final(self).next_id_spec() == old(self).next_id_spec(),
            final(self).dims_spec() == old(self).dims_spec(),
            final(self).slot_spec() == old(self).slot_spec(),
            final(self).metric_spec() == old(self).metric_spec(),
            final(self).engine_spec() == old(self).engine_spec(),
    {
        self.content = ContentStore::new();
        self.nn.clear();
        Ok(())
    }

    /// What a search answer's receipt attests for one resolved document:
    /// where the similarity program is defined on the query and document
    /// embeddings, a receipt bound to the program identity committing exactly
    /// their threshold verdict and similarity; where it is undefined (a
    /// length mismatch or a zero norm), an empty blob, which no verifier
    /// accepts.
    pub open spec fn receipt_attests(
        receipt: Seq<u8>,
        pid: Seq<u32>,
        q: Seq<i64>,
        e: Seq<i64>,
    ) -> bool {
        if q.len() == e.len() && norm_sq_spec(q) > 0 && norm_sq_spec(e) > 0 {
            parse_receipt_spec(receipt) matches Some(t) && t.0 == pid && t.1.matched
                == matched_spec(q, e) && t.1.similarity_milli as int == similarity_milli_spec(q, e)
                && t.2 == blake3_hash(commit_message_spec(t.0, t.1))
        } else {
            receipt.len() == 0
        }
    }

    /// Answers a similarity search and attaches, to each ranked document, a
    /// receipt for the similarity of the query embedding and that document's
    /// stored embedding. Proving writes nothing; a pair the similarity
    /// program is undefined on gets an empty receipt instead of a panic.
    pub fn search(&self, content: &[u8], top_k: usize, program_id: &ProgramId) -> (r: Result<
        Vec<SearchResult>,
        StoreError,
    >)
        requires
            self.wf(),
        ensures
            ({
                let q = self.engine_spec().embedding_spec(content@);
                let hits = query_spec(
                    self.index_view(),
                    self.metric_spec(),
                    self.slot_spec(),
                    q,
                    top_k as int,
                );
                match r {
                    Result::Ok(v) => {
                        &&& q.len() == self.dims_spec()
                        &&& v@.len() == hits.len()
                        &&& forall|i: int|
                            0 <= i < hits.len() ==> {
                                let res = #[trigger] v@[i];
                                &&& res.id == hits[i].0
                                &&& res.score == hits[i].1
                                &&& self.content_view().contains_key(hits[i].0)
                                &&& res.content@ == self.content_view()[hits[i].0].content
                                &&& res.embedding@ == self.content_view()[hits[i].0].embedding
                                &&& Self::receipt_attests(
                                    res.receipt@,
                                    program_id@,
                                    q,
                                    self.content_view()[hits[i].0].embedding,
                                )
                            }
                    },
                    Result::Err(StoreError::InvalidEmbedding) => q.len() != self.dims_spec(),
                    Result::Err(StoreError::ConsistencyViolation) => {
                        &&& q.len() == self.dims_spec()
                        &&& exists|i: int|
                            0 <= i < hits.len() && !self.content_view().contains_key(
                                (#[trigger] hits[i]).0,
                            )
                    },
                    Result::Err(_) => false,
                }
            }),
            self.synced() && self.engine_spec().embedding_spec(content@).len() == self.dims_spec()
                ==> r is Ok,
    {
        let ghost q_spec = self.engine_spec().embedding_spec(content@);
        let q = self.embed_engine.to_embedding(vstd::slice::slice_to_vec(content));
        let hits = match self.nn.query(self.index, &q, top_k) {
            Ok(h) => h,
            Err(e) => {
                return Err(e);
            },
        };
        let ghost hits_spec = query_spec(
            self.index_view(),
            self.metric_spec(),
            self.slot_spec(),
            q_spec,
            top_k as int,
        );
        let mut out: Vec<SearchResult> = Vec::new();
        let mut i: usize = 0;
        while i < hits.len()
            invariant
                i <= hits@.len(),
                hits@ == hits_spec,
                hits_spec == query_spec(
                    self.index_view(),
                    self.metric_spec(),
                    self.slot_spec(),
                    q_spec,
                    top_k as int,
                ),
                q_spec == self.engine_spec().embedding_spec(content@),
                q_spec.len() == self.dims_spec(),
                q@ == q_spec,
                q.wf(),
                self.wf(),
                out@.len() == i,
                forall|j: int|
                    0 <= j < i ==> {
                        let res = #[trigger] out@[j];
                        &&& res.id == hits@[j].0
                        &&& res.score == hits@[j].1
                        &&& self.content_view().contains_key(hits@[j].0)
                        &&& res.content@ == self.content_view()[hits@[j].0].content
                        &&& res.embedding@ == self.content_view()[hits@[j].0].embedding
                        &&& Self::receipt_attests(
                            res.receipt@,
                            program_id@,
                            q_spec,
                            self.content_view()[hits@[j].0].embedding,
                        )
                    },
            decreases hits@.len() - i,
        {
            let (id, dist) = hits[i];
            match self.content.get(id) {
                Option::Some(entry) => {
                    let receipt = match crate::receipt::prove(program_id, &q, &entry.embedding) {
                        Ok(bytes) => bytes,
                        Err(_) => Vec::new(),
                    };
                    let copy = entry.duplicate();
                    out.push(SearchResult::new(id, dist, copy.content, copy.embedding, receipt));
                },
                Option::None => {
                    proof {
                        assert(!self.content_view().contains_key(hits_spec[i as int].0));
                        if self.synced() {
                            lemma_query_ids_from_slot(
                                self.index_view(),
                                self.metric_spec(),
                                self.slot_spec(),
                                q_spec,
                                top_k as int,
                                i as int,
                            );
                            let j = choose|j: int|
                                0 <= j < self.index_view().len() && (#[trigger] self.index_view()[j]).slot
                                    == self.slot_spec() && self.index_view()[j].id == hits_spec[i as int].0;
                            assert(self.content_view().contains_key(hits_spec[i as int].0));
                        }
                    }
                    return Err(StoreError::ConsistencyViolation);
                },
            }
            i += 1;
        }
        Ok(out)
    }
}

/// One ranked answer of a similarity search: the document, its distance to
/// the query, and a receipt attesting to the cosine similarity of the query
/// embedding and the document's embedding.
#[derive(Debug)]
pub struct SearchResult {
    pub id: u32,
    pub content: Vec<u8>,
    pub score: u64,
    pub embedding: Embedding,
    pub receipt: Vec<u8>,
}

impl SearchResult {
    pub fn new(id: u32, score: u64, content: Vec<u8>, embedding: Embedding, receipt: Vec<u8>) -> (r:
        SearchResult)
        ensures
            r.id == id,
            r.score == score,
            r.content@ == content@,
            r.embedding@ == embedding@,
            r.receipt@ == receipt@,
    {
        SearchResult { id, content, score, embedding, receipt }
    }
}

/// Allocator monotonicity: while every stored id lies below the counter, the
/// id a put is about to issue — and every id at or above it — has never been
/// stored, so ids are issued strictly increasing with no reuse. `put` issues
/// exactly the counter and moves it one ahead; `put_batch` issues the
/// contiguous range `next .. next + n` (`lemma_puts_state_ids`); and
/// `lemma_counter_survives_restart` carries the counter across a restart.
pub proof fn lemma_ids_never_reused(c: Map<u32, RecordView>, next: u32, m: u32)
    requires
        state_ids_bounded(c, next),
        m >= next,
    ensures
        !c.contains_key(m),
{
}

/// Round trip of one put: the state a completed put leaves holds, under the
/// issued id, exactly the given content with the oracle's embedding of it —
/// what `get_db` on that id returns. Together with `lemma_entry_round_trip`,
/// the pair also survives a store-to-bytes reload cycle unchanged.
pub proof fn lemma_put_get_round_trip<T: Embeddable>(
    engine: T,
    slot: u16,
    c: Map<u32, RecordView>,
    ix: Seq<EntryView>,
    next: u32,
    content: Seq<u8>,
)
    ensures
        ({
            let st = SimpleDBNN::<T>::put_state_spec(engine, slot, c, ix, next, content);
            &&& st.0.contains_key(next)
            &&& st.0[next].content == content
            &&& st.0[next].embedding == engine.embedding_spec(content)
        }),
{
}

} // verus!
