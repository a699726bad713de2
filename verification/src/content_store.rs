//! The content store: a keyed table of document records, the single owner of
//! each document's content and embedding. Modeled as a map from document id
//! to record; every read goes through that map, and each mutating call
//! changes it as one step, so the all-or-nothing behavior of the underlying
//! transactional table is what callers can rely on here.
use vstd::prelude::*;
use vstd::bytes::{
    lemma_auto_spec_u64_to_from_le_bytes, spec_u64_from_le_bytes, spec_u64_to_le_bytes,
    u64_from_le_bytes, u64_to_le_bytes,
};
use vstd::pervasive::VecAdditionalExecFns;
use vstd::slice::slice_subrange;
use crate::embedding::{coords_ok, Embedding, COORD_LIMIT, MAX_DIMS};

verus! {

/// One stored document: its content byte-string and its embedding, owned by
/// value. Records are created whole and never mutated in place.
#[derive(Debug)]
pub struct DBEntry {
    pub content: Vec<u8>,
    pub embedding: Embedding,
}

/// The mathematical value of a record.
#[verifier::ext_equal]
pub ghost struct RecordView {
    pub content: Seq<u8>,
    pub embedding: Seq<i64>,
}

impl View for DBEntry {
    type V = RecordView;

    open spec fn view(&self) -> RecordView {
        RecordView { content: self.content@, embedding: self.embedding@ }
    }
}

impl DBEntry {
    pub fn new(content: Vec<u8>, embedding: Embedding) -> (r: DBEntry)
        ensures
            r@.content == content@,
            r@.embedding == embedding@,
    {
        DBEntry { content, embedding }
    }

    /// An independent copy with the same value.
    pub fn duplicate(&self) -> (r: DBEntry)
        ensures
            r@ == self@,
    {
        let mut content: Vec<u8> = Vec::new();
        let mut i: usize = 0;
        while i < self.content.len()
            invariant
                i <= self.content@.len(),
                content@ =~= self.content@.subrange(0, i as int),
            decreases self.content@.len() - i,
        {
            content.push(self.content[i]);
            i += 1;
        }
        proof {
            assert(content@ =~= self.content@);
        }
        let r = DBEntry { content, embedding: self.embedding.duplicate() };
        proof {
            assert(r@ =~= self@);
        }
        r
    }
}

/// The map a sequence of keyed records denotes: later records override
/// earlier ones with the same id.
pub open spec fn entries_map(s: Seq<(u32, DBEntry)>) -> Map<u32, RecordView>
    decreases s.len(),
{
    if s.len() == 0 {
        Map::empty()
    } else {
        entries_map(s.drop_last()).insert(s.last().0, s.last().1@)
    }
}

/// The keys of a record sequence are its ids.
pub proof fn lemma_entries_map_domain(s: Seq<(u32, DBEntry)>, k: u32)
    ensures
        entries_map(s).contains_key(k) <==> exists|i: int|
            0 <= i < s.len() && (#[trigger] s[i]).0 == k,
    decreases s.len(),
{
    if s.len() > 0 {
        lemma_entries_map_domain(s.drop_last(), k);
        if s.last().0 == k {
            assert(s[s.len() - 1].0 == k);
        } else if entries_map(s).contains_key(k) {
            let i = choose|i: int| 0 <= i < s.drop_last().len() && (#[trigger] s.drop_last()[i]).0
                == k;
            assert(s[i].0 == k);
        } else {
            if exists|i: int| 0 <= i < s.len() && (#[trigger] s[i]).0 == k {
                let i = choose|i: int| 0 <= i < s.len() && (#[trigger] s[i]).0 == k;
                assert(i < s.len() - 1 && s.drop_last()[i].0 == k);
            }
        }
    }
}

/// With unique ids, the map's value at an id is the record stored under it.
pub proof fn lemma_entries_map_index(s: Seq<(u32, DBEntry)>, i: int)
    requires
        unique_ids(s),
        0 <= i < s.len(),
    ensures
        entries_map(s).contains_key(s[i].0),
        entries_map(s)[s[i].0] == s[i].1@,
    decreases s.len(),
{
    if i == s.len() - 1 {
    } else {
        assert(unique_ids(s.drop_last())) by {
            assert(forall|a: int, b: int|
                0 <= a < b < s.drop_last().len() ==> s.drop_last()[a] == s[a]
                    && s.drop_last()[b] == s[b]);
        }
        lemma_entries_map_index(s.drop_last(), i);
        assert(s.drop_last()[i] == s[i]);
        assert(s[i].0 != s.last().0) by {
            assert(s.last() == s[s.len() - 1]);
        }
    }
}

/// No two records carry the same id.
pub open spec fn unique_ids(s: Seq<(u32, DBEntry)>) -> bool {
    forall|a: int, b: int|
        0 <= a < b < s.len() ==> (#[trigger] s[a]).0 != (#[trigger] s[b]).0
}

/// All stored embeddings are well-formed.
pub open spec fn entries_coords_ok(s: Seq<(u32, DBEntry)>) -> bool {
    forall|i: int| 0 <= i < s.len() ==> coords_ok((#[trigger] s[i]).1@.embedding)
}

/// The content store. Its view is the map from document id to record value.
pub struct ContentStore {
    entries: Vec<(u32, DBEntry)>,
}

impl View for ContentStore {
    type V = Map<u32, RecordView>;

    closed spec fn view(&self) -> Map<u32, RecordView> {
        entries_map(self.entries@)
    }
}

impl ContentStore {
    /// The store's internal invariant: one record per id, all embeddings
    /// well-formed.
    pub closed spec fn wf(&self) -> bool {
        unique_ids(self.entries@) && entries_coords_ok(self.entries@)
    }

    /// An empty store.
    pub fn new() -> (r: ContentStore)
        ensures
            r@ =~= Map::<u32, RecordView>::empty(),
            r.wf(),
    {
        ContentStore { entries: Vec::new() }
    }

    /// Number of stored records.
    pub fn len(&self) -> (r: usize)
        requires
            self.wf(),
        ensures
            r == self@.dom().len(),
    {
        proof {
            lemma_entries_map_len(self.entries@);
        }
        self.entries.len()
    }

    fn find(&self, id: u32) -> (r: Option<usize>)
        ensures
            match r {
                Option::Some(i) => i < self.entries@.len() && self.entries@[i as int].0 == id,
                Option::None => forall|i: int|
                    0 <= i < self.entries@.len() ==> (#[trigger] self.entries@[i]).0 != id,
            },
    {
        let mut i: usize = 0;
        while i < self.entries.len()
            invariant
                i <= self.entries@.len(),
                forall|j: int| 0 <= j < i ==> (#[trigger] self.entries@[j]).0 != id,
            decreases self.entries@.len() - i,
        {
            if self.entries[i].0 == id {
                return Some(i);
            }
            i += 1;
        }
        None
    }

    /// Writes a record under an id, replacing any record already there: an
    /// idempotent overwrite, never an append of a duplicate.
    pub fn put(&mut self, id: u32, entry: DBEntry)
        requires
            old(self).wf(),
            coords_ok(entry@.embedding),
        ensures
            final(self).wf(),
            final(self)@ == old(self)@.insert(id, entry@),
    {
        let found = self.find(id);
        match found {
            Option::Some(i) => {
                proof {
                    lemma_entries_map_update(self.entries@, i as int, (id, entry));
                }
                self.entries.set(i, (id, entry));
                proof {
                    assert(entries_coords_ok(self.entries@));
                }
            },
            Option::None => {
                proof {
                    assert(entries_map(self.entries@.push((id, entry))) == entries_map(
                        self.entries@,
                    ).insert(id, entry@)) by {
                        assert(self.entries@.push((id, entry)).drop_last() =~= self.entries@);
                    }
                }
                self.entries.push((id, entry));
                proof {
                    assert(unique_ids(self.entries@));
                    assert(entries_coords_ok(self.entries@));
                }
            },
        }
    }

    /// Reads the record under an id; an absent id is an explicit `None`,
    /// never an error.
    pub fn get(&self, id: u32) -> (r: Option<&DBEntry>)
        requires
            self.wf(),
        ensures
            match r {
                Option::Some(e) => self@.contains_key(id) && self@[id] == e@ && coords_ok(
                    e@.embedding,
                ),
                Option::None => !self@.contains_key(id),
            },
    {
        proof {
            lemma_entries_map_domain(self.entries@, id);
        }
        match self.find(id) {
            Option::Some(i) => {
                proof {
                    lemma_entries_map_index(self.entries@, i as int);
                }
                Some(&self.entries[i].1)
            },
            Option::None => None,
        }
    }

    /// The map after writing a batch of records in order.
    pub open spec fn batch_insert(m: Map<u32, RecordView>, batch: Seq<(u32, RecordView)>) -> Map<
        u32,
        RecordView,
    >
        decreases batch.len(),
    {
        if batch.len() == 0 {
            m
        } else {
            Self::batch_insert(m, batch.drop_last()).insert(batch.last().0, batch.last().1)
        }
    }

    /// Writes a batch of records in order, as one call: every record becomes
    /// visible together with the others, exactly as the same sequence of
    /// single writes would leave the store.
    pub fn put_batch(&mut self, batch: Vec<(u32, DBEntry)>)
        requires
            old(self).wf(),
            entries_coords_ok(batch@),
        ensures
            final(self).wf(),
            final(self)@ == Self::batch_insert(
                old(self)@,
                Seq::new(batch@.len(), |i: int| (batch@[i].0, batch@[i].1@)),
            ),
    {
        let ghost orig = batch@;
        let ghost bview = Seq::new(batch@.len(), |i: int| (batch@[i].0, batch@[i].1@));
        let ghost n = batch@.len();
        let mut batch = batch;
        proof {
            assert(bview.take(0) =~= Seq::<(u32, RecordView)>::empty());
            assert(batch@ =~= orig.skip(0));
        }
        while batch.len() > 0
            invariant
                bview.len() == n,
                batch@.len() <= n,
                batch@ =~= orig.skip(n - batch@.len()),
                orig.len() == n,
                forall|i: int| 0 <= i < n ==> bview[i] == ((#[trigger] orig[i]).0, orig[i].1@),
                entries_coords_ok(orig),
                self.wf(),
                self@ == Self::batch_insert(old(self)@, bview.take(n - batch@.len())),
            decreases batch@.len(),
        {
            let ghost j = n - batch@.len();
            let (id, entry) = batch.remove(0);
            proof {
                assert((id, entry) == orig[j]);
                assert(coords_ok(entry@.embedding));
                assert(bview.take(j + 1).drop_last() =~= bview.take(j));
                assert(bview.take(j + 1).last() == (id, entry@));
                assert(batch@ =~= orig.skip(j + 1));
            }
            self.put(id, entry);
        }
        proof {
            assert(bview.take(n as int) =~= bview);
        }
    }
}

proof fn lemma_entries_map_len(s: Seq<(u32, DBEntry)>)
    requires
        unique_ids(s),
    ensures
        entries_map(s).dom().len() == s.len(),
        entries_map(s).dom().finite(),
    decreases s.len(),
{
    if s.len() > 0 {
        assert(unique_ids(s.drop_last())) by {
            assert(forall|a: int, b: int|
                0 <= a < b < s.drop_last().len() ==> s.drop_last()[a] == s[a]
                    && s.drop_last()[b] == s[b]);
        }
        lemma_entries_map_len(s.drop_last());
        lemma_entries_map_domain(s.drop_last(), s.last().0);
        assert(!entries_map(s.drop_last()).contains_key(s.last().0)) by {
            if exists|i: int|
                0 <= i < s.drop_last().len() && (#[trigger] s.drop_last()[i]).0 == s.last().0 {
                let i = choose|i: int|
                    0 <= i < s.drop_last().len() && (#[trigger] s.drop_last()[i]).0 == s.last().0;
                assert(s[i].0 == s[s.len() - 1].0);
            }
        }
    }
}

/// Replacing the record at an index that already carries the same id
/// updates the map at that id and keeps the ids unique.
proof fn lemma_entries_map_update(s: Seq<(u32, DBEntry)>, i: int, e: (u32, DBEntry))
    requires
        unique_ids(s),
        0 <= i < s.len(),
        s[i].0 == e.0,
    ensures
        entries_map(s.update(i, e)) == entries_map(s).insert(e.0, e.1@),
        unique_ids(s.update(i, e)),
    decreases s.len(),
{
    let su = s.update(i, e);
    assert(unique_ids(su)) by {
        assert(forall|j: int| 0 <= j < su.len() ==> (#[trigger] su[j]).0 == s[j].0);
    }
    if i == s.len() - 1 {
        assert(su.drop_last() =~= s.drop_last());
        assert(su.last() == e);
        assert(entries_map(s.drop_last()).insert(e.0, e.1@) =~= entries_map(s.drop_last()).insert(
            s.last().0,
            s.last().1@,
        ).insert(e.0, e.1@));
    } else {
        assert(unique_ids(s.drop_last())) by {
            assert(forall|j: int|
                0 <= j < s.drop_last().len() ==> #[trigger] s.drop_last()[j] == s[j]);
        }
        assert(s.drop_last()[i] == s[i]);
        lemma_entries_map_update(s.drop_last(), i, e);
        assert(su.drop_last() =~= s.drop_last().update(i, e));
        assert(su.last() == s.last());
        // The replaced id differs from the last record's id, so the two
        // inserts commute.
        assert(e.0 != s.last().0) by {
            assert(s.last() == s[s.len() - 1]);
        }
        assert(entries_map(s.drop_last()).insert(e.0, e.1@).insert(s.last().0, s.last().1@)
            =~= entries_map(s.drop_last()).insert(s.last().0, s.last().1@).insert(e.0, e.1@));
    }
}

/// The byte encoding of a coordinate: shifted into `0 ..= 2 * COORD_LIMIT`
/// so eight little-endian bytes carry it.
pub open spec fn coord_bytes_spec(cs: Seq<i64>) -> Seq<u8>
    decreases cs.len(),
{
    if cs.len() == 0 {
        Seq::empty()
    } else {
        coord_bytes_spec(cs.drop_last()) + spec_u64_to_le_bytes(
            (cs.last() + COORD_LIMIT) as u64,
        )
    }
}

pub proof fn lemma_coord_bytes_len(cs: Seq<i64>)
    ensures
        coord_bytes_spec(cs).len() == 8 * cs.len(),
    decreases cs.len(),
{
    lemma_auto_spec_u64_to_from_le_bytes();
    if cs.len() > 0 {
        lemma_coord_bytes_len(cs.drop_last());
    }
}

/// Each coordinate sits at its fixed offset of the encoding.
pub proof fn lemma_coord_bytes_index(cs: Seq<i64>, i: int)
    requires
        0 <= i < cs.len(),
    ensures
        coord_bytes_spec(cs).subrange(8 * i, 8 * i + 8) =~= spec_u64_to_le_bytes(
            (cs[i] + COORD_LIMIT) as u64,
        ),
    decreases cs.len(),
{
    lemma_auto_spec_u64_to_from_le_bytes();
    lemma_coord_bytes_len(cs);
    lemma_coord_bytes_len(cs.drop_last());
    if i == cs.len() - 1 {
        assert(coord_bytes_spec(cs).subrange(8 * i, 8 * i + 8) =~= spec_u64_to_le_bytes(
            (cs.last() + COORD_LIMIT) as u64,
        ));
    } else {
        lemma_coord_bytes_index(cs.drop_last(), i);
        assert(coord_bytes_spec(cs).subrange(8 * i, 8 * i + 8) =~= coord_bytes_spec(
            cs.drop_last(),
        ).subrange(8 * i, 8 * i + 8));
    }
}

/// The record wire format: content length, content bytes, coordinate count,
/// shifted coordinates. What the surrounding application persists per
/// record.
pub open spec fn entry_bytes_spec(v: RecordView) -> Seq<u8> {
    spec_u64_to_le_bytes(v.content.len() as u64) + v.content + spec_u64_to_le_bytes(
        v.embedding.len() as u64,
    ) + coord_bytes_spec(v.embedding)
}

/// Parses record bytes; rejects wrong framing, an embedding longer than the
/// engine supports, and out-of-range coordinates, so every parsed record is
/// well-formed.
pub open spec fn parse_entry_spec(s: Seq<u8>) -> Option<RecordView> {
    if s.len() >= 16 {
        let clen = spec_u64_from_le_bytes(s.subrange(0, 8)) as int;
        if 16 + clen <= s.len() {
            let ncoords = spec_u64_from_le_bytes(s.subrange(8 + clen, 16 + clen)) as int;
            let coords_bytes = s.subrange(16 + clen, s.len() as int);
            if s.len() == 16 + clen + 8 * ncoords && ncoords <= MAX_DIMS && (forall|i: int|
                0 <= i < ncoords ==> #[trigger] spec_u64_from_le_bytes(
                    coords_bytes.subrange(8 * i, 8 * i + 8),
                ) <= 2 * COORD_LIMIT) {
                Some(
                    RecordView {
                        content: s.subrange(8, 8 + clen),
                        embedding: Seq::new(
                            ncoords as nat,
                            |i: int|
                                (spec_u64_from_le_bytes(coords_bytes.subrange(8 * i, 8 * i + 8))
                                    - COORD_LIMIT) as i64,
                        ),
                    },
                )
            } else {
                None
            }
        } else {
            None
        }
    } else {
        None
    }
}

/// Encoding a well-formed record and parsing the bytes gives the record
/// back: a record survives a store and reload cycle unchanged.
pub proof fn lemma_entry_round_trip(v: RecordView)
    requires
        coords_ok(v.embedding),
        v.content.len() <= u64::MAX,
    ensures
        parse_entry_spec(entry_bytes_spec(v)) == Some(v),
{
    lemma_auto_spec_u64_to_from_le_bytes();
    lemma_coord_bytes_len(v.embedding);
    let s = entry_bytes_spec(v);
    let clen = v.content.len() as int;
    let n = v.embedding.len() as int;
    assert(s.len() == 16 + clen + 8 * n);
    assert(s.subrange(0, 8) =~= spec_u64_to_le_bytes(v.content.len() as u64));
    assert(s.subrange(8, 8 + clen) =~= v.content);
    assert(s.subrange(8 + clen, 16 + clen) =~= spec_u64_to_le_bytes(v.embedding.len() as u64));
    let cb = s.subrange(16 + clen, s.len() as int);
    assert(cb =~= coord_bytes_spec(v.embedding));
    assert forall|i: int| 0 <= i < n implies #[trigger] spec_u64_from_le_bytes(
        cb.subrange(8 * i, 8 * i + 8),
    ) <= 2 * COORD_LIMIT by {
        lemma_coord_bytes_index(v.embedding, i);
        assert(cb.subrange(8 * i, 8 * i + 8) =~= spec_u64_to_le_bytes(
            (v.embedding[i] + COORD_LIMIT) as u64,
        ));
    }
    let parsed = parse_entry_spec(s)->Some_0;
    assert forall|i: int| 0 <= i < n implies parsed.embedding[i] == v.embedding[i] by {
        lemma_coord_bytes_index(v.embedding, i);
        assert(cb.subrange(8 * i, 8 * i + 8) =~= spec_u64_to_le_bytes(
            (v.embedding[i] + COORD_LIMIT) as u64,
        ));
    }
    assert(parsed.embedding =~= v.embedding);
    assert(parsed.content =~= v.content);
    assert(parsed =~= v);
}

impl DBEntry {
    /// The record's persisted bytes.
    pub fn encode(&self) -> (r: Vec<u8>)
        requires
            coords_ok(self@.embedding),
        ensures
            r@ == entry_bytes_spec(self@),
    {
        let mut out = u64_to_le_bytes(self.content.len() as u64);
        out.extend_from_slice(self.content.as_slice());
        let coords = self.embedding.as_coords();
        let mut tail = u64_to_le_bytes(coords.len() as u64);
        out.append(&mut tail);
        let mut i: usize = 0;
        let ghost before = out@;
        proof {
            assert(coord_bytes_spec(self@.embedding.take(0)) =~= Seq::<u8>::empty());
            assert(out@ =~= before + coord_bytes_spec(self@.embedding.take(0)));
        }
        while i < coords.len()
            invariant
                i <= coords@.len(),
                coords@ == self@.embedding,
                out@ == before + coord_bytes_spec(self@.embedding.take(i as int)),
                forall|j: int|
                    0 <= j < coords@.len() ==> -COORD_LIMIT <= #[trigger] coords@[j] <= COORD_LIMIT,
            decreases coords@.len() - i,
        {
            let shifted: u64 = (coords[i] + COORD_LIMIT) as u64;
            let mut wb = u64_to_le_bytes(shifted);
            out.append(&mut wb);
            proof {
                assert(self@.embedding.take(i + 1).drop_last() =~= self@.embedding.take(i as int));
                assert(self@.embedding.take(i + 1).last() == self@.embedding[i as int]);
                assert(out@ =~= before + coord_bytes_spec(self@.embedding.take(i + 1)));
            }
            i += 1;
        }
        proof {
            assert(self@.embedding.take(coords@.len() as int) =~= self@.embedding);
            assert(out@ =~= entry_bytes_spec(self@));
        }
        out
    }

    /// Recovers a record from its persisted bytes; rejects anything that is
    /// not the encoding of a well-formed record.
    pub fn decode(bytes: &[u8]) -> (r: Option<DBEntry>)
        ensures
            match r {
                Option::Some(e) => parse_entry_spec(bytes@) == Some(e@) && coords_ok(e@.embedding),
                Option::None => parse_entry_spec(bytes@) is None,
            },
    {
        let total = bytes.len();
        if total < 16 {
            return None;
        }
        let clen64 = u64_from_le_bytes(slice_subrange(bytes, 0, 8));
        if clen64 > (total - 16) as u64 {
            proof {
                if parse_entry_spec(bytes@) is Some {
                    assert(16 + clen64 <= total);
                }
            }
            return None;
        }
        let clen = clen64 as usize;
        let content = vstd::slice::slice_to_vec(slice_subrange(bytes, 8, 8 + clen));
        let n64 = u64_from_le_bytes(slice_subrange(bytes, 8 + clen, 16 + clen));
        let ghost clen_i = clen as int;
        let rest = total - 16 - clen;
        if n64 > (MAX_DIMS as u64) || rest as u64 != 8 * n64 {
            proof {
                if parse_entry_spec(bytes@) is Some {
                    let nc = spec_u64_from_le_bytes(bytes@.subrange(8 + clen_i, 16 + clen_i)) as int;
                    assert(bytes@.len() == 16 + clen_i + 8 * nc && nc <= MAX_DIMS);
                }
            }
            return None;
        }
        let n = n64 as usize;
        let ghost coords_bytes = bytes@.subrange(16 + clen_i, total as int);
        let mut coords: Vec<i64> = Vec::new();
        let mut i: usize = 0;
        while i < n
            invariant
                i <= n,
                n <= MAX_DIMS,
                total == bytes@.len(),
                16 + clen_i + 8 * n == total,
                0 <= clen_i,
                clen_i == clen as int,
                clen_i == spec_u64_from_le_bytes(bytes@.subrange(0, 8)) as int,
                n == spec_u64_from_le_bytes(bytes@.subrange(8 + clen_i, 16 + clen_i)) as int,
                coords_bytes == bytes@.subrange(16 + clen_i, total as int),
                coords@.len() == i,
                forall|j: int|
                    0 <= j < i ==> #[trigger] spec_u64_from_le_bytes(
                        coords_bytes.subrange(8 * j, 8 * j + 8),
                    ) <= 2 * COORD_LIMIT && coords@[j] == (spec_u64_from_le_bytes(
                        coords_bytes.subrange(8 * j, 8 * j + 8),
                    ) - COORD_LIMIT) as i64,
            decreases n - i,
        {
            let off = 16 + clen + 8 * i;
            let w = u64_from_le_bytes(slice_subrange(bytes, off, off + 8));
            proof {
                assert(bytes@.subrange(off as int, off as int + 8) =~= coords_bytes.subrange(
                    8 * i as int,
                    8 * i as int + 8,
                ));
            }
            if w > 2 * COORD_LIMIT as u64 {
                proof {
                    if parse_entry_spec(bytes@) is Some {
                        assert(spec_u64_from_le_bytes(coords_bytes.subrange(8 * i as int, 8 * i as int + 8))
                            <= 2 * COORD_LIMIT);
                    }
                }
                return None;
            }
            coords.push((w as i64) - COORD_LIMIT);
            i += 1;
        }
        proof {
            assert forall|j: int|
                0 <= j < coords@.len() implies -COORD_LIMIT <= #[trigger] coords@[j]
                <= COORD_LIMIT by {
                assert(spec_u64_from_le_bytes(coords_bytes.subrange(8 * j, 8 * j + 8)) <= 2
                    * COORD_LIMIT);
            }
            assert(coords_ok(coords@));
        }
        let embedding = match Embedding::new(coords) {
            Ok(e) => e,
            Err(_) => {
                // Provably unreachable: every parsed coordinate is in range.
                proof {
                    assert(false);
                }
                return None;
            },
        };
        let entry = DBEntry { content, embedding };
        proof {
            let parsed = parse_entry_spec(bytes@)->Some_0;
            assert(entry@.content =~= parsed.content);
            assert(entry@.embedding =~= parsed.embedding);
            assert(entry@ =~= parsed);
        }
        Some(entry)
    }
}

} // verus!
