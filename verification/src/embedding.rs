//! Fixed-point embeddings and the embedding oracle capability.
use vstd::prelude::*;
use crate::StoreError;

verus! {

/// Dimensionality used by the default configuration and the test oracle.
pub const DEFAULT_DIMS: usize = 384;

/// Largest embedding length the engine accepts.
pub const MAX_DIMS: usize = 4096;

/// Bound on the magnitude of one fixed-point coordinate. A coordinate counts
/// thousandths, so this admits values up to 1000.0; together with `MAX_DIMS`
/// it keeps every distance and similarity computation inside `u64`/`i64`.
pub const COORD_LIMIT: i64 = 1_000_000;

/// The coordinates a well-formed embedding may hold: bounded length and
/// bounded magnitude per coordinate.
pub open spec fn coords_ok(s: Seq<i64>) -> bool {
    &&& s.len() <= MAX_DIMS
    &&& forall|i: int|
        0 <= i < s.len() ==> -COORD_LIMIT <= #[trigger] s[i] <= COORD_LIMIT
}

/// A fixed-length vector of fixed-point coordinates, each counting
/// thousandths of the represented value. The application quantizes a model's
/// floating-point output into this form before it reaches the engine.
#[derive(Debug)]
pub struct Embedding {
    coords: Vec<i64>,
}

impl View for Embedding {
    type V = Seq<i64>;

    closed spec fn view(&self) -> Seq<i64> {
        self.coords@
    }
}

impl Embedding {
    /// Every embedding the constructors hand out satisfies this.
    pub open spec fn wf(&self) -> bool {
        coords_ok(self@)
    }

    /// Wraps raw coordinates, accepting exactly the well-formed ones.
    pub fn new(coords: Vec<i64>) -> (r: Result<Embedding, StoreError>)
        ensures
            coords_ok(coords@) <==> r is Ok,
            r matches Ok(e) ==> e@ == coords@ && e.wf(),
            r is Err ==> r == Result::<Embedding, StoreError>::Err(StoreError::InvalidEmbedding),
    {
        if coords.len() > MAX_DIMS {
            return Err(StoreError::InvalidEmbedding);
        }
        let mut i: usize = 0;
        while i < coords.len()
            invariant
                i <= coords@.len(),
                forall|j: int|
                    0 <= j < i ==> -COORD_LIMIT <= #[trigger] coords@[j] <= COORD_LIMIT,
            decreases coords@.len() - i,
        {
            let c = coords[i];
            if c < -COORD_LIMIT || c > COORD_LIMIT {
                return Err(StoreError::InvalidEmbedding);
            }
            i += 1;
        }
        Ok(Embedding { coords })
    }

    /// An embedding with the same value in every coordinate.
    pub fn constant(value: i64, dims: usize) -> (r: Embedding)
        requires
            -COORD_LIMIT <= value <= COORD_LIMIT,
            dims <= MAX_DIMS,
        ensures
            r@ == Seq::new(dims as nat, |i: int| value),
            r.wf(),
    {
        let coords: Vec<i64> = vec![value; dims];
        proof {
            assert(coords@ =~= Seq::new(dims as nat, |i: int| value));
        }
        Embedding { coords }
    }

    /// Number of coordinates.
    pub fn len(&self) -> (r: usize)
        ensures
            r == self@.len(),
    {
        self.coords.len()
    }

    /// One coordinate.
    pub fn coord(&self, i: usize) -> (r: i64)
        requires
            i < self@.len(),
        ensures
            r == self@[i as int],
    {
        self.coords[i]
    }

    /// The raw coordinates.
    pub fn as_coords(&self) -> (r: &Vec<i64>)
        ensures
            r@ == self@,
    {
        &self.coords
    }

    /// An independent copy with the same coordinates.
    pub fn duplicate(&self) -> (r: Embedding)
        ensures
            r@ == self@,
    {
        let mut coords: Vec<i64> = Vec::new();
        let mut i: usize = 0;
        while i < self.coords.len()
            invariant
                i <= self.coords@.len(),
                coords@ =~= self.coords@.subrange(0, i as int),
            decreases self.coords@.len() - i,
        {
            coords.push(self.coords[i]);
            i += 1;
        }
        proof {
            assert(coords@ =~= self.coords@);
        }
        Embedding { coords }
    }
}

/// The embedding oracle: maps a content byte-string to a fixed-length
/// embedding. From the engine's perspective this is a pure function; each
/// implementation fixes its function as `embedding_spec` and must return
/// exactly that, well-formed.
pub trait Embeddable {
    /// The function this oracle computes.
    spec fn embedding_spec(&self, content: Seq<u8>) -> Seq<i64>;

    /// Every embedding the oracle yields is well-formed.
    proof fn embedding_spec_ok(&self, content: Seq<u8>)
        ensures
            coords_ok(self.embedding_spec(content)),
    ;

    /// Computes the embedding of a content byte-string.
    fn to_embedding(&self, content: Vec<u8>) -> (r: Embedding)
        ensures
            r@ == self.embedding_spec(content@),
            r.wf(),
    ;
}

/// Deterministic test oracle: content starting with `$` maps to a constant
/// vector of magnitude 100.0 (a deliberate outlier), anything else to the
/// zero vector, both of the default dimensionality.
pub struct DummyEmbedding;

/// The outlier coordinate value of [`DummyEmbedding`]: 100.0 in thousandths.
pub const OUTLIER_COORD: i64 = 100_000;

impl Default for DummyEmbedding {
    fn default() -> (r: DummyEmbedding)
        ensures
            r == DummyEmbedding,
    {
        DummyEmbedding
    }
}

impl Embeddable for DummyEmbedding {
    open spec fn embedding_spec(&self, content: Seq<u8>) -> Seq<i64> {
        if content.len() > 0 && content[0] == 36u8 {
            Seq::new(DEFAULT_DIMS as nat, |i: int| OUTLIER_COORD)
        } else {
            Seq::new(DEFAULT_DIMS as nat, |i: int| 0i64)
        }
    }

    proof fn embedding_spec_ok(&self, content: Seq<u8>) {
    }

    fn to_embedding(&self, content: Vec<u8>) -> (r: Embedding)
    {
        if content.len() > 0 && content[0] == 36u8 {
            Embedding::constant(OUTLIER_COORD, DEFAULT_DIMS)
        } else {
            Embedding::constant(0, DEFAULT_DIMS)
        }
    }
}

} // verus!
