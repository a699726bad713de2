//! The proof protocol: receipts that attest to a similarity computation.
//!
//! A receipt is a versioned byte blob bundling a program identity, the
//! public journal of the similarity program (the matched flag and the
//! similarity in thousandths), and a commitment that binds the journal to
//! the program identity. A verifier checks the receipt against the program
//! identity it expects and recovers the journal without re-running the
//! computation.
use vstd::prelude::*;
use vstd::bytes::{
    lemma_auto_spec_u32_to_from_le_bytes, lemma_auto_spec_u64_to_from_le_bytes,
    spec_u32_from_le_bytes, spec_u32_to_le_bytes, spec_u64_from_le_bytes, spec_u64_to_le_bytes,
    u32_from_le_bytes, u32_to_le_bytes, u64_from_le_bytes, u64_to_le_bytes,
};
use vstd::slice::{slice_index_get, slice_subrange, slice_to_vec};
use vstd::string::StringSliceAdditionalSpecFns;
use crate::embedding::Embedding;
use crate::metric::norm_sq_spec;
use crate::simcheck::{matched_spec, similarity_check, similarity_milli_spec};
use crate::{ProveError, VerifyError};

verus! {

/// Number of 32-bit words in a program identity.
pub const PROGRAM_ID_WORDS: usize = 8;

/// What `blake3::hash` returns for a given byte string: a pure function of
/// the input alone. Nothing more is assumed of it; in particular the library
/// never claims that distinct inputs give distinct digests.
pub uninterp spec fn blake3_hash(input: Seq<u8>) -> Seq<u8>;

/// Relies on `blake3::hash`: the digest of a byte string is 32 bytes and
/// depends on the input bytes alone.
#[verifier::external_body]
fn blake3_digest(input: &[u8]) -> (r: [u8; 32])
    ensures
        r@ == blake3_hash(input@),
{
    *blake3::hash(input).as_bytes()
}

/// A content-addressed key: the 32-byte digest of the content.
pub fn new_key(content: &str) -> (r: [u8; 32])
    ensures
        r@ == blake3_hash(content.spec_bytes()),
{
    blake3_digest(content.as_bytes())
}

/// Identity of one exact compiled similarity program, as a fixed-size array
/// of 32-bit words. A receipt is bound to the identity it was produced
/// under; recompiling the program changes the identity and invalidates old
/// receipts against the new verifier.
#[derive(Clone, Copy, Debug)]
pub struct ProgramId {
    words: [u32; PROGRAM_ID_WORDS],
}

impl View for ProgramId {
    type V = Seq<u32>;

    closed spec fn view(&self) -> Seq<u32> {
        self.words@
    }
}

impl ProgramId {
    /// Wraps the raw identity words.
    pub fn from_words(words: [u32; PROGRAM_ID_WORDS]) -> (r: ProgramId)
        ensures
            r@ == words@,
    {
        ProgramId { words }
    }

    /// One identity word.
    pub fn word(&self, i: usize) -> (r: u32)
        requires
            i < PROGRAM_ID_WORDS,
        ensures
            r == self@[i as int],
    {
        self.words[i]
    }

    /// Whether two identities are the same program.
    pub fn matches(&self, other: &ProgramId) -> (r: bool)
        ensures
            r == (self@ =~= other@),
    {
        let mut i: usize = 0;
        while i < PROGRAM_ID_WORDS
            invariant
                i <= PROGRAM_ID_WORDS,
                self@.len() == PROGRAM_ID_WORDS,
                other@.len() == PROGRAM_ID_WORDS,
                forall|j: int| 0 <= j < i ==> self@[j] == other@[j],
            decreases PROGRAM_ID_WORDS - i,
        {
            if self.words[i] != other.words[i] {
                return false;
            }
            i += 1;
        }
        true
    }
}

/// The public journal a similarity proof commits: whether the similarity
/// exceeded the threshold, and the similarity itself in thousandths.
#[derive(Clone, Copy, Debug, PartialEq, Eq, Structural)]
pub struct Journal {
    pub matched: bool,
    pub similarity_milli: i64,
}

/// Journals the codec can carry: sign-magnitude needs the magnitude of the
/// similarity to be representable.
pub open spec fn journal_wf(j: Journal) -> bool {
    j.similarity_milli != i64::MIN
}

/// The 10-byte encoding of a journal: matched flag, sign flag, magnitude.
pub open spec fn journal_bytes_spec(j: Journal) -> Seq<u8> {
    let flag: u8 = if j.matched {
        1u8
    } else {
        0u8
    };
    let sign: u8 = if j.similarity_milli < 0 {
        1u8
    } else {
        0u8
    };
    let mag: u64 = if j.similarity_milli < 0 {
        (-(j.similarity_milli as int)) as u64
    } else {
        j.similarity_milli as u64
    };
    seq![flag, sign] + spec_u64_to_le_bytes(mag)
}

/// Parses 10 bytes as a journal; rejects non-canonical flag bytes, a
/// negative zero, and magnitudes outside `i64`.
pub open spec fn parse_journal_spec(s: Seq<u8>) -> Option<Journal>
    recommends
        s.len() == 10,
{
    let flag = s[0];
    let sign = s[1];
    let mag = spec_u64_from_le_bytes(s.subrange(2, 10));
    if flag <= 1 && sign <= 1 && mag <= i64::MAX as u64 && !(sign == 1 && mag == 0) {
        Some(
            Journal {
                matched: flag == 1,
                similarity_milli: if sign == 1 {
                    (-(mag as int)) as i64
                } else {
                    mag as i64
                },
            },
        )
    } else {
        None
    }
}

/// Encoding then parsing a journal gives it back.
pub proof fn lemma_journal_round_trip(j: Journal)
    requires
        journal_wf(j),
    ensures
        journal_bytes_spec(j).len() == 10,
        parse_journal_spec(journal_bytes_spec(j)) == Some(j),
{
    lemma_auto_spec_u64_to_from_le_bytes();
    let s = journal_bytes_spec(j);
    let mag: u64 = if j.similarity_milli < 0 {
        (-(j.similarity_milli as int)) as u64
    } else {
        j.similarity_milli as u64
    };
    assert(s.subrange(2, 10) =~= spec_u64_to_le_bytes(mag));
}

/// The 32-byte little-endian encoding of the identity words, least index
/// first.
pub open spec fn pid_bytes_spec(ws: Seq<u32>) -> Seq<u8>
    decreases ws.len(),
{
    if ws.len() == 0 {
        Seq::empty()
    } else {
        pid_bytes_spec(ws.drop_last()) + spec_u32_to_le_bytes(ws.last())
    }
}

pub proof fn lemma_pid_bytes_len(ws: Seq<u32>)
    ensures
        pid_bytes_spec(ws).len() == 4 * ws.len(),
    decreases ws.len(),
{
    lemma_auto_spec_u32_to_from_le_bytes();
    if ws.len() > 0 {
        lemma_pid_bytes_len(ws.drop_last());
    }
}

/// Each identity word sits at its fixed offset of the encoding.
pub proof fn lemma_pid_bytes_index(ws: Seq<u32>, i: int)
    requires
        0 <= i < ws.len(),
    ensures
        pid_bytes_spec(ws).subrange(4 * i, 4 * i + 4) =~= spec_u32_to_le_bytes(ws[i]),
    decreases ws.len(),
{
    lemma_auto_spec_u32_to_from_le_bytes();
    lemma_pid_bytes_len(ws);
    lemma_pid_bytes_len(ws.drop_last());
    if i == ws.len() - 1 {
        assert(pid_bytes_spec(ws).subrange(4 * i, 4 * i + 4) =~= spec_u32_to_le_bytes(ws.last()));
    } else {
        lemma_pid_bytes_index(ws.drop_last(), i);
        assert(pid_bytes_spec(ws).subrange(4 * i, 4 * i + 4) =~= pid_bytes_spec(
            ws.drop_last(),
        ).subrange(4 * i, 4 * i + 4));
    }
}

/// Parses 32 bytes as eight identity words.
pub open spec fn parse_pid_spec(s: Seq<u8>) -> Seq<u32>
    recommends
        s.len() == 32,
{
    Seq::new(
        PROGRAM_ID_WORDS as nat,
        |i: int| spec_u32_from_le_bytes(s.subrange(4 * i, 4 * i + 4)),
    )
}

/// Encoding then parsing an eight-word identity gives it back.
pub proof fn lemma_pid_round_trip(ws: Seq<u32>)
    requires
        ws.len() == PROGRAM_ID_WORDS,
    ensures
        pid_bytes_spec(ws).len() == 32,
        parse_pid_spec(pid_bytes_spec(ws)) =~= ws,
    decreases ws.len(),
{
    lemma_auto_spec_u32_to_from_le_bytes();
    lemma_pid_bytes_len(ws);
    assert forall|i: int| 0 <= i < ws.len() implies parse_pid_spec(pid_bytes_spec(ws))[i]
        == ws[i] by {
        lemma_pid_bytes_index(ws, i);
    }
}

/// Parsing 32 bytes and re-encoding the words gives the bytes back: the
/// identity encoding is canonical.
pub proof fn lemma_pid_bytes_canonical(s: Seq<u8>)
    requires
        s.len() == 32,
    ensures
        pid_bytes_spec(parse_pid_spec(s)) =~= s,
{
    lemma_auto_spec_u32_to_from_le_bytes();
    let ws = parse_pid_spec(s);
    lemma_pid_bytes_len(ws);
    assert forall|k: int| 0 <= k < 32 implies pid_bytes_spec(ws)[k] == s[k] by {
        let i = k / 4;
        assert(0 <= i < 8 && 4 * i <= k < 4 * i + 4);
        lemma_pid_bytes_index(ws, i);
        assert(spec_u32_to_le_bytes(spec_u32_from_le_bytes(s.subrange(4 * i, 4 * i + 4)))
            == s.subrange(4 * i, 4 * i + 4));
        assert(pid_bytes_spec(ws)[k] == pid_bytes_spec(ws).subrange(4 * i, 4 * i + 4)[k - 4 * i]);
        assert(s.subrange(4 * i, 4 * i + 4)[k - 4 * i] == s[k]);
    }
}

/// Parsing 10 bytes as a journal and re-encoding it gives the bytes back:
/// the parser accepts only the canonical encoding.
pub proof fn lemma_journal_bytes_canonical(s: Seq<u8>)
    requires
        s.len() == 10,
        parse_journal_spec(s) is Some,
    ensures
        journal_bytes_spec(parse_journal_spec(s)->Some_0) =~= s,
        journal_wf(parse_journal_spec(s)->Some_0),
{
    lemma_auto_spec_u64_to_from_le_bytes();
    let j = parse_journal_spec(s)->Some_0;
    let mag = spec_u64_from_le_bytes(s.subrange(2, 10));
    assert(spec_u64_to_le_bytes(mag) == s.subrange(2, 10));
    let mag2: u64 = if j.similarity_milli < 0 {
        (-(j.similarity_milli as int)) as u64
    } else {
        j.similarity_milli as u64
    };
    assert(mag2 == mag);
    assert forall|k: int| 0 <= k < 10 implies journal_bytes_spec(j)[k] == s[k] by {
        if k >= 2 {
            assert(journal_bytes_spec(j)[k] == spec_u64_to_le_bytes(mag2)[k - 2]);
            assert(s[k] == s.subrange(2, 10)[k - 2]);
        }
    }
}

/// The version tag that opens every receipt.
pub open spec fn receipt_magic() -> Seq<u8> {
    seq![118u8, 115u8, 114u8, 49u8]
}

/// Total length of an encoded receipt: tag, identity, journal, commitment.
pub const RECEIPT_LEN: usize = 78;

/// The bytes a receipt's commitment is computed over: the program identity
/// followed by the journal.
pub open spec fn commit_message_spec(pid: Seq<u32>, j: Journal) -> Seq<u8> {
    pid_bytes_spec(pid) + journal_bytes_spec(j)
}

/// The encoded receipt: version tag, program identity, journal, commitment.
pub open spec fn receipt_bytes_spec(pid: Seq<u32>, j: Journal, seal: Seq<u8>) -> Seq<u8> {
    receipt_magic() + pid_bytes_spec(pid) + journal_bytes_spec(j) + seal
}

/// Parses receipt bytes into identity words, journal and commitment;
/// rejects anything of the wrong length, tag, or journal shape.
pub open spec fn parse_receipt_spec(s: Seq<u8>) -> Option<(Seq<u32>, Journal, Seq<u8>)> {
    if s.len() == RECEIPT_LEN && s.subrange(0, 4) =~= receipt_magic() {
        match parse_journal_spec(s.subrange(36, 46)) {
            Some(j) => Some((parse_pid_spec(s.subrange(4, 36)), j, s.subrange(46, 78))),
            None => None,
        }
    } else {
        None
    }
}

/// Encoding then parsing a receipt gives back its parts.
pub proof fn lemma_receipt_round_trip(pid: Seq<u32>, j: Journal, seal: Seq<u8>)
    requires
        pid.len() == PROGRAM_ID_WORDS,
        journal_wf(j),
        seal.len() == 32,
    ensures
        receipt_bytes_spec(pid, j, seal).len() == RECEIPT_LEN,
        parse_receipt_spec(receipt_bytes_spec(pid, j, seal)) matches Some(t) && t.0 =~= pid && t.1
            == j && t.2 =~= seal,
{
    lemma_pid_bytes_len(pid);
    lemma_journal_round_trip(j);
    lemma_pid_round_trip(pid);
    let s = receipt_bytes_spec(pid, j, seal);
    assert(s.subrange(0, 4) =~= receipt_magic());
    assert(s.subrange(4, 36) =~= pid_bytes_spec(pid));
    assert(s.subrange(36, 46) =~= journal_bytes_spec(j));
    assert(s.subrange(46, 78) =~= seal);
}

/// A parsed receipt re-encodes to the bytes it came from; in particular the
/// commitment of a parsed receipt is computed over exactly the identity and
/// journal bytes it carries.
pub proof fn lemma_parse_receipt_canonical(s: Seq<u8>)
    requires
        parse_receipt_spec(s) is Some,
    ensures
        commit_message_spec(parse_receipt_spec(s)->Some_0.0, parse_receipt_spec(s)->Some_0.1)
            =~= s.subrange(4, 46),
        parse_receipt_spec(s)->Some_0.0.len() == PROGRAM_ID_WORDS,
        parse_receipt_spec(s)->Some_0.2.len() == 32,
        journal_wf(parse_receipt_spec(s)->Some_0.1),
{
    let t = parse_receipt_spec(s)->Some_0;
    lemma_pid_bytes_canonical(s.subrange(4, 36));
    lemma_journal_bytes_canonical(s.subrange(36, 46));
    lemma_pid_bytes_len(t.0);
    assert forall|k: int| 0 <= k < 42 implies commit_message_spec(t.0, t.1)[k] == s.subrange(
        4,
        46,
    )[k] by {
        if k < 32 {
            assert(commit_message_spec(t.0, t.1)[k] == pid_bytes_spec(t.0)[k]);
            assert(pid_bytes_spec(t.0)[k] == s.subrange(4, 36)[k]);
        } else {
            assert(commit_message_spec(t.0, t.1)[k] == journal_bytes_spec(t.1)[k - 32]);
            assert(journal_bytes_spec(t.1)[k - 32] == s.subrange(36, 46)[k - 32]);
        }
    }
}

/// What the verifier decides for given receipt bytes and expected identity:
/// the journal on a well-bound receipt, a typed rejection otherwise.
pub open spec fn verify_spec(s: Seq<u8>, expected: Seq<u32>) -> Result<(bool, i64), VerifyError> {
    match parse_receipt_spec(s) {
        Option::None => Err(VerifyError::MalformedReceipt),
        Option::Some(t) => {
            if t.0 != expected {
                Err(VerifyError::ProgramIdMismatch)
            } else if t.2 != blake3_hash(commit_message_spec(t.0, t.1)) {
                Err(VerifyError::InvalidProof)
            } else {
                Ok((t.1.matched, t.1.similarity_milli))
            }
        },
    }
}

fn encode_pid(pid: &ProgramId) -> (r: Vec<u8>)
    ensures
        r@ == pid_bytes_spec(pid@),
{
    let mut out: Vec<u8> = Vec::new();
    let mut i: usize = 0;
    proof {
        assert(pid@.take(0) =~= Seq::<u32>::empty());
        assert(out@ =~= pid_bytes_spec(pid@.take(0)));
    }
    while i < PROGRAM_ID_WORDS
        invariant
            i <= PROGRAM_ID_WORDS,
            pid@.len() == PROGRAM_ID_WORDS,
            out@ == pid_bytes_spec(pid@.take(i as int)),
        decreases PROGRAM_ID_WORDS - i,
    {
        let wb = u32_to_le_bytes(pid.word(i));
        let mut wb = wb;
        out.append(&mut wb);
        proof {
            assert(pid@.take(i + 1).drop_last() =~= pid@.take(i as int));
            assert(pid@.take(i + 1).last() == pid@[i as int]);
            assert(out@ =~= pid_bytes_spec(pid@.take(i + 1)));
        }
        i += 1;
    }
    proof {
        assert(pid@.take(PROGRAM_ID_WORDS as int) =~= pid@);
    }
    out
}

fn encode_journal(j: &Journal) -> (r: Vec<u8>)
    requires
        journal_wf(*j),
    ensures
        r@ == journal_bytes_spec(*j),
{
    let mut out: Vec<u8> = Vec::new();
    out.push(if j.matched {
        1u8
    } else {
        0u8
    });
    out.push(if j.similarity_milli < 0 {
        1u8
    } else {
        0u8
    });
    let mag: u64 = if j.similarity_milli < 0 {
        (-j.similarity_milli) as u64
    } else {
        j.similarity_milli as u64
    };
    let mut mb = u64_to_le_bytes(mag);
    out.append(&mut mb);
    proof {
        assert(out@ =~= journal_bytes_spec(*j));
    }
    out
}

/// Produces a receipt attesting that the similarity program ran on the two
/// embeddings under the given program identity: the encoded bundle of that
/// identity, the program's public journal, and a commitment binding the two.
///
/// Succeeds exactly where the similarity program is defined: equal-length
/// embeddings with nonzero norms. Proving writes nothing: an aborted attempt
/// cannot corrupt any store.
pub fn prove(program_id: &ProgramId, a: &Embedding, b: &Embedding) -> (r: Result<
    Vec<u8>,
    ProveError,
>)
    requires
        a.wf(),
        b.wf(),
    ensures
        r is Ok <==> (a@.len() == b@.len() && norm_sq_spec(a@) > 0 && norm_sq_spec(b@) > 0),
        r matches Ok(bytes) ==> (parse_receipt_spec(bytes@) matches Some(t) && t.0 == program_id@
            && t.1.matched == matched_spec(a@, b@) && t.1.similarity_milli as int
            == similarity_milli_spec(a@, b@) && t.2 == blake3_hash(commit_message_spec(t.0, t.1))),
        r == Err::<Vec<u8>, ProveError>(ProveError::DimensionMismatch) <==> a@.len() != b@.len(),
        r == Err::<Vec<u8>, ProveError>(ProveError::ZeroNorm) <==> (a@.len() == b@.len() && (
        norm_sq_spec(a@) == 0 || norm_sq_spec(b@) == 0)),
{
    let (matched, milli) = match similarity_check(a, b) {
        Ok(p) => p,
        Err(e) => {
            return Err(e);
        },
    };
    let journal = Journal { matched, similarity_milli: milli };
    let pid_b = encode_pid(program_id);
    let journal_b = encode_journal(&journal);
    let mut msg: Vec<u8> = Vec::new();
    msg.extend_from_slice(pid_b.as_slice());
    msg.extend_from_slice(journal_b.as_slice());
    proof {
        assert(msg@ =~= commit_message_spec(program_id@, journal));
    }
    let digest = blake3_digest(msg.as_slice());

    let mut out: Vec<u8> = Vec::new();
    out.push(118u8);
    out.push(115u8);
    out.push(114u8);
    out.push(49u8);
    let mut pid_b = pid_b;
    out.append(&mut pid_b);
    let mut journal_b = journal_b;
    out.append(&mut journal_b);
    let mut k: usize = 0;
    let ghost before_seal = out@;
    while k < 32
        invariant
            k <= 32,
            digest@.len() == 32,
            out@ == before_seal + digest@.take(k as int),
        decreases 32 - k,
    {
        out.push(digest[k]);
        proof {
            assert(before_seal + digest@.take(k + 1) =~= (before_seal + digest@.take(
                k as int,
            )).push(digest@[k as int]));
        }
        k += 1;
    }
    proof {
        assert(digest@.take(32) =~= digest@);
        assert(out@ =~= receipt_bytes_spec(program_id@, journal, digest@));
        lemma_receipt_round_trip(program_id@, journal, digest@);
        assert(parse_receipt_spec(out@)->Some_0.0 =~= program_id@);
    }
    Ok(out)
}

/// Checks a receipt against the program identity the caller expects and, on
/// success, returns the journal it carries: the matched flag and the
/// similarity in thousandths.
///
/// Never panics, whatever the bytes hold: every failure is a typed
/// rejection. A receipt bound to a different program identity is rejected
/// whatever else it contains.
pub fn verify_receipt(receipt_bytes: &[u8], expected: &ProgramId) -> (r: Result<
    (bool, i64),
    VerifyError,
>)
    ensures
        r == verify_spec(receipt_bytes@, expected@),
{
    if receipt_bytes.len() != RECEIPT_LEN {
        return Err(VerifyError::MalformedReceipt);
    }
    let s = receipt_bytes;
    // Version tag.
    let b0 = *slice_index_get(s, 0);
    let b1 = *slice_index_get(s, 1);
    let b2 = *slice_index_get(s, 2);
    let b3 = *slice_index_get(s, 3);
    if b0 != 118 || b1 != 115 || b2 != 114 || b3 != 49 {
        proof {
            assert(!(s@.subrange(0, 4) =~= receipt_magic()));
        }
        return Err(VerifyError::MalformedReceipt);
    }
    proof {
        assert(s@.subrange(0, 4) =~= receipt_magic());
    }
    // Journal.
    let ghost sj = s@.subrange(36, 46);
    let flag = *slice_index_get(s, 36);
    let sign = *slice_index_get(s, 37);
    let mag = u64_from_le_bytes(slice_subrange(s, 38, 46));
    proof {
        assert(sj[0] == s@[36] && sj[1] == s@[37]);
        assert(s@.subrange(38, 46) =~= sj.subrange(2, 10));
    }
    if flag > 1 || sign > 1 || mag > 0x7fff_ffff_ffff_ffffu64 || (sign == 1 && mag == 0) {
        proof {
            assert(parse_journal_spec(sj) is None);
        }
        return Err(VerifyError::MalformedReceipt);
    }
    let milli: i64 = if sign == 1 {
        -(mag as i64)
    } else {
        mag as i64
    };
    let journal_matched: bool = flag == 1;
    proof {
        assert(parse_receipt_spec(s@) is Some);
    }
    let ghost t = parse_receipt_spec(s@)->Some_0;
    proof {
        assert(t.1 == parse_journal_spec(sj)->Some_0);
        assert(t.1.matched == journal_matched);
        assert(t.1.similarity_milli == milli);
    }
    // Program identity.
    let mut i: usize = 0;
    while i < PROGRAM_ID_WORDS
        invariant
            i <= PROGRAM_ID_WORDS,
            s == receipt_bytes,
            s@.len() == RECEIPT_LEN,
            expected@.len() == PROGRAM_ID_WORDS,
            parse_receipt_spec(s@) is Some,
            t == parse_receipt_spec(s@)->Some_0,
            forall|j: int| 0 <= j < i ==> t.0[j] == expected@[j],
        decreases PROGRAM_ID_WORDS - i,
    {
        let off: usize = 4 + 4 * i;
        let w = u32_from_le_bytes(slice_subrange(s, off, off + 4));
        proof {
            assert(s@.subrange(off as int, off as int + 4) =~= s@.subrange(4, 36).subrange(
                4 * i as int,
                4 * i as int + 4,
            ));
            assert(t.0[i as int] == spec_u32_from_le_bytes(
                s@.subrange(4, 36).subrange(4 * i as int, 4 * i as int + 4),
            ));
        }
        if w != expected.word(i) {
            proof {
                assert(t.0[i as int] != expected@[i as int]);
                assert(t.0 != expected@);
                assert(verify_spec(s@, expected@) == Err::<(bool, i64), VerifyError>(
                    VerifyError::ProgramIdMismatch,
                ));
            }
            return Err(VerifyError::ProgramIdMismatch);
        }
        i += 1;
    }
    proof {
        assert(t.0.len() == PROGRAM_ID_WORDS);
        assert(t.0 =~= expected@);
    }
    // Commitment.
    let msg = slice_to_vec(slice_subrange(s, 4, 46));
    let digest = blake3_digest(msg.as_slice());
    proof {
        lemma_parse_receipt_canonical(s@);
        assert(commit_message_spec(t.0, t.1) == s@.subrange(4, 46));
        assert(digest@ == blake3_hash(commit_message_spec(t.0, t.1)));
    }
    let mut k: usize = 0;
    while k < 32
        invariant
            k <= 32,
            s == receipt_bytes,
            s@.len() == RECEIPT_LEN,
            parse_receipt_spec(s@) is Some,
            t == parse_receipt_spec(s@)->Some_0,
            t.0 == expected@,
            digest@ == blake3_hash(commit_message_spec(t.0, t.1)),
            digest@.len() == 32,
            t.2.len() == 32,
            forall|j: int| 0 <= j < k ==> t.2[j] == digest@[j],
        decreases 32 - k,
    {
        let sb = *slice_index_get(s, 46 + k);
        proof {
            assert(t.2[k as int] == s@[46 + k as int]);
        }
        if digest[k] != sb {
            proof {
                assert(t.2[k as int] != digest@[k as int]);
                assert(t.2 != digest@);
                assert(t.0 == expected@);
                assert(t.2 != blake3_hash(commit_message_spec(t.0, t.1)));
                assert(verify_spec(s@, expected@) == Err::<(bool, i64), VerifyError>(
                    VerifyError::InvalidProof,
                ));
            }
            return Err(VerifyError::InvalidProof);
        }
        k += 1;
    }
    proof {
        assert(t.2 =~= digest@);
    }
    Ok((journal_matched, milli))
}

/// Program-identity binding: a receipt bound to one identity never verifies
/// against a different one, whatever else the receipt contains; receipt
/// bytes that do not parse never verify against anything.
pub proof fn lemma_program_id_binding(bytes: Seq<u8>, expected: Seq<u32>)
    requires
        parse_receipt_spec(bytes) matches Some(t) ==> t.0 != expected,
    ensures
        verify_spec(bytes, expected) is Err,
{
}

/// Round trip of the proof protocol: a receipt that `prove` emits verifies
/// against the identity it was produced under and yields exactly the journal
/// that was committed.
pub proof fn lemma_prove_verify_round_trip(
    bytes: Seq<u8>,
    pid: Seq<u32>,
    matched: bool,
    milli: i64,
)
    requires
        parse_receipt_spec(bytes) matches Some(t) && t.0 == pid && t.1.matched == matched
            && t.1.similarity_milli == milli && t.2 == blake3_hash(commit_message_spec(t.0, t.1)),
    ensures
        verify_spec(bytes, pid) == Ok::<(bool, i64), VerifyError>((matched, milli)),
{
}

/// The identity words of the similarity-checking program this build ships.
pub open spec fn guest_program_id_words() -> Seq<u32> {
    seq![
        478837532u32,
        155373028u32,
        3133057801u32,
        3741298655u32,
        2812385851u32,
        1482427873u32,
        3341837043u32,
        1574732756u32,
    ]
}

/// The identity of the similarity-checking program this build ships: the
/// verifier must be handed this value rather than hard-coding it, since a
/// recompiled program carries a new identity.
pub fn guest_program_id() -> (r: ProgramId)
    ensures
        r@ =~= guest_program_id_words(),
{
    ProgramId::from_words(
        [
            478837532,
            155373028,
            3133057801,
            3741298655,
            2812385851,
            1482427873,
            3341837043,
            1574732756,
        ],
    )
}

/// Runs the similarity program on two embeddings under the built-in program
/// identity and returns the serialized receipt; fails, yielding no receipt,
/// exactly where the program is undefined.
pub fn execute_and_serialize_receipt(embedding1: &Embedding, embedding2: &Embedding) -> (r: Result<
    Vec<u8>,
    ProveError,
>)
    requires
        embedding1.wf(),
        embedding2.wf(),
    ensures
        r is Ok <==> (embedding1@.len() == embedding2@.len() && norm_sq_spec(embedding1@) > 0
            && norm_sq_spec(embedding2@) > 0),
        r matches Ok(bytes) ==> (parse_receipt_spec(bytes@) matches Some(t) && t.0
            =~= guest_program_id_words() && t.1.matched == matched_spec(embedding1@, embedding2@)
            && t.1.similarity_milli as int == similarity_milli_spec(embedding1@, embedding2@)
            && t.2 == blake3_hash(commit_message_spec(t.0, t.1))),
{
    let pid = guest_program_id();
    prove(&pid, embedding1, embedding2)
}

} // verus!
