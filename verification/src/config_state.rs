//! The id allocator's persisted state: a monotonically increasing document-id
//! counter, rendered to and recovered from a small human-readable state file.
//!
//! The library owns the text format and its exact parser; the surrounding
//! application only moves the bytes to and from disk, writing a complete
//! replacement of the file on every save.
use vstd::prelude::*;

verus! {

/// The decimal digits of `n`, most significant first, no leading zeros.
pub open spec fn dec_digits(n: nat) -> Seq<u8>
    decreases n,
{
    if n < 10 {
        seq![(48 + n) as u8]
    } else {
        dec_digits(n / 10) + seq![(48 + n % 10) as u8]
    }
}

/// The number a digit string denotes.
pub open spec fn dec_value(s: Seq<u8>) -> int
    decreases s.len(),
{
    if s.len() == 0 {
        0
    } else {
        dec_value(s.drop_last()) * 10 + (s.last() - 48)
    }
}

/// A canonical digit string: nonempty, decimal digits only, no leading zero,
/// value in `u32` range.
pub open spec fn is_canonical_dec(s: Seq<u8>) -> bool {
    &&& s.len() > 0
    &&& forall|i: int| 0 <= i < s.len() ==> 48 <= #[trigger] s[i] <= 57
    &&& (s[0] != 48 || s.len() == 1)
    &&& dec_value(s) <= u32::MAX
}

/// Rendering a number gives a canonical digit string.
pub proof fn lemma_dec_digits_canonical(n: nat)
    requires
        n <= u32::MAX,
    ensures
        is_canonical_dec(dec_digits(n)),
        dec_value(dec_digits(n)) == n,
    decreases n,
{
    if n < 10 {
        let s = dec_digits(n);
        assert(s =~= seq![(48 + n) as u8]);
        assert(s.drop_last() =~= Seq::<u8>::empty());
        assert(s.last() == (48 + n) as u8 && 48 + n <= 57);
        assert(dec_value(s) == dec_value(Seq::<u8>::empty()) * 10 + ((48 + n) - 48));
    } else {
        lemma_dec_digits_canonical(n / 10);
        lemma_dec_leading_nonzero(n / 10);
        let s = dec_digits(n);
        assert(s.drop_last() =~= dec_digits(n / 10));
        assert(dec_value(s) == dec_value(dec_digits(n / 10)) * 10 + (n % 10));
        assert((n / 10) * 10 + (n % 10) == n) by (nonlinear_arith);
        assert(s[0] == dec_digits(n / 10)[0]);
    }
}

/// The digits of a positive number start with a nonzero digit.
proof fn lemma_dec_leading_nonzero(n: nat)
    requires
        n >= 1,
    ensures
        dec_digits(n)[0] != 48,
        dec_digits(n).len() >= 1,
    decreases n,
{
    if n >= 10 {
        lemma_dec_leading_nonzero(n / 10);
        assert(dec_digits(n)[0] == dec_digits(n / 10)[0]);
    }
}

/// Only one digit string is canonical for each value: parsing then
/// re-rendering gives the string back.
pub proof fn lemma_canonical_dec_unique(s: Seq<u8>)
    requires
        is_canonical_dec(s),
    ensures
        0 <= dec_value(s) <= u32::MAX,
        dec_digits(dec_value(s) as nat) =~= s,
    decreases s.len(),
{
    lemma_dec_value_nonneg(s);
    let v = dec_value(s);
    if s.len() == 1 {
        assert(v == dec_value(s.drop_last()) * 10 + (s[0] - 48));
        assert(s.drop_last() =~= Seq::<u8>::empty());
        assert(v == s[0] - 48);
        assert(dec_digits(v as nat) =~= seq![(48 + v) as u8]);
    } else {
        let p = s.drop_last();
        assert(forall|i: int| 0 <= i < p.len() ==> 48 <= #[trigger] p[i] <= 57) by {
            assert(forall|i: int| 0 <= i < p.len() ==> p[i] == s[i]);
        }
        lemma_dec_value_nonneg(p);
        // The prefix is canonical: a leading zero would make the whole
        // string non-canonical, and its value is at most the whole value.
        assert(p[0] == s[0]);
        if p[0] == 48 && p.len() > 1 {
            assert(s[0] == 48 && s.len() > 1);
        }
        assert(dec_value(p) * 10 <= v) by {
            assert(v == dec_value(p) * 10 + (s.last() - 48));
            assert(s.last() >= 48);
        }
        assert(dec_value(p) <= u32::MAX) by (nonlinear_arith)
            requires
                dec_value(p) * 10 <= v,
                v <= u32::MAX,
                dec_value(p) >= 0,
        ;
        lemma_canonical_dec_unique(p);
        let pv = dec_value(p);
        // A multi-digit canonical string denotes at least 10.
        assert(pv >= 1) by {
            if pv == 0 {
                assert(dec_digits(0nat) =~= seq![48u8]);
                assert(p[0] == 48);
            }
        }
        assert(v == pv * 10 + (s.last() - 48));
        assert(v >= 10) by (nonlinear_arith)
            requires
                pv >= 1,
                v == pv * 10 + (s.last() - 48),
                s.last() >= 48,
        ;
        assert((v as nat) / 10 == pv && (v as nat) % 10 == s.last() - 48) by (nonlinear_arith)
            requires
                v == pv * 10 + (s.last() - 48),
                48 <= s.last() <= 57,
                pv >= 0,
                v >= 0,
        ;
        assert(dec_digits(v as nat) =~= dec_digits((v as nat) / 10) + seq![
            (48 + (v as nat) % 10) as u8,
        ]);
        assert(dec_digits((v as nat) / 10) =~= p);
    }
}

proof fn lemma_dec_value_nonneg(s: Seq<u8>)
    requires
        forall|i: int| 0 <= i < s.len() ==> 48 <= #[trigger] s[i] <= 57,
    ensures
        dec_value(s) >= 0,
    decreases s.len(),
{
    if s.len() > 0 {
        let p = s.drop_last();
        assert(forall|i: int| 0 <= i < p.len() ==> 48 <= #[trigger] p[i] <= 57) by {
            assert(forall|i: int| 0 <= i < p.len() ==> p[i] == s[i]);
        }
        lemma_dec_value_nonneg(p);
        assert(dec_value(p) * 10 >= 0) by (nonlinear_arith)
            requires
                dec_value(p) >= 0,
        ;
    }
}

/// The fixed text around the counter value.
pub open spec fn state_prefix() -> Seq<u8> {
    seq![123u8, 10u8, 32u8, 32u8, 34u8, 110u8, 101u8, 120u8, 116u8, 95u8, 105u8, 100u8, 34u8, 58u8, 32u8]
}

pub open spec fn state_suffix() -> Seq<u8> {
    seq![10u8, 125u8]
}

/// The rendered state file for a counter value.
pub open spec fn render_state_spec(next_id: u32) -> Seq<u8> {
    state_prefix() + dec_digits(next_id as nat) + state_suffix()
}

/// The strict parse of a state file: accepts exactly the rendered form of
/// one counter value.
pub open spec fn parse_state_spec(s: Seq<u8>) -> Option<u32> {
    if s.len() >= 18 && s.subrange(0, 15) =~= state_prefix() && s.subrange(
        s.len() - 2,
        s.len() as int,
    ) =~= state_suffix() && is_canonical_dec(s.subrange(15, s.len() - 2)) {
        Some(dec_value(s.subrange(15, s.len() - 2)) as u32)
    } else {
        None
    }
}

/// Rendering then parsing a counter value gives it back.
pub proof fn lemma_state_round_trip(next_id: u32)
    ensures
        parse_state_spec(render_state_spec(next_id)) == Some(next_id),
{
    lemma_dec_digits_canonical(next_id as nat);
    let d = dec_digits(next_id as nat);
    let s = render_state_spec(next_id);
    assert(s.len() == 17 + d.len());
    assert(s.subrange(0, 15) =~= state_prefix());
    assert(s.subrange(s.len() - 2, s.len() as int) =~= state_suffix());
    assert(s.subrange(15, s.len() - 2) =~= d);
}

/// A state file that parses is exactly the rendered form of what it parses
/// to: the format has one representation per value.
pub proof fn lemma_state_parse_exact(s: Seq<u8>, n: u32)
    requires
        parse_state_spec(s) == Some(n),
    ensures
        s =~= render_state_spec(n),
{
    let d = s.subrange(15, s.len() - 2);
    lemma_canonical_dec_unique(d);
    assert(dec_digits(n as nat) =~= d);
    assert(s =~= s.subrange(0, 15) + d + s.subrange(s.len() - 2, s.len() as int));
}

/// A digit string's value only grows as more digits follow: once a prefix
/// exceeds the `u32` range, the whole string does.
proof fn lemma_dec_value_prefix_le(s: Seq<u8>, i: int)
    requires
        forall|k: int| 0 <= k < s.len() ==> 48 <= #[trigger] s[k] <= 57,
        0 <= i <= s.len(),
    ensures
        dec_value(s.take(i)) <= dec_value(s),
    decreases s.len() - i,
{
    if i < s.len() {
        lemma_dec_value_prefix_le(s, i + 1);
        let t = s.take(i + 1);
        assert(forall|k: int| 0 <= k < t.len() ==> 48 <= #[trigger] t[k] <= 57) by {
            assert(forall|k: int| 0 <= k < t.len() ==> t[k] == s[k]);
        }
        assert(t.drop_last() =~= s.take(i));
        lemma_dec_value_nonneg(t.drop_last());
        assert(dec_value(s.take(i)) <= dec_value(s.take(i)) * 10 + (t.last() - 48))
            by (nonlinear_arith)
            requires
                dec_value(s.take(i)) >= 0,
                t.last() >= 48,
        ;
    } else {
        assert(s.take(i) =~= s);
    }
}

fn push_dec_digits(n: u32, out: &mut Vec<u8>)
    ensures
        final(out)@ == old(out)@ + dec_digits(n as nat),
    decreases n,
{
    if n < 10 {
        out.push(48 + n as u8);
        proof {
            assert(final(out)@ =~= old(out)@ + dec_digits(n as nat));
        }
    } else {
        push_dec_digits(n / 10, out);
        out.push(48 + (n % 10) as u8);
        proof {
            assert(final(out)@ =~= old(out)@ + dec_digits(n as nat));
        }
    }
}

/// The persisted state of the id allocator: the next document id to issue.
/// The counter only moves forward; ids are never reused.
#[derive(Clone, Copy, Debug, PartialEq, Eq, Structural)]
pub struct AllocatorState {
    pub next_id: u32,
}

/// What loading recovers from an optional state file: the saved counter if
/// the file parses, the initial counter otherwise. Loading never fails the
/// caller.
pub open spec fn recover_spec(saved: Option<Seq<u8>>) -> u32 {
    match saved {
        Option::Some(s) => match parse_state_spec(s) {
            Option::Some(n) => n,
            Option::None => 0,
        },
        Option::None => 0,
    }
}

impl AllocatorState {
    /// Recovers the allocator from the bytes of its state file, or starts at
    /// zero when the file is missing or unreadable.
    pub fn load(saved: &Option<Vec<u8>>) -> (r: AllocatorState)
        ensures
            match saved {
                Option::Some(b) => r.next_id == recover_spec(Option::Some(b@)),
                Option::None => r.next_id == 0,
            },
    {
        match saved {
            Option::Some(bytes) => match parse_state(bytes.as_slice()) {
                Option::Some(n) => AllocatorState { next_id: n },
                Option::None => AllocatorState { next_id: 0 },
            },
            Option::None => AllocatorState { next_id: 0 },
        }
    }

    /// The id the next document will receive. Does not advance or persist
    /// anything itself.
    pub fn allocate_next(&self) -> (r: u32)
        ensures
            r == self.next_id,
    {
        self.next_id
    }

    /// Moves the counter to its new value; the caller persists the rendered
    /// state afterwards, as a complete replacement of the file.
    pub fn advance(&mut self, new_next_id: u32)
        ensures
            final(self).next_id == new_next_id,
    {
        self.next_id = new_next_id;
    }

    /// The state file contents for this counter value.
    pub fn render(&self) -> (r: Vec<u8>)
        ensures
            r@ == render_state_spec(self.next_id),
    {
        let mut out: Vec<u8> = Vec::new();
        out.push(123);
        out.push(10);
        out.push(32);
        out.push(32);
        out.push(34);
        out.push(110);
        out.push(101);
        out.push(120);
        out.push(116);
        out.push(95);
        out.push(105);
        out.push(100);
        out.push(34);
        out.push(58);
        out.push(32);
        proof {
            assert(out@ =~= state_prefix());
        }
        push_dec_digits(self.next_id, &mut out);
        out.push(10);
        out.push(125);
        proof {
            assert(out@ =~= render_state_spec(self.next_id));
        }
        out
    }
}

/// Parses the bytes of a state file, accepting exactly the rendered form of
/// one counter value.
pub fn parse_state(bytes: &[u8]) -> (r: Option<u32>)
    ensures
        r == parse_state_spec(bytes@),
{
    let n = bytes.len();
    if n < 18 {
        return None;
    }
    // The fixed text around the counter.
    let pfx: [u8; 15] = [123, 10, 32, 32, 34, 110, 101, 120, 116, 95, 105, 100, 34, 58, 32];
    proof {
        assert(pfx@ =~= state_prefix());
    }
    let mut i: usize = 0;
    while i < 15
        invariant
            i <= 15,
            n == bytes@.len() >= 18,
            pfx@ =~= state_prefix(),
            forall|j: int| 0 <= j < i ==> bytes@[j] == state_prefix()[j],
        decreases 15 - i,
    {
        if *vstd::slice::slice_index_get(bytes, i) != pfx[i] {
            proof {
                assert(bytes@.subrange(0, 15)[i as int] != state_prefix()[i as int]);
            }
            return None;
        }
        i += 1;
    }
    proof {
        assert(bytes@.subrange(0, 15) =~= state_prefix());
    }
    let s1 = *vstd::slice::slice_index_get(bytes, n - 2);
    let s2 = *vstd::slice::slice_index_get(bytes, n - 1);
    if s1 != 10 || s2 != 125 {
        proof {
            let sfx = bytes@.subrange(n - 2, n as int);
            assert(sfx[0] == bytes@[n - 2] && sfx[1] == bytes@[n - 1]);
            assert(!(sfx =~= state_suffix()));
        }
        return None;
    }
    proof {
        assert(bytes@.subrange(n - 2, n as int) =~= state_suffix());
    }
    let ghost region = bytes@.subrange(15, n - 2);
    // Leading zeros are not canonical.
    let first = *vstd::slice::slice_index_get(bytes, 15);
    if first == 48 && n > 18 {
        proof {
            assert(region[0] == 48 && region.len() > 1);
        }
        return None;
    }
    let mut k: usize = 15;
    let mut acc: u64 = 0;
    proof {
        assert(region.take(0) =~= Seq::<u8>::empty());
    }
    while k < n - 2
        invariant
            15 <= k <= n - 2,
            n == bytes@.len() >= 18,
            region == bytes@.subrange(15, n - 2),
            acc as int == dec_value(region.take(k - 15)),
            acc <= u32::MAX,
            forall|j: int| 0 <= j < k - 15 ==> 48 <= #[trigger] region[j] <= 57,
        decreases n - k,
    {
        let c = *vstd::slice::slice_index_get(bytes, k);
        proof {
            assert(region[k - 15] == bytes@[k as int]);
        }
        if c < 48 || c > 57 {
            return None;
        }
        proof {
            assert(region.take(k - 15 + 1).drop_last() =~= region.take(k - 15));
            assert(region.take(k - 15 + 1).last() == region[k - 15]);
        }
        acc = acc * 10 + ((c - 48) as u64);
        if acc > 0xffff_ffff {
            proof {
                // Appending digits never shrinks the value, so the whole
                // region is out of range and cannot be canonical.
                if is_canonical_dec(region) {
                    lemma_dec_value_prefix_le(region, k - 15 + 1);
                }
            }
            return None;
        }
        k += 1;
    }
    proof {
        assert(region.take(n - 2 - 15) =~= region);
        assert(is_canonical_dec(region));
        assert(parse_state_spec(bytes@) == Some(acc as u32));
    }
    Some(acc as u32)
}

/// The counter survives a simulated restart: loading the rendered state file
/// recovers exactly the counter that was saved.
pub proof fn lemma_counter_survives_restart(next_id: u32)
    ensures
        recover_spec(Option::Some(render_state_spec(next_id))) == next_id,
{
    lemma_state_round_trip(next_id);
}

} // verus!
