//! The Collatz engine: hailstone sequences over unsigned 64-bit integers.
//!
//! A hailstone sequence starts at `n` and repeatedly halves an even value or
//! replaces an odd value `v` by `3*v + 1`, stopping once the value 1 is
//! reached (1 is included as the final element). Boundary policies, all
//! silent by design:
//! - if the odd step would exceed `u64::MAX`, the sequence stops early at
//!   the last representable value (truncation, not an error);
//! - a start of 0 would halve to 0 forever, so 0 is mapped to the empty
//!   sequence and its reported length is 0;
//! - generation is cut off once a sequence holds `usize::MAX` elements, a
//!   bound far beyond what any run can materialize, so that every loop in
//!   the engine provably terminates.

use vstd::prelude::*;

verus! {

/// The Collatz map on mathematical integers: halve an even value, send an
/// odd value `v` to `3*v + 1`.
pub open spec fn hail_step(v: int) -> int {
    if v % 2 == 0 {
        v / 2
    } else {
        3 * v + 1
    }
}

/// True when the odd step from `v` would not fit in a `u64`, which cuts the
/// sequence short.
pub open spec fn overflow_stop(v: u64) -> bool {
    v % 2 == 1 && 3 * (v as int) + 1 > u64::MAX
}

/// True when a hailstone sequence ends at `v`: either the value 1 was
/// reached or the next step would overflow.
pub open spec fn stops_at(v: u64) -> bool {
    v == 1 || overflow_stop(v)
}

/// `s` follows the Collatz map from `n` without passing a stopping point:
/// `s` starts at `n`, every element is followed by its Collatz successor,
/// and no element before the last is a stopping point. For `n == 0` the
/// chain is empty by policy.
pub open spec fn is_hail_chain(n: u64, s: Seq<u64>) -> bool {
    if n == 0 {
        s == Seq::<u64>::empty()
    } else {
        &&& s.len() >= 1
        &&& s[0] == n
        &&& forall|i: int|
            0 <= i < s.len() - 1 ==> !stops_at(#[trigger] s[i]) && s[i + 1] as int == hail_step(
                s[i] as int,
            )
    }
}

/// The full hailstone sequence of `n`: a chain whose last element is a
/// stopping point (the value 1, or the value whose odd step would
/// overflow).
pub open spec fn is_collatz_seq(n: u64, s: Seq<u64>) -> bool {
    &&& is_hail_chain(n, s)
    &&& n != 0 ==> stops_at(s[s.len() - 1])
}

/// What the engine actually produces for `n`: the hailstone sequence,
/// unless that sequence would overrun the engine's `usize::MAX`-element
/// cutoff, in which case it is the chain of exactly `usize::MAX` elements.
pub open spec fn is_engine_run(n: u64, s: Seq<u64>) -> bool {
    &&& is_hail_chain(n, s)
    &&& s.len() <= usize::MAX
    &&& n != 0 ==> (stops_at(s[s.len() - 1]) || s.len() == usize::MAX)
}

/// Elements of two hailstone chains with the same start agree position by
/// position, as far as both extend.
proof fn lemma_hail_chain_agree(n: u64, s1: Seq<u64>, s2: Seq<u64>, i: int)
    requires
        n != 0,
        is_hail_chain(n, s1),
        is_hail_chain(n, s2),
        0 <= i < s1.len(),
        i < s2.len(),
    ensures
        s1[i] == s2[i],
    decreases i,
{
    if i > 0 {
        lemma_hail_chain_agree(n, s1, s2, i - 1);
    }
}

/// Neither of two engine runs with the same start can be the longer one: a
/// stopping point or the cutoff ends both at the same place.
proof fn lemma_engine_run_len_le(n: u64, s1: Seq<u64>, s2: Seq<u64>)
    requires
        n != 0,
        is_engine_run(n, s1),
        is_engine_run(n, s2),
    ensures
        s1.len() <= s2.len(),
{
    if s1.len() > s2.len() {
        let j = s2.len() - 1;
        lemma_hail_chain_agree(n, s1, s2, j);
        assert(!stops_at(s1[j]));
        assert(s2.len() == usize::MAX);
        assert(false);
    }
}

/// Every starting value has exactly one engine run. In particular the
/// reported length of a sequence always equals the length of the sequence
/// the engine generates for the same start.
pub proof fn lemma_engine_run_unique(n: u64, s1: Seq<u64>, s2: Seq<u64>)
    requires
        is_engine_run(n, s1),
        is_engine_run(n, s2),
    ensures
        s1 == s2,
{
    if n == 0 {
        assert(s1 =~= s2);
    } else {
        lemma_engine_run_len_le(n, s1, s2);
        lemma_engine_run_len_le(n, s2, s1);
        assert forall|i: int| 0 <= i < s1.len() implies s1[i] == s2[i] by {
            lemma_hail_chain_agree(n, s1, s2, i);
        }
        assert(s1 =~= s2);
    }
}

/// A full hailstone sequence that fits under the engine's cutoff is exactly
/// what the engine produces.
pub proof fn lemma_collatz_seq_is_run(n: u64, s: Seq<u64>)
    requires
        is_collatz_seq(n, s),
        s.len() <= usize::MAX,
    ensures
        is_engine_run(n, s),
{
}

/// For every start `n >= 1`, a hailstone sequence that was not cut short by
/// overflow ends in the value 1.
pub proof fn lemma_sequence_ends_in_one(n: u64, s: Seq<u64>)
    requires
        n >= 1,
        is_collatz_seq(n, s),
        !overflow_stop(s[s.len() - 1]),
    ensures
        s[s.len() - 1] == 1,
{
}

/// `out` is the flat encoding of one engine run per element of `nums`, in
/// order: each run is laid out as its element count followed by that many
/// sequence values.
pub open spec fn is_batch_encoding(nums: Seq<u64>, out: Seq<u64>) -> bool
    decreases nums.len(),
{
    if nums.len() == 0 {
        out == Seq::<u64>::empty()
    } else {
        &&& out.len() >= 1
        &&& out.len() >= 1 + out[0] as int
        &&& is_engine_run(nums[0], out.subrange(1, 1 + out[0] as int))
        &&& is_batch_encoding(nums.drop_first(), out.skip(1 + out[0] as int))
    }
}

/// Appending one more start to a batch appends exactly one more encoded
/// run to the flat encoding.
#[verifier::spinoff_prover]
#[verifier::rlimit(60)]
proof fn lemma_batch_encoding_snoc(nums: Seq<u64>, out: Seq<u64>, n: u64, s: Seq<u64>)
    requires
        is_batch_encoding(nums, out),
        is_engine_run(n, s),
    ensures
        is_batch_encoding(nums.push(n), out + seq![s.len() as u64] + s),
    decreases nums.len(),
{
    let out2 = out + seq![s.len() as u64] + s;
    let nums2 = nums.push(n);
    if nums.len() == 0 {
        assert(nums2[0] == n);
        assert(out2[0] == s.len());
        assert(out2.subrange(1, 1 + s.len() as int) =~= s);
        assert(out2.skip(1 + s.len() as int) =~= Seq::<u64>::empty());
        assert(nums2.drop_first() =~= Seq::<u64>::empty());
        assert(is_batch_encoding(Seq::<u64>::empty(), Seq::<u64>::empty()));
        assert(is_batch_encoding(nums2, out2));
    } else {
        let k = 1 + out[0] as int;
        assert(out2[0] == out[0]);
        assert(out2.subrange(1, k) =~= out.subrange(1, k));
        assert(nums2.drop_first() =~= nums.drop_first().push(n));
        assert(out2.skip(k) =~= out.skip(k) + seq![s.len() as u64] + s);
        lemma_batch_encoding_snoc(nums.drop_first(), out.skip(k), n, s);
        assert(is_batch_encoding(nums2, out2));
    }
}

/// Two sequences that agree on their first element, on the slice from
/// position 1 up to `k`, and on everything from `k` on, are equal.
proof fn lemma_eq_by_parts(o1: Seq<u64>, o2: Seq<u64>, k: int)
    requires
        1 <= k <= o1.len(),
        k <= o2.len(),
        o1[0] == o2[0],
        o1.subrange(1, k) == o2.subrange(1, k),
        o1.skip(k) == o2.skip(k),
    ensures
        o1 == o2,
{
    assert(o1.len() == k + o1.skip(k).len());
    assert(o2.len() == k + o2.skip(k).len());
    assert forall|i: int| 0 <= i < o1.len() implies o1[i] == o2[i] by {
        if i == 0 {
        } else if i < k {
            assert(o1.subrange(1, k)[i - 1] == o1[i]);
            assert(o2.subrange(1, k)[i - 1] == o2[i]);
        } else {
            assert(o1.skip(k)[i - k] == o1[i]);
            assert(o2.skip(k)[i - k] == o2[i]);
        }
    }
    assert(o1 =~= o2);
}

/// A batch of starts has exactly one flat encoding.
#[verifier::spinoff_prover]
#[verifier::rlimit(100)]
pub proof fn lemma_batch_encoding_unique(nums: Seq<u64>, o1: Seq<u64>, o2: Seq<u64>)
    requires
        is_batch_encoding(nums, o1),
        is_batch_encoding(nums, o2),
    ensures
        o1 == o2,
    decreases nums.len(),
{
    if nums.len() == 0 {
        assert(o1 =~= o2);
    } else {
        let s1 = o1.subrange(1, 1 + o1[0] as int);
        let s2 = o2.subrange(1, 1 + o2[0] as int);
        lemma_engine_run_unique(nums[0], s1, s2);
        assert(o1[0] == o2[0]);
        let k = 1 + o1[0] as int;
        assert(o1.subrange(1, k) == o2.subrange(1, k));
        lemma_batch_encoding_unique(nums.drop_first(), o1.skip(k), o2.skip(k));
        lemma_eq_by_parts(o1, o2, k);
    }
}

/// The stateless Collatz engine: every operation is a pure function of its
/// integer inputs.
pub struct CollatzCalculator;

impl CollatzCalculator {
    /// Creates an engine instance; it carries no state.
    pub fn new() -> (r: CollatzCalculator) {
        CollatzCalculator
    }

    /// Generates the hailstone sequence of `n` (the engine run of `n`,
    /// which is the full sequence whenever that fits under the cutoff).
    #[verifier::spinoff_prover]
    #[verifier::rlimit(30)]
    pub fn calculate_sequence(&self, n: u64) -> (r: Vec<u64>)
        ensures
            is_engine_run(n, r@),
            forall|s: Seq<u64>| is_collatz_seq(n, s) && s.len() <= usize::MAX ==> r@ == s,
    {
        let mut out: Vec<u64> = Vec::new();
        if n == 0 {
            assert(out@ =~= Seq::<u64>::empty());
            return out;
        }
        out.push(n);
        let mut cur: u64 = n;
        while cur != 1 && (cur % 2 == 0 || cur <= (u64::MAX - 1) / 3) && out.len() < usize::MAX
            invariant
                n != 0,
                1 <= out@.len() <= usize::MAX,
                out@[0] == n,
                cur == out@[out@.len() - 1],
                forall|i: int|
                    0 <= i < out@.len() - 1 ==> !stops_at(#[trigger] out@[i]) && out@[i
                        + 1] as int == hail_step(out@[i] as int),
            decreases usize::MAX - out@.len(),
        {
            if cur % 2 == 0 {
                cur = cur / 2;
            } else {
                cur = 3 * cur + 1;
            }
            out.push(cur);
        }
        proof {
            assert(is_engine_run(n, out@));
            assert forall|s: Seq<u64>| is_collatz_seq(n, s) && s.len() <= usize::MAX implies out@
                == s by {
                lemma_collatz_seq_is_run(n, s);
                lemma_engine_run_unique(n, out@, s);
            }
        }
        out
    }

    /// Reports the number of elements of the hailstone sequence of `n`,
    /// 0 for `n == 0` by explicit rule.
    pub fn get_sequence_length(&self, n: u64) -> (r: usize)
        ensures
            n == 0 ==> r == 0,
            exists|s: Seq<u64>| is_engine_run(n, s) && r == s.len(),
            forall|s: Seq<u64>| is_engine_run(n, s) ==> r == s.len(),
            forall|s: Seq<u64>| is_collatz_seq(n, s) && s.len() <= usize::MAX ==> r == s.len(),
    {
        if n == 0 {
            proof {
                let s0 = Seq::<u64>::empty();
                assert(is_engine_run(n, s0) && 0 == s0.len());
            }
            return 0;
        }
        let mut length: usize = 1;
        let mut current: u64 = n;
        let ghost mut chain = seq![n];
        while current != 1 && (current % 2 == 0 || current <= (u64::MAX - 1) / 3) && length
            < usize::MAX
            invariant
                n != 0,
                1 <= length <= usize::MAX,
                chain.len() == length,
                chain[0] == n,
                current == chain[chain.len() - 1],
                forall|i: int|
                    0 <= i < chain.len() - 1 ==> !stops_at(#[trigger] chain[i]) && chain[i
                        + 1] as int == hail_step(chain[i] as int),
            decreases usize::MAX - length,
        {
            if current % 2 == 0 {
                current = current / 2;
            } else {
                current = 3 * current + 1;
            }
            proof {
                chain = chain.push(current);
            }
            length = length + 1;
        }
        proof {
            assert(is_engine_run(n, chain) && length == chain.len());
            assert forall|s: Seq<u64>| is_engine_run(n, s) implies length == s.len() by {
                lemma_engine_run_unique(n, chain, s);
            }
            assert forall|s: Seq<u64>|
                is_collatz_seq(n, s) && s.len() <= usize::MAX implies length == s.len() by {
                lemma_collatz_seq_is_run(n, s);
                lemma_engine_run_unique(n, chain, s);
            }
        }
        length
    }

    /// Scans every start from 1 to `limit` inclusive and reports the pair
    /// `[start, length]` of the start with the longest hailstone sequence.
    /// Ties go to the earliest start: a later start with an equal length
    /// never replaces the champion.
    pub fn find_max_sequence_info(&self, limit: u64) -> (r: Vec<u64>)
        requires
            limit >= 1,
        ensures
            r@.len() == 2,
            1 <= r@[0] <= limit,
            exists|s: Seq<u64>| is_engine_run(r@[0], s) && s.len() == r@[1],
            forall|m: u64, s: Seq<u64>|
                1 <= m <= limit && #[trigger] is_engine_run(m, s) ==> s.len() <= r@[1],
            forall|m: u64, s: Seq<u64>|
                1 <= m < r@[0] && #[trigger] is_engine_run(m, s) ==> s.len() < r@[1],
    {
        let mut best_start: u64 = 1;
        let mut best_len: usize = self.get_sequence_length(1);
        let mut m: u64 = 1;
        while m < limit
            invariant
                1 <= m <= limit,
                1 <= best_start <= m,
                exists|s: Seq<u64>| is_engine_run(best_start, s) && s.len() == best_len,
                forall|k: u64, s: Seq<u64>|
                    1 <= k <= m && #[trigger] is_engine_run(k, s) ==> s.len() <= best_len,
                forall|k: u64, s: Seq<u64>|
                    1 <= k < best_start && #[trigger] is_engine_run(k, s) ==> s.len() < best_len,
            decreases limit - m,
        {
            m = m + 1;
            let len = self.get_sequence_length(m);
            if len > best_len {
                best_len = len;
                best_start = m;
            }
        }
        vec![best_start, best_len as u64]
    }

    /// Computes the hailstone sequence of every input in order and returns
    /// them concatenated into one flat self-describing stream: for each
    /// input, its sequence's element count followed by that many values.
    pub fn calculate_multiple_sequences(&self, numbers: Vec<u64>) -> (r: Vec<u64>)
        ensures
            is_batch_encoding(numbers@, r@),
    {
        let mut result: Vec<u64> = Vec::new();
        let mut i: usize = 0;
        proof {
            assert(numbers@.subrange(0, 0) =~= Seq::<u64>::empty());
            assert(result@ =~= Seq::<u64>::empty());
        }
        while i < numbers.len()
            invariant
                i <= numbers@.len(),
                is_batch_encoding(numbers@.subrange(0, i as int), result@),
            decreases numbers@.len() - i,
        {
            let num = numbers[i];
            let sequence = self.calculate_sequence(num);
            let ghost pre = result@;
            result.push(sequence.len() as u64);
            let mut j: usize = 0;
            while j < sequence.len()
                invariant
                    j <= sequence@.len(),
                    result@ == pre + seq![sequence@.len() as u64] + sequence@.subrange(
                        0,
                        j as int,
                    ),
                decreases sequence@.len() - j,
            {
                proof {
                    assert((pre + seq![sequence@.len() as u64] + sequence@.subrange(
                        0,
                        j as int,
                    )).push(sequence@[j as int]) =~= pre + seq![sequence@.len() as u64]
                        + sequence@.subrange(0, j as int + 1));
                }
                result.push(sequence[j]);
                j = j + 1;
            }
            proof {
                assert(sequence@.subrange(0, sequence@.len() as int) =~= sequence@);
                lemma_batch_encoding_snoc(numbers@.subrange(0, i as int), pre, num, sequence@);
                assert(numbers@.subrange(0, i as int).push(num) =~= numbers@.subrange(
                    0,
                    i as int + 1,
                ));
            }
            i = i + 1;
        }
        proof {
            assert(numbers@.subrange(0, numbers@.len() as int) =~= numbers@);
        }
        result
    }
}

} // verus!
