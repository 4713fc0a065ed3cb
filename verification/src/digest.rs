//! The digest of a candidate number, and the trailing-marker match test.
//!
//! The digest itself is an opaque one-way string function computed by an
//! outside crate; the library names its result and verifies everything that
//! happens after the call: the suffix test and the match bookkeeping.

use vstd::prelude::*;
use vstd::string::StrSliceExecFns;

verus! {

/// The digest of the decimal form of a number: a pure function of the number
/// alone, left uninterpreted.
pub uninterp spec fn digest_of_number(x: int) -> Seq<char>;

/// Relies on sha256::digest, applied to the decimal form of the number: the
/// result is a function of the number alone.
#[verifier::external_body]
pub(crate) fn digest_of_u32(x: u32) -> (r: String)
    ensures
        r@ == digest_of_number(x as int),
{
    sha256::digest(x.to_string())
}

/// The last `n` characters of `s` are all the marker character `'0'`.
/// False when `s` is shorter than `n`, as a suffix test must be.
pub open spec fn ends_with_zeros(s: Seq<char>, n: nat) -> bool {
    &&& n <= s.len()
    &&& forall|i: int| s.len() - n <= i < s.len() ==> s[i] == '0'
}

/// A candidate matches when its digest ends in a run of `n` markers.
pub open spec fn is_match(n: nat, x: int) -> bool {
    ends_with_zeros(digest_of_number(x), n)
}

/// Checks whether the last `n` characters of `hash` are all `'0'`.
pub fn ends_with_zeros_exec(hash: &str, n: usize) -> (r: bool)
    ensures
        r == ends_with_zeros(hash@, n as nat),
{
    let len = hash.unicode_len();
    if n > len {
        return false;
    }
    let mut i: usize = len - n;
    while i < len
        invariant
            n <= len,
            len - n <= i <= len,
            len == hash@.len(),
            forall|j: int| len - n <= j < i ==> hash@[j] == '0',
        decreases len - i,
    {
        if hash.get_char(i) != '0' {
            return false;
        }
        i = i + 1;
    }
    true
}

/// The matching candidates below `k`, in increasing order.
pub open spec fn match_seq(n: nat, k: nat) -> Seq<u32>
    decreases k,
{
    if k == 0 {
        Seq::empty()
    } else if is_match(n, k - 1) {
        match_seq(n, (k - 1) as nat).push(((k - 1) as nat) as u32)
    } else {
        match_seq(n, (k - 1) as nat)
    }
}

/// Every matching candidate below `k` is below `k`, and they appear in
/// increasing order without duplicates.
pub proof fn lemma_match_seq_sorted(n: nat, k: nat)
    requires
        k <= u32::MAX + 1,
    ensures
        forall|i: int, j: int|
            0 <= i < j < match_seq(n, k).len() ==> match_seq(n, k)[i] < match_seq(n, k)[j],
        forall|i: int| 0 <= i < match_seq(n, k).len() ==> match_seq(n, k)[i] < k,
    decreases k,
{
    if k > 0 {
        lemma_match_seq_sorted(n, (k - 1) as nat);
        if is_match(n, k - 1) {
            assert(match_seq(n, k) == match_seq(n, (k - 1) as nat).push(((k - 1) as nat) as u32));
            assert(forall|i: int|
                0 <= i < match_seq(n, (k - 1) as nat).len() ==> match_seq(n, k)[i] == match_seq(
                    n,
                    (k - 1) as nat,
                )[i]);
        } else {
            assert(match_seq(n, k) == match_seq(n, (k - 1) as nat));
        }
    }
}

/// If matching a run of `n` markers is exactly divisibility by `m` — as with
/// a mock digest that maps a number to the decimal form of `number % m`, with
/// a run length that only the zero remainder attains — then the matching
/// candidates below `k` are exactly the multiples of `m` below `k`, whatever
/// the bound `k`: the `i`-th of them is `i * m`, and every multiple below `k`
/// appears.
pub proof fn lemma_match_seq_multiples(n: nat, m: int, k: nat)
    requires
        m >= 1,
        k <= u32::MAX + 1,
        forall|x: int| 0 <= x < k ==> ((#[trigger] is_match(n, x)) <==> x % m == 0),
    ensures
        forall|i: int|
            0 <= i < match_seq(n, k).len() ==> ((#[trigger] match_seq(n, k)[i]) as int) == i * m,
        forall|x: int|
            0 <= x < k && x % m == 0 ==> #[trigger] match_seq(n, k).contains(x as u32),
    decreases k,
{
    if k > 0 {
        lemma_match_seq_multiples(n, m, (k - 1) as nat);
        let prev = match_seq(n, (k - 1) as nat);
        if is_match(n, k - 1) {
            assert(match_seq(n, k) == prev.push(((k - 1) as nat) as u32));
            let len_prev = prev.len() as int;
            let q = (k - 1) / m;
            vstd::arithmetic::div_mod::lemma_fundamental_div_mod(k - 1, m);
            assert((k - 1) % m == 0);
            assert(m * q == k - 1);
            assert(q >= 0) by (nonlinear_arith)
                requires
                    m >= 1,
                    m * q == k - 1,
                    k >= 1,
            ;
            lemma_match_seq_sorted(n, (k - 1) as nat);
            if len_prev > 0 {
                assert(prev[len_prev - 1] as int == (len_prev - 1) * m);
                assert(prev[len_prev - 1] < k - 1);
                assert(len_prev - 1 < q) by (nonlinear_arith)
                    requires
                        m >= 1,
                        (len_prev - 1) * m < m * q,
                ;
            }
            if q > len_prev {
                vstd::arithmetic::div_mod::lemma_mod_multiples_basic(len_prev, m);
                assert((len_prev * m) % m == 0);
                assert(0 <= len_prev * m && len_prev * m < m * q) by (nonlinear_arith)
                    requires
                        m >= 1,
                        0 <= len_prev < q,
                ;
                assert(prev.contains((len_prev * m) as u32));
                let j = choose|j: int| 0 <= j < prev.len() && prev[j] == (len_prev * m) as u32;
                assert(prev[j] as int == j * m);
                assert((len_prev * m) as u32 as int == len_prev * m);
                assert(j == len_prev) by (nonlinear_arith)
                    requires
                        m >= 1,
                        j * m == len_prev * m,
                ;
                assert(false);
            }
            assert(len_prev == q);
            assert forall|i: int|
                0 <= i < match_seq(n, k).len() implies ((match_seq(n, k)[i]) as int) == i * m by {
                if i < prev.len() {
                    assert(match_seq(n, k)[i] == prev[i]);
                } else {
                    assert(match_seq(n, k)[i] == ((k - 1) as nat) as u32);
                    assert(i == len_prev);
                    assert(i * m == m * q) by (nonlinear_arith)
                        requires
                            i == q,
                    ;
                }
            }
            assert forall|x: int|
                #![trigger match_seq(n, k).contains(x as u32)]
                0 <= x < k && x % m == 0 implies match_seq(n, k).contains(x as u32) by {
                if x < k - 1 {
                    assert(prev.contains(x as u32));
                    let i = choose|i: int| 0 <= i < prev.len() && prev[i] == x as u32;
                    assert(match_seq(n, k)[i] == x as u32);
                } else {
                    assert(match_seq(n, k)[prev.len() as int] == x as u32);
                }
            }
        } else {
            assert(match_seq(n, k) == prev);
            assert forall|i: int|
                0 <= i < match_seq(n, k).len() implies ((match_seq(n, k)[i]) as int) == i * m by {
                assert(match_seq(n, k)[i] == prev[i]);
            }
            assert forall|x: int|
                #![trigger match_seq(n, k).contains(x as u32)]
                0 <= x < k && x % m == 0 implies match_seq(n, k).contains(x as u32) by {
                assert(x < k - 1);
                assert(prev.contains(x as u32));
            }
        }
    }
}

/// The matching candidates below a smaller bound are a prefix of those below
/// a larger bound: scanning further only appends matches.
pub proof fn lemma_match_seq_prefix(n: nat, k1: nat, k2: nat)
    requires
        k1 <= k2,
    ensures
        match_seq(n, k1).is_prefix_of(match_seq(n, k2)),
    decreases k2,
{
    if k1 < k2 {
        lemma_match_seq_prefix(n, k1, (k2 - 1) as nat);
        assert(match_seq(n, k1).is_prefix_of(match_seq(n, (k2 - 1) as nat)));
        if is_match(n, k2 - 1) {
            assert(match_seq(n, k2) == match_seq(n, (k2 - 1) as nat).push(
                ((k2 - 1) as nat) as u32,
            ));
        }
        assert(match_seq(n, k1) =~= match_seq(n, k2).subrange(0, match_seq(n, k1).len() as int));
    } else {
        assert(match_seq(n, k1) =~= match_seq(n, k2).subrange(0, match_seq(n, k1).len() as int));
    }
}

/// A run length of zero is matched by every candidate: the empty suffix
/// requirement holds of any digest.
pub proof fn lemma_zero_run_always_matches(x: int)
    ensures
        is_match(0, x),
{
}

/// With a run length of zero, the matching candidates below `k` are exactly
/// `0, 1, ..., k-1`.
pub proof fn lemma_match_seq_zero_run(k: nat)
    requires
        k <= u32::MAX + 1,
    ensures
        match_seq(0, k).len() == k,
        forall|i: int| 0 <= i < k ==> match_seq(0, k)[i] == i as u32,
    decreases k,
{
    if k > 0 {
        lemma_match_seq_zero_run((k - 1) as nat);
        lemma_zero_run_always_matches(k - 1);
    }
}

} // verus!
