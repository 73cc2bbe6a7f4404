//! Sets of digits and the decimal literals that denote them.
//!
//! A cell's candidates are modelled as a `Set<int>` within the digits 1 to 9.
//! A decimal literal denotes the set of its nonzero digits; a set is written
//! back as the literal that lists its members in increasing order.

use vstd::prelude::*;

verus! {

/// The nine digits of the puzzle.
pub open spec fn all_digits() -> Set<int> {
    Set::new(|d: int| 1 <= d <= 9)
}

/// Whether `d` occurs among the decimal digits of `n`.
pub open spec fn has_digit(n: nat, d: int) -> bool
    decreases n,
{
    n != 0 && (n % 10 == d || has_digit(n / 10, d))
}

/// The set of nonzero digits that occur in the decimal literal `n`.
pub open spec fn digit_set(n: nat) -> Set<int> {
    Set::new(|d: int| 1 <= d <= 9 && has_digit(n, d))
}

/// The number whose decimal digits are the members of `s` that are at most
/// `k`, in increasing order from left to right; 0 when there is none.
pub open spec fn literal(s: Set<int>, k: int) -> nat
    decreases k,
{
    if k <= 0 {
        0
    } else if s.contains(k) {
        literal(s, k - 1) * 10 + k as nat
    } else {
        literal(s, k - 1)
    }
}

/// The least members of `s`: empty when `s` is empty, otherwise the set that
/// holds the smallest member alone.
pub open spec fn least(s: Set<int>) -> Set<int> {
    Set::new(|d: int| s.contains(d) && forall|e: int| s.contains(e) ==> d <= e)
}

/// The members of `s` that are at most `k`.
pub open spec fn upto(s: Set<int>, k: int) -> Set<int> {
    Set::new(|d: int| 1 <= d <= k && s.contains(d))
}

/// 10 to the power `j`.
pub open spec fn pow10(j: nat) -> nat
    decreases j,
{
    if j == 0 {
        1
    } else {
        10 * pow10((j - 1) as nat)
    }
}

/// A set of digits is finite and has at most nine members.
pub proof fn lemma_digits_finite(s: Set<int>)
    requires
        s.subset_of(all_digits()),
    ensures
        s.finite(),
        s.len() <= 9,
{
    lemma_upto_len(s, 9);
    assert(upto(s, 9) =~= s);
}

/// The members up to `k` form a finite set of at most `k` members, which
/// grows by `k` itself exactly when `k` is a member.
pub proof fn lemma_upto_len(s: Set<int>, k: int)
    requires
        0 <= k,
    ensures
        upto(s, k).finite(),
        upto(s, k).len() <= k,
        k >= 1 && s.contains(k) ==> upto(s, k) == upto(s, k - 1).insert(k) && upto(s, k).len()
            == upto(s, k - 1).len() + 1,
        k >= 1 && !s.contains(k) ==> upto(s, k) == upto(s, k - 1),
    decreases k,
{
    if k == 0 {
        assert(upto(s, 0) =~= Set::empty());
    } else {
        lemma_upto_len(s, k - 1);
        if s.contains(k) {
            assert(upto(s, k) =~= upto(s, k - 1).insert(k));
        } else {
            assert(upto(s, k) =~= upto(s, k - 1));
        }
    }
}

/// A literal of the members up to `k` lies below 10 to the number of them.
pub proof fn lemma_literal_bound(s: Set<int>, k: int)
    requires
        0 <= k <= 9,
    ensures
        literal(s, k) < pow10(upto(s, k).len()),
        upto(s, k).len() == 0 ==> literal(s, k) == 0,
        upto(s, k).len() > 0 ==> literal(s, k) >= pow10((upto(s, k).len() - 1) as nat),
    decreases k,
{
    lemma_upto_len(s, k);
    if k > 0 {
        lemma_literal_bound(s, k - 1);
        lemma_upto_len(s, k - 1);
    }
}

/// The literal of a set of digits has one digit exactly when the set has at
/// most one member.
pub proof fn lemma_literal_size(s: Set<int>)
    requires
        s.subset_of(all_digits()),
    ensures
        s.len() <= 1 <==> literal(s, 9) < 10,
{
    lemma_literal_bound(s, 9);
    assert(upto(s, 9) =~= s);
    reveal_with_fuel(pow10, 2);
    if s.len() >= 2 {
        lemma_pow10_grows(1, (s.len() - 1) as nat);
    }
}

/// The powers of 10 grow.
proof fn lemma_pow10_grows(i: nat, j: nat)
    requires
        i <= j,
    ensures
        pow10(i) <= pow10(j),
    decreases j,
{
    if i < j {
        lemma_pow10_grows(i, (j - 1) as nat);
    }
}

/// The digits of the literal of the members up to `k` are those members.
pub proof fn lemma_literal_digits(s: Set<int>, k: int, d: int)
    requires
        0 <= k <= 9,
        1 <= d <= 9,
    ensures
        has_digit(literal(s, k), d) <==> (d <= k && s.contains(d)),
    decreases k,
{
    if k > 0 {
        lemma_literal_digits(s, k - 1, d);
        if s.contains(k) {
            let low = literal(s, k - 1);
            let n = literal(s, k);
            assert(n == low * 10 + k);
            assert(n % 10 == k && n / 10 == low);
        }
    }
}

/// Writing a set of digits as a literal and reading the literal back gives
/// the same set.
pub proof fn lemma_literal_round_trip(s: Set<int>)
    requires
        s.subset_of(all_digits()),
    ensures
        digit_set(literal(s, 9)) == s,
{
    assert forall|d: int| digit_set(literal(s, 9)).contains(d) <==> s.contains(d) by {
        if 1 <= d <= 9 {
            lemma_literal_digits(s, 9, d);
        }
    }
    assert(digit_set(literal(s, 9)) =~= s);
}

/// Reading a literal, writing the set and reading again changes nothing: the
/// written literal has the digits of the first, whatever their order and
/// however often each occurred.
pub proof fn lemma_digits_round_trip(n: nat)
    ensures
        digit_set(literal(digit_set(n), 9)) == digit_set(n),
{
    lemma_literal_round_trip(digit_set(n));
}

/// There are nine digits.
pub proof fn lemma_all_digits()
    ensures
        all_digits().finite(),
        all_digits().len() == 9,
{
    lemma_count_upto(9);
    assert(upto(all_digits(), 9) =~= all_digits());
}

proof fn lemma_count_upto(k: int)
    requires
        0 <= k <= 9,
    ensures
        upto(all_digits(), k).finite(),
        upto(all_digits(), k).len() == k,
    decreases k,
{
    lemma_upto_len(all_digits(), k);
    if k > 0 {
        lemma_count_upto(k - 1);
    }
}

/// All nine digits together are written as 123456789.
pub proof fn lemma_all_digits_literal()
    ensures
        literal(all_digits(), 9) == 123456789,
{
    reveal_with_fuel(literal, 10);
}

/// Two members of a set with at most one member are the same.
pub proof fn lemma_single_member(s: Set<int>, a: int, b: int)
    requires
        s.finite(),
        s.len() <= 1,
        s.contains(a),
        s.contains(b),
    ensures
        a == b,
{
    if a != b {
        assert(s.remove(a).contains(b));
        assert(s.remove(a).len() == s.len() - 1);
    }
}

/// The least members of a set of digits: none for the empty set, else one,
/// which is a member and no greater than any other.
pub proof fn lemma_least(s: Set<int>)
    requires
        s.subset_of(all_digits()),
    ensures
        least(s).subset_of(s),
        s.len() == 0 ==> least(s) == Set::<int>::empty(),
        s.len() > 0 ==> least(s).len() == 1,
        forall|d: int, e: int| least(s).contains(d) && s.contains(e) ==> d <= e,
{
    lemma_digits_finite(s);
    if s.len() == 0 {
        assert(least(s) =~= Set::empty());
    } else {
        assert(upto(s, 9) =~= s);
        let m = lemma_least_upto(s, 9);
        assert(least(s) =~= Set::empty().insert(m));
    }
}

/// A nonempty set of digits up to `k` has a smallest member.
proof fn lemma_least_upto(s: Set<int>, k: int) -> (m: int)
    requires
        0 <= k,
        upto(s, k).len() > 0,
    ensures
        1 <= m <= k,
        s.contains(m),
        forall|e: int| 1 <= e <= k && s.contains(e) ==> m <= e,
    decreases k,
{
    lemma_upto_len(s, k);
    if k == 0 {
        0
    } else {
        lemma_upto_len(s, k - 1);
        if upto(s, k - 1).len() > 0 {
            lemma_least_upto(s, k - 1)
        } else {
            assert forall|e: int| 1 <= e <= k - 1 implies !s.contains(e) by {
                if s.contains(e) {
                    assert(upto(s, k - 1).contains(e));
                }
            }
            k
        }
    }
}

} // verus!
