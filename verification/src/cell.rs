//! The candidate set of one cell: a subset of the digits 1 to 9, held as a
//! nine-bit set.

use crate::bits::{
    bit16, bit32, clear_bit, is_pow2_or_zero, lemma_lit_agrees, lemma_lit_clear_above,
    lemma_none_below, lemma_ones_high, lemma_ones_unfold, lemma_pow10, lit, log2, min_bit,
    none_below, ones_below,
};
use crate::digits::{all_digits, digit_set, has_digit, least, literal, pow10, upto};
use crate::digits::{lemma_digits_finite, lemma_literal_round_trip, lemma_upto_len};
use crate::text::{decimal, decimal_string};
use vstd::prelude::*;
use vstd::std_specs::ops::{AddSpec, BitAndSpec, NotSpec, SubSpec};

verus! {

/// The digits that may still stand in a cell. Bit `d - 1` is set when digit
/// `d` is a candidate; no bit above position 8 is ever set.
#[derive(Clone, Copy, Debug, PartialEq, Eq, Structural)]
pub struct Cell {
    bits: u16,
}

/// Whether the bit of digit `d` is set in `x`.
spec fn digit_bit(x: u16, d: int) -> bool {
    1 <= d <= 9 && bit16(x, (d - 1) as u16)
}

impl View for Cell {
    type V = Set<int>;

    /// The candidate digits as a set.
    closed spec fn view(&self) -> Set<int> {
        Set::new(|d: int| digit_bit(self.bits, d))
    }
}

impl Cell {
    /// No bit outside the nine digit positions is set.
    #[verifier::type_invariant]
    pub closed spec fn wf(&self) -> bool {
        self.bits <= 0x1FF
    }

    /// The candidates of a cell are digits, so they are finitely many: nine
    /// at most.
    pub proof fn lemma_view(&self)
        ensures
            self@.subset_of(all_digits()),
            self@.finite(),
            self@.len() <= 9,
    {
        lemma_digits_finite(self@);
    }

    /// A cell has as many candidates as there are bits set among the low nine.
    proof fn lemma_len(&self)
        ensures
            self@.finite(),
            self@.len() == ones_below(self.bits, 9),
    {
        lemma_digits_finite(self@);
        self.lemma_ones(9);
        assert(upto(self@, 9) =~= self@);
    }

    /// The literal of the candidates, read off the bits.
    proof fn lemma_lit(&self)
        ensures
            lit(self.bits as u32, 9) == literal(self@, 9),
    {
        self.lemma_lit_upto(9);
    }

    proof fn lemma_lit_upto(&self, k: nat)
        requires
            k <= 9,
        ensures
            lit(self.bits as u32, k) == literal(self@, k as int),
        decreases k,
    {
        if k > 0 {
            self.lemma_lit_upto((k - 1) as nat);
            let x = self.bits;
            let j = (k - 1) as u16;
            let j32 = (k - 1) as u32;
            assert(self@.contains(k as int) == digit_bit(x, k as int));
            assert(bit16(x, j) == bit32(x as u32, j32)) by (bit_vector)
                requires
                    j < 9,
                    j32 == j as u32,
            ;
        }
    }

    proof fn lemma_ones(&self, k: nat)
        requires
            k <= 9,
        ensures
            upto(self@, k as int).len() == ones_below(self.bits, k),
        decreases k,
    {
        lemma_upto_len(self@, k as int);
        if k > 0 {
            self.lemma_ones((k - 1) as nat);
        }
    }

    /// Two well-formed cells with the same candidates are the same cell.
    pub proof fn lemma_view_injective(&self, other: &Cell)
        requires
            self.wf(),
            other.wf(),
            self@ == other@,
        ensures
            *self == *other,
    {
        let a = self.bits;
        let b = other.bits;
        assert forall|k: u16| k < 9 implies bit16(a, k) == bit16(b, k) by {
            let d = k as int + 1;
            assert(self@.contains(d) == digit_bit(a, d));
            assert(other@.contains(d) == digit_bit(b, d));
            assert((d - 1) as u16 == k);
        }
        assert(a == b) by (bit_vector)
            requires
                a <= 0x1FF,
                b <= 0x1FF,
                bit16(a, 0) == bit16(b, 0),
                bit16(a, 1) == bit16(b, 1),
                bit16(a, 2) == bit16(b, 2),
                bit16(a, 3) == bit16(b, 3),
                bit16(a, 4) == bit16(b, 4),
                bit16(a, 5) == bit16(b, 5),
                bit16(a, 6) == bit16(b, 6),
                bit16(a, 7) == bit16(b, 7),
                bit16(a, 8) == bit16(b, 8),
        ;
    }

    /// The set of the nonzero digits of the decimal literal `values`, in
    /// whatever order and however often each occurs.
    pub fn new(values: u32) -> (c: Cell)
        ensures
            c@ == digit_set(values as nat),
    {
        let mut rest: u32 = values;
        let mut bits: u16 = 0;
        proof {
            assert forall|k: u16| !bit16(0u16, k) by {
                assert(!bit16(0u16, k)) by (bit_vector);
            }
        }
        while rest > 0
            invariant
                bits <= 0x3FF,
                forall|d: int|
                    0 <= d <= 9 ==> (#[trigger] has_digit(values as nat, d) <==> bit16(
                        bits,
                        d as u16,
                    ) || has_digit(rest as nat, d)),
            decreases rest,
        {
            let low: u32 = rest % 10;
            let ghost before = bits;
            let ghost m = low as u16;
            bits |= 1u16 << low;
            proof {
                assert(bits <= 0x3FF) by (bit_vector)
                    requires
                        before <= 0x3FF,
                        m < 10,
                        bits == before | (1u16 << m),
                ;
                assert forall|d: int| 0 <= d <= 9 implies (#[trigger] has_digit(values as nat, d)
                    <==> bit16(bits, d as u16) || has_digit((rest / 10) as nat, d)) by {
                    let k = d as u16;
                    assert(bit16(bits, k) <==> bit16(before, k) || k == m) by (bit_vector)
                        requires
                            k < 10,
                            m < 10,
                            bits == before | (1u16 << m),
                    ;
                }
            }
            rest /= 10;
        }
        let half: u16 = bits >> 1;
        proof {
            assert(half <= 0x1FF) by (bit_vector)
                requires
                    bits <= 0x3FF,
                    half == bits >> 1u16,
            ;
        }
        let c = Cell { bits: half };
        proof {
            let r = c.bits;
            assert forall|d: int| c@.contains(d) <==> digit_set(values as nat).contains(d) by {
                assert(c@.contains(d) == digit_bit(r, d));
                if 1 <= d <= 9 {
                    let k = (d - 1) as u16;
                    let k1 = d as u16;
                    assert(bit16(r, k) == bit16(bits, k1)) by (bit_vector)
                        requires
                            k < 9,
                            k1 == k + 1,
                            r == bits >> 1u16,
                    ;
                    assert(has_digit(values as nat, d) <==> bit16(bits, d as u16) || has_digit(
                        rest as nat,
                        d,
                    ));
                }
            }
            assert(c@ =~= digit_set(values as nat));
        }
        c
    }

    /// The set of all nine digits.
    pub fn full() -> (c: Cell)
        ensures
            c@ == all_digits(),
    {
        let c = Cell { bits: 0x1FF };
        proof {
            assert forall|d: int| 1 <= d <= 9 implies #[trigger] digit_bit(0x1FFu16, d) by {
                let k = (d - 1) as u16;
                assert(k < 9 ==> bit16(0x1FFu16, k)) by (bit_vector);
            }
            assert(c@ =~= all_digits());
        }
        c
    }

    /// The number of candidates.
    pub fn count(&self) -> (n: u32)
        ensures
            n == self@.len(),
    {
        let mut n: u32 = 0;
        let mut k: u16 = 0;
        while k < 9
            invariant
                k <= 9,
                n == ones_below(self.bits, k as nat),
                n <= k,
            decreases 9 - k,
        {
            if (self.bits >> k) & 1 == 1 {
                n += 1;
            }
            k += 1;
        }
        proof {
            self.lemma_len();
        }
        n
    }

    /// Whether at least one candidate is left.
    pub fn solvable(&self) -> (b: bool)
        ensures
            b == (self@.len() >= 1),
    {
        proof {
            use_type_invariant(self);
            self.lemma_len();
            lemma_ones_unfold(self.bits);
            let x = self.bits;
            assert(x > 0 <==> bit16(x, 0) || bit16(x, 1) || bit16(x, 2) || bit16(x, 3) || bit16(
                x,
                4,
            ) || bit16(x, 5) || bit16(x, 6) || bit16(x, 7) || bit16(x, 8)) by (bit_vector)
                requires
                    x <= 0x1FF,
            ;
        }
        self.bits > 0
    }

    /// Whether at most one candidate is left.
    pub fn single(&self) -> (b: bool)
        ensures
            b == (self@.len() <= 1),
    {
        proof {
            use_type_invariant(self);
            self.lemma_len();
            lemma_ones_high(self.bits);
        }
        is_pow2_or_zero(self.bits)
    }

    /// Whether exactly one candidate is left.
    pub fn solved(&self) -> (b: bool)
        ensures
            b == (self@.len() == 1),
    {
        self.single() && self.solvable()
    }

    /// The decimal literal that lists the candidates in increasing order,
    /// or 0 when there is none.
    pub fn values(&self) -> (v: u32)
        ensures
            v == literal(self@, 9),
            digit_set(v as nat) == self@,
    {
        proof {
            use_type_invariant(self);
        }
        let mut values: u32 = 0;
        let mut place: u32 = 1;
        let mut bits: u32 = self.bits as u32;
        let ghost orig = bits;
        let ghost top: nat = 9;
        let ghost done: nat = 0;
        proof {
            let x = self.bits;
            assert(bits >> 9u32 == 0) by (bit_vector)
                requires
                    x <= 0x1FF,
                    bits == x as u32,
            ;
        }
        while bits > 0
            invariant
                orig == self.bits as u32,
                done + top <= 9,
                bits >> (top as u32) == 0,
                place == pow10(done),
                values < place,
                lit(orig, 9) == lit(bits, top) * place + values,
            decreases bits,
        {
            let m: u32 = log2(bits);
            let ghost before = bits;
            let ghost t = top as u32;
            proof {
                assert(m < t) by (bit_vector)
                    requires
                        before >> t == 0,
                        before >> m == 1,
                        m < 32,
                        t <= 9,
                ;
                assert(bit32(before, m)) by (bit_vector)
                    requires
                        before >> m == 1,
                        m < 32,
                ;
                assert forall|k: u32| m < k < 32 implies !bit32(before, k) by {
                    assert(m < k < 32 && before >> m == 1 ==> !bit32(before, k)) by (bit_vector);
                }
                lemma_lit_clear_above(before, (m + 1) as nat, top);
                lemma_pow10(done);
                assert((m + 1) * place <= 9 * place) by (nonlinear_arith)
                    requires
                        m + 1 <= 9,
                        0 <= place,
                ;
            }
            values += (m + 1) * place;
            place *= 10;
            bits = clear_bit(bits, m);
            proof {
                assert(bits >> m == 0 && bits < before) by (bit_vector)
                    requires
                        before >> m == 1,
                        m < 32,
                        bits == before & !(1u32 << m),
                ;
                lemma_lit_agrees(before, bits, m as nat);
                let low = lit(bits, m as nat);
                let old_place = pow10(done);
                let old_values = (values - (m + 1) * old_place) as nat;
                assert((low * 10 + (m + 1)) * old_place + old_values == low * (10 * old_place) + (
                (m + 1) * old_place + old_values)) by (nonlinear_arith);
                top = m as nat;
                done = done + 1;
            }
        }
        proof {
            assert forall|j: u32| j < top implies !bit32(bits, j) by {
                assert(!bit32(0u32, j)) by (bit_vector);
            }
            lemma_lit_clear_above(bits, 0, top);
            let rest = lit(bits, top);
            assert(rest * place == 0) by (nonlinear_arith)
                requires
                    rest == 0,
            ;
            self.lemma_lit();
            self.lemma_view();
            lemma_literal_round_trip(self@);
        }
        values
    }

    /// The candidates as text: the decimal text of `values()`.
    pub fn to_string(&self) -> (s: String)
        ensures
            s@ == decimal(literal(self@, 9)),
    {
        decimal_string(self.values())
    }

    /// The set that holds the smallest candidate alone, or the empty set
    /// when there is no candidate.
    pub fn min(&self) -> (m: Cell)
        ensures
            m@ == least(self@),
            m@.subset_of(self@),
            self@.len() == 0 ==> m@.len() == 0,
            self@.len() >= 1 ==> m@.len() == 1,
    {
        proof {
            use_type_invariant(self);
        }
        let m = Cell { bits: min_bit(self.bits) };
        proof {
            let x = self.bits;
            let r = m.bits;
            assert forall|d: int| m@.contains(d) <==> least(self@).contains(d) by {
                assert(m@.contains(d) == digit_bit(r, d));
                assert(self@.contains(d) == digit_bit(x, d));
                if 1 <= d <= 9 {
                    let k = (d - 1) as u16;
                    if digit_bit(r, d) {
                        assert forall|e: int| self@.contains(e) implies d <= e by {
                            assert(self@.contains(e) == digit_bit(x, e));
                            let j = (e - 1) as u16;
                            assert(j < k && k < 16 && none_below(x, k) ==> !bit16(x, j))
                                by (bit_vector);
                        }
                    }
                    if digit_bit(x, d) && (forall|e: int| self@.contains(e) ==> d <= e) {
                        assert forall|j: u16| j < k implies !bit16(x, j) by {
                            let e = j as int + 1;
                            assert(self@.contains(e) == digit_bit(x, e));
                            assert((e - 1) as u16 == j);
                        }
                        lemma_none_below(x, k);
                    }
                }
            }
            assert(m@ =~= least(self@));
            self.lemma_view();
            crate::digits::lemma_least(self@);
        }
        m
    }
}

/// `a + b` is the union of the two candidate sets.
impl core::ops::Add for Cell {
    type Output = Cell;

    fn add(self, r: Cell) -> (c: Cell)
        ensures
            c@ == self@.union(r@),
    {
        proof {
            use_type_invariant(&self);
            use_type_invariant(&r);
            lemma_or(self.bits, r.bits);
        }
        let c = Cell { bits: self.bits | r.bits };
        proof {
            assert(c@ =~= self@.union(r@));
        }
        c
    }
}

impl vstd::std_specs::ops::AddSpecImpl for Cell {
    open spec fn obeys_add_spec() -> bool {
        true
    }

    open spec fn add_req(self, r: Cell) -> bool {
        true
    }

    closed spec fn add_spec(self, r: Cell) -> Cell {
        Cell { bits: self.bits | r.bits }
    }
}

/// `a - b` is `a` without the candidates of `b`.
impl core::ops::Sub for Cell {
    type Output = Cell;

    fn sub(self, r: Cell) -> (c: Cell)
        ensures
            c@ == self@.difference(r@),
    {
        proof {
            use_type_invariant(&self);
            use_type_invariant(&r);
            lemma_and_not(self.bits, r.bits);
        }
        let c = Cell { bits: self.bits & !r.bits };
        proof {
            assert(c@ =~= self@.difference(r@));
        }
        c
    }
}

impl vstd::std_specs::ops::SubSpecImpl for Cell {
    open spec fn obeys_sub_spec() -> bool {
        true
    }

    open spec fn sub_req(self, r: Cell) -> bool {
        true
    }

    closed spec fn sub_spec(self, r: Cell) -> Cell {
        Cell { bits: self.bits & !r.bits }
    }
}

/// `a & b` is the intersection of the two candidate sets.
impl core::ops::BitAnd for Cell {
    type Output = Cell;

    fn bitand(self, r: Cell) -> (c: Cell)
        ensures
            c@ == self@.intersect(r@),
    {
        proof {
            use_type_invariant(&self);
            use_type_invariant(&r);
            lemma_and(self.bits, r.bits);
        }
        let c = Cell { bits: self.bits & r.bits };
        proof {
            assert(c@ =~= self@.intersect(r@));
        }
        c
    }
}

impl vstd::std_specs::ops::BitAndSpecImpl for Cell {
    open spec fn obeys_bitand_spec() -> bool {
        true
    }

    open spec fn bitand_req(self, r: Cell) -> bool {
        true
    }

    closed spec fn bitand_spec(self, r: Cell) -> Cell {
        Cell { bits: self.bits & r.bits }
    }
}

/// `!a` holds the digits that are no candidates of `a`.
impl core::ops::Not for Cell {
    type Output = Cell;

    fn not(self) -> (c: Cell)
        ensures
            c@ == all_digits().difference(self@),
    {
        proof {
            lemma_not(self.bits);
        }
        let c = Cell { bits: !self.bits & 0x1FF };
        proof {
            assert(c@ =~= all_digits().difference(self@));
        }
        c
    }
}

impl vstd::std_specs::ops::NotSpecImpl for Cell {
    open spec fn obeys_not_spec() -> bool {
        true
    }

    open spec fn not_req(self) -> bool {
        true
    }

    closed spec fn not_spec(self) -> Cell {
        Cell { bits: !self.bits & 0x1FF }
    }
}

/// `a += b` adds the candidates of `b` to `a`.
impl core::ops::AddAssign for Cell {
    fn add_assign(&mut self, r: Cell)
        ensures
            final(self)@ == old(self)@.union(r@),
    {
        *self = *self + r;
    }
}

/// `a -= b` removes the candidates of `b` from `a`.
impl core::ops::SubAssign for Cell {
    fn sub_assign(&mut self, r: Cell)
        ensures
            final(self)@ == old(self)@.difference(r@),
    {
        *self = *self - r;
    }
}

/// `a &= b` keeps of `a` the candidates that `b` has too.
impl core::ops::BitAndAssign for Cell {
    fn bitand_assign(&mut self, r: Cell)
        ensures
            final(self)@ == old(self)@.intersect(r@),
    {
        *self = *self & r;
    }
}

/// What the four operators compute, over the candidate sets; each keeps a
/// well-formed cell well-formed.
pub proof fn lemma_operators(a: Cell, b: Cell)
    ensures
        a.add_spec(b)@ == a@.union(b@),
        a.sub_spec(b)@ == a@.difference(b@),
        a.bitand_spec(b)@ == a@.intersect(b@),
        a.not_spec()@ == all_digits().difference(a@),
        a.wf() && b.wf() ==> a.add_spec(b).wf(),
        a.wf() ==> a.sub_spec(b).wf() && a.bitand_spec(b).wf(),
        a.not_spec().wf(),
{
    lemma_or(a.bits, b.bits);
    lemma_and_not(a.bits, b.bits);
    lemma_and(a.bits, b.bits);
    lemma_not(a.bits);
    assert(a.add_spec(b)@ =~= a@.union(b@));
    assert(a.sub_spec(b)@ =~= a@.difference(b@));
    assert(a.bitand_spec(b)@ =~= a@.intersect(b@));
    assert(a.not_spec()@ =~= all_digits().difference(a@));
}

/// Taking `b` away from the union of `a` and `b` leaves only candidates of
/// `a`.
pub proof fn lemma_union_difference(a: Cell, b: Cell)
    ensures
        a.add_spec(b).sub_spec(b)@.subset_of(a@),
{
    lemma_operators(a, b);
    lemma_operators(a.add_spec(b), b);
}

/// The intersection of a cell with itself is the cell.
pub proof fn lemma_intersect_self(a: Cell)
    ensures
        a.bitand_spec(a) == a,
{
    let x = a.bits;
    assert(x & x == x) by (bit_vector);
}

/// The complement of the complement of a cell is the cell.
pub proof fn lemma_complement_twice(a: Cell)
    requires
        a.wf(),
    ensures
        a.not_spec().not_spec() == a,
{
    let x = a.bits;
    assert(!(!x & 0x1FF) & 0x1FF == x) by (bit_vector)
        requires
            x <= 0x1FF,
    ;
}

/// The bits of a union.
proof fn lemma_or(a: u16, b: u16)
    ensures
        a <= 0x1FF && b <= 0x1FF ==> (a | b) <= 0x1FF,
        forall|d: int| #[trigger] digit_bit(a | b, d) <==> digit_bit(a, d) || digit_bit(b, d),
{
    assert(a <= 0x1FF && b <= 0x1FF ==> (a | b) <= 0x1FF) by (bit_vector);
    assert forall|d: int| #[trigger] digit_bit(a | b, d) <==> digit_bit(a, d) || digit_bit(b, d) by {
        let k = (d - 1) as u16;
        assert(bit16(a | b, k) <==> bit16(a, k) || bit16(b, k)) by (bit_vector);
    }
}

/// The bits of a difference.
proof fn lemma_and_not(a: u16, b: u16)
    ensures
        a <= 0x1FF ==> (a & !b) <= 0x1FF,
        forall|d: int| #[trigger] digit_bit(a & !b, d) <==> digit_bit(a, d) && !digit_bit(b, d),
{
    assert(a <= 0x1FF ==> (a & !b) <= 0x1FF) by (bit_vector);
    assert forall|d: int| #[trigger] digit_bit(a & !b, d) <==> digit_bit(a, d) && !digit_bit(b, d) by {
        let k = (d - 1) as u16;
        assert(k < 16 ==> (bit16(a & !b, k) <==> bit16(a, k) && !bit16(b, k))) by (bit_vector);
    }
}

/// The bits of an intersection.
proof fn lemma_and(a: u16, b: u16)
    ensures
        a <= 0x1FF ==> (a & b) <= 0x1FF,
        forall|d: int| #[trigger] digit_bit(a & b, d) <==> digit_bit(a, d) && digit_bit(b, d),
{
    assert(a <= 0x1FF ==> (a & b) <= 0x1FF) by (bit_vector);
    assert forall|d: int| #[trigger] digit_bit(a & b, d) <==> digit_bit(a, d) && digit_bit(b, d) by {
        let k = (d - 1) as u16;
        assert(bit16(a & b, k) <==> bit16(a, k) && bit16(b, k)) by (bit_vector);
    }
}

/// The bits of a complement within the nine digits.
proof fn lemma_not(a: u16)
    ensures
        (!a & 0x1FF) <= 0x1FF,
        forall|d: int| #[trigger] digit_bit(!a & 0x1FF, d) <==> 1 <= d <= 9 && !digit_bit(a, d),
{
    assert((!a & 0x1FF) <= 0x1FF) by (bit_vector);
    assert forall|d: int| #[trigger] digit_bit(!a & 0x1FF, d) <==> 1 <= d <= 9 && !digit_bit(a, d) by {
        let k = (d - 1) as u16;
        assert(k < 9 ==> (bit16(!a & 0x1FF, k) <==> !bit16(a, k))) by (bit_vector);
    }
}

} // verus!
