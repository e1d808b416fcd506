//! A set of decimal digits held in the low ten bits of a `u16`.
use vstd::prelude::*;

verus! {

/// Set of digits between 0 and 9. Digit `d` is a member when bit `d` is set;
/// the bits above bit 9 are always clear, so two sets with the same members
/// are equal as values.
#[derive(Clone, Copy, Debug, PartialEq, Eq, PartialOrd, Ord, Hash, Structural)]
pub struct Simple09Set(u16);

/// Bit that stands for `digit`, or `0` for a number that is no digit.
pub closed spec fn digit_mask(digit: u8) -> u16 {
    if digit <= 9 {
        1u16 << (digit as u16)
    } else {
        0
    }
}

/// The masks of two digits share a bit only where the digits are equal.
proof fn lemma_mask_bits(d: u16, e: u16)
    by (bit_vector)
    requires
        d <= 9,
        e <= 9,
    ensures
        ((1u16 << d) & (1u16 << e) != 0) <==> d == e,
        (1u16 << d) < 1024,
        (1u16 << d) != 0,
{
}

/// A bit is set in `m | k` where it is set in `m` or in `k`.
proof fn lemma_or_bits(m: u16, k: u16, j: u16)
    by (bit_vector)
    ensures
        ((m | k) & j != 0) <==> (m & j != 0 || k & j != 0),
        m < 1024 && k < 1024 ==> (m | k) < 1024,
{
}

/// The bit of a digit is set in `m & k` where it is set in both.
proof fn lemma_and_bits(m: u16, k: u16, e: u16)
    by (bit_vector)
    requires
        e <= 9,
    ensures
        ((m & k) & (1u16 << e) != 0) <==> (m & (1u16 << e) != 0 && k & (1u16 << e) != 0),
        m < 1024 ==> (m & k) < 1024,
{
}

/// The bit of a digit is set in `m` without the bits of `k` where it is set
/// in `m` and clear in `k`.
proof fn lemma_clear_bits(m: u16, k: u16, e: u16)
    by (bit_vector)
    requires
        e <= 9,
    ensures
        ((m & (!k & 1023)) & (1u16 << e) != 0) <==> (m & (1u16 << e) != 0 && k & (1u16 << e) == 0),
        (m & (!k & 1023)) < 1024,
{
}

/// A mask without a digit bit, and without a bit above bit 9, is 0.
proof fn lemma_zero_bits(m: u16)
    by (bit_vector)
    requires
        m < 1024,
        m & (1u16 << 0u16) == 0,
        m & (1u16 << 1u16) == 0,
        m & (1u16 << 2u16) == 0,
        m & (1u16 << 3u16) == 0,
        m & (1u16 << 4u16) == 0,
        m & (1u16 << 5u16) == 0,
        m & (1u16 << 6u16) == 0,
        m & (1u16 << 7u16) == 0,
        m & (1u16 << 8u16) == 0,
        m & (1u16 << 9u16) == 0,
    ensures
        m == 0,
{
}

/// The mask 0 shares no bit with any mask.
proof fn lemma_no_bits(j: u16)
    by (bit_vector)
    ensures
        0u16 & j == 0,
{
}

/// Bit mask of a digit between 0 and 9.
fn digit_mask_bit(digit: u8) -> (mask: u16)
    ensures
        mask == digit_mask(digit),
        mask < 1024,
{
    if digit <= 9 {
        proof {
            lemma_mask_bits(digit as u16, digit as u16);
        }
        1u16 << (digit as u16)
    } else {
        0
    }
}

/// The ten digit bits but that of `digit`.
fn not_digit_mask_bit(digit: u8) -> (mask: u16)
    ensures
        mask == !digit_mask(digit) & 1023,
{
    let mask = digit_mask_bit(digit);
    let mut not_mask = !mask;
    not_mask &= 1023;
    not_mask
}

impl Default for Simple09Set {
    /// The set without members.
    fn default() -> (r: Self)
        ensures
            r@ == Set::<u8>::empty(),
            r == Simple09Set::spec_empty(),
    {
        let r = Simple09Set(0);
        proof {
            assert forall|d: u8| !r.spec_contains(d) by {
                lemma_no_bits(digit_mask(d));
            }
            assert(r@ =~= Set::<u8>::empty());
        }
        r
    }
}

impl View for Simple09Set {
    type V = Set<u8>;

    /// The digits that the set holds.
    open spec fn view(&self) -> Set<u8> {
        Set::new(|d: u8| self.spec_contains(d))
    }
}

impl Simple09Set {
    /// No bit above bit 9 is set.
    #[verifier::type_invariant]
    spec fn canonical(self) -> bool {
        self.0 < 1024
    }

    /// Membership of one digit.
    pub closed spec fn spec_contains(self, digit: u8) -> bool {
        digit <= 9 && self.0 & digit_mask(digit) != 0
    }

    /// The set without members.
    pub closed spec fn spec_empty() -> Simple09Set {
        Simple09Set(0)
    }

    /// The set with `digit` added; unchanged where `digit` is above 9.
    pub closed spec fn spec_insert(self, digit: u8) -> Simple09Set {
        Simple09Set(self.0 | digit_mask(digit))
    }

    /// The set with `digit` taken out.
    pub closed spec fn spec_remove(self, digit: u8) -> Simple09Set {
        Simple09Set(self.0 & (!digit_mask(digit) & 1023))
    }

    /// The digits held by both sets.
    pub closed spec fn spec_intersection(self, other: Simple09Set) -> Simple09Set {
        Simple09Set(self.0 & other.0)
    }

    /// The digits held by either set.
    pub closed spec fn spec_union(self, other: Simple09Set) -> Simple09Set {
        Simple09Set(self.0 | other.0)
    }

    /// The digits of `self` that `other` does not hold.
    pub closed spec fn spec_without(self, other: Simple09Set) -> Simple09Set {
        Simple09Set(self.0 & (!other.0 & 1023))
    }

    /// The members below `bound`, in ascending order.
    pub open spec fn spec_digits_below(self, bound: nat) -> Seq<u8>
        decreases bound,
    {
        if bound == 0 {
            Seq::empty()
        } else {
            let lower = self.spec_digits_below((bound - 1) as nat);
            if self.spec_contains((bound - 1) as u8) {
                lower.push((bound - 1) as u8)
            } else {
                lower
            }
        }
    }

    /// All members in ascending order.
    pub open spec fn spec_as_seq(self) -> Seq<u8> {
        self.spec_digits_below(10)
    }

    /// Only digits are members.
    pub broadcast proof fn lemma_members_are_digits(self, digit: u8)
        ensures
            #[trigger] self.spec_contains(digit) ==> digit <= 9,
    {
    }

    /// What the set operations mean for membership.
    pub proof fn lemma_operations(self, other: Simple09Set, digit: u8)
        ensures
            forall|d: u8| !Simple09Set::spec_empty().spec_contains(d),
            forall|d: u8|
                self.spec_insert(digit).spec_contains(d) <==> self.spec_contains(d) || (d == digit
                    && digit <= 9),
            forall|d: u8|
                self.spec_remove(digit).spec_contains(d) <==> self.spec_contains(d) && d != digit,
            forall|d: u8|
                self.spec_intersection(other).spec_contains(d) <==> self.spec_contains(d)
                    && other.spec_contains(d),
            forall|d: u8|
                self.spec_union(other).spec_contains(d) <==> self.spec_contains(d)
                    || other.spec_contains(d),
            forall|d: u8|
                self.spec_without(other).spec_contains(d) <==> self.spec_contains(d)
                    && !other.spec_contains(d),
    {
        assert forall|d: u8| !Simple09Set::spec_empty().spec_contains(d) by {
            lemma_no_bits(digit_mask(d));
        }
        assert forall|d: u8|
            self.spec_insert(digit).spec_contains(d) <==> self.spec_contains(d) || (d == digit
                && digit <= 9) by {
            lemma_or_bits(self.0, digit_mask(digit), digit_mask(d));
            lemma_no_bits(digit_mask(d));
            if d <= 9 && digit <= 9 {
                lemma_mask_bits(digit as u16, d as u16);
            }
        }
        assert forall|d: u8|
            self.spec_remove(digit).spec_contains(d) <==> self.spec_contains(d) && d
                != digit by {
            if d <= 9 {
                lemma_clear_bits(self.0, digit_mask(digit), d as u16);
                lemma_no_bits(digit_mask(d));
                if digit <= 9 {
                    lemma_mask_bits(digit as u16, d as u16);
                }
            }
        }
        assert forall|d: u8|
            self.spec_intersection(other).spec_contains(d) <==> self.spec_contains(d)
                && other.spec_contains(d) by {
            if d <= 9 {
                lemma_and_bits(self.0, other.0, d as u16);
            }
        }
        assert forall|d: u8|
            self.spec_union(other).spec_contains(d) <==> self.spec_contains(d)
                || other.spec_contains(d) by {
            lemma_or_bits(self.0, other.0, digit_mask(d));
        }
        assert forall|d: u8|
            self.spec_without(other).spec_contains(d) <==> self.spec_contains(d)
                && !other.spec_contains(d) by {
            if d <= 9 {
                lemma_clear_bits(self.0, other.0, d as u16);
            }
        }
    }

    /// Striking from a set the members that it shares with another leaves a
    /// part of the set, and a smaller one where they share a member.
    pub proof fn lemma_strike(self, other: Simple09Set)
        ensures
            self.spec_without(self.spec_intersection(other))@ == self@.difference(other@),
            self.spec_intersection(other)@ == self@.intersect(other@),
            self@.finite(),
            self.spec_intersection(other)@ != Set::<u8>::empty() ==> self.spec_without(
                self.spec_intersection(other),
            )@.len() < self@.len(),
    {
        let gone = self.spec_intersection(other);
        let rest = self.spec_without(gone);
        self.lemma_operations(other, 0);
        self.lemma_operations(gone, 0);
        self.lemma_as_seq();
        assert forall|d: u8| rest@.contains(d) <==> self@.contains(d) && !other@.contains(d) by {
            assert(rest@.contains(d) == rest.spec_contains(d));
            assert(self@.contains(d) == self.spec_contains(d));
            assert(other@.contains(d) == other.spec_contains(d));
            assert(gone@.contains(d) == gone.spec_contains(d));
        }
        assert(rest@ =~= self@.difference(other@));
        assert forall|d: u8| gone@.contains(d) <==> self@.contains(d) && other@.contains(d) by {
            assert(self@.contains(d) == self.spec_contains(d));
            assert(other@.contains(d) == other.spec_contains(d));
            assert(gone@.contains(d) == gone.spec_contains(d));
        }
        assert(gone@ =~= self@.intersect(other@));
        if gone@ != Set::<u8>::empty() {
            if forall|d: u8| !gone@.contains(d) {
                assert(gone@ =~= Set::<u8>::empty());
            }
            let d = choose|d: u8| gone@.contains(d);
            rest@.lemma_subset_not_in_lt(self@, d);
        }
    }

    /// The ordered sequence lists each member once, in ascending order, and
    /// nothing else.
    pub proof fn lemma_digits_below(self, bound: nat)
        requires
            bound <= 10,
        ensures
            self.spec_digits_below(bound).len() <= bound,
            forall|i: int|
                0 <= i < self.spec_digits_below(bound).len() ==> {
                    &&& (#[trigger] self.spec_digits_below(bound)[i]) < bound
                    &&& self.spec_contains(self.spec_digits_below(bound)[i])
                },
            forall|i: int, j: int|
                0 <= i < j < self.spec_digits_below(bound).len() ==> self.spec_digits_below(
                    bound,
                )[i] < self.spec_digits_below(bound)[j],
            forall|d: u8|
                d < bound && self.spec_contains(d) ==> self.spec_digits_below(bound).contains(d),
        decreases bound,
    {
        if bound > 0 {
            let lower = self.spec_digits_below((bound - 1) as nat);
            let top = (bound - 1) as u8;
            self.lemma_digits_below((bound - 1) as nat);
            let all = self.spec_digits_below(bound);
            assert forall|d: u8| d < bound && self.spec_contains(d) implies all.contains(d) by {
                if d == top {
                    assert(all[all.len() - 1] == d);
                } else {
                    let i = choose|i: int| 0 <= i < lower.len() && lower[i] == d;
                    assert(all[i] == d);
                }
            }
        }
    }

    /// The ordered sequence and the view agree, so the set is finite and has as
    /// many members as the sequence is long.
    pub proof fn lemma_as_seq(self)
        ensures
            self@.finite(),
            self@.len() == self.spec_as_seq().len(),
            self@.len() <= 10,
            self.spec_as_seq().no_duplicates(),
            self.spec_as_seq().to_set() == self@,
            forall|d: u8| self.spec_as_seq().contains(d) <==> self@.contains(d),
            forall|i: int, j: int|
                0 <= i < j < self.spec_as_seq().len() ==> self.spec_as_seq()[i]
                    < self.spec_as_seq()[j],
    {
        let s = self.spec_as_seq();
        self.lemma_digits_below(10);
        assert(s.to_set() =~= self@);
        s.unique_seq_to_set();
        vstd::seq_lib::seq_to_set_is_finite(s);
    }

    /// The members of a set of one or two digits are the first one or two of
    /// its ordered sequence.
    pub proof fn lemma_few(self)
        ensures
            self@.len() == 1 ==> forall|d: u8| self@.contains(d) <==> d == self.spec_as_seq()[0],
            self@.len() == 2 ==> self.spec_as_seq()[0] != self.spec_as_seq()[1] && forall|d: u8|
                self@.contains(d) <==> d == self.spec_as_seq()[0] || d == self.spec_as_seq()[1],
    {
        let s = self.spec_as_seq();
        self.lemma_as_seq();
        if self@.len() == 1 {
            assert forall|d: u8| self@.contains(d) <==> d == s[0] by {
                if self@.contains(d) {
                    assert(s.contains(d));
                }
                if d == s[0] {
                    assert(s.contains(d));
                }
            }
        }
        if self@.len() == 2 {
            assert forall|d: u8| self@.contains(d) <==> d == s[0] || d == s[1] by {
                if self@.contains(d) {
                    assert(s.contains(d));
                }
                if d == s[0] || d == s[1] {
                    assert(s.contains(d));
                }
            }
        }
    }

    /// Builds the set of the digits listed; numbers above 9 are left out.
    pub fn new(digits: &[u8]) -> (r: Self)
        ensures
            forall|d: u8| r@.contains(d) <==> d <= 9 && digits@.contains(d),
    {
        let mut ret = Simple09Set::default();
        let mut i: usize = 0;
        proof {
            assert forall|d: u8| !ret.spec_contains(d) by {
                assert(ret@.contains(d) == ret.spec_contains(d));
            }
        }
        while i < digits.len()
            invariant
                i <= digits.len(),
                forall|d: u8|
                    ret.spec_contains(d) <==> d <= 9 && exists|j: int|
                        0 <= j < i && digits@[j] == d,
            decreases digits.len() - i,
        {
            let ghost before = ret;
            ret.insert(digits[i]);
            i += 1;
            proof {
                assert forall|d: u8|
                    ret.spec_contains(d) <==> d <= 9 && exists|j: int|
                        0 <= j < i && digits@[j] == d by {
                    assert(ret@.contains(d) == ret.spec_contains(d));
                    assert(before@.contains(d) == before.spec_contains(d));
                    if before.spec_contains(d) {
                        let j = choose|j: int| 0 <= j < i - 1 && digits@[j] == d;
                        assert(0 <= j < i && digits@[j] == d);
                    }
                    if d <= 9 && d == digits@[i - 1] {
                        assert(0 <= i - 1 < i && digits@[i - 1] == d);
                    }
                }
            }
        }
        ret
    }

    /// Adds a digit; no effect where it is already a member or above 9.
    pub fn insert(&mut self, digit: u8)
        ensures
            *final(self) == old(self).spec_insert(digit),
            final(self)@ == if digit <= 9 {
                old(self)@.insert(digit)
            } else {
                old(self)@
            },
    {
        proof {
            use_type_invariant(&*self);
            lemma_or_bits(self.0, digit_mask(digit), 0);
            self.lemma_operations(*self, digit);
        }
        let mask = digit_mask_bit(digit);
        self.0 |= mask;
        proof {
            assert(*self == old(self).spec_insert(digit));
            assert forall|d: u8|
                self@.contains(d) <==> old(self)@.contains(d) || (d == digit && digit <= 9) by {
                assert(self.spec_contains(d) == self@.contains(d));
                assert(old(self).spec_contains(d) == old(self)@.contains(d));
            }
            assert(self@ =~= if digit <= 9 {
                old(self)@.insert(digit)
            } else {
                old(self)@
            });
        }
    }

    /// Takes a digit out; no effect where it is no member.
    pub fn remove(&mut self, digit: u8)
        ensures
            *final(self) == old(self).spec_remove(digit),
            final(self)@ == old(self)@.remove(digit),
    {
        proof {
            lemma_clear_bits(self.0, digit_mask(digit), 0);
            self.lemma_operations(*self, digit);
        }
        let mask = not_digit_mask_bit(digit);
        self.0 &= mask;
        proof {
            assert(*self == old(self).spec_remove(digit));
            assert forall|d: u8| self@.contains(d) <==> old(self)@.contains(d) && d != digit by {
                assert(self.spec_contains(d) == self@.contains(d));
                assert(old(self).spec_contains(d) == old(self)@.contains(d));
            }
            assert(self@ =~= old(self)@.remove(digit));
        }
    }

    /// Number of members.
    pub fn len(self) -> (n: usize)
        ensures
            n == self@.len(),
            n <= 10,
    {
        proof {
            self.lemma_as_seq();
        }
        self.as_vec_u8().len()
    }

    /// Whether the set has no member.
    pub fn is_empty(self) -> (r: bool)
        ensures
            r <==> self@ == Set::<u8>::empty(),
            r <==> self == Simple09Set::spec_empty(),
    {
        proof {
            use_type_invariant(&self);
            if self.0 == 0 {
                assert forall|d: u8| !self.spec_contains(d) by {
                    lemma_no_bits(digit_mask(d));
                }
                assert(self@ =~= Set::<u8>::empty());
            } else {
                if self@ == Set::<u8>::empty() {
                    assert(!self@.contains(0) && !self@.contains(1) && !self@.contains(2)
                        && !self@.contains(3) && !self@.contains(4) && !self@.contains(5)
                        && !self@.contains(6) && !self@.contains(7) && !self@.contains(8)
                        && !self@.contains(9));
                    assert(!self.spec_contains(0) && !self.spec_contains(1)
                        && !self.spec_contains(2) && !self.spec_contains(3)
                        && !self.spec_contains(4) && !self.spec_contains(5)
                        && !self.spec_contains(6) && !self.spec_contains(7)
                        && !self.spec_contains(8) && !self.spec_contains(9));
                    lemma_zero_bits(self.0);
                }
            }
        }
        self.0 == 0
    }

    /// Whether `digit` is a member.
    pub fn contains(self, digit: u8) -> (r: bool)
        ensures
            r == self@.contains(digit),
    {
        proof {
            lemma_no_bits(self.0);
            lemma_or_bits(0, 0, self.0);
        }
        let mask = digit_mask_bit(digit);
        proof {
            if digit > 9 {
                assert(self.0 & 0 == 0) by (bit_vector);
            }
        }
        self.0 & mask != 0
    }

    /// Keeps of this set the digits that `other_set` holds too.
    pub fn difference(self, other_set: Simple09Set) -> (r: Simple09Set)
        ensures
            r == self.spec_intersection(other_set),
            r@ == self@.intersect(other_set@),
    {
        let mut kept = self;
        let mut digit: u8 = 0;
        while digit <= 9
            invariant
                digit <= 10,
                forall|d: u8|
                    kept.spec_contains(d) <==> self.spec_contains(d) && (d >= digit
                        || other_set.spec_contains(d)),
            decreases 10 - digit,
        {
            let ghost before = kept;
            if kept.contains(digit) && !other_set.contains(digit) {
                kept.remove(digit);
            }
            proof {
                assert forall|d: u8|
                    kept.spec_contains(d) <==> self.spec_contains(d) && (d >= digit + 1
                        || other_set.spec_contains(d)) by {
                    assert(kept@.contains(d) == kept.spec_contains(d));
                    assert(before@.contains(d) == before.spec_contains(d));
                    assert(other_set@.contains(d) == other_set.spec_contains(d));
                }
            }
            digit += 1;
        }
        proof {
            use_type_invariant(&kept);
            use_type_invariant(&self);
            self.lemma_operations(other_set, 0);
            lemma_and_bits(self.0, other_set.0, 0);
            assert(kept@ =~= self.spec_intersection(other_set)@);
            Simple09Set::lemma_same_members(kept, self.spec_intersection(other_set));
            assert(kept@ =~= self@.intersect(other_set@));
        }
        kept
    }

    /// Two sets with the same members are the same value, once both keep the
    /// bits above bit 9 clear.
    proof fn lemma_same_members(a: Simple09Set, b: Simple09Set)
        requires
            a.0 < 1024,
            b.0 < 1024,
            a@ == b@,
        ensures
            a == b,
    {
        assert forall|e: u16| e <= 9 implies (a.0 & (1u16 << e) != 0) == (b.0 & (1u16 << e)
            != 0) by {
            let d = e as u8;
            assert(a@.contains(d) == a.spec_contains(d));
            assert(b@.contains(d) == b.spec_contains(d));
            assert(a.spec_contains(d) == b.spec_contains(d));
        }
        lemma_equal_bits(a.0, b.0);
    }

    /// The digits held by both sets.
    pub fn intersection(self, other_set: Simple09Set) -> (r: Simple09Set)
        ensures
            r == self.spec_intersection(other_set),
            r@ == self@.intersect(other_set@),
    {
        proof {
            use_type_invariant(&self);
            lemma_and_bits(self.0, other_set.0, 0);
            self.lemma_operations(other_set, 0);
        }
        let r = Simple09Set(self.0 & other_set.0);
        assert(r@ =~= self@.intersect(other_set@));
        r
    }

    /// The digits held by either set.
    pub fn union(self, other_set: Simple09Set) -> (r: Simple09Set)
        ensures
            r == self.spec_union(other_set),
            r@ == self@.union(other_set@),
    {
        proof {
            use_type_invariant(&self);
            use_type_invariant(&other_set);
            lemma_or_bits(self.0, other_set.0, 0);
            self.lemma_operations(other_set, 0);
        }
        let r = Simple09Set(self.0 | other_set.0);
        assert(r@ =~= self@.union(other_set@));
        r
    }

    /// The digits of this set that `other_set` does not hold.
    pub fn without(self, other_set: Simple09Set) -> (r: Simple09Set)
        ensures
            r == self.spec_without(other_set),
            r@ == self@.difference(other_set@),
    {
        proof {
            lemma_clear_bits(self.0, other_set.0, 0);
            self.lemma_operations(other_set, 0);
        }
        let r = Simple09Set(self.0 & (!other_set.0 & 1023));
        assert(r@ =~= self@.difference(other_set@));
        r
    }

    /// The members in ascending order.
    pub fn as_vec_u8(self) -> (v: Vec<u8>)
        ensures
            v@ == self.spec_as_seq(),
    {
        let mut vec: Vec<u8> = Vec::new();
        let mut digit: u8 = 0;
        while digit <= 9
            invariant
                digit <= 10,
                vec@ == self.spec_digits_below(digit as nat),
            decreases 10 - digit,
        {
            if self.contains(digit) {
                vec.push(digit);
            }
            digit += 1;
        }
        vec
    }
}

/// Two masks without a bit above bit 9 that agree on every digit bit are
/// equal.
proof fn lemma_equal_bits(m: u16, k: u16)
    by (bit_vector)
    requires
        m < 1024,
        k < 1024,
        (m & (1u16 << 0u16) != 0) == (k & (1u16 << 0u16) != 0),
        (m & (1u16 << 1u16) != 0) == (k & (1u16 << 1u16) != 0),
        (m & (1u16 << 2u16) != 0) == (k & (1u16 << 2u16) != 0),
        (m & (1u16 << 3u16) != 0) == (k & (1u16 << 3u16) != 0),
        (m & (1u16 << 4u16) != 0) == (k & (1u16 << 4u16) != 0),
        (m & (1u16 << 5u16) != 0) == (k & (1u16 << 5u16) != 0),
        (m & (1u16 << 6u16) != 0) == (k & (1u16 << 6u16) != 0),
        (m & (1u16 << 7u16) != 0) == (k & (1u16 << 7u16) != 0),
        (m & (1u16 << 8u16) != 0) == (k & (1u16 << 8u16) != 0),
        (m & (1u16 << 9u16) != 0) == (k & (1u16 << 9u16) != 0),
    ensures
        m == k,
{
}

} // verus!
