//! A set of small integers packed into sixteen bits.
//!
//! The model of a `BitSet` is the mathematical set of its keys, a subset of
//! `0..16`. Every operation is specified over that set.

use vstd::prelude::*;
use crate::error::SuDoKuError;

verus! {

/// Whether bit `key` of `bits` is one. No key outside `0..16` is a bit.
pub open spec fn bit_is_set(bits: u16, key: int) -> bool {
    0 <= key < 16 && (bits >> (key as u16)) & 1 == 1
}

/// The values of `0..bound` that are not in `members`, in ascending order.
pub open spec fn complement(members: Set<int>, bound: u8) -> Seq<u8> {
    Seq::new(bound as nat, |i: int| i as u8).filter(|key: u8| !members.contains(key as int))
}

/// A set of integers in `0..16`, one bit per key.
#[derive(Copy, Clone, Debug)]
pub struct BitSet {
    inner: u16,
}

impl View for BitSet {
    type V = Set<int>;

    closed spec fn view(&self) -> Set<int> {
        Set::new(|key: int| bit_is_set(self.inner, key))
    }
}

proof fn lemma_no_bits(j: u16)
    requires
        j < 16,
    ensures
        (0u16 >> j) & 1 != 1,
{
    assert((0u16 >> j) & 1 != 1) by (bit_vector);
}

proof fn lemma_bit_test(x: u16, k: u16)
    requires
        k < 16,
    ensures
        (x & (1u16 << k)) != 0 <==> (x >> k) & 1 == 1,
{
    assert((x & (1u16 << k)) != 0 <==> (x >> k) & 1 == 1) by (bit_vector)
        requires
            k < 16,
    ;
}

proof fn lemma_bit_raise(x: u16, k: u16, j: u16)
    requires
        k < 16,
        j < 16,
    ensures
        ((x | (1u16 << k)) >> j) & 1 == 1 <==> (j == k || (x >> j) & 1 == 1),
{
    assert(((x | (1u16 << k)) >> j) & 1 == 1 <==> (j == k || (x >> j) & 1 == 1)) by (bit_vector)
        requires
            k < 16,
            j < 16,
    ;
}

proof fn lemma_bit_clear(x: u16, k: u16, j: u16)
    requires
        k < 16,
        j < 16,
    ensures
        ((x & !(1u16 << k)) >> j) & 1 == 1 <==> (j != k && (x >> j) & 1 == 1),
{
    assert(((x & !(1u16 << k)) >> j) & 1 == 1 <==> (j != k && (x >> j) & 1 == 1)) by (bit_vector)
        requires
            k < 16,
            j < 16,
    ;
}

proof fn lemma_bit_join(x: u16, y: u16, j: u16)
    requires
        j < 16,
    ensures
        ((x | y) >> j) & 1 == 1 <==> ((x >> j) & 1 == 1 || (y >> j) & 1 == 1),
{
    assert(((x | y) >> j) & 1 == 1 <==> ((x >> j) & 1 == 1 || (y >> j) & 1 == 1)) by (bit_vector)
        requires
            j < 16,
    ;
}

impl BitSet {
    /// The keys below `bound`.
    spec fn below(self, bound: int) -> Set<int> {
        Set::new(|key: int| key < bound && bit_is_set(self.inner, key))
    }

    proof fn lemma_below_grows(self, bound: int)
        requires
            0 <= bound < 16,
            self.below(bound).finite(),
        ensures
            self.below(bound + 1).finite(),
            self.below(bound + 1).len() == self.below(bound).len() + (if bit_is_set(
                self.inner,
                bound,
            ) {
                1int
            } else {
                0int
            }),
    {
        if bit_is_set(self.inner, bound) {
            assert(self.below(bound + 1) =~= self.below(bound).insert(bound));
        } else {
            assert(self.below(bound + 1) =~= self.below(bound));
        }
    }

    proof fn lemma_below_bounded(self, bound: int)
        requires
            0 <= bound <= 16,
        ensures
            self.below(bound).finite(),
            self.below(bound).len() <= bound,
        decreases bound,
    {
        if bound == 0 {
            assert(self.below(0) =~= Set::<int>::empty());
        } else {
            self.lemma_below_bounded(bound - 1);
            self.lemma_below_grows(bound - 1);
        }
    }

    /// Every key of a bit set lies in `0..16`, so the set is finite and holds
    /// at most sixteen keys.
    pub proof fn lemma_keys_in_range(self)
        ensures
            self@.finite(),
            self@.len() <= 16,
            forall|key: int| self@.contains(key) ==> 0 <= key < 16,
    {
        self.lemma_below_bounded(16);
        assert(self.below(16) =~= self@);
    }

    /// The empty set.
    pub fn new() -> (set: BitSet)
        ensures
            set@ == Set::<int>::empty(),
    {
        let set = BitSet { inner: 0 };
        proof {
            assert forall|key: int| !bit_is_set(0u16, key) by {
                if 0 <= key < 16 {
                    lemma_no_bits(key as u16);
                }
            }
            assert(set@ =~= Set::<int>::empty());
        }
        set
    }

    /// Adds `key` to the set. A key of 16 or more is refused and the set is
    /// left as it was.
    pub fn set(&mut self, key: u8) -> (res: Result<(), SuDoKuError>)
        ensures
            key < 16 ==> res is Ok && final(self)@ == old(self)@.insert(key as int),
            key >= 16 ==> res == Err::<(), SuDoKuError>(SuDoKuError::OutOfBound) && *final(self)
                == *old(self),
        no_unwind
    {
        if key >= 16 {
            return Err(SuDoKuError::OutOfBound);
        }
        let before: u16 = self.inner;
        let k: u16 = key as u16;
        self.inner = before | (1u16 << k);
        proof {
            assert forall|j: int| #[trigger]
                bit_is_set(self.inner, j) <==> (j == key || bit_is_set(before, j)) by {
                if 0 <= j < 16 {
                    lemma_bit_raise(before, k, j as u16);
                }
            }
            assert(self@ =~= old(self)@.insert(key as int));
        }
        Ok(())
    }

    /// Whether `key` is in the set. A key of 16 or more is refused.
    pub fn get(self, key: u8) -> (res: Result<bool, SuDoKuError>)
        ensures
            key < 16 ==> res == Ok::<bool, SuDoKuError>(self@.contains(key as int)),
            key >= 16 ==> res == Err::<bool, SuDoKuError>(SuDoKuError::OutOfBound),
    {
        if key >= 16 {
            return Err(SuDoKuError::OutOfBound);
        }
        let k: u16 = key as u16;
        proof {
            lemma_bit_test(self.inner, k);
        }
        Ok(self.inner & (1u16 << k) != 0)
    }

    /// The number of keys in the set.
    pub fn count(self) -> (n: usize)
        ensures
            n == self@.len(),
    {
        let mut n: usize = 0;
        let mut k: u16 = 0;
        proof {
            assert(self.below(0) =~= Set::<int>::empty());
        }
        while k < 16
            invariant
                k <= 16,
                n <= k,
                self.below(k as int).finite(),
                n == self.below(k as int).len(),
            decreases 16 - k,
        {
            proof {
                lemma_bit_test(self.inner, k);
                self.lemma_below_grows(k as int);
            }
            if self.inner & (1u16 << k) != 0 {
                n += 1;
            }
            k += 1;
        }
        proof {
            assert(self.below(16) =~= self@);
        }
        n
    }

    /// Takes `key` out of the set and reports whether it was there. A key of
    /// 16 or more is refused and the set is left as it was.
    pub fn remove(&mut self, key: u8) -> (res: Result<bool, SuDoKuError>)
        ensures
            key < 16 ==> res == Ok::<bool, SuDoKuError>(old(self)@.contains(key as int))
                && final(self)@ == old(self)@.remove(key as int),
            key >= 16 ==> res == Err::<bool, SuDoKuError>(SuDoKuError::OutOfBound) && *final(self)
                == *old(self),
        no_unwind
    {
        if key >= 16 {
            return Err(SuDoKuError::OutOfBound);
        }
        let before: u16 = self.inner;
        let k: u16 = key as u16;
        proof {
            lemma_bit_test(before, k);
        }
        let was_member = before & (1u16 << k) != 0;
        self.inner = before & !(1u16 << k);
        proof {
            assert forall|j: int| #[trigger]
                bit_is_set(self.inner, j) <==> (j != key && bit_is_set(before, j)) by {
                if 0 <= j < 16 {
                    lemma_bit_clear(before, k, j as u16);
                }
            }
            assert(self@ =~= old(self)@.remove(key as int));
        }
        Ok(was_member)
    }

    /// The values of `0..range` that are not in the set, in ascending order.
    /// A value of 16 or more is never a member.
    pub fn reverse(self, range: u8) -> (absent: Vec<u8>)
        ensures
            absent@ == complement(self@, range),
    {
        let mut absent: Vec<u8> = Vec::new();
        let mut i: u8 = 0;
        let ghost members = self@;
        let ghost lacks = |key: u8| !members.contains(key as int);
        proof {
            assert(Seq::new(0nat, |j: int| j as u8).filter(lacks) =~= Seq::<u8>::empty());
        }
        while i < range
            invariant
                i <= range,
                members == self@,
                lacks == (|key: u8| !members.contains(key as int)),
                absent@ == Seq::new(i as nat, |j: int| j as u8).filter(lacks),
            decreases range - i,
        {
            let ghost shorter = Seq::new(i as nat, |j: int| j as u8);
            let ghost longer = Seq::new((i + 1) as nat, |j: int| j as u8);
            proof {
                assert(longer.drop_last() =~= shorter);
                assert(longer.last() == i);
                reveal(Seq::filter);
                if i < 16 {
                    lemma_bit_test(self.inner, i as u16);
                }
            }
            if i >= 16 || self.inner & (1u16 << (i as u16)) == 0 {
                absent.push(i);
            }
            i += 1;
        }
        absent
    }

    /// The sixteen bits of the set: bit `key` is one where `key` is a member.
    pub fn bits(self) -> (raw: u16)
        ensures
            forall|key: int| bit_is_set(raw, key) <==> self@.contains(key),
    {
        self.inner
    }
}

impl Default for BitSet {
    fn default() -> (set: BitSet)
        ensures
            set@ == Set::<int>::empty(),
    {
        BitSet::new()
    }
}

impl vstd::std_specs::ops::BitOrSpecImpl for BitSet {
    open spec fn obeys_bitor_spec() -> bool {
        true
    }

    open spec fn bitor_req(self, rhs: BitSet) -> bool {
        true
    }

    closed spec fn bitor_spec(self, rhs: BitSet) -> BitSet {
        BitSet { inner: self.inner | rhs.inner }
    }
}

impl core::ops::BitOr for BitSet {
    type Output = BitSet;

    /// The union of two sets.
    fn bitor(self, rhs: BitSet) -> (both: BitSet)
        ensures
            both@ == self@.union(rhs@),
    {
        let both = BitSet { inner: self.inner | rhs.inner };
        proof {
            assert forall|j: int| #[trigger]
                bit_is_set(both.inner, j) <==> (bit_is_set(self.inner, j) || bit_is_set(
                    rhs.inner,
                    j,
                )) by {
                if 0 <= j < 16 {
                    lemma_bit_join(self.inner, rhs.inner, j as u16);
                }
            }
            assert(both@ =~= self@.union(rhs@));
        }
        both
    }
}

} // verus!
