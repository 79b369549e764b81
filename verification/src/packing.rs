//! A short list of small values packed into one 128-bit integer.

use crate::mixing::Substance;
use std::marker::PhantomData;
use vstd::prelude::*;

verus! {

/// Types whose values are numbered from 0 and can be packed by their number.
pub trait Packable: Copy + Sized {
    /// Maximum value this type can take + 1 (e.g., 16 for a 4-bit value)
    spec fn spec_max_value() -> u8;

    /// The number of a value.
    spec fn spec_to_u8(self) -> u8;

    /// The value with a number.
    spec fn spec_from_u8(value: u8) -> Self;

    /// Maximum value this type can take + 1 (e.g., 16 for a 4-bit value)
    fn max_value() -> (r: u8)
        ensures
            r == Self::spec_max_value(),
    ;

    /// The number of a value.
    fn to_u8(self) -> (r: u8)
        ensures
            r == self.spec_to_u8(),
            r < Self::spec_max_value(),
    ;

    /// The value with a number.
    fn from_u8(value: u8) -> (r: Self)
        requires
            value < Self::spec_max_value(),
        ensures
            r == Self::spec_from_u8(value),
    ;

    /// The value with the number of a value is that value.
    proof fn lemma_round_trip(x: Self)
        ensures
            x.spec_to_u8() < Self::spec_max_value(),
            Self::spec_from_u8(x.spec_to_u8()) == x,
    ;
}

impl Packable for Substance {
    open spec fn spec_max_value() -> u8 {
        16
    }

    open spec fn spec_to_u8(self) -> u8 {
        self.spec_index()
    }

    open spec fn spec_from_u8(value: u8) -> Self {
        match Substance::spec_from_index(value) {
            Some(s) => s,
            None => Substance::Cuke,
        }
    }

    fn max_value() -> (r: u8) {
        16
    }

    fn to_u8(self) -> (r: u8) {
        self.index()
    }

    fn from_u8(value: u8) -> (r: Self) {
        match Substance::from_index(value) {
            Some(s) => s,
            None => Substance::Cuke,
        }
    }

    proof fn lemma_round_trip(x: Self) {
        crate::mixing::lemma_substance_index_round_trip(x);
    }
}

/// The mask of one entry of `bits` bits.
pub open spec fn entry_mask(bits: nat) -> u128 {
    !(0xffff_ffff_ffff_ffff_ffff_ffff_ffff_ffffu128 << (bits as u128))
}

/// The entry at `index` of `data`, with entries of `bits` bits.
pub open spec fn entry_at(data: u128, bits: nat, index: nat) -> u128 {
    (data >> ((index * bits) as u128)) & entry_mask(bits)
}

/// `data` with the entry at `index` replaced by `value`.
pub open spec fn with_entry(data: u128, bits: nat, index: nat, value: u8) -> u128 {
    (data & !(entry_mask(bits) << ((index * bits) as u128))) | ((value as u128) << ((index
        * bits) as u128))
}

#[verifier::rlimit(50)]
proof fn lemma_entry_same(data: u128, v: u128, bits: u128, pos: u128)
    by (bit_vector)
    requires
        1 <= bits < 64,
        pos <= 128 - bits,
        v <= !(0xffff_ffff_ffff_ffff_ffff_ffff_ffff_ffffu128 << bits),
    ensures
        ((((data & !((!(0xffff_ffff_ffff_ffff_ffff_ffff_ffff_ffffu128 << bits)) << pos)) | (v
            << pos)) >> pos) & !(0xffff_ffff_ffff_ffff_ffff_ffff_ffff_ffffu128 << bits)) == v,
{
}

#[verifier::rlimit(50)]
proof fn lemma_entry_other(data: u128, v: u128, bits: u128, pos: u128, pos2: u128)
    by (bit_vector)
    requires
        1 <= bits < 64,
        pos <= 128 - bits,
        pos2 <= 128 - bits,
        pos2 + bits <= pos || pos + bits <= pos2,
        v <= !(0xffff_ffff_ffff_ffff_ffff_ffff_ffff_ffffu128 << bits),
    ensures
        ((((data & !((!(0xffff_ffff_ffff_ffff_ffff_ffff_ffff_ffffu128 << bits)) << pos)) | (v
            << pos)) >> pos2) & !(0xffff_ffff_ffff_ffff_ffff_ffff_ffff_ffffu128 << bits)) == (data
            >> pos2) & !(0xffff_ffff_ffff_ffff_ffff_ffff_ffff_ffffu128 << bits),
{
}

proof fn lemma_entry_mask(bits: u128, pos: u128)
    by (bit_vector)
    requires
        1 <= bits < 64,
    ensures
        (1u128 << bits) - 1 == !(0xffff_ffff_ffff_ffff_ffff_ffff_ffff_ffffu128 << bits),
        (0u128 >> pos) & !(0xffff_ffff_ffff_ffff_ffff_ffff_ffff_ffffu128 << bits) == 0,
{
}

/// Replacing one entry changes that entry and no other.
pub proof fn lemma_with_entry(data: u128, bits: nat, index: nat, value: u8, other: nat)
    requires
        1 <= bits < 64,
        (index + 1) * bits <= 128,
        (other + 1) * bits <= 128,
        value <= entry_mask(bits),
    ensures
        entry_at(with_entry(data, bits, index, value), bits, other) == (if other == index {
            value as u128
        } else {
            entry_at(data, bits, other)
        }),
{
    assert(index * bits + bits == (index + 1) * bits) by (nonlinear_arith);
    assert(other * bits + bits == (other + 1) * bits) by (nonlinear_arith);
    if other < index {
        assert((other + 1) * bits <= index * bits) by (nonlinear_arith)
            requires
                other + 1 <= index,
                bits >= 0,
        ;
    }
    if index < other {
        assert((index + 1) * bits <= other * bits) by (nonlinear_arith)
            requires
                index + 1 <= other,
                bits >= 0,
        ;
    }
    assert(index * bits >= 0 && other * bits >= 0) by (nonlinear_arith)
        requires
            bits >= 0,
            index >= 0,
            other >= 0,
    ;
    if other == index {
        lemma_entry_same(data, value as u128, bits as u128, (index * bits) as u128);
    } else {
        lemma_entry_other(
            data,
            value as u128,
            bits as u128,
            (index * bits) as u128,
            (other * bits) as u128,
        );
    }
}

/// As many entries as have room are no more than the maximum.
proof fn lemma_count_fits(count: nat, bits: nat)
    requires
        bits >= 1,
        count * bits <= 128,
    ensures
        count <= 128int / (bits as int),
{
    vstd::arithmetic::div_mod::lemma_div_is_ordered((count * bits) as int, 128, bits as int);
    vstd::arithmetic::div_mod::lemma_div_by_multiple(count as int, bits as int);
}

/// No more entries than the maximum have room.
proof fn lemma_fits_count(count: nat, bits: nat)
    requires
        bits >= 1,
        count <= 128int / (bits as int),
    ensures
        count * bits <= 128,
{
    vstd::arithmetic::div_mod::lemma_fundamental_div_mod(128, bits as int);
    vstd::arithmetic::div_mod::lemma_mod_bound(128, bits as int);
    assert(count * bits <= (128int / (bits as int)) * bits) by (nonlinear_arith)
        requires
            count <= 128int / (bits as int),
            bits >= 1,
    ;
    assert((128int / (bits as int)) * bits == bits * (128int / (bits as int))) by (nonlinear_arith);
}

/// Below the maximum there is room for one more entry.
proof fn lemma_room(count: nat, bits: nat)
    requires
        bits >= 1,
        count < 128int / (bits as int),
    ensures
        (count + 1) * bits <= 128,
        count * bits <= 128 - bits,
        count * bits >= 0,
{
    lemma_fits_count(count + 1, bits);
    assert((count + 1) * bits == count * bits + bits) by (nonlinear_arith);
}

/// An entry below the count lies inside the 128 bits.
proof fn lemma_position(index: nat, count: nat, bits: nat)
    requires
        bits >= 1,
        index < count,
        count * bits <= 128,
    ensures
        (index + 1) * bits <= 128,
        index * bits <= 128 - bits,
        index * bits >= 0,
{
    assert((index + 1) * bits <= count * bits) by (nonlinear_arith)
        requires
            index + 1 <= count,
            bits >= 1,
    ;
    assert((index + 1) * bits == index * bits + bits) by (nonlinear_arith);
}

/// Generic structure to store packed values in an u128
#[derive(PartialEq, Eq, PartialOrd, Ord, Debug)]
pub struct PackedValues<T: Packable, const BITS_PER_ENTRY: usize> {
    data: u128,
    count: usize,
    _marker: PhantomData<T>,
}

impl<T: Packable, const BITS_PER_ENTRY: usize> Clone for PackedValues<T, BITS_PER_ENTRY> {
    fn clone(&self) -> (r: Self)
        ensures
            r == *self,
    {
        *self
    }
}

impl<T: Packable, const BITS_PER_ENTRY: usize> Copy for PackedValues<T, BITS_PER_ENTRY> {

}

impl<T: Packable, const BITS_PER_ENTRY: usize> View for PackedValues<T, BITS_PER_ENTRY> {
    type V = Seq<T>;

    closed spec fn view(&self) -> Seq<T> {
        Seq::new(
            self.count as nat,
            |i: int|
                T::spec_from_u8(
                    #[verifier::truncate]
                    (entry_at(self.data, BITS_PER_ENTRY as nat, i as nat) as u8),
                ),
        )
    }
}

impl<T: Packable, const BITS_PER_ENTRY: usize> PackedValues<T, BITS_PER_ENTRY> {
    #[verifier::type_invariant]
    spec fn well_formed(self) -> bool {
        &&& 1 <= BITS_PER_ENTRY < 64
        &&& T::spec_max_value() - 1 <= entry_mask(BITS_PER_ENTRY as nat)
        &&& self.count * BITS_PER_ENTRY <= 128
        &&& forall|i: nat|
            i < self.count ==> #[trigger] entry_at(self.data, BITS_PER_ENTRY as nat, i)
                < T::spec_max_value()
    }

    /// The packed data as it is stored.
    pub closed spec fn spec_bits(self) -> u128 {
        self.data
    }

    /// Maximum number of entries that can be stored
    pub open spec fn spec_max_entries() -> nat {
        (128int / (BITS_PER_ENTRY as int)) as nat
    }

    /// Maximum number of entries that can be stored
    pub fn max_entries() -> (r: usize)
        requires
            BITS_PER_ENTRY > 0,
        ensures
            r == Self::spec_max_entries(),
    {
        128 / BITS_PER_ENTRY
    }

    /// Mask for extracting bits for a single entry
    fn mask() -> (r: u128)
        requires
            1 <= BITS_PER_ENTRY < 64,
        ensures
            r == entry_mask(BITS_PER_ENTRY as nat),
    {
        proof {
            lemma_entry_mask(BITS_PER_ENTRY as u128, 0);
        }
        (1u128 << BITS_PER_ENTRY) - 1
    }

    /// Create a new empty packed container
    pub fn new() -> (r: Self)
        requires
            1 <= BITS_PER_ENTRY < 64,
            T::spec_max_value() - 1 <= entry_mask(BITS_PER_ENTRY as nat),
        ensures
            r@ == Seq::<T>::empty(),
            r.spec_bits() == 0,
    {
        Self { data: 0, count: 0, _marker: PhantomData }
    }

    /// Get the data value
    pub fn bits(&self) -> (r: u128)
        ensures
            r == self.spec_bits(),
    {
        self.data
    }

    /// Number of values currently stored
    pub fn len(&self) -> (r: usize)
        ensures
            r == self@.len(),
            r <= Self::spec_max_entries(),
    {
        proof {
            use_type_invariant(self);
            lemma_count_fits(self.count as nat, BITS_PER_ENTRY as nat);
        }
        self.count
    }

    /// Check if the container is empty
    pub fn is_empty(&self) -> (r: bool)
        ensures
            r == (self@.len() == 0),
    {
        self.count == 0
    }

    /// Clear all values
    pub fn clear(&mut self)
        ensures
            final(self)@ == Seq::<T>::empty(),
            final(self).spec_bits() == 0,
    {
        proof {
            use_type_invariant(&*self);
        }
        self.count = 0;
        self.data = 0;
    }

    /// Get a value at a specific index
    pub fn get(&self, index: usize) -> (r: Option<T>)
        ensures
            r == if index < self@.len() {
                Some(self@[index as int])
            } else {
                None
            },
    {
        if index >= self.count {
            return None;
        }
        proof {
            use_type_invariant(self);
            lemma_position(index as nat, self.count as nat, BITS_PER_ENTRY as nat);
            assert(entry_at(self.data, BITS_PER_ENTRY as nat, index as nat) < T::spec_max_value());
        }
        let position = index * BITS_PER_ENTRY;
        #[verifier::truncate]
        let value = ((self.data >> position) & Self::mask()) as u8;

        Some(T::from_u8(value))
    }

    /// Push a new value onto the end if there's space
    pub fn push(&mut self, value: T) -> (r: Result<(), &'static str>)
        ensures
            old(self)@.len() < Self::spec_max_entries() ==> r is Ok && final(self)@ == old(self)@.push(value),
            old(self)@.len() >= Self::spec_max_entries() ==> r is Err && *final(self) == *old(self),
            r matches Err(message) ==> message@ == "Cannot store more entries"@,
    {
        proof {
            use_type_invariant(&*self);
            lemma_count_fits(self.count as nat, BITS_PER_ENTRY as nat);
        }
        if self.count >= Self::max_entries() {
            return Err("Cannot store more entries");
        }
        let number = value.to_u8();
        proof {
            lemma_room(self.count as nat, BITS_PER_ENTRY as nat);
            lemma_position(self.count as nat, (self.count + 1) as nat, BITS_PER_ENTRY as nat);
            T::lemma_round_trip(value);
        }
        // Each value uses BITS_PER_ENTRY bits, so shift by that * position
        let position = self.count * BITS_PER_ENTRY;
        let ghost before = *self;
        let mask = Self::mask();
        proof {
            assert forall|i: nat| i < self.count + 1 implies #[trigger] entry_at(
                with_entry(self.data, BITS_PER_ENTRY as nat, self.count as nat, number),
                BITS_PER_ENTRY as nat,
                i,
            ) == (if i == self.count {
                number as u128
            } else {
                entry_at(self.data, BITS_PER_ENTRY as nat, i)
            }) by {
                lemma_position(i, (self.count + 1) as nat, BITS_PER_ENTRY as nat);
                lemma_with_entry(
                    self.data,
                    BITS_PER_ENTRY as nat,
                    self.count as nat,
                    number,
                    i,
                );
            }
        }

        // Clear any existing bits at the position and set the new bits
        let data = (self.data & !(mask << position)) | ((number as u128) << position);
        assert(data == with_entry(self.data, BITS_PER_ENTRY as nat, self.count as nat, number));
        *self = Self { data, count: self.count + 1, _marker: PhantomData };
        proof {
            assert(self@ =~= before@.push(value));
        }
        Ok(())
    }

    /// Update a value at a specific index
    pub fn set(&mut self, index: usize, value: T) -> (r: Result<(), &'static str>)
        ensures
            index < old(self)@.len() ==> r is Ok && final(self)@ == old(self)@.update(
                index as int,
                value,
            ),
            index >= old(self)@.len() ==> r is Err && *final(self) == *old(self),
            r matches Err(message) ==> message@ == "Index out of bounds"@,
    {
        proof {
            use_type_invariant(&*self);
        }
        if index >= self.count {
            return Err("Index out of bounds");
        }
        let number = value.to_u8();
        proof {
            lemma_position(index as nat, self.count as nat, BITS_PER_ENTRY as nat);
            T::lemma_round_trip(value);
        }
        let position = index * BITS_PER_ENTRY;
        let ghost before = *self;
        let mask = Self::mask();
        proof {
            assert forall|i: nat| i < self.count implies #[trigger] entry_at(
                with_entry(self.data, BITS_PER_ENTRY as nat, index as nat, number),
                BITS_PER_ENTRY as nat,
                i,
            ) == (if i == index {
                number as u128
            } else {
                entry_at(self.data, BITS_PER_ENTRY as nat, i)
            }) by {
                lemma_position(i, self.count as nat, BITS_PER_ENTRY as nat);
                lemma_with_entry(self.data, BITS_PER_ENTRY as nat, index as nat, number, i);
            }
        }

        // Clear the old value and set the new one
        let data = (self.data & !(mask << position)) | ((number as u128) << position);
        assert(data == with_entry(self.data, BITS_PER_ENTRY as nat, index as nat, number));
        *self = Self { data, count: self.count, _marker: PhantomData };
        proof {
            assert(self@ =~= before@.update(index as int, value));
        }
        Ok(())
    }

    /// Pop the last value
    pub fn pop(&mut self) -> (r: Option<T>)
        ensures
            old(self)@.len() == 0 ==> r is None && *final(self) == *old(self),
            old(self)@.len() > 0 ==> r == Some(old(self)@.last()) && final(self)@ == old(self)@.drop_last() && final(self).spec_bits() == old(self).spec_bits(),
    {
        proof {
            use_type_invariant(&*self);
        }
        if self.count == 0 {
            return None;
        }
        let ghost before = *self;
        let last = self.get(self.count - 1);
        proof {
            assert((self.count - 1) * BITS_PER_ENTRY <= self.count * BITS_PER_ENTRY)
                by (nonlinear_arith)
                requires
                    self.count >= 1,
                    BITS_PER_ENTRY >= 0,
            ;
        }
        *self = Self { data: self.data, count: self.count - 1, _marker: PhantomData };
        proof {
            assert(self@ =~= before@.drop_last());
        }
        last
    }

    /// Return an iterator over all stored values
    pub fn iter(&self) -> (r: PackedIterator<T, BITS_PER_ENTRY>)
        ensures
            r.remaining() == self@,
    {
        proof {
            assert(self@.subrange(0, self@.len() as int) == self@);
        }
        PackedIterator { packed: *self, current: 0 }
    }

    /// Behind a zero entry nothing counts.
    proof fn lemma_counted_stops(value: u128, at: nat, upto: nat)
        requires
            at <= upto,
            Self::counted(value, at) == at,
            at < upto ==> entry_at(value, BITS_PER_ENTRY as nat, at) == 0,
        ensures
            Self::counted(value, upto) == at,
        decreases upto,
    {
        if at < upto {
            Self::lemma_counted_stops(value, at, (upto - 1) as nat);
        }
    }

    /// What counts among the first entries counts among more of them.
    proof fn lemma_counted_goes_on(value: u128, at: nat, upto: nat)
        requires
            at <= upto,
            Self::counted(value, at) == at,
        ensures
            Self::counted(value, upto) >= at,
        decreases upto,
    {
        if at < upto {
            Self::lemma_counted_goes_on(value, at, (upto - 1) as nat);
        }
    }

    /// All stored values, in order.
    pub fn to_vec(&self) -> (r: Vec<T>)
        ensures
            r@ == self@,
    {
        let mut out: Vec<T> = Vec::new();
        let mut i: usize = 0;
        while i < self.count
            invariant
                i <= self.count,
                self.count == self@.len(),
                out@ == self@.subrange(0, i as int),
            decreases self.count - i,
        {
            match self.get(i) {
                Some(value) => {
                    out.push(value);
                },
                None => {},
            }
            proof {
                assert(self@.subrange(0, i + 1) == self@.subrange(0, i as int).push(self@[i as int]));
            }
            i += 1;
        }
        proof {
            assert(self@.subrange(0, self@.len() as int) == self@);
        }
        out
    }

    /// The number of entries of `value` that count: those before the first
    /// that is zero, and no more than have room.
    pub open spec fn counted(value: u128, upto: nat) -> nat
        decreases upto,
    {
        if upto == 0 {
            0
        } else {
            let before = Self::counted(value, (upto - 1) as nat);
            if before == upto - 1 && entry_at(value, BITS_PER_ENTRY as nat, (upto - 1) as nat) != 0 {
                upto
            } else {
                before
            }
        }
    }

    /// The container that the given data stands for: its entries are counted
    /// up to the first that is zero. `None` where a counted entry is the
    /// number of no value.
    pub fn from_bits(value: u128) -> (r: Option<Self>)
        requires
            1 <= BITS_PER_ENTRY < 64,
            T::spec_max_value() - 1 <= entry_mask(BITS_PER_ENTRY as nat),
        ensures
            r is Some <==> forall|i: nat|
                i < Self::counted(value, Self::spec_max_entries()) ==> #[trigger] entry_at(
                    value,
                    BITS_PER_ENTRY as nat,
                    i,
                ) < T::spec_max_value(),
            r matches Some(p) ==> p.spec_bits() == value && p@.len() == Self::counted(
                value,
                Self::spec_max_entries(),
            ),
    {
        let mask = Self::mask();
        let limit = Self::max_entries();
        let bound = T::max_value() as u128;
        let mut count: usize = 0;
        while count < limit
            invariant
                1 <= BITS_PER_ENTRY < 64,
                limit == Self::spec_max_entries(),
                count <= limit,
                mask == entry_mask(BITS_PER_ENTRY as nat),
                bound == T::spec_max_value(),
                count == Self::counted(value, count as nat),
                forall|i: nat|
                    i < count ==> 0 < #[trigger] entry_at(value, BITS_PER_ENTRY as nat, i)
                        < T::spec_max_value(),
            ensures
                count <= limit,
                count == Self::counted(value, limit as nat),
                forall|i: nat|
                    i < count ==> 0 < #[trigger] entry_at(value, BITS_PER_ENTRY as nat, i)
                        < T::spec_max_value(),
            decreases limit - count,
        {
            proof {
                lemma_room(count as nat, BITS_PER_ENTRY as nat);
            }
            let entry = (value >> (count * BITS_PER_ENTRY)) & mask;
            assert(entry == entry_at(value, BITS_PER_ENTRY as nat, count as nat));
            if entry == 0 {
                proof {
                    Self::lemma_counted_stops(value, count as nat, limit as nat);
                }
                break ;
            }
            if entry >= bound {
                proof {
                    Self::lemma_counted_goes_on(value, (count + 1) as nat, limit as nat);
                }
                return None;
            }
            count += 1;
        }
        proof {
            lemma_fits_count(count as nat, BITS_PER_ENTRY as nat);
        }
        Some(Self { data: value, count, _marker: PhantomData })
    }
}

/// Iterator for the packed values
pub struct PackedIterator<T: Packable, const BITS_PER_ENTRY: usize> {
    packed: PackedValues<T, BITS_PER_ENTRY>,
    current: usize,
}

impl<T: Packable, const BITS_PER_ENTRY: usize> PackedIterator<T, BITS_PER_ENTRY> {
    #[verifier::type_invariant]
    spec fn well_formed(self) -> bool {
        self.current <= self.packed@.len()
    }

    /// The values that are still to come.
    pub closed spec fn remaining(self) -> Seq<T> {
        self.packed@.subrange(self.current as int, self.packed@.len() as int)
    }

    /// The next value, if one is left.
    pub fn next(&mut self) -> (r: Option<T>)
        ensures
            old(self).remaining().len() == 0 ==> r is None && final(self).remaining() == old(self).remaining(),
            old(self).remaining().len() > 0 ==> r == Some(old(self).remaining()[0]) && final(self).remaining() == old(self).remaining().drop_first(),
    {
        proof {
            use_type_invariant(&*self);
        }
        if self.current >= self.packed.len() {
            return None;
        }
        let result = self.packed.get(self.current);
        let ghost before = *self;
        *self = Self { packed: self.packed, current: self.current + 1 };
        proof {
            assert(self.remaining() =~= before.remaining().drop_first());
        }
        result
    }
}

} // verus!
