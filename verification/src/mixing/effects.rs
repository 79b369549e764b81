//! Effect sets as bit masks over a universe of 34 effects.

use vstd::prelude::*;

verus! {

/// Largest number of effects a product carries.
pub const MAX_EFFECTS: u8 = 8;

/// Size of the effect universe.
pub const NUM_EFFECTS: u8 = 34;

/// The mask with every effect of the universe set.
pub const ALL_EFFECTS: u64 = 0x3_ffff_ffff;

/// Mask of the effect AntiGravity.
pub const ANTI_GRAVITY: u64 = 0x1;

/// Mask of the effect Athletic.
pub const ATHLETIC: u64 = 0x2;

/// Mask of the effect Balding.
pub const BALDING: u64 = 0x4;

/// Mask of the effect BrightEyed.
pub const BRIGHT_EYED: u64 = 0x8;

/// Mask of the effect Calming.
pub const CALMING: u64 = 0x10;

/// Mask of the effect CalorieDense.
pub const CALORIE_DENSE: u64 = 0x20;

/// Mask of the effect Cyclopean.
pub const CYCLOPEAN: u64 = 0x40;

/// Mask of the effect Disorienting.
pub const DISORIENTING: u64 = 0x80;

/// Mask of the effect Electrifying.
pub const ELECTRIFYING: u64 = 0x100;

/// Mask of the effect Energizing.
pub const ENERGIZING: u64 = 0x200;

/// Mask of the effect Euphoric.
pub const EUPHORIC: u64 = 0x400;

/// Mask of the effect Explosive.
pub const EXPLOSIVE: u64 = 0x800;

/// Mask of the effect Focused.
pub const FOCUSED: u64 = 0x1000;

/// Mask of the effect Foggy.
pub const FOGGY: u64 = 0x2000;

/// Mask of the effect Gingeritis.
pub const GINGERITIS: u64 = 0x4000;

/// Mask of the effect Glowing.
pub const GLOWING: u64 = 0x8000;

/// Mask of the effect Jennerising.
pub const JENNERISING: u64 = 0x10000;

/// Mask of the effect Laxative.
pub const LAXATIVE: u64 = 0x20000;

/// Mask of the effect LongFaced.
pub const LONG_FACED: u64 = 0x40000;

/// Mask of the effect Munchies.
pub const MUNCHIES: u64 = 0x80000;

/// Mask of the effect Paranoia.
pub const PARANOIA: u64 = 0x100000;

/// Mask of the effect Refreshing.
pub const REFRESHING: u64 = 0x200000;

/// Mask of the effect Schizophrenia.
pub const SCHIZOPHRENIA: u64 = 0x400000;

/// Mask of the effect Sedating.
pub const SEDATING: u64 = 0x800000;

/// Mask of the effect Shrinking.
pub const SHRINKING: u64 = 0x1000000;

/// Mask of the effect SeizureInducing.
pub const SEIZURE_INDUCING: u64 = 0x2000000;

/// Mask of the effect Slippery.
pub const SLIPPERY: u64 = 0x4000000;

/// Mask of the effect Smelly.
pub const SMELLY: u64 = 0x8000000;

/// Mask of the effect Sneaky.
pub const SNEAKY: u64 = 0x10000000;

/// Mask of the effect Spicy.
pub const SPICY: u64 = 0x20000000;

/// Mask of the effect Toxic.
pub const TOXIC: u64 = 0x40000000;

/// Mask of the effect ThoughtProvoking.
pub const THOUGHT_PROVOKING: u64 = 0x80000000;

/// Mask of the effect TropicThunder.
pub const TROPIC_THUNDER: u64 = 0x100000000;

/// Mask of the effect Zombifying.
pub const ZOMBIFYING: u64 = 0x200000000;

/// `i` is an element of the set that `mask` stands for.
pub open spec fn has_bit(mask: u64, i: nat) -> bool {
    i < 64 && (mask >> (i as u64)) & 1 == 1
}

/// Number of elements of `mask` below position `n`.
pub open spec fn count_below(mask: u64, n: nat) -> nat
    decreases n,
{
    if n == 0 {
        0
    } else {
        count_below(mask, (n - 1) as nat) + if has_bit(mask, (n - 1) as nat) {
            1nat
        } else {
            0nat
        }
    }
}

/// Number of elements of `mask`.
pub open spec fn popcount(mask: u64) -> nat {
    count_below(mask, 64)
}

/// Below position `n` there are at most `n` members.
pub proof fn lemma_count_bound(mask: u64, n: nat)
    ensures
        count_below(mask, n) <= n,
    decreases n,
{
    if n > 0 {
        lemma_count_bound(mask, (n - 1) as nat);
    }
}

/// `u64::count_ones` returns the number of one bits in the binary
/// representation of its argument.
pub assume_specification[ u64::count_ones ](i: u64) -> (r: u32)
    ensures
        r == popcount(i),
;

/// Union and difference stay inside the universe.
proof fn lemma_universe_closed(a: u64, b: u64)
    by (bit_vector)
    requires
        a <= 0x3_ffff_ffffu64,
    ensures
        a & !b <= 0x3_ffff_ffffu64,
        b <= 0x3_ffff_ffffu64 ==> a | b <= 0x3_ffff_ffffu64,
{
}

/// A set of effects. Every element lies inside the universe.
#[derive(Clone, Copy, Debug, PartialEq, Eq, Structural, Hash, PartialOrd, Ord)]
pub struct Effects {
    bits: u64,
}

impl View for Effects {
    type V = u64;

    closed spec fn view(&self) -> u64 {
        self.bits
    }
}

impl Effects {
    #[verifier::type_invariant]
    spec fn inside_universe(self) -> bool {
        self.bits <= ALL_EFFECTS
    }

    /// The set with the given mask.
    pub closed spec fn of(bits: u64) -> Effects {
        Effects { bits }
    }

    /// A set is what its mask says.
    pub broadcast proof fn lemma_of_view(bits: u64)
        ensures
            (#[trigger] Effects::of(bits))@ == bits,
    {
    }

    /// Two sets with one mask are one set.
    pub proof fn lemma_same_mask(self, other: Effects)
        requires
            self@ == other@,
        ensures
            self == other,
    {
    }

    /// The empty set.
    pub fn empty() -> (r: Self)
        ensures
            r@ == 0,
    {
        Effects { bits: 0 }
    }

    /// The mask of the set.
    pub fn bits(&self) -> (r: u64)
        ensures
            r == self@,
            r <= ALL_EFFECTS,
    {
        proof {
            use_type_invariant(self);
        }
        self.bits
    }

    /// The set with the given mask, if the mask lies inside the universe.
    pub fn from_bits(bits: u64) -> (r: Option<Self>)
        ensures
            r is Some <==> bits <= ALL_EFFECTS,
            r matches Some(e) ==> e@ == bits,
    {
        if bits <= ALL_EFFECTS {
            Some(Effects { bits })
        } else {
            None
        }
    }

    /// The set with the given mask, which lies inside the universe.
    pub fn from_mask(bits: u64) -> (r: Self)
        requires
            bits <= ALL_EFFECTS,
        ensures
            r@ == bits,
            r == Effects::of(bits),
    {
        Effects { bits }
    }

    /// Whether the set has no element.
    pub fn is_empty(&self) -> (r: bool)
        ensures
            r == (self@ == 0),
    {
        self.bits == 0
    }

    /// Whether every element of `other` is in the set.
    pub fn contains(&self, other: Effects) -> (r: bool)
        ensures
            r == (self@ & other@ == other@),
    {
        self.bits & other.bits == other.bits
    }

    /// Whether the set shares an element with `other`.
    pub fn intersects(&self, other: Effects) -> (r: bool)
        ensures
            r == (self@ & other@ != 0),
    {
        self.bits & other.bits != 0
    }

    /// The set with the elements of `other` added.
    pub fn union(self, other: Effects) -> (r: Self)
        ensures
            r@ == self@ | other@,
    {
        proof {
            use_type_invariant(self);
            use_type_invariant(other);
            lemma_universe_closed(self.bits, other.bits);
        }
        Effects { bits: self.bits | other.bits }
    }

    /// The set with the elements of `other` taken out.
    pub fn difference(self, other: Effects) -> (r: Self)
        ensures
            r@ == self@ & !other@,
    {
        proof {
            use_type_invariant(self);
            lemma_universe_closed(self.bits, other.bits);
        }
        Effects { bits: self.bits & !other.bits }
    }

    /// Adds the elements of `other`.
    pub fn insert(&mut self, other: Effects)
        ensures
            final(self)@ == old(self)@ | other@,
    {
        *self = self.union(other);
    }

    /// Takes the elements of `other` out.
    pub fn remove(&mut self, other: Effects)
        ensures
            final(self)@ == old(self)@ & !other@,
    {
        *self = self.difference(other);
    }

    /// Number of elements.
    pub fn len(&self) -> (r: u32)
        ensures
            r == popcount(self@),
    {
        self.bits.count_ones()
    }
}

} // verus!
