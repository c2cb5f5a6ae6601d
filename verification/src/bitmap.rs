//! A 256-bit set of key codes, used to suppress repeated key-down events.

use vstd::prelude::*;

verus! {

/// Set of pressed key codes: bit `k` of the second word for codes `0..=127`,
/// bit `k - 128` of the first word for codes `128..=255`.
pub struct Bitmap(u128, u128);

/// Whether bit `k` of `word` is set.
pub open spec fn bit_set(word: u128, k: u128) -> bool {
    (word >> k) & 1u128 == 1u128
}

proof fn lemma_set_bit(word: u128, k: u128)
    requires
        k < 128,
    ensures
        word & (1u128 << k) == (1u128 << k) <==> bit_set(word, k),
        forall|j: u128| j < 128 ==> #[trigger] bit_set(word | (1u128 << k), j) == (j == k || bit_set(word, j)),
{
    assert(word & (1u128 << k) == (1u128 << k) <==> (word >> k) & 1u128 == 1u128) by (bit_vector)
        requires k < 128;
    assert forall|j: u128| j < 128 implies #[trigger] bit_set(word | (1u128 << k), j) == (j == k || bit_set(word, j)) by {
        assert(((word | (1u128 << k)) >> j) & 1u128 == 1u128 <==> (j == k || (word >> j) & 1u128 == 1u128)) by (bit_vector)
            requires k < 128, j < 128;
    }
}

proof fn lemma_clear_bit(word: u128, k: u128)
    requires
        k < 128,
    ensures
        forall|j: u128| j < 128 ==> #[trigger] bit_set(word & !(1u128 << k), j) == (j != k && bit_set(word, j)),
{
    assert forall|j: u128| j < 128 implies #[trigger] bit_set(word & !(1u128 << k), j) == (j != k && bit_set(word, j)) by {
        assert(((word & !(1u128 << k)) >> j) & 1u128 == 1u128 <==> (j != k && (word >> j) & 1u128 == 1u128)) by (bit_vector)
            requires k < 128, j < 128;
    }
}

impl Bitmap {
    /// Whether `key` is in the set.
    pub closed spec fn has(self, key: u8) -> bool {
        if key <= 127 {
            bit_set(self.1, key as u128)
        } else {
            bit_set(self.0, (key - 128) as u128)
        }
    }

    /// The set of key codes held.
    pub closed spec fn view(self) -> Set<u8> {
        Set::new(|key: u8| self.has(key))
    }

    /// The empty set.
    pub fn new() -> (r: Self)
        ensures
            r.view() == Set::<u8>::empty(),
    {
        let r = Bitmap(0, 0);
        assert forall|j: u128| j < 128 implies !bit_set(0u128, j) by {
            assert((0u128 >> j) & 1u128 == 0u128) by (bit_vector);
        }
        assert(r.view() =~= Set::<u8>::empty());
        r
    }

    /// Adds `key`; returns whether it was absent before.
    pub fn push(&mut self, key: u8) -> (fresh: bool)
        ensures
            fresh == !old(self).view().contains(key),
            final(self).view() == old(self).view().insert(key),
    {
        let ghost before = *self;
        if key <= 127 {
            let b: u128 = 1u128 << (key as u128);
            proof { lemma_set_bit(self.1, key as u128); }
            if self.1 & b == b {
                assert(self.view() =~= before.view().insert(key));
                return false;
            }
            self.1 = self.1 | b;
        } else {
            let b: u128 = 1u128 << ((key - 128) as u128);
            proof { lemma_set_bit(self.0, (key - 128) as u128); }
            if self.0 & b == b {
                assert(self.view() =~= before.view().insert(key));
                return false;
            }
            self.0 = self.0 | b;
        }
        assert forall|k: u8| #[trigger] self.has(k) == (k == key || before.has(k)) by {
            if k <= 127 { assert(bit_set(self.1, k as u128) == ((k as u128) == (key as u128) && key <= 127 || before.has(k))); }
        }
        assert(self.view() =~= before.view().insert(key));
        true
    }

    /// Removes `key` (no effect if absent).
    pub fn remove(&mut self, key: u8)
        ensures
            final(self).view() == old(self).view().remove(key),
    {
        let ghost before = *self;
        if key <= 127 {
            let b: u128 = !(1u128 << (key as u128));
            proof { lemma_clear_bit(self.1, key as u128); }
            self.1 = self.1 & b;
        } else {
            let b: u128 = !(1u128 << ((key - 128) as u128));
            proof { lemma_clear_bit(self.0, (key - 128) as u128); }
            self.0 = self.0 & b;
        }
        assert(self.view() =~= before.view().remove(key));
    }
}

/// A held key is reported once: after a push the key is in the set and a
/// second push finds it there; after a remove it is absent, so the next push
/// reports it again; other keys are untouched by both.
pub proof fn law_key_reported_once(b: Bitmap, key: u8, other: u8)
    requires
        other != key,
    ensures
        b@.insert(key).contains(key),
        !b@.insert(key).remove(key).contains(key),
        b@.insert(key).contains(other) == b@.contains(other),
        b@.remove(key).contains(other) == b@.contains(other),
{
}

} // verus!
