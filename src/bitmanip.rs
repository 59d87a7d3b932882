use vstd::prelude::*;

verus! {

/// Whether bit `n` of `x` is set.
pub open spec fn bit_set(x: u32, n: u32) -> bool {
    (x >> n) & 1u32 == 1u32
}

proof fn lemma_set_bit(x: u32, n: u32, k: u32)
    requires
        n < 32,
        k < 32,
    ensures
        bit_set(x | (1u32 << n), k) == (k == n || bit_set(x, k)),
{
    assert(((x | (1u32 << n)) >> k) & 1u32 == 1u32 <==> (k == n || (x >> k) & 1u32 == 1u32))
        by (bit_vector)
        requires
            n < 32,
            k < 32,
    ;
}

proof fn lemma_flip_bit(x: u32, n: u32, k: u32)
    requires
        n < 32,
        k < 32,
    ensures
        bit_set(x ^ (1u32 << n), k) == (if k == n { !bit_set(x, k) } else { bit_set(x, k) }),
{
    assert(((x ^ (1u32 << n)) >> k) & 1u32 == 1u32 <==> (if k == n {
        !((x >> k) & 1u32 == 1u32)
    } else {
        (x >> k) & 1u32 == 1u32
    })) by (bit_vector)
        requires
            n < 32,
            k < 32,
    ;
}

proof fn lemma_clear_bit(x: u32, n: u32, k: u32)
    requires
        n < 32,
        k < 32,
    ensures
        bit_set(x & !(1u32 << n), k) == (k != n && bit_set(x, k)),
{
    assert(((x & !(1u32 << n)) >> k) & 1u32 == 1u32 <==> (k != n && (x >> k) & 1u32 == 1u32))
        by (bit_vector)
        requires
            n < 32,
            k < 32,
    ;
}

proof fn lemma_test_bit(x: u32, n: u32)
    requires
        n < 32,
    ensures
        ((x & (1u32 << n)) == (1u32 << n)) == bit_set(x, n),
{
    assert(((x & (1u32 << n)) == (1u32 << n)) == ((x >> n) & 1u32 == 1u32)) by (bit_vector)
        requires
            n < 32,
    ;
}

/// Bit `k` of the complement of `x` is set exactly when bit `k` of `x` is not.
pub proof fn lemma_not_bit(x: u32, k: u32)
    requires
        k < 32,
    ensures
        bit_set(!x, k) == !bit_set(x, k),
{
    assert(((!x) >> k) & 1u32 == 1u32 <==> !((x >> k) & 1u32 == 1u32)) by (bit_vector)
        requires
            k < 32,
    ;
}

/// Common single-bit manipulations on a 32-bit word.
pub trait BitManip {
    /// Sets bit `n`, leaving the others as they were.
    fn set_bit(&mut self, n: u32)
        requires
            n < 32,
    ;

    /// Inverts bit `n`, leaving the others as they were.
    fn flip_bit(&mut self, n: u32)
        requires
            n < 32,
    ;

    /// Whether bit `n` is set.
    fn test_bit(&self, n: u32) -> bool
        requires
            n < 32,
    ;

    /// Clears bit `n`, leaving the others as they were.
    fn clear_bit(&mut self, n: u32)
        requires
            n < 32,
    ;
}

impl BitManip for u32 {
    fn set_bit(&mut self, n: u32)
        ensures
            forall|k: u32| k < 32 ==> #[trigger] bit_set(*final(self), k) == (k == n || bit_set(*old(self), k)),
    {
        let ghost x = *self;
        *self = *self | (1u32 << n);
        proof {
            assert forall|k: u32| k < 32 implies #[trigger] bit_set(*self, k) == (k == n || bit_set(x, k)) by {
                lemma_set_bit(x, n, k);
            }
        }
    }

    fn flip_bit(&mut self, n: u32)
        ensures
            forall|k: u32|
                k < 32 ==> #[trigger] bit_set(*final(self), k) == (if k == n {
                    !bit_set(*old(self), k)
                } else {
                    bit_set(*old(self), k)
                }),
    {
        let ghost x = *self;
        *self = *self ^ (1u32 << n);
        proof {
            assert forall|k: u32| k < 32 implies #[trigger] bit_set(*self, k) == (if k == n {
                !bit_set(x, k)
            } else {
                bit_set(x, k)
            }) by {
                lemma_flip_bit(x, n, k);
            }
        }
    }

    fn test_bit(&self, n: u32) -> (r: bool)
        ensures
            r == bit_set(*self, n),
    {
        proof {
            lemma_test_bit(*self, n);
        }
        (*self & (1u32 << n)) == (1u32 << n)
    }

    fn clear_bit(&mut self, n: u32)
        ensures
            forall|k: u32| k < 32 ==> #[trigger] bit_set(*final(self), k) == (k != n && bit_set(*old(self), k)),
    {
        let ghost x = *self;
        *self = *self & !(1u32 << n);
        proof {
            assert forall|k: u32| k < 32 implies #[trigger] bit_set(*self, k) == (k != n && bit_set(x, k)) by {
                lemma_clear_bit(x, n, k);
            }
        }
    }
}

} // verus!
