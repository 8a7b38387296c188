//! A byte substitution box: a permutation of the byte values and its inverse.

use vstd::prelude::*;
use rand_chacha::ChaCha20Rng;
use crate::random::random_index;

verus! {

/// A bijection on bytes, held as a lookup table together with the table of
/// its inverse.
#[derive(Debug, Clone, Copy, PartialEq, Eq)]
pub struct DynamicSBox {
    sbox: [u8; 256],
    inverse_sbox: [u8; 256],
}

/// The byte `value` stands somewhere in the table.
pub open spec fn occurs(table: Seq<u8>, value: u8) -> bool {
    exists|k: int| 0 <= k < 256 && #[trigger] table[k] == value
}

/// A table of 256 bytes in which every byte value stands exactly once.
pub open spec fn is_permutation(table: Seq<u8>) -> bool {
    &&& table.len() == 256
    &&& forall|a: int, b: int|
        0 <= a < 256 && 0 <= b < 256 && #[trigger] table[a] == #[trigger] table[b] ==> a == b
    &&& forall|v: u8| #[trigger] occurs(table, v)
}

/// The table in which every byte stands at its own place.
pub open spec fn identity_table() -> Seq<u8> {
    Seq::new(256, |i: int| i as u8)
}

/// The table with the entries at two places exchanged.
pub open spec fn exchanged(table: Seq<u8>, i: int, j: int) -> Seq<u8> {
    table.update(i, table[j]).update(j, table[i])
}

/// Draws for a shuffle of 256 places: one for each place from the last down
/// to the second, none beyond the place it is for.
pub open spec fn valid_draws(draws: Seq<usize>) -> bool {
    draws.len() == 255 && forall|k: int| 0 <= k < 255 ==> #[trigger] draws[k] <= 255 - k
}

/// The identity table after the first `steps` exchanges of a shuffle:
/// exchange `k` is between the place `255 - k` and the place of draw `k`.
pub open spec fn shuffled(draws: Seq<usize>, steps: nat) -> Seq<u8>
    decreases steps,
{
    if steps == 0 {
        identity_table()
    } else {
        exchanged(
            shuffled(draws, (steps - 1) as nat),
            256 - steps,
            draws[steps - 1] as int,
        )
    }
}

impl DynamicSBox {
    /// The byte that `value` is replaced by.
    pub closed spec fn forward(&self, value: u8) -> u8 {
        self.sbox@[value as int]
    }

    /// The byte that the inverse table holds for `value`.
    pub closed spec fn backward(&self, value: u8) -> u8 {
        self.inverse_sbox@[value as int]
    }

    /// The two tables are inverse to each other, in both directions.
    pub open spec fn wf(&self) -> bool {
        &&& forall|v: u8| self.backward(#[trigger] self.forward(v)) == v
        &&& forall|v: u8| self.forward(#[trigger] self.backward(v)) == v
    }

    /// The box that a Fisher-Yates shuffle of the identity table gives with
    /// the given draws: draw `k` says with which place the place `255 - k` is
    /// exchanged, and is no larger than that place. Draws of any other
    /// number or size give no box.
    pub fn from_draws(draws: &[usize]) -> (out: Option<DynamicSBox>)
        ensures
            out is Some <==> valid_draws(draws@),
            out matches Some(sbox) ==> sbox.wf() && forall|v: u8|
                #[trigger] sbox.forward(v) == shuffled(draws@, 255)[v as int],
    {
        if draws.len() != 255 {
            return None;
        }
        let mut table: [u8; 256] = [0; 256];
        let mut i: usize = 0;
        while i < 256
            invariant
                i <= 256,
                forall|k: int| 0 <= k < i ==> table@[k] == k,
            decreases 256 - i,
        {
            table[i] = i as u8;
            i += 1;
        }
        assert(table@ =~= identity_table());
        let ghost mut inv: Seq<u8> = Seq::new(256, |k: int| k as u8);
        let mut step: usize = 0;
        while step < 255
            invariant
                step <= 255,
                draws@.len() == 255,
                inv.len() == 256,
                table@ == shuffled(draws@, step as nat),
                forall|k: int| 0 <= k < step ==> #[trigger] draws@[k] <= 255 - k,
                forall|k: int| 0 <= k < 256 ==> inv[#[trigger] table@[k] as int] == k,
                forall|v: int| 0 <= v < 256 ==> table@[#[trigger] inv[v] as int] == v,
            decreases 255 - step,
        {
            let i: usize = 255 - step;
            let j = draws[step];
            if j > i {
                return None;
            }
            let at_i = table[i];
            let at_j = table[j];
            table[i] = at_j;
            table[j] = at_i;
            proof {
                inv = inv.update(at_i as int, j as u8).update(at_j as int, i as u8);
                assert(table@ =~= exchanged(shuffled(draws@, step as nat), i as int, j as int));
            }
            step += 1;
        }
        proof {
            assert forall|a: int, b: int|
                0 <= a < 256 && 0 <= b < 256 && #[trigger] table@[a] == #[trigger] table@[b]
                implies a == b by {
                assert(inv[table@[a] as int] == a);
                assert(inv[table@[b] as int] == b);
            }
            assert forall|v: u8| #[trigger] occurs(table@, v) by {
                assert(table@[inv[v as int] as int] == v);
            }
        }
        DynamicSBox::from_table(&table)
    }

    /// Generates a box by a Fisher-Yates shuffle of the identity table, with
    /// the draws taken from `rng`, and derives the inverse table from it.
    pub fn new(rng: &mut ChaCha20Rng) -> (sbox: DynamicSBox)
        ensures
            sbox.wf(),
            exists|draws: Seq<usize>|
                valid_draws(draws) && forall|v: u8|
                    #[trigger] sbox.forward(v) == shuffled(draws, 255)[v as int],
    {
        let mut draws: Vec<usize> = Vec::new();
        let mut step: usize = 0;
        while step < 255
            invariant
                step <= 255,
                draws@.len() == step,
                forall|k: int| 0 <= k < step ==> #[trigger] draws@[k] <= 255 - k,
            decreases 255 - step,
        {
            draws.push(random_index(rng, 255 - step));
            step += 1;
        }
        let sbox = DynamicSBox::from_draws(draws.as_slice()).unwrap();
        assert(valid_draws(draws@) && forall|v: u8|
            #[trigger] sbox.forward(v) == shuffled(draws@, 255)[v as int]);
        sbox
    }

    /// The box of a given table, where the table is a permutation of the
    /// byte values.
    pub fn from_table(table: &[u8; 256]) -> (out: Option<DynamicSBox>)
        ensures
            out is Some <==> is_permutation(table@),
            out matches Some(sbox) ==> sbox.wf() && forall|v: u8|
                #[trigger] sbox.forward(v) == table@[v as int],
    {
        let mut inverse: [u8; 256] = [0; 256];
        let mut seen: [bool; 256] = [false; 256];
        let mut i: usize = 0;
        while i < 256
            invariant
                i <= 256,
                forall|k: int| 0 <= k < i ==> seen@[#[trigger] table@[k] as int],
                forall|k: int| 0 <= k < i ==> inverse@[#[trigger] table@[k] as int] == k,
                forall|v: int|
                    0 <= v < 256 && #[trigger] seen@[v] ==> inverse@[v] < i
                        && table@[inverse@[v] as int] == v,
            decreases 256 - i,
        {
            let value = table[i];
            if seen[value as usize] {
                assert(table@[inverse@[value as int] as int] == table@[i as int]);
                return None;
            }
            seen[value as usize] = true;
            inverse[value as usize] = i as u8;
            i += 1;
        }
        let mut v: usize = 0;
        while v < 256
            invariant
                v <= 256,
                forall|k: int| 0 <= k < 256 ==> seen@[#[trigger] table@[k] as int],
                forall|k: int| 0 <= k < 256 ==> inverse@[#[trigger] table@[k] as int] == k,
                forall|w: int|
                    0 <= w < 256 && #[trigger] seen@[w] ==> table@[inverse@[w] as int] == w,
                forall|w: int| 0 <= w < v ==> #[trigger] seen@[w],
            decreases 256 - v,
        {
            if !seen[v] {
                assert forall|k: int| 0 <= k < 256 implies #[trigger] table@[k] != v as u8 by {
                    assert(seen@[table@[k] as int]);
                }
                assert(!occurs(table@, v as u8));
                return None;
            }
            v += 1;
        }
        let sbox = DynamicSBox { sbox: *table, inverse_sbox: inverse };
        assert forall|b: u8| sbox.backward(#[trigger] sbox.forward(b)) == b by {
            assert(inverse@[table@[b as int] as int] == b);
        }
        assert forall|b: u8| sbox.forward(#[trigger] sbox.backward(b)) == b by {
            assert(seen@[b as int]);
        }
        assert forall|a: int, b: int|
            0 <= a < 256 && 0 <= b < 256 && #[trigger] table@[a] == #[trigger] table@[b] implies a
            == b by {
            assert(inverse@[table@[a] as int] == a);
            assert(inverse@[table@[b] as int] == b);
        }
        assert forall|b: u8| #[trigger] occurs(table@, b) by {
            assert(seen@[b as int]);
            assert(table@[inverse@[b as int] as int] == b);
        }
        Some(sbox)
    }

    /// The table of the box: at place `v` stands the substitute of `v`.
    pub fn table(&self) -> (table: [u8; 256])
        ensures
            forall|v: u8| table@[v as int] == #[trigger] self.forward(v),
    {
        self.sbox
    }

    /// Substitute a value using the box.
    pub fn substitute(&self, value: u8) -> (out: u8)
        ensures
            out == self.forward(value),
    {
        self.sbox[value as usize]
    }

    /// Substitute a value using the inverse box.
    pub fn inverse_substitute(&self, value: u8) -> (out: u8)
        ensures
            out == self.backward(value),
    {
        self.inverse_sbox[value as usize]
    }
}

/// In a well-formed box, substituting back undoes substituting, and the
/// other way round; so no two bytes are substituted by the same byte, and
/// every byte is the substitute of one.
pub proof fn lemma_substitution_is_bijective(sbox: DynamicSBox, v: u8, w: u8)
    requires
        sbox.wf(),
    ensures
        sbox.backward(sbox.forward(v)) == v,
        sbox.forward(sbox.backward(v)) == v,
        sbox.forward(v) == sbox.forward(w) ==> v == w,
        sbox.backward(v) == sbox.backward(w) ==> v == w,
{
    assert(sbox.backward(sbox.forward(v)) == v);
    assert(sbox.backward(sbox.forward(w)) == w);
    assert(sbox.forward(sbox.backward(v)) == v);
    assert(sbox.forward(sbox.backward(w)) == w);
}

} // verus!
