//! The integer lattice of Perlin noise: three random permutation tables of
//! the 256 lattice positions, combined by exclusive or into the index of the
//! random value of a lattice corner.

use crate::random::random_below;
use vstd::arithmetic::div_mod::lemma_mod_multiples_vanish;
use vstd::prelude::*;

verus! {

/// The number of positions of the lattice along each axis.
pub const POINT_COUNT: usize = 256;

/// `s` is a permutation of `0..256`: 256 entries, each below 256, no two equal.
pub open spec fn is_perm_table(s: Seq<usize>) -> bool {
    &&& s.len() == 256
    &&& forall|i: int| 0 <= i < s.len() ==> s[i] < 256
    &&& forall|i: int, j: int| 0 <= i < s.len() && 0 <= j < s.len() && i != j ==> s[i] != s[j]
}

/// The lattice position of coordinate `i`: `i` modulo 256.
pub open spec fn wrap(i: int) -> int {
    i % 256
}

/// The three permutation tables of a Perlin noise lattice.
#[derive(Debug)]
pub struct Perlin {
    perm_x: Vec<usize>,
    perm_y: Vec<usize>,
    perm_z: Vec<usize>,
}

/// The lattice index of coordinate `i`: `i` modulo 256, computed on the
/// coordinate shifted by `2^31`, a multiple of 256 that makes it non-negative.
fn lattice(i: i32) -> (r: usize)
    ensures
        r as int == wrap(i as int),
        r < 256,
{
    let shifted = (i as i64 + 2147483648i64) as u64;
    proof {
        lemma_mod_multiples_vanish(8388608, i as int, 256);
        assert(256 * 8388608 + i as int == shifted as int);
    }
    (shifted % 256) as usize
}

/// Swaps entries `i` and `j` of a permutation table.
fn swap_entries(perm: &mut Vec<usize>, i: usize, j: usize)
    requires
        i < old(perm).len(),
        j < old(perm).len(),
    ensures
        final(perm)@ == old(perm)@.update(i as int, old(perm)@[j as int]).update(
            j as int,
            old(perm)@[i as int],
        ),
{
    let a = perm[i];
    let b = perm[j];
    perm.set(i, b);
    perm.set(j, a);
}

/// `perm` with the entries at positions `i` and `j` exchanged.
pub open spec fn swap_at(perm: Seq<usize>, i: int, j: int) -> Seq<usize> {
    perm.update(i, perm[j]).update(j, perm[i])
}

/// The Fisher-Yates shuffle of the first `n` positions of `perm` by `draws`:
/// for `i` from `n - 1` down to 0, the entry at `i` is exchanged with the
/// one at `draws[i]`.
pub open spec fn fisher_yates(perm: Seq<usize>, draws: Seq<usize>, n: nat) -> Seq<usize>
    decreases n,
{
    if n == 0 {
        perm
    } else {
        fisher_yates(swap_at(perm, n - 1, draws[n - 1] as int), draws, (n - 1) as nat)
    }
}

/// `draws` can drive a shuffle of 256 positions: the draw for position `i`
/// is a position at or below `i`.
pub open spec fn valid_draws(draws: Seq<usize>) -> bool {
    &&& draws.len() == 256
    &&& forall|i: int| 0 <= i < 256 ==> #[trigger] draws[i] <= i
}

/// The positions `0..256` in order.
pub open spec fn identity_table() -> Seq<usize> {
    Seq::new(256, |i: int| i as usize)
}

/// `s` is the identity table shuffled by some valid draws.
pub open spec fn is_shuffled_table(s: Seq<usize>) -> bool {
    exists|draws: Seq<usize>| valid_draws(draws) && s == fisher_yates(identity_table(), draws, 256)
}

/// Shuffles a table of 256 entries by `draws`: from the last position down,
/// the entry at position `i` is exchanged with the one at `draws[i]`. Draws
/// taken uniformly at or below their positions give every permutation with
/// the same chance.
pub fn shuffle(perm: &mut Vec<usize>, draws: &Vec<usize>)
    requires
        old(perm)@.len() == 256,
        valid_draws(draws@),
    ensures
        final(perm)@ == fisher_yates(old(perm)@, draws@, 256),
        is_perm_table(old(perm)@) ==> is_perm_table(final(perm)@),
{
    let mut i: usize = POINT_COUNT;
    while i > 0
        invariant
            i <= POINT_COUNT,
            perm@.len() == 256,
            valid_draws(draws@),
            fisher_yates(perm@, draws@, i as nat) == fisher_yates(old(perm)@, draws@, 256),
            is_perm_table(old(perm)@) ==> is_perm_table(perm@),
        decreases i,
    {
        i = i - 1;
        let target = draws[i];
        proof {
            assert(draws@[i as int] <= i);
        }
        swap_entries(perm, i, target);
    }
}

/// A random permutation of `0..256`: the identity shuffled by draws taken
/// uniformly at or below each position.
fn generate_perm() -> (r: Vec<usize>)
    ensures
        is_perm_table(r@),
        is_shuffled_table(r@),
{
    let mut perm: Vec<usize> = Vec::new();
    let mut draws: Vec<usize> = Vec::new();
    let mut i: usize = 0;
    while i < POINT_COUNT
        invariant
            i <= POINT_COUNT,
            perm@.len() == i,
            draws@.len() == i,
            forall|k: int| 0 <= k < i ==> perm@[k] == k,
            forall|k: int| 0 <= k < i ==> #[trigger] draws@[k] <= k,
        decreases POINT_COUNT - i,
    {
        perm.push(i);
        draws.push(random_below(i + 1));
        i = i + 1;
    }
    let ghost start = perm@;
    proof {
        assert(start =~= identity_table());
        assert(valid_draws(draws@));
    }
    shuffle(&mut perm, &draws);
    proof {
        assert(valid_draws(draws@) && perm@ == fisher_yates(identity_table(), draws@, 256));
    }
    perm
}

impl Perlin {
    /// The permutation table of the x axis.
    pub closed spec fn spec_perm_x(&self) -> Seq<usize> {
        self.perm_x@
    }

    /// The permutation table of the y axis.
    pub closed spec fn spec_perm_y(&self) -> Seq<usize> {
        self.perm_y@
    }

    /// The permutation table of the z axis.
    pub closed spec fn spec_perm_z(&self) -> Seq<usize> {
        self.perm_z@
    }

    /// Each of the three tables is a permutation of `0..256`.
    pub open spec fn wf(&self) -> bool {
        &&& is_perm_table(self.spec_perm_x())
        &&& is_perm_table(self.spec_perm_y())
        &&& is_perm_table(self.spec_perm_z())
    }

    /// The index of lattice corner `(i, j, k)` into the table of 256 random
    /// values: the entries of the three tables at the coordinates modulo 256,
    /// combined by exclusive or.
    pub open spec fn spec_hash(&self, i: int, j: int, k: int) -> usize {
        self.spec_perm_x()[wrap(i)] ^ self.spec_perm_y()[wrap(j)] ^ self.spec_perm_z()[wrap(k)]
    }

    /// A lattice with three independent random permutation tables, each the
    /// identity shuffled by its own random draws.
    pub fn new() -> (r: Perlin)
        ensures
            r.wf(),
            is_shuffled_table(r.spec_perm_x()),
            is_shuffled_table(r.spec_perm_y()),
            is_shuffled_table(r.spec_perm_z()),
    {
        let perm_x = generate_perm();
        let perm_y = generate_perm();
        let perm_z = generate_perm();
        Perlin { perm_x, perm_y, perm_z }
    }

    /// The index of lattice corner `(i, j, k)` into the table of 256 random values.
    pub fn hash(&self, i: i32, j: i32, k: i32) -> (r: usize)
        requires
            self.wf(),
        ensures
            r == self.spec_hash(i as int, j as int, k as int),
            r < POINT_COUNT,
    {
        let a = self.perm_x[lattice(i)];
        let b = self.perm_y[lattice(j)];
        let c = self.perm_z[lattice(k)];
        assert(a < 256 && b < 256 && c < 256 ==> (a ^ b ^ c) < 256) by (bit_vector);
        a ^ b ^ c
    }
}

impl Default for Perlin {
    /// A lattice with three independent random permutation tables.
    fn default() -> (r: Perlin)
        ensures
            r.wf(),
            is_shuffled_table(r.spec_perm_x()),
            is_shuffled_table(r.spec_perm_y()),
            is_shuffled_table(r.spec_perm_z()),
    {
        Perlin::new()
    }
}

} // verus!
