//! The permutation tables of Perlin noise, and the lattice hash that picks a
//! gradient vector for each lattice corner.

use vstd::prelude::*;
use crate::utils::random_int;

verus! {

/// Entries in each table, and gradient vectors in the noise state.
pub const POINT_COUNT: usize = 256;

/// `s` holds each of `0..n` exactly once.
pub open spec fn is_permutation(s: Seq<usize>, n: nat) -> bool {
    &&& s.len() == n
    &&& forall|i: int| 0 <= i < n ==> (#[trigger] s[i]) < n
    &&& s.no_duplicates()
}

/// `s` with the entries at `i` and `j` exchanged.
pub open spec fn swap(s: Seq<usize>, i: int, j: int) -> Seq<usize> {
    s.update(i, s[j]).update(j, s[i])
}

/// The table after the in-place shuffle has exchanged entry `k` with entry
/// `draws[k]` for each `k` from the last down to `i`, starting from
/// `0..POINT_COUNT` in order.
pub open spec fn shuffled_from(draws: Seq<usize>, i: nat) -> Seq<usize>
    decreases POINT_COUNT - i,
{
    if i >= POINT_COUNT {
        Seq::new(POINT_COUNT as nat, |k: int| k as usize)
    } else {
        swap(shuffled_from(draws, i + 1), i as int, draws[i as int] as int)
    }
}

/// Valid swap partners for the shuffle: `draws[k] <= k`.
pub open spec fn valid_draws(draws: Seq<usize>) -> bool {
    &&& draws.len() == POINT_COUNT
    &&& forall|k: int| 0 <= k < POINT_COUNT ==> #[trigger] draws[k] <= k
}

proof fn lemma_swap_keeps_permutation(s: Seq<usize>, n: nat, i: int, j: int)
    requires
        is_permutation(s, n),
        0 <= i < n,
        0 <= j < n,
    ensures
        is_permutation(swap(s, i, j), n),
{
    let t = swap(s, i, j);
    assert forall|a: int, b: int| 0 <= a < t.len() && 0 <= b < t.len() && a != b implies t[a]
        != t[b] by {
        let sa = if a == j { i } else if a == i { j } else { a };
        let sb = if b == j { i } else if b == i { j } else { b };
        assert(t[a] == s[sa]);
        assert(t[b] == s[sb]);
    }
}

/// Shuffles `0..POINT_COUNT` in place, exchanging entry `k` with entry
/// `draws[k]` for each `k` from the last down to the first.
pub fn perlin_generate_perm(draws: &Vec<usize>) -> (r: Vec<usize>)
    requires
        valid_draws(draws@),
    ensures
        r@ == shuffled_from(draws@, 0),
        is_permutation(r@, POINT_COUNT as nat),
{
    let mut p: Vec<usize> = Vec::new();
    let mut k: usize = 0;
    while k < POINT_COUNT
        invariant
            k <= POINT_COUNT,
            p@ == Seq::new(k as nat, |m: int| m as usize),
        decreases POINT_COUNT - k,
    {
        p.push(k);
        k = k + 1;
        assert(p@ =~= Seq::new(k as nat, |m: int| m as usize));
    }
    proof {
        assert(p@.no_duplicates());
    }
    let mut i: usize = POINT_COUNT;
    while i > 0
        invariant
            i <= POINT_COUNT,
            valid_draws(draws@),
            p@ == shuffled_from(draws@, i as nat),
            is_permutation(p@, POINT_COUNT as nat),
        decreases i,
    {
        i = i - 1;
        let t = draws[i];
        let tmp = p[i];
        let other = p[t];
        p.set(i, other);
        p.set(t, tmp);
        proof {
            lemma_swap_keeps_permutation(shuffled_from(draws@, (i + 1) as nat), POINT_COUNT as nat, i as int, t as int);
            assert(p@ =~= shuffled_from(draws@, i as nat));
        }
    }
    p
}

/// Three independent shuffles of `0..POINT_COUNT`, one per axis.
pub struct PerlinPermutations {
    perm_x: Vec<usize>,
    perm_y: Vec<usize>,
    perm_z: Vec<usize>,
}

/// The table entry for lattice coordinate `c`, taken modulo the table size.
pub open spec fn entry(perm: Seq<usize>, c: i32) -> usize {
    perm[(c & 255) as int]
}

impl View for PerlinPermutations {
    type V = (Seq<usize>, Seq<usize>, Seq<usize>);

    closed spec fn view(&self) -> (Seq<usize>, Seq<usize>, Seq<usize>) {
        (self.perm_x@, self.perm_y@, self.perm_z@)
    }
}

impl PerlinPermutations {
    /// Each table is a permutation of `0..POINT_COUNT`.
    pub open spec fn wf(&self) -> bool {
        &&& is_permutation(self@.0, POINT_COUNT as nat)
        &&& is_permutation(self@.1, POINT_COUNT as nat)
        &&& is_permutation(self@.2, POINT_COUNT as nat)
    }

    /// The tables that the given swap partners produce, one list per axis.
    pub fn from_draws(dx: &Vec<usize>, dy: &Vec<usize>, dz: &Vec<usize>) -> (r: PerlinPermutations)
        requires
            valid_draws(dx@),
            valid_draws(dy@),
            valid_draws(dz@),
        ensures
            r.wf(),
            r@ == (shuffled_from(dx@, 0), shuffled_from(dy@, 0), shuffled_from(dz@, 0)),
    {
        PerlinPermutations {
            perm_x: perlin_generate_perm(dx),
            perm_y: perlin_generate_perm(dy),
            perm_z: perlin_generate_perm(dz),
        }
    }

    /// Fresh tables from uniformly drawn swap partners.
    pub fn new() -> (r: PerlinPermutations)
        ensures
            r.wf(),
    {
        let dx = random_draws();
        let dy = random_draws();
        let dz = random_draws();
        PerlinPermutations::from_draws(&dx, &dy, &dz)
    }

    /// The index of the gradient vector at lattice point `(i, j, k)`: the
    /// exclusive or of the three axes' entries.
    pub fn hash(&self, i: i32, j: i32, k: i32) -> (r: usize)
        requires
            self.wf(),
        ensures
            r == entry(self@.0, i) ^ entry(self@.1, j) ^ entry(self@.2, k),
            r < POINT_COUNT,
    {
        let x = (i & 255) as usize;
        let y = (j & 255) as usize;
        let z = (k & 255) as usize;
        assert(0 <= (i & 255) < 256 && 0 <= (j & 255) < 256 && 0 <= (k & 255) < 256) by (bit_vector);
        let a = self.perm_x[x];
        let b = self.perm_y[y];
        let c = self.perm_z[z];
        assert(a < 256 && b < 256 && c < 256 ==> a ^ b ^ c < 256) by (bit_vector);
        a ^ b ^ c
    }
}

fn random_draws() -> (r: Vec<usize>)
    ensures
        valid_draws(r@),
{
    let mut d: Vec<usize> = Vec::new();
    let mut k: usize = 0;
    while k < POINT_COUNT
        invariant
            k <= POINT_COUNT,
            d@.len() == k,
            forall|m: int| 0 <= m < k ==> #[trigger] d@[m] <= m,
        decreases POINT_COUNT - k,
    {
        d.push(random_int(0, k));
        k = k + 1;
    }
    d
}

} // verus!
