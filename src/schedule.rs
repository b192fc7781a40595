//! The shared row counter from which render workers claim image rows, and
//! where a claimed row lands in the output.

use vstd::prelude::*;

verus! {

/// Hands out the rows of an image, each once, in increasing order. Workers
/// share one counter behind a lock, so their claims form one sequence. Every
/// claim advances the counter, also those that find the rows used up.
pub struct RowCounter {
    next: u64,
    height: u32,
}

/// The row that a claim from counter state `s` (next row, height) returns.
pub open spec fn claim_result(s: (nat, nat)) -> Option<nat> {
    if s.0 < s.1 {
        Some(s.0)
    } else {
        None
    }
}

/// The counter state after a claim from state `s`.
pub open spec fn after_claim(s: (nat, nat)) -> (nat, nat) {
    (s.0 + 1, s.1)
}

/// The counter state after `k` successive claims from state `s`.
pub open spec fn after_claims(s: (nat, nat), k: nat) -> (nat, nat)
    decreases k,
{
    if k == 0 {
        s
    } else {
        after_claims(after_claim(s), (k - 1) as nat)
    }
}

/// What `k` successive claims from state `s` return, in order.
pub open spec fn claims(s: (nat, nat), k: nat) -> Seq<Option<nat>>
    decreases k,
{
    if k == 0 {
        Seq::empty()
    } else {
        seq![claim_result(s)] + claims(after_claim(s), (k - 1) as nat)
    }
}

/// The output row, counted from the top, of image row `row` counted from the
/// bottom.
pub open spec fn flipped_row(height: nat, row: nat) -> int {
    height - 1 - row
}

/// Some claim among `c` returned the image row that lands on output row `y`.
pub open spec fn lands_on(c: Seq<Option<nat>>, height: nat, y: int) -> bool {
    exists|i: int| 0 <= i < c.len() && (#[trigger] c[i]) is Some && flipped_row(height, c[i]->0) == y
}

impl View for RowCounter {
    type V = (nat, nat);

    closed spec fn view(&self) -> (nat, nat) {
        (self.next as nat, self.height as nat)
    }
}

impl RowCounter {
    /// A counter over `height` rows that has handed out none.
    pub fn new(height: u32) -> (r: RowCounter)
        ensures
            r@ == (0nat, height as nat),
    {
        RowCounter { next: 0, height }
    }

    /// How many claims have been made.
    pub fn claimed(&self) -> (r: u64)
        ensures
            r == self@.0,
    {
        self.next
    }

    /// Claims the next row, or `None` once every row has been claimed.
    pub fn claim(&mut self) -> (r: Option<u32>)
        requires
            old(self)@.0 < u64::MAX,
        ensures
            final(self)@ == after_claim(old(self)@),
            match r {
                Some(v) => claim_result(old(self)@) == Some(v as nat),
                None => claim_result(old(self)@) is None,
            },
    {
        let row = self.next;
        self.next = self.next + 1;
        if row < self.height as u64 {
            Some(row as u32)
        } else {
            None
        }
    }
}

/// Where row `row` of an image `height` rows high, counted from the bottom,
/// stands in the output, counted from the top.
pub fn output_row(height: u32, row: u32) -> (r: u32)
    requires
        row < height,
    ensures
        r as int == flipped_row(height as nat, row as nat),
{
    height - 1 - row
}

proof fn lemma_after_claims(next: nat, height: nat, k: nat)
    ensures
        after_claims((next, height), k) == ((next + k) as nat, height),
    decreases k,
{
    if k > 0 {
        lemma_after_claims(next + 1, height, (k - 1) as nat);
    }
}

proof fn lemma_claims_from(next: nat, height: nat, k: nat)
    ensures
        claims((next, height), k).len() == k,
        forall|i: int|
            0 <= i < k ==> #[trigger] claims((next, height), k)[i] == if next + i < height {
                Some((next + i) as nat)
            } else {
                None::<nat>
            },
    decreases k,
{
    if k > 0 {
        let s = (next, height);
        lemma_claims_from(after_claim(s).0, height, (k - 1) as nat);
        let rest = claims(after_claim(s), (k - 1) as nat);
        assert forall|i: int| 0 <= i < k implies #[trigger] claims(s, k)[i] == if next + i
            < height {
            Some((next + i) as nat)
        } else {
            None::<nat>
        } by {
            if i > 0 {
                assert(claims(s, k)[i] == rest[i - 1]);
            }
        }
    }
}

/// Whatever number of workers share a fresh counter over `height` rows, once
/// `k >= height` claims have been made in all, each output row `0..height`
/// is written exactly once: some claim returned the image row that lands
/// there, and no two claims land on the same output row. No claim returned a
/// row outside the image, and the counter has been advanced once per claim.
pub proof fn lemma_every_row_written_once(height: nat, k: nat)
    requires
        k >= height,
    ensures
        forall|y: int| 0 <= y < height ==> #[trigger] lands_on(claims((0, height), k), height, y),
        forall|i: int, j: int|
            0 <= i < k && 0 <= j < k && (#[trigger] claims((0, height), k)[i]) is Some && (
            #[trigger] claims((0, height), k)[j]) is Some && flipped_row(
                height,
                claims((0, height), k)[i]->0,
            ) == flipped_row(height, claims((0, height), k)[j]->0) ==> i == j,
        forall|i: int|
            0 <= i < k && (#[trigger] claims((0, height), k)[i]) is Some ==> claims(
                (0, height),
                k,
            )[i]->0 < height,
        after_claims((0, height), k) == (k, height),
{
    lemma_claims_from(0, height, k);
    lemma_after_claims(0, height, k);
    let c = claims((0, height), k);
    assert forall|y: int| 0 <= y < height implies #[trigger] lands_on(c, height, y) by {
        let i = height - 1 - y;
        assert(c[i] == Some((0 + i) as nat));
    }
}

} // verus!
