//! The seven-piece randomizer: pieces are dealt from a shuffled bag that holds
//! each of the seven pieces once, and a fresh bag is shuffled when it runs out.
use vstd::prelude::*;
use rand::Rng;
use crate::pieces::PIECE_COUNT;

verus! {

#[verifier::external_type_specification]
#[verifier::external_body]
pub struct ExThreadRng(rand::rngs::ThreadRng);

/// Calls `rand::thread_rng`, which hands out the lazily seeded generator of
/// the current thread (and panics, whatever the caller does, if the
/// operating system's entropy source cannot seed it). Nothing is claimed of
/// the handle it returns.
#[verifier::external_body]
fn thread_rng() -> rand::rngs::ThreadRng {
    rand::thread_rng()
}

/// One random partner index together with the inclusive upper end of the
/// range it was drawn from.
pub struct IndexDraw {
    pub index: usize,
    pub bound: usize,
}

/// Calls `Rng::gen_range` on the inclusive range `0..=hi` and hands back the
/// value with the range end it was given. rand documents that the value lies
/// in the range and that it panics when the range is empty, which `0..=hi`
/// never is (the thread generator can also panic when reseeding from the
/// operating system fails, which no argument controls). The contract claims
/// the range and nothing else of the value, since it is drawn by chance.
#[verifier::external_body]
fn gen_index(rng: &mut rand::rngs::ThreadRng, hi: usize) -> (d: IndexDraw)
    ensures
        d.bound == hi,
        d.index <= hi,
{
    IndexDraw { index: rng.gen_range(0..=hi), bound: hi }
}

/// A full bag: each of the seven pieces exactly once, in some order.
pub open spec fn is_seven_bag(p: Seq<usize>) -> bool {
    &&& p.len() == PIECE_COUNT
    &&& forall|i: int| 0 <= i < p.len() ==> #[trigger] p[i] < PIECE_COUNT
    &&& p.no_duplicates()
}

/// Random draws for one shuffle: draw `k` names the partner of position
/// `6 - k`, among the positions 0 to `6 - k`.
pub open spec fn valid_draws(d: Seq<usize>) -> bool {
    &&& d.len() == PIECE_COUNT - 1
    &&& forall|k: int| 0 <= k < d.len() ==> #[trigger] d[k] <= PIECE_COUNT - 1 - k
}

/// `s` with the entries at `i` and `j` exchanged.
pub open spec fn swapped(s: Seq<usize>, i: int, j: int) -> Seq<usize> {
    s.update(i, s[j]).update(j, s[i])
}

/// `s` after the swaps of draws `k` to 5: position `6 - m` with position `d[m]`, for m = k, ..., 5.
pub open spec fn shuffle_from(s: Seq<usize>, d: Seq<usize>, k: int) -> Seq<usize>
    decreases PIECE_COUNT - 1 - k,
{
    if k >= PIECE_COUNT - 1 {
        s
    } else {
        shuffle_from(swapped(s, PIECE_COUNT - 1 - k, d[k] as int), d, k + 1)
    }
}

/// The Fisher-Yates shuffle of 0, 1, ..., 6 that the draws `d` select.
pub open spec fn spec_fisher_yates(d: Seq<usize>) -> Seq<usize> {
    shuffle_from(seq![0usize, 1, 2, 3, 4, 5, 6], d, 0)
}

/// What one draw from a bag holding `before` may do: take the first piece, or,
/// when the bag is empty, shuffle a fresh bag and take its first piece.
pub open spec fn draw_from(before: Seq<usize>, after: Seq<usize>, drawn: usize) -> bool {
    if before.len() > 0 {
        drawn == before[0] && after == before.drop_first()
    } else {
        exists|d: Seq<usize>| #[trigger] valid_draws(d) && drawn == spec_fisher_yates(d)[0] && after == spec_fisher_yates(d).drop_first()
    }
}

/// Swapping along the way keeps a full bag full.
proof fn lemma_shuffle_from_keeps_bag(s: Seq<usize>, d: Seq<usize>, k: int)
    requires
        is_seven_bag(s),
        valid_draws(d),
        0 <= k,
    ensures
        is_seven_bag(shuffle_from(s, d, k)),
    decreases PIECE_COUNT - 1 - k,
{
    if k < PIECE_COUNT - 1 {
        lemma_swap_keeps_bag(s, PIECE_COUNT - 1 - k, d[k] as int);
        lemma_shuffle_from_keeps_bag(swapped(s, PIECE_COUNT - 1 - k, d[k] as int), d, k + 1);
    }
}

/// Every shuffle the draws can select is a full bag: each piece once.
pub proof fn lemma_fisher_yates_is_bag(d: Seq<usize>)
    requires
        valid_draws(d),
    ensures
        is_seven_bag(spec_fisher_yates(d)),
{
    let s = seq![0usize, 1, 2, 3, 4, 5, 6];
    assert(s.no_duplicates());
    lemma_shuffle_from_keeps_bag(s, d, 0);
}

/// The Fisher-Yates shuffle of the seven pieces for the given draws: for
/// i = 6 down to 1, position i is exchanged with position `draws[6 - i]`.
pub fn fisher_yates(draws: &[usize]) -> (p: Vec<usize>)
    requires
        valid_draws(draws@),
    ensures
        p@ == spec_fisher_yates(draws@),
        is_seven_bag(p@),
{
    let mut set: Vec<usize> = vec![0, 1, 2, 3, 4, 5, 6];
    assert(set@ =~= seq![0usize, 1, 2, 3, 4, 5, 6]);
    let mut i: usize = 6;
    while i >= 1
        invariant
            i <= 6,
            valid_draws(draws@),
            set@.len() == PIECE_COUNT,
            shuffle_from(set@, draws@, 6 - i) == spec_fisher_yates(draws@),
        decreases i,
    {
        let j = draws[6 - i];
        let ghost before = set@;
        let a = set[i];
        let b = set[j];
        set.set(i, b);
        set.set(j, a);
        assert(set@ == swapped(before, i as int, j as int));
        i = i - 1;
    }
    proof { lemma_fisher_yates_is_bag(draws@); }
    set
}

/// Exchanging two entries of a full bag gives a full bag.
proof fn lemma_swap_keeps_bag(s: Seq<usize>, i: int, j: int)
    requires
        is_seven_bag(s),
        0 <= i < s.len(),
        0 <= j < s.len(),
    ensures
        is_seven_bag(s.update(i, s[j]).update(j, s[i])),
{
    let t = s.update(i, s[j]).update(j, s[i]);
    assert forall|a: int, b: int| 0 <= a < t.len() && 0 <= b < t.len() && a != b implies t[a] != t[b] by {
        let sa = if a == j { i } else if a == i { j } else { a };
        let sb = if b == j { i } else if b == i { j } else { b };
        assert(t[a] == s[sa]);
        assert(t[b] == s[sb]);
    }
}

/// Draws the six partners of one shuffle: entry `k` is drawn from the
/// positions 0 to `6 - k`, the position it will be exchanged with included.
fn draw_partners(rng: &mut rand::rngs::ThreadRng) -> (d: Vec<IndexDraw>)
    ensures
        d@.len() == PIECE_COUNT - 1,
        forall|k: int| 0 <= k < d@.len() ==> #[trigger] d@[k].bound == PIECE_COUNT - 1 - k
            && d@[k].index <= d@[k].bound,
{
    let mut d: Vec<IndexDraw> = Vec::new();
    let mut i: usize = 6;
    while i >= 1
        invariant
            i <= 6,
            d@.len() == 6 - i,
            forall|k: int| 0 <= k < d@.len() ==> #[trigger] d@[k].bound == PIECE_COUNT - 1 - k
                && d@[k].index <= d@[k].bound,
        decreases i,
    {
        let draw = gen_index(rng, i);
        d.push(draw);
        i = i - 1;
    }
    d
}

/// The partner positions of `partners`, in order.
fn partner_indices(partners: &Vec<IndexDraw>) -> (draws: Vec<usize>)
    requires
        partners@.len() == PIECE_COUNT - 1,
        forall|k: int| 0 <= k < partners@.len() ==> #[trigger] partners@[k].bound == PIECE_COUNT - 1 - k
            && partners@[k].index <= partners@[k].bound,
    ensures
        draws@.len() == partners@.len(),
        forall|k: int| 0 <= k < draws@.len() ==> #[trigger] draws@[k] == partners@[k].index,
        valid_draws(draws@),
{
    let mut draws: Vec<usize> = Vec::new();
    let mut k: usize = 0;
    while k < partners.len()
        invariant
            partners@.len() == PIECE_COUNT - 1,
            k <= partners@.len(),
            forall|m: int| 0 <= m < partners@.len() ==> #[trigger] partners@[m].bound == PIECE_COUNT - 1 - m
                && partners@[m].index <= partners@[m].bound,
            draws@.len() == k,
            forall|m: int| 0 <= m < k ==> #[trigger] draws@[m] == partners@[m].index,
        decreases partners@.len() - k,
    {
        draws.push(partners[k].index);
        k = k + 1;
    }
    assert forall|m: int| 0 <= m < draws@.len() implies #[trigger] draws@[m] <= PIECE_COUNT - 1 - m by {
        assert(draws@[m] == partners@[m].index);
        assert(partners@[m].bound == PIECE_COUNT - 1 - m);
    }
    draws
}

/// Pieces still to be dealt from the current bag, front first.
pub struct Bag {
    pub pieces: Vec<usize>,
}

impl Bag {
    /// The bag holds what is left of one shuffled set of seven: valid pieces,
    /// none twice.
    pub open spec fn wf(&self) -> bool {
        &&& self.pieces@.len() <= PIECE_COUNT
        &&& forall|i: int| 0 <= i < self.pieces@.len() ==> #[trigger] self.pieces@[i] < PIECE_COUNT
        &&& self.pieces@.no_duplicates()
    }

    /// A bag holding one freshly shuffled set of the seven pieces.
    pub fn new() -> (b: Bag)
        ensures
            b.wf(),
            is_seven_bag(b.pieces@),
            exists|d: Seq<usize>| #[trigger] valid_draws(d) && b.pieces@ == spec_fisher_yates(d),
    {
        let mut b = Bag { pieces: Vec::new() };
        b.refill();
        proof {
            let d = choose|d: Seq<usize>| #[trigger] valid_draws(d) && b.pieces@ == Seq::<usize>::empty() + spec_fisher_yates(d);
            assert(b.pieces@ =~= spec_fisher_yates(d));
            lemma_fisher_yates_is_bag(d);
        }
        b
    }

    /// Appends the seven pieces in the Fisher-Yates order selected by six
    /// random draws (the partner of position i drawn from 0 to i, for i = 6
    /// down to 1).
    pub fn refill(&mut self)
        ensures
            exists|d: Seq<usize>| #[trigger] valid_draws(d) && final(self).pieces@ == old(self).pieces@ + spec_fisher_yates(d),
    {
        let mut rng = thread_rng();
        let partners = draw_partners(&mut rng);
        let draws = partner_indices(&partners);
        let mut set = fisher_yates(draws.as_slice());
        self.pieces.append(&mut set);
    }

    /// Deals the next piece, shuffling a fresh bag first when this one is empty.
    pub fn next(&mut self) -> (piece: usize)
        ensures
            draw_from(old(self).pieces@, final(self).pieces@, piece),
            old(self).wf() ==> final(self).wf() && piece < PIECE_COUNT,
    {
        if self.pieces.is_empty() {
            self.refill();
            proof {
                let d = choose|d: Seq<usize>| #[trigger] valid_draws(d) && self.pieces@ == old(self).pieces@ + spec_fisher_yates(d);
                assert(self.pieces@ =~= spec_fisher_yates(d));
                lemma_fisher_yates_is_bag(d);
            }
        }
        let ghost before = self.pieces@;
        let piece = self.pieces.remove(0);
        assert(self.pieces@ =~= before.drop_first());
        piece
    }
}

} // verus!
