//! Integer core of the Poisson-disk samplers: method selection and the
//! random visiting order of the grid cells.

use vstd::prelude::*;
use rand::rngs::StdRng;
use rand::Rng;
use crate::config::MAX_OOB_RETRIES;

verus! {

#[verifier::external_type_specification]
#[verifier::external_body]
pub struct ExStdRng(StdRng);

/// Which sampler a run uses.
#[derive(Clone, Copy, Debug, PartialEq, Eq, Structural)]
pub enum Method {
    /// Optimised dart throwing: visit every cell once, in random order.
    DartThrowing,
    /// Bridson's algorithm: grow outward from an active list.
    Bridson,
}

/// The sampler selected by a method code: 1 = dart throwing, else = Bridson.
pub fn method_for(code: u8) -> (m: Method)
    ensures
        m == (if code == 1 { Method::DartThrowing } else { Method::Bridson }),
{
    if code == 1 {
        Method::DartThrowing
    } else {
        Method::Bridson
    }
}

/// `rand::Rng::gen_range(0..=hi)`: a uniformly drawn integer of the inclusive
/// range; the crate asserts only that the range is non-empty, which `0..=hi`
/// always is. Which integer comes back depends on the generator's state.
#[verifier::external_body]
fn random_at_most(rng: &mut StdRng, hi: usize) -> (j: usize)
    ensures
        j <= hi,
{
    rng.gen_range(0..=hi)
}

/// The swap partners of a Fisher-Yates pass over `total` items: entry `k` is
/// the partner of position `total - 1 - k`, so it may be any position up to it.
pub open spec fn valid_choices(total: nat, picks: Seq<usize>) -> bool {
    &&& picks.len() == (if total >= 1 { total - 1 } else { 0 })
    &&& forall|k: int| 0 <= k < picks.len() ==> #[trigger] picks[k] <= total - 1 - k
}

/// `s` with the elements at `i` and `j` exchanged.
pub open spec fn swap_seq(s: Seq<usize>, i: int, j: int) -> Seq<usize> {
    s.update(i, s[j]).update(j, s[i])
}

/// The order after the first `k` swaps of a Fisher-Yates pass that starts
/// from `0, 1, ..., total - 1`: swap `k` exchanges position `total - 1 - k`
/// with position `picks[k]`.
pub open spec fn shuffle_state(total: nat, picks: Seq<usize>, k: nat) -> Seq<usize>
    decreases k,
{
    if k == 0 {
        Seq::new(total, |i: int| i as usize)
    } else {
        swap_seq(
            shuffle_state(total, picks, (k - 1) as nat),
            total - k,
            picks[k - 1] as int,
        )
    }
}

/// `s` holds each of `0, ..., total - 1` exactly once.
pub open spec fn is_permutation(s: Seq<usize>, total: nat) -> bool {
    &&& s.len() == total
    &&& forall|i: int| 0 <= i < s.len() ==> #[trigger] s[i] < total
    &&& forall|i: int, j: int| 0 <= i < j < s.len() ==> s[i] != s[j]
}

/// Draws the swap partners of a Fisher-Yates pass over `total` items, for
/// positions `total - 1` down to `1`, in that order.
pub fn draw_swap_choices(total: usize, rng: &mut StdRng) -> (picks: Vec<usize>)
    ensures
        valid_choices(total as nat, picks@),
{
    let mut picks: Vec<usize> = Vec::new();
    if total == 0 {
        return picks;
    }
    let mut i: usize = total - 1;
    while i >= 1
        invariant
            total >= 1,
            i <= total - 1,
            picks.len() == total - 1 - i,
            forall|k: int| 0 <= k < picks.len() ==> #[trigger] picks@[k] <= total - 1 - k,
        decreases i,
    {
        let j = random_at_most(rng, i);
        picks.push(j);
        i -= 1;
    }
    picks
}

/// Applies the swaps of a Fisher-Yates pass to `0, 1, ..., total - 1`.
pub fn fisher_yates(total: usize, picks: &Vec<usize>) -> (order: Vec<usize>)
    requires
        valid_choices(total as nat, picks@),
    ensures
        order@ == shuffle_state(total as nat, picks@, picks@.len()),
        is_permutation(order@, total as nat),
{
    let mut order: Vec<usize> = Vec::new();
    let mut n: usize = 0;
    while n < total
        invariant
            n <= total,
            order@ == Seq::new(n as nat, |i: int| i as usize),
        decreases total - n,
    {
        order.push(n);
        n += 1;
        proof {
            assert(order@ =~= Seq::new(n as nat, |i: int| i as usize));
        }
    }
    proof {
        assert(order@ =~= shuffle_state(total as nat, picks@, 0));
    }
    let mut k: usize = 0;
    while k < picks.len()
        invariant
            valid_choices(total as nat, picks@),
            k <= picks.len(),
            order@ == shuffle_state(total as nat, picks@, k as nat),
            is_permutation(order@, total as nat),
        decreases picks.len() - k,
    {
        let i: usize = total - 1 - k;
        let j: usize = picks[k];
        let ghost before = order@;
        let a = order[i];
        let b = order[j];
        order.set(i, b);
        order.set(j, a);
        proof {
            assert(order@ =~= swap_seq(before, i as int, j as int));
            assert forall|p: int, q: int| 0 <= p < q < order@.len() implies order@[p] != order@[q] by {
                let sp = if p == i { j as int } else if p == j { i as int } else { p };
                let sq = if q == i { j as int } else if q == j { i as int } else { q };
                assert(order@[p] == before[sp]);
                assert(order@[q] == before[sq]);
                if sp < sq {
                } else {
                    assert(sq < sp);
                }
            }
        }
        k += 1;
    }
    order
}

/// A random visiting order of `total` grid cells: a Fisher-Yates shuffle of
/// `0, 1, ..., total - 1` driven by `rng`. Every cell is visited exactly once.
pub fn shuffled_cells(total: usize, rng: &mut StdRng) -> (order: Vec<usize>)
    ensures
        is_permutation(order@, total as nat),
        exists|picks: Seq<usize>|
            valid_choices(total as nat, picks) && order@ == shuffle_state(
                total as nat,
                picks,
                picks.len(),
            ),
{
    let picks = draw_swap_choices(total, rng);
    let order = fisher_yates(total, &picks);
    proof {
        assert(valid_choices(total as nat, picks@));
    }
    order
}


/// Column and row of flat cell index `cell` in a grid `cols` cells wide.
pub fn cell_coords(cell: usize, cols: usize) -> (c: (usize, usize))
    requires
        cols >= 1,
    ensures
        c.0 == cell % cols,
        c.1 == cell / cols,
{
    (cell % cols, cell / cols)
}

/// What dart throwing does next inside one cell.
#[derive(Clone, Copy, Debug, PartialEq, Eq, Structural)]
pub enum DartMove {
    /// Draw candidate number `attempt` inside the cell.
    Try { attempt: usize },
    /// Keep the candidate just drawn: one point per cell per pass.
    Accept,
    /// Give up on this cell and go to the next one.
    NextCell,
}

/// The first move in a cell: a first candidate, unless no attempts are allowed.
pub fn dart_start(k: usize) -> (m: DartMove)
    ensures
        m == (if k == 0 { DartMove::NextCell } else { DartMove::Try { attempt: 0 } }),
{
    if k == 0 {
        DartMove::NextCell
    } else {
        DartMove::Try { attempt: 0 }
    }
}

/// The move after candidate `attempt` of at most `k`: keep it if it lies on
/// the image and is valid, otherwise draw again while attempts remain.
pub fn dart_next(attempt: usize, k: usize, on_image: bool, valid: bool) -> (m: DartMove)
    requires
        attempt < k,
    ensures
        m == (if on_image && valid {
            DartMove::Accept
        } else if attempt + 1 < k {
            DartMove::Try { attempt: (attempt + 1) as usize }
        } else {
            DartMove::NextCell
        }),
{
    if on_image && valid {
        DartMove::Accept
    } else if attempt + 1 < k {
        DartMove::Try { attempt: attempt + 1 }
    } else {
        DartMove::NextCell
    }
}

/// What Bridson's algorithm does next around the active point it picked.
#[derive(Clone, Copy, Debug, PartialEq, Eq, Structural)]
pub enum BridsonMove {
    /// Draw a candidate on the annulus: attempt `attempt`, off-image retry `retry`.
    Draw { attempt: usize, retry: usize },
    /// Keep the candidate just drawn as a new active point: one child per pick.
    Accept,
    /// Every attempt failed: retire the active point.
    Retire,
}

/// The first move around an active point: a first candidate, unless no
/// attempts are allowed.
pub fn bridson_start(k: usize) -> (m: BridsonMove)
    ensures
        m == (if k == 0 { BridsonMove::Retire } else { BridsonMove::Draw { attempt: 0, retry: 0 } }),
{
    if k == 0 {
        BridsonMove::Retire
    } else {
        BridsonMove::Draw { attempt: 0, retry: 0 }
    }
}

/// The move after a candidate drawn at attempt `attempt` (of `k`) and
/// off-image retry `retry`: an on-image valid candidate is kept; an
/// off-image one is redrawn for free up to `MAX_OOB_RETRIES` times; otherwise
/// the attempt is spent, and the point retires once all `k` are spent.
pub fn bridson_next(attempt: usize, retry: usize, k: usize, on_image: bool, valid: bool) -> (m:
    BridsonMove)
    requires
        attempt < k,
        retry <= MAX_OOB_RETRIES,
    ensures
        m == (if on_image && valid {
            BridsonMove::Accept
        } else if !on_image && retry < MAX_OOB_RETRIES {
            BridsonMove::Draw { attempt, retry: (retry + 1) as usize }
        } else if attempt + 1 < k {
            BridsonMove::Draw { attempt: (attempt + 1) as usize, retry: 0 }
        } else {
            BridsonMove::Retire
        }),
{
    if on_image && valid {
        BridsonMove::Accept
    } else if !on_image && retry < MAX_OOB_RETRIES {
        BridsonMove::Draw { attempt, retry: retry + 1 }
    } else if attempt + 1 < k {
        BridsonMove::Draw { attempt: attempt + 1, retry: 0 }
    } else {
        BridsonMove::Retire
    }
}

/// `rand::Rng::gen_range(0..n)`: a uniformly drawn integer below `n`; the
/// crate panics on an empty range, so `n` must be positive. Which integer
/// comes back depends on the generator's state.
#[verifier::external_body]
fn random_below(rng: &mut StdRng, n: usize) -> (j: usize)
    requires
        n > 0,
    ensures
        j < n,
{
    rng.gen_range(0..n)
}

/// Bridson's active list: indices of placed points that may still spawn
/// children. A point leaves it only when retired.
pub struct ActiveList {
    items: Vec<usize>,
}

impl View for ActiveList {
    type V = Seq<usize>;

    closed spec fn view(&self) -> Seq<usize> {
        self.items@
    }
}

impl ActiveList {
    /// An empty active list.
    pub fn new() -> (a: ActiveList)
        ensures
            a@ == Seq::<usize>::empty(),
    {
        ActiveList { items: Vec::new() }
    }

    /// Number of active points.
    pub fn len(&self) -> (n: usize)
        ensures
            n == self@.len(),
    {
        self.items.len()
    }

    /// Whether no point is active any more.
    pub fn is_empty(&self) -> (b: bool)
        ensures
            b == (self@.len() == 0),
    {
        self.items.len() == 0
    }

    /// Add point `pi` at the end.
    pub fn push(&mut self, pi: usize)
        ensures
            final(self)@ == old(self)@.push(pi),
    {
        self.items.push(pi);
    }

    /// The point in slot `slot`.
    pub fn point_at(&self, slot: usize) -> (pi: usize)
        requires
            slot < self@.len(),
        ensures
            pi == self@[slot as int],
    {
        self.items[slot]
    }

    /// A slot drawn uniformly at random by `rng`.
    pub fn pick(&self, rng: &mut StdRng) -> (slot: usize)
        requires
            self@.len() > 0,
        ensures
            slot < self@.len(),
    {
        random_below(rng, self.items.len())
    }

    /// Retire the point in `slot`: the last point takes its place.
    pub fn retire(&mut self, slot: usize) -> (pi: usize)
        requires
            slot < old(self)@.len(),
        ensures
            pi == old(self)@[slot as int],
            final(self)@ == old(self)@.update(slot as int, old(self)@.last()).drop_last(),
            final(self)@.to_multiset() == old(self)@.to_multiset().remove(pi),
    {
        let ghost before = self.items@;
        let pi = self.items.swap_remove(slot);
        proof {
            lemma_swap_remove_multiset(before, slot as int);
        }
        pi
    }
}

/// Moving the last element into slot `i` and dropping the last position
/// removes exactly the element that was in slot `i`.
proof fn lemma_swap_remove_multiset(s: Seq<usize>, i: int)
    requires
        0 <= i < s.len(),
    ensures
        s.update(i, s.last()).drop_last().to_multiset() == s.to_multiset().remove(s[i]),
{
    broadcast use vstd::seq_lib::group_to_multiset_ensures;
    let t = s.drop_last();
    assert(s =~= t.push(s.last()));
    if i == s.len() - 1 {
        assert(s.update(i, s.last()).drop_last() =~= t);
        assert(s.to_multiset() =~= t.to_multiset().insert(s.last()));
    } else {
        let u = t.update(i, s.last());
        assert(s.update(i, s.last()).drop_last() =~= u);
        assert(u.to_multiset() == t.to_multiset().insert(s.last()).remove(t[i]));
        assert(s.to_multiset() == t.to_multiset().insert(s.last()));
    }
}

} // verus!
