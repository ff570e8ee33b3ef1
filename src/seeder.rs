//! The pairing of one seed round: a shuffled order of items becomes a list of
//! head-to-head pairs in which every item appears.
use vstd::prelude::*;

verus! {

/// The order with its first element put in front once more when its length is
/// odd, so that its length is even.
pub open spec fn padded<A>(order: Seq<A>) -> Seq<A> {
    if order.len() % 2 == 1 {
        seq![order[0]] + order
    } else {
        order
    }
}

/// The pairs of one round: position `i` of the padded order against position
/// `len - 1 - i`, for `i` in the first half.
pub open spec fn round_pairs_of<A>(order: Seq<A>) -> Seq<(A, A)> {
    let p = padded(order);
    Seq::new(p.len() / 2, |i: int| (p[i], p[p.len() - 1 - i]))
}

/// The number of pairs that a round over `k` items yields: `k / 2` rounded up.
pub open spec fn pairs_per_round(k: nat) -> nat {
    (k + 1) / 2
}

/// A round over `order` has `⌈|order| / 2⌉` pairs.
pub proof fn lemma_round_size<A>(order: Seq<A>)
    ensures
        round_pairs_of(order).len() == pairs_per_round(order.len()),
{
}

/// Every element of a round's pairs comes from the order.
pub proof fn lemma_round_members<A>(order: Seq<A>)
    ensures
        forall|i: int|
            0 <= i < round_pairs_of(order).len() ==> order.contains(
                #[trigger] round_pairs_of(order)[i].0,
            ) && order.contains(round_pairs_of(order)[i].1),
{
    let p = padded(order);
    assert forall|j: int| 0 <= j < p.len() implies order.contains(p[j]) by {
        if order.len() % 2 == 1 {
            if j == 0 {
                assert(order[0] == p[j]);
            } else {
                assert(order[j - 1] == p[j]);
            }
        } else {
            assert(order[j] == p[j]);
        }
    }
}

/// `x` is one of the two sides of some pair in `pairs`.
pub open spec fn plays_in<A>(pairs: Seq<(A, A)>, x: A) -> bool {
    exists|i: int| 0 <= i < pairs.len() && ((#[trigger] pairs[i]).0 == x || pairs[i].1 == x)
}

/// Every element of the order plays in at least one pair of its round.
pub proof fn lemma_round_covers<A>(order: Seq<A>)
    ensures
        forall|j: int| 0 <= j < order.len() ==> plays_in(round_pairs_of(order), #[trigger] order[j]),
{
    let p = padded(order);
    let h = p.len() / 2;
    let pairs = round_pairs_of(order);
    assert forall|j: int| 0 <= j < order.len() implies plays_in(pairs, #[trigger] order[j]) by {
        let pj = if order.len() % 2 == 1 {
            j + 1
        } else {
            j
        };
        assert(p[pj] == order[j]);
        if pj < h {
            assert(pairs[pj].0 == order[j]);
        } else {
            let i = p.len() - 1 - pj;
            assert(pairs[i].1 == order[j]);
        }
    }
}

/// The sides of a round's pairs, read as the first sides in order followed by
/// the second sides in reverse, are exactly the padded order: every element
/// plays once, except that the first plays twice when the length is odd.
pub proof fn lemma_round_sides<A>(order: Seq<A>)
    ensures
        ({
            let pr = round_pairs_of(order);
            Seq::new(pr.len(), |i: int| pr[i].0) + Seq::new(pr.len(), |i: int| pr[pr.len() - 1 - i].1)
                == padded(order)
        }),
{
    let p = padded(order);
    let pr = round_pairs_of(order);
    let h = pr.len();
    let sides = Seq::new(h, |i: int| pr[i].0) + Seq::new(h, |i: int| pr[h - 1 - i].1);
    assert(p.len() % 2 == 0);
    assert forall|x: int| 0 <= x < p.len() implies #[trigger] sides[x] == p[x] by {
        if x >= h {
            assert(pr[h - 1 - (x - h)] == (p[h - 1 - (x - h)], p[p.len() - 1 - (h - 1 - (x - h))]));
        }
    }
    assert(sides =~= p);
}

/// With distinct elements and any length but one, no item of a round is
/// paired with itself.
pub proof fn lemma_round_no_self_pairs<A>(order: Seq<A>)
    requires
        order.no_duplicates(),
        order.len() != 1,
    ensures
        forall|i: int|
            0 <= i < round_pairs_of(order).len() ==> #[trigger] round_pairs_of(order)[i].0
                != round_pairs_of(order)[i].1,
{
    let p = padded(order);
    let n = order.len();
    assert forall|i: int| 0 <= i < round_pairs_of(order).len() implies #[trigger] round_pairs_of(
        order,
    )[i].0 != round_pairs_of(order)[i].1 by {
        let j = p.len() - 1 - i;
        if n % 2 == 1 {
            if i == 0 {
                assert(p[i] == order[0]);
                assert(p[j] == order[n - 1]);
            } else {
                assert(p[i] == order[i - 1]);
                assert(p[j] == order[j - 1]);
            }
        } else {
            assert(p[i] == order[i]);
            assert(p[j] == order[j]);
        }
    }
}

/// The pairs of one round over a shuffled order of item positions.
pub fn round_pairs(order: &Vec<usize>) -> (r: Vec<(usize, usize)>)
    ensures
        r@ == round_pairs_of(order@),
{
    let n = order.len();
    let odd = n % 2 == 1;
    let h = n / 2 + n % 2;
    let mut r: Vec<(usize, usize)> = Vec::new();
    let mut i: usize = 0;
    while i < h
        invariant
            n == order@.len(),
            odd == (n % 2 == 1),
            h == padded(order@).len() / 2,
            i <= h,
            r@ == round_pairs_of(order@).subrange(0, i as int),
        decreases h - i,
    {
        let pair = if odd {
            let first = if i == 0 {
                order[0]
            } else {
                order[i - 1]
            };
            (first, order[n - 1 - i])
        } else {
            (order[i], order[n - 1 - i])
        };
        proof {
            let p = padded(order@);
            if odd {
                assert(p[i as int] == pair.0);
                assert(p[p.len() - 1 - i] == pair.1);
            }
        }
        r.push(pair);
        i = i + 1;
        assert(r@ =~= round_pairs_of(order@).subrange(0, i as int));
    }
    assert(r@ =~= round_pairs_of(order@));
    r
}

} // verus!
