//! Classification of five-card hands.

use vstd::prelude::*;
use crate::card::Card;
use crate::category::HandCategory;

verus! {

/// Number of cards of `h` whose rank is `r`.
pub open spec fn rank_count(h: Seq<Card>, r: int) -> nat
    decreases h.len(),
{
    if h.len() == 0 {
        0
    } else {
        rank_count(h.drop_last(), r) + if h.last().rank == r {
            1nat
        } else {
            0nat
        }
    }
}

/// The rank counts of a hand, as a function of the rank.
pub open spec fn counts_of(h: Seq<Card>) -> spec_fn(int) -> nat {
    |r: int| rank_count(h, r)
}

/// A hand that can be classified: five cards, each of rank 2 to 14.
pub open spec fn valid_hand(h: Seq<Card>) -> bool {
    h.len() == 5 && forall|i: int| 0 <= i < h.len() ==> 2 <= #[trigger] h[i].rank <= 14
}

/// Total of the counts of ranks 2 to `r`.
pub open spec fn count_total(cnt: spec_fn(int) -> nat, r: int) -> nat
    decreases r,
{
    if r < 2 {
        0
    } else {
        count_total(cnt, r - 1) + cnt(r)
    }
}

/// Ranks `r` down to 2, each repeated as often as it occurs: the ranks in descending order.
pub open spec fn ranks_desc_from(cnt: spec_fn(int) -> nat, r: int) -> Seq<u8>
    decreases r,
{
    if r < 2 {
        Seq::empty()
    } else {
        Seq::new(cnt(r), |_i: int| r as u8) + ranks_desc_from(cnt, r - 1)
    }
}

/// All ranks of a hand, highest first.
pub open spec fn ranks_desc(h: Seq<Card>) -> Seq<u8> {
    ranks_desc_from(counts_of(h), 14)
}

proof fn lemma_count_total_push(h: Seq<Card>, c: Card, r: int)
    ensures
        count_total(counts_of(h.push(c)), r) == count_total(counts_of(h), r) + if 2 <= c.rank <= r {
            1nat
        } else {
            0nat
        },
    decreases r,
{
    assert(h.push(c).drop_last() =~= h);
    if r >= 2 {
        lemma_count_total_push(h, c, r - 1);
    }
}

proof fn lemma_count_total_len(h: Seq<Card>)
    requires
        forall|i: int| 0 <= i < h.len() ==> 2 <= #[trigger] h[i].rank <= 14,
    ensures
        count_total(counts_of(h), 14) == h.len(),
    decreases h.len(),
{
    if h.len() == 0 {
        lemma_count_total_zero(h, 14);
    } else {
        let t = h.drop_last();
        assert(t.push(h.last()) =~= h);
        assert forall|i: int| 0 <= i < t.len() implies 2 <= #[trigger] t[i].rank <= 14 by {
            assert(t[i] == h[i]);
        }
        lemma_count_total_len(t);
        lemma_count_total_push(t, h.last(), 14);
    }
}

proof fn lemma_count_total_zero(h: Seq<Card>, r: int)
    requires
        h.len() == 0,
    ensures
        count_total(counts_of(h), r) == 0,
    decreases r,
{
    if r >= 2 {
        lemma_count_total_zero(h, r - 1);
    }
}

proof fn lemma_rank_count_bound(h: Seq<Card>, r: int)
    ensures
        rank_count(h, r) <= h.len(),
    decreases h.len(),
{
    if h.len() > 0 {
        lemma_rank_count_bound(h.drop_last(), r);
    }
}

proof fn lemma_ranks_desc_len(cnt: spec_fn(int) -> nat, r: int)
    ensures
        ranks_desc_from(cnt, r).len() == count_total(cnt, r),
    decreases r,
{
    if r >= 2 {
        lemma_ranks_desc_len(cnt, r - 1);
    }
}

/// Every rank in `ranks_desc_from(cnt, r)` lies in 2..=r, and they never increase.
proof fn lemma_ranks_desc_sorted(cnt: spec_fn(int) -> nat, r: int)
    requires
        r <= 14,
    ensures
        forall|i: int|
            0 <= i < ranks_desc_from(cnt, r).len() ==> 2 <= #[trigger] ranks_desc_from(cnt, r)[i] <= r,
        forall|i: int, j: int|
            0 <= i < j < ranks_desc_from(cnt, r).len() ==> ranks_desc_from(cnt, r)[j]
                <= ranks_desc_from(cnt, r)[i],
    decreases r,
{
    if r >= 2 {
        lemma_ranks_desc_sorted(cnt, r - 1);
        let head = Seq::new(cnt(r), |_i: int| r as u8);
        let tail = ranks_desc_from(cnt, r - 1);
        assert(ranks_desc_from(cnt, r) == head + tail);
        assert forall|i: int|
            0 <= i < ranks_desc_from(cnt, r).len() implies 2 <= #[trigger] ranks_desc_from(cnt, r)[i] <= r by {
            if i >= head.len() {
                assert((head + tail)[i] == tail[i - head.len()]);
            }
        }
        assert forall|i: int, j: int|
            0 <= i < j < ranks_desc_from(cnt, r).len() implies ranks_desc_from(cnt, r)[j]
                <= ranks_desc_from(cnt, r)[i] by {
            if j >= head.len() {
                assert((head + tail)[j] == tail[j - head.len()]);
                if i >= head.len() {
                    assert((head + tail)[i] == tail[i - head.len()]);
                }
            }
        }
    }
}

/// The count of each rank 0..=14 in `cards`.
fn count_ranks(cards: &[Card]) -> (counts: Vec<u8>)
    requires
        valid_hand(cards@),
    ensures
        counts@.len() == 15,
        forall|r: int| 0 <= r < 15 ==> #[trigger] counts@[r] as nat == rank_count(cards@, r),
{
    let mut counts: Vec<u8> = vec![0u8; 15];
    let mut i: usize = 0;
    while i < cards.len()
        invariant
            valid_hand(cards@),
            i <= cards@.len(),
            counts@.len() == 15,
            forall|r: int|
                0 <= r < 15 ==> #[trigger] counts@[r] as nat == rank_count(
                    cards@.subrange(0, i as int),
                    r,
                ),
        decreases cards@.len() - i,
    {
        let ghost prev = cards@.subrange(0, i as int);
        let ghost next = cards@.subrange(0, i + 1);
        proof {
            assert(next.drop_last() =~= prev);
            lemma_rank_count_bound(prev, cards@[i as int].rank as int);
        }
        let k = cards[i].rank as usize;
        counts.set(k, counts[k] + 1);
        i += 1;
    }
    assert(cards@.subrange(0, 5) =~= cards@);
    counts
}

/// The ranks of a valid hand, highest first.
fn sorted_ranks(counts: &Vec<u8>, Ghost(h): Ghost<Seq<Card>>) -> (d: Vec<u8>)
    requires
        valid_hand(h),
        counts@.len() == 15,
        forall|r: int| 0 <= r < 15 ==> #[trigger] counts@[r] as nat == rank_count(h, r),
    ensures
        d@ == ranks_desc(h),
        d@.len() == 5,
{
    let ghost cnt = counts_of(h);
    let mut d: Vec<u8> = Vec::new();
    let mut r: usize = 14;
    assert(d@ + ranks_desc_from(cnt, 14) =~= ranks_desc(h));
    while r >= 2
        invariant
            1 <= r <= 14,
            counts@.len() == 15,
            forall|q: int| 0 <= q < 15 ==> #[trigger] counts@[q] as nat == rank_count(h, q),
            cnt == counts_of(h),
            d@ + ranks_desc_from(cnt, r as int) == ranks_desc(h),
        decreases r,
    {
        let ghost outer = d@;
        let n = counts[r];
        let mut k: u8 = 0;
        while k < n
            invariant
                k <= n,
                2 <= r <= 14,
                d@ == outer + Seq::new(k as nat, |_i: int| r as u8),
            decreases n - k,
        {
            d.push(r as u8);
            k += 1;
            assert(d@ =~= outer + Seq::new(k as nat, |_i: int| r as u8));
        }
        proof {
            let head = Seq::new(cnt(r as int), |_i: int| r as u8);
            assert(head =~= Seq::new(k as nat, |_i: int| r as u8));
            assert(outer + ranks_desc_from(cnt, r as int) == outer + (head + ranks_desc_from(cnt, r - 1)));
            assert(outer + (head + ranks_desc_from(cnt, r - 1)) =~= (outer + head) + ranks_desc_from(cnt, r - 1));
        }
        r -= 1;
    }
    proof {
        assert(d@ =~= ranks_desc(h));
        lemma_ranks_desc_len(cnt, 14);
        lemma_count_total_len(h);
    }
    d
}


/// The groups of exactly `c` cards among ranks `r` down to 2, as (rank, count), highest rank first.
pub open spec fn groups_of_size(cnt: spec_fn(int) -> nat, c: nat, r: int) -> Seq<(u8, u8)>
    decreases r,
{
    if r < 2 {
        Seq::empty()
    } else {
        (if cnt(r) == c {
            seq![(r as u8, c as u8)]
        } else {
            Seq::empty()
        }) + groups_of_size(cnt, c, r - 1)
    }
}

/// The groups of at most `c` cards: larger groups first, and higher ranks first among
/// groups of one size.
pub open spec fn groups_upto(cnt: spec_fn(int) -> nat, c: nat) -> Seq<(u8, u8)>
    decreases c,
{
    if c == 0 {
        Seq::empty()
    } else {
        groups_of_size(cnt, c, 14) + groups_upto(cnt, (c - 1) as nat)
    }
}

/// The group table of a hand: each rank it holds with its count, sorted by count
/// and then by rank, both descending.
pub open spec fn group_table(h: Seq<Card>) -> Seq<(u8, u8)> {
    groups_upto(counts_of(h), 5)
}

/// Number of cards that the groups of `g` cover.
pub open spec fn group_cards(g: Seq<(u8, u8)>) -> nat
    decreases g.len(),
{
    if g.len() == 0 {
        0
    } else {
        g[0].1 as nat + group_cards(g.drop_first())
    }
}

proof fn lemma_group_cards_concat(a: Seq<(u8, u8)>, b: Seq<(u8, u8)>)
    ensures
        group_cards(a + b) == group_cards(a) + group_cards(b),
    decreases a.len(),
{
    if a.len() == 0 {
        assert(a + b =~= b);
    } else {
        assert((a + b).drop_first() =~= a.drop_first() + b);
        lemma_group_cards_concat(a.drop_first(), b);
    }
}

proof fn lemma_groups_of_size_facts(cnt: spec_fn(int) -> nat, c: nat, r: int)
    requires
        1 <= c <= 5,
        r <= 14,
    ensures
        forall|i: int|
            0 <= i < groups_of_size(cnt, c, r).len() ==> #[trigger] groups_of_size(cnt, c, r)[i].1
                == c as u8,
        group_cards(groups_of_size(cnt, c, r)) == count_size(cnt, c, r),
    decreases r,
{
    if r >= 2 {
        lemma_groups_of_size_facts(cnt, c, r - 1);
        let head: Seq<(u8, u8)> = if cnt(r) == c {
            seq![(r as u8, c as u8)]
        } else {
            Seq::empty()
        };
        let tail = groups_of_size(cnt, c, r - 1);
        lemma_group_cards_concat(head, tail);
        if cnt(r) == c {
            assert(head.drop_first() =~= Seq::<(u8, u8)>::empty());
            assert(group_cards(head.drop_first()) == 0);
            assert(group_cards(head) == c);
        } else {
            assert(group_cards(head) == 0);
        }
        assert forall|i: int|
            0 <= i < groups_of_size(cnt, c, r).len() implies #[trigger] groups_of_size(cnt, c, r)[i].1
                == c as u8 by {
            if i >= head.len() {
                assert((head + tail)[i] == tail[i - head.len()]);
            }
        }
    }
}

/// Cards held in groups of exactly `c` among ranks 2..=r.
pub open spec fn count_size(cnt: spec_fn(int) -> nat, c: nat, r: int) -> nat
    decreases r,
{
    if r < 2 {
        0
    } else {
        count_size(cnt, c, r - 1) + if cnt(r) == c {
            c
        } else {
            0
        }
    }
}

proof fn lemma_count_size_total(cnt: spec_fn(int) -> nat, r: int)
    requires
        forall|q: int| 2 <= q <= r ==> #[trigger] cnt(q) <= 5,
    ensures
        count_size(cnt, 5, r) + count_size(cnt, 4, r) + count_size(cnt, 3, r) + count_size(cnt, 2, r)
            + count_size(cnt, 1, r) == count_total(cnt, r),
    decreases r,
{
    if r >= 2 {
        lemma_count_size_total(cnt, r - 1);
    }
}

proof fn lemma_groups_upto_facts(cnt: spec_fn(int) -> nat, c: nat)
    requires
        c <= 5,
    ensures
        forall|i: int|
            0 <= i < groups_upto(cnt, c).len() ==> 1 <= #[trigger] groups_upto(cnt, c)[i].1 <= c,
        forall|i: int, j: int|
            0 <= i < j < groups_upto(cnt, c).len() ==> groups_upto(cnt, c)[j].1
                <= groups_upto(cnt, c)[i].1,
    decreases c,
{
    if c > 0 {
        lemma_groups_upto_facts(cnt, (c - 1) as nat);
        lemma_groups_of_size_facts(cnt, c, 14);
        let head = groups_of_size(cnt, c, 14);
        let tail = groups_upto(cnt, (c - 1) as nat);
        assert forall|i: int| 0 <= i < groups_upto(cnt, c).len() implies 1 <= #[trigger] groups_upto(cnt, c)[i].1 <= c by {
            if i >= head.len() {
                assert((head + tail)[i] == tail[i - head.len()]);
            } else {
                assert((head + tail)[i] == head[i]);
            }
        }
        assert forall|i: int, j: int|
            0 <= i < j < groups_upto(cnt, c).len() implies groups_upto(cnt, c)[j].1
                <= groups_upto(cnt, c)[i].1 by {
            if j >= head.len() {
                assert((head + tail)[j] == tail[j - head.len()]);
                if i >= head.len() {
                    assert((head + tail)[i] == tail[i - head.len()]);
                } else {
                    assert((head + tail)[i] == head[i]);
                }
            } else {
                assert((head + tail)[j] == head[j]);
                assert((head + tail)[i] == head[i]);
            }
        }
    }
}

/// The group table of a valid hand covers its five cards, every group holds one to
/// five cards, and group sizes never increase along the table.
proof fn lemma_group_table_shape(h: Seq<Card>)
    requires
        valid_hand(h),
    ensures
        group_cards(group_table(h)) == 5,
        forall|i: int| 0 <= i < group_table(h).len() ==> 1 <= #[trigger] group_table(h)[i].1 <= 5,
        forall|i: int, j: int|
            0 <= i < j < group_table(h).len() ==> group_table(h)[j].1 <= group_table(h)[i].1,
{
    let cnt = counts_of(h);
    assert forall|q: int| 2 <= q <= 14 implies #[trigger] cnt(q) <= 5 by {
        lemma_rank_count_bound(h, q);
    }
    lemma_count_size_total(cnt, 14);
    lemma_count_total_len(h);
    lemma_groups_upto_facts(cnt, 5);
    lemma_groups_of_size_facts(cnt, 5, 14);
    lemma_groups_of_size_facts(cnt, 4, 14);
    lemma_groups_of_size_facts(cnt, 3, 14);
    lemma_groups_of_size_facts(cnt, 2, 14);
    lemma_groups_of_size_facts(cnt, 1, 14);
    lemma_group_cards_concat(groups_of_size(cnt, 5, 14), groups_upto(cnt, 4));
    lemma_group_cards_concat(groups_of_size(cnt, 4, 14), groups_upto(cnt, 3));
    lemma_group_cards_concat(groups_of_size(cnt, 3, 14), groups_upto(cnt, 2));
    lemma_group_cards_concat(groups_of_size(cnt, 2, 14), groups_upto(cnt, 1));
    lemma_group_cards_concat(groups_of_size(cnt, 1, 14), groups_upto(cnt, 0));
    assert(groups_upto(cnt, 0) == Seq::<(u8, u8)>::empty());
}

/// The group table of a hand, built from its rank counts.
fn group_ranks(counts: &Vec<u8>, Ghost(h): Ghost<Seq<Card>>) -> (g: Vec<(u8, u8)>)
    requires
        valid_hand(h),
        counts@.len() == 15,
        forall|r: int| 0 <= r < 15 ==> #[trigger] counts@[r] as nat == rank_count(h, r),
    ensures
        g@ == group_table(h),
{
    let ghost cnt = counts_of(h);
    let mut g: Vec<(u8, u8)> = Vec::new();
    let mut c: u8 = 5;
    assert(g@ + groups_upto(cnt, 5) =~= group_table(h));
    while c >= 1
        invariant
            c <= 5,
            counts@.len() == 15,
            forall|q: int| 0 <= q < 15 ==> #[trigger] counts@[q] as nat == rank_count(h, q),
            cnt == counts_of(h),
            g@ + groups_upto(cnt, c as nat) == group_table(h),
        decreases c,
    {
        let ghost outer = g@;
        let mut r: usize = 14;
        assert(g@ =~= outer + (groups_of_size(cnt, c as nat, 14).subrange(0, 0)));
        assert(g@ + groups_of_size(cnt, c as nat, 14) =~= outer + groups_of_size(cnt, c as nat, 14));
        while r >= 2
            invariant
                1 <= r <= 14,
                1 <= c <= 5,
                counts@.len() == 15,
                forall|q: int| 0 <= q < 15 ==> #[trigger] counts@[q] as nat == rank_count(h, q),
                cnt == counts_of(h),
                g@ + groups_of_size(cnt, c as nat, r as int) == outer + groups_of_size(cnt, c as nat, 14),
            decreases r,
        {
            let ghost before = g@;
            if counts[r] == c {
                g.push((r as u8, c));
            }
            proof {
                let head: Seq<(u8, u8)> = if cnt(r as int) == c as nat {
                    seq![(r as u8, c)]
                } else {
                    Seq::empty()
                };
                assert(g@ =~= before + head);
                assert(before + (head + groups_of_size(cnt, c as nat, r - 1)) =~= (before + head) + groups_of_size(cnt, c as nat, r - 1));
            }
            r -= 1;
        }
        proof {
            assert(g@ =~= g@ + groups_of_size(cnt, c as nat, r as int));
            assert(outer + (groups_of_size(cnt, c as nat, 14) + groups_upto(cnt, (c - 1) as nat)) =~= (outer + groups_of_size(cnt, c as nat, 14)) + groups_upto(cnt, (c - 1) as nat));
        }
        c -= 1;
    }
    assert(g@ =~= g@ + groups_upto(cnt, 0));
    g
}


proof fn lemma_group_cards_short(g: Seq<(u8, u8)>)
    ensures
        g.len() == 1 ==> group_cards(g) == g[0].1,
        g.len() == 2 ==> group_cards(g) == g[0].1 + g[1].1,
        g.len() == 3 ==> group_cards(g) == g[0].1 + g[1].1 + g[2].1,
{
    if 1 <= g.len() <= 3 {
        let g1 = g.drop_first();
        let g2 = g1.drop_first();
        let g3 = g2.drop_first();
        if g.len() == 1 {
            assert(group_cards(g1) == 0);
        } else if g.len() == 2 {
            assert(group_cards(g2) == 0);
            assert(group_cards(g1) == g[1].1);
        } else {
            assert(group_cards(g3) == 0);
            assert(group_cards(g2) == g[2].1);
            assert(group_cards(g1) == g[1].1 + g[2].1);
        }
    }
}

/// Which entries of the group table exist, by the sizes of its first groups.
proof fn lemma_group_table_bounds(h: Seq<Card>)
    requires
        valid_hand(h),
    ensures
        group_table(h).len() >= 1,
        group_table(h)[0].1 >= 4 ==> group_table(h)[0].1 == 5 || group_table(h).len() >= 2,
        group_table(h)[0].1 == 3 ==> group_table(h).len() >= 2 && (group_table(h)[1].1 != 2
            ==> group_table(h).len() >= 3),
        group_table(h)[0].1 == 2 ==> group_table(h).len() >= 3 && (group_table(h)[1].1 != 2
            ==> group_table(h).len() >= 4),
{
    let g = group_table(h);
    lemma_group_table_shape(h);
    lemma_group_cards_short(g);
    if g.len() == 0 {
        assert(group_cards(g) == 0);
    }
    if g.len() >= 3 {
        assert(g[2].1 <= g[1].1);
    }
}

/// All five cards share one suit.
pub open spec fn is_flush(h: Seq<Card>) -> bool {
    forall|i: int| 0 <= i < h.len() ==> #[trigger] h[i].suit == h[0].suit
}

/// Descending ranks 14, 5, 4, 3, 2: the ace plays low.
pub open spec fn is_wheel(d: Seq<u8>) -> bool {
    d[0] == 14 && d[1] == 5 && d[2] == 4 && d[3] == 3 && d[4] == 2
}

/// Five distinct descending ranks forming a run, counting the wheel.
pub open spec fn is_straight(d: Seq<u8>) -> bool {
    d.len() == 5 && d[0] > d[1] && d[1] > d[2] && d[2] > d[3] && d[3] > d[4] && (d[0] == d[4] + 4
        || is_wheel(d))
}

/// The rank by which a straight compares: its top card, or 5 for the wheel.
pub open spec fn straight_high(d: Seq<u8>) -> u8 {
    if is_wheel(d) {
        5
    } else {
        d[0]
    }
}

/// The classification from the descending ranks `d`, the group table `g`, and
/// whether the hand is a flush.
pub open spec fn category_of(d: Seq<u8>, g: Seq<(u8, u8)>, flush: bool) -> HandCategory {
    let g0 = g[0].1;
    let g1 = if g.len() > 1 {
        g[1].1
    } else {
        0
    };
    let straight = is_straight(d);
    if straight && flush {
        HandCategory::StraightFlush(straight_high(d))
    } else if g0 == 4 {
        HandCategory::FourOfAKind(g[0].0, g[1].0)
    } else if g0 == 3 && g1 == 2 {
        HandCategory::FullHouse(g[0].0, g[1].0)
    } else if flush {
        HandCategory::Flush(d[0], d[1], d[2], d[3], d[4])
    } else if straight {
        HandCategory::Straight(straight_high(d))
    } else if g0 == 3 {
        HandCategory::ThreeOfAKind(g[0].0, g[1].0, g[2].0)
    } else if g0 == 2 && g1 == 2 {
        HandCategory::TwoPair(g[0].0, g[1].0, g[2].0)
    } else if g0 == 2 {
        HandCategory::OnePair(g[0].0, g[1].0, g[2].0, g[3].0)
    } else {
        HandCategory::HighCard(d[0], d[1], d[2], d[3], d[4])
    }
}

/// The classification of a valid hand.
pub open spec fn classify_spec(h: Seq<Card>) -> HandCategory {
    category_of(ranks_desc(h), group_table(h), is_flush(h))
}

fn all_same_suit(cards: &[Card]) -> (r: bool)
    requires
        cards@.len() > 0,
    ensures
        r == is_flush(cards@),
{
    let mut i: usize = 1;
    while i < cards.len()
        invariant
            1 <= i <= cards@.len(),
            forall|j: int| 0 <= j < i ==> #[trigger] cards@[j].suit == cards@[0].suit,
        decreases cards@.len() - i,
    {
        if cards[i].suit != cards[0].suit {
            return false;
        }
        i += 1;
    }
    true
}

fn run_of_five(d: &Vec<u8>) -> (r: bool)
    requires
        d@.len() == 5,
    ensures
        r == is_straight(d@),
{
    d[0] > d[1] && d[1] > d[2] && d[2] > d[3] && d[3] > d[4] && (d[0] as u16 == d[4] as u16 + 4
        || (d[0] == 14 && d[1] == 5 && d[2] == 4 && d[3] == 3 && d[4] == 2))
}

fn high_of_straight(d: &Vec<u8>) -> (r: u8)
    requires
        d@.len() == 5,
    ensures
        r == straight_high(d@),
{
    if d[0] == 14 && d[1] == 5 && d[2] == 4 && d[3] == 3 && d[4] == 2 {
        5
    } else {
        d[0]
    }
}

/// Classifies a hand of five cards (each of rank 2 to 14). The cards may come in any order.
pub fn classify(cards: &[Card]) -> (r: HandCategory)
    requires
        valid_hand(cards@),
    ensures
        r == classify_spec(cards@),
{
    let counts = count_ranks(cards);
    let d = sorted_ranks(&counts, Ghost(cards@));
    let g = group_ranks(&counts, Ghost(cards@));
    proof {
        lemma_group_table_bounds(cards@);
    }
    let flush = all_same_suit(cards);
    let straight = run_of_five(&d);
    let g0 = g[0].1;
    let g1 = if g.len() > 1 {
        g[1].1
    } else {
        0
    };
    if straight && flush {
        HandCategory::StraightFlush(high_of_straight(&d))
    } else if g0 == 4 {
        HandCategory::FourOfAKind(g[0].0, g[1].0)
    } else if g0 == 3 && g1 == 2 {
        HandCategory::FullHouse(g[0].0, g[1].0)
    } else if flush {
        HandCategory::Flush(d[0], d[1], d[2], d[3], d[4])
    } else if straight {
        HandCategory::Straight(high_of_straight(&d))
    } else if g0 == 3 {
        HandCategory::ThreeOfAKind(g[0].0, g[1].0, g[2].0)
    } else if g0 == 2 && g1 == 2 {
        HandCategory::TwoPair(g[0].0, g[1].0, g[2].0)
    } else if g0 == 2 {
        HandCategory::OnePair(g[0].0, g[1].0, g[2].0, g[3].0)
    } else {
        HandCategory::HighCard(d[0], d[1], d[2], d[3], d[4])
    }
}


proof fn lemma_rank_count_remove(h: Seq<Card>, j: int, r: int)
    requires
        0 <= j < h.len(),
    ensures
        rank_count(h, r) == rank_count(h.remove(j), r) + if h[j].rank == r {
            1nat
        } else {
            0nat
        },
    decreases h.len(),
{
    if j == h.len() - 1 {
        assert(h.remove(j) =~= h.drop_last());
    } else {
        assert(h.remove(j).drop_last() =~= h.drop_last().remove(j));
        assert(h.remove(j).last() == h.last());
        lemma_rank_count_remove(h.drop_last(), j, r);
    }
}

proof fn lemma_rank_count_multiset(a: Seq<Card>, b: Seq<Card>, r: int)
    requires
        a.to_multiset() == b.to_multiset(),
    ensures
        rank_count(a, r) == rank_count(b, r),
    decreases a.len(),
{
    broadcast use vstd::seq_lib::group_to_multiset_ensures, vstd::multiset::group_multiset_axioms;

    a.to_multiset_ensures();
    b.to_multiset_ensures();
    if a.len() == 0 {
        assert(a.to_multiset().len() == b.to_multiset().len());
    } else {
        let x = a.last();
        let t = a.drop_last();
        assert(t.push(x) =~= a);
        assert(a.to_multiset().count(x) > 0);
        assert(b.contains(x));
        let j = choose|j: int| 0 <= j < b.len() && b[j] == x;
        let u = b.remove(j);
        assert(u.to_multiset() =~= t.to_multiset());
        lemma_rank_count_multiset(t, u, r);
        lemma_rank_count_remove(b, j, r);
    }
}

/// Classifying a hand does not depend on the order of its cards: two arrangements of
/// the same five cards get the same classification.
pub proof fn lemma_classify_permutation(h1: Seq<Card>, h2: Seq<Card>)
    requires
        valid_hand(h1),
        h1.to_multiset() == h2.to_multiset(),
    ensures
        valid_hand(h2),
        classify_spec(h1) == classify_spec(h2),
{
    broadcast use vstd::seq_lib::group_to_multiset_ensures;

    h1.to_multiset_ensures();
    h2.to_multiset_ensures();
    assert(h1.to_multiset().len() == h2.to_multiset().len());
    assert forall|c: Card| h1.contains(c) <==> h2.contains(c) by {
        h1.to_multiset_ensures();
        h2.to_multiset_ensures();
        assert(h1.to_multiset().count(c) == h2.to_multiset().count(c));
        assert(h1.contains(c) <==> h1.to_multiset().count(c) > 0);
        assert(h2.contains(c) <==> h2.to_multiset().count(c) > 0);
    }
    assert forall|i: int| 0 <= i < h2.len() implies 2 <= #[trigger] h2[i].rank <= 14 by {
        assert(h2.contains(h2[i]));
        assert(h1.contains(h2[i]));
    }
    assert forall|r: int| #[trigger] rank_count(h1, r) == rank_count(h2, r) by {
        lemma_rank_count_multiset(h1, h2, r);
    }
    assert(counts_of(h1) =~= counts_of(h2));
    if is_flush(h1) {
        assert forall|i: int| 0 <= i < h2.len() implies #[trigger] h2[i].suit == h2[0].suit by {
            assert(h2.contains(h2[i]));
            assert(h2.contains(h2[0]));
            assert(h1.contains(h2[i]));
            assert(h1.contains(h2[0]));
        }
    }
    if is_flush(h2) {
        assert forall|i: int| 0 <= i < h1.len() implies #[trigger] h1[i].suit == h1[0].suit by {
            assert(h1.contains(h1[i]));
            assert(h1.contains(h1[0]));
            assert(h2.contains(h1[i]));
            assert(h2.contains(h1[0]));
        }
    }
}

/// Classification is a function of the cards alone: equal hands always get equal
/// classifications.
pub proof fn lemma_classify_deterministic(h1: Seq<Card>, h2: Seq<Card>)
    requires
        valid_hand(h1),
        h1 =~= h2,
    ensures
        classify_spec(h1) == classify_spec(h2),
{
}


/// A rank held twice shows up as two equal neighbours in the descending ranks.
proof fn lemma_repeat_shows_in_ranks(cnt: spec_fn(int) -> nat, r: int, q: int)
    requires
        2 <= q <= r,
        cnt(q) >= 2,
    ensures
        exists|i: int|
            0 <= i && i + 1 < ranks_desc_from(cnt, r).len() && ranks_desc_from(cnt, r)[i]
                == #[trigger] ranks_desc_from(cnt, r)[i + 1],
    decreases r,
{
    let head = Seq::new(cnt(r), |_i: int| r as u8);
    let tail = ranks_desc_from(cnt, r - 1);
    assert(ranks_desc_from(cnt, r) == head + tail);
    let d = ranks_desc_from(cnt, r);
    if q == r {
        assert(d[0] == d[0int + 1]);
    } else {
        lemma_repeat_shows_in_ranks(cnt, r - 1, q);
        let i = choose|i: int| 0 <= i && i + 1 < tail.len() && tail[i] == #[trigger] tail[i + 1];
        let k: int = i + head.len();
        assert(d[k] == tail[i]);
        assert(d[k + 1] == tail[i + 1]);
    }
}

proof fn lemma_no_groups_of_size(cnt: spec_fn(int) -> nat, c: nat, r: int)
    requires
        forall|q: int| 2 <= q <= r ==> #[trigger] cnt(q) != c,
    ensures
        groups_of_size(cnt, c, r) == Seq::<(u8, u8)>::empty(),
    decreases r,
{
    if r >= 2 {
        lemma_no_groups_of_size(cnt, c, r - 1);
        assert(groups_of_size(cnt, c, r) =~= Seq::<(u8, u8)>::empty());
    }
}

/// A hand whose ranks form a run is a straight flush when its suits agree and a
/// straight otherwise, and either compares by the run's high card (5 for the wheel).
pub proof fn lemma_straight_classification(h: Seq<Card>)
    requires
        valid_hand(h),
        is_straight(ranks_desc(h)),
    ensures
        classify_spec(h) == if is_flush(h) {
            HandCategory::StraightFlush(straight_high(ranks_desc(h)))
        } else {
            HandCategory::Straight(straight_high(ranks_desc(h)))
        },
{
    let cnt = counts_of(h);
    let d = ranks_desc(h);
    assert forall|q: int| 2 <= q <= 14 implies #[trigger] cnt(q) <= 1 by {
        if cnt(q) >= 2 {
            lemma_repeat_shows_in_ranks(cnt, 14, q);
        }
    }
    lemma_no_groups_of_size(cnt, 5, 14);
    lemma_no_groups_of_size(cnt, 4, 14);
    lemma_no_groups_of_size(cnt, 3, 14);
    lemma_no_groups_of_size(cnt, 2, 14);
    lemma_group_table_bounds(h);
    lemma_group_table_shape(h);
    let g = group_table(h);
    assert(groups_upto(cnt, 0) == Seq::<(u8, u8)>::empty());
    assert(groups_upto(cnt, 1) =~= groups_of_size(cnt, 1, 14));
    assert(groups_upto(cnt, 2) =~= groups_of_size(cnt, 1, 14));
    assert(groups_upto(cnt, 3) =~= groups_of_size(cnt, 1, 14));
    assert(groups_upto(cnt, 4) =~= groups_of_size(cnt, 1, 14));
    assert(g =~= groups_of_size(cnt, 1, 14));
    lemma_groups_of_size_facts(cnt, 1, 14);
    assert(g[0].1 == 1);
}

proof fn lemma_lowest_rank(h: Seq<Card>)
    requires
        valid_hand(h),
    ensures
        ranks_desc(h).len() == 5,
        2 <= ranks_desc(h)[4],
{
    lemma_ranks_desc_len(counts_of(h), 14);
    lemma_count_total_len(h);
    lemma_ranks_desc_sorted(counts_of(h), 14);
}

/// The wheel (ace, 5, 4, 3, 2, not all of one suit) is a five-high straight, and it ranks
/// below every other straight.
pub proof fn lemma_wheel_is_lowest_straight(wheel: Seq<Card>, other: Seq<Card>)
    requires
        valid_hand(wheel),
        is_wheel(ranks_desc(wheel)),
        !is_flush(wheel),
        valid_hand(other),
        is_straight(ranks_desc(other)),
        !is_flush(other),
        !is_wheel(ranks_desc(other)),
    ensures
        classify_spec(wheel) == HandCategory::Straight(5),
        crate::category::ranks_below(classify_spec(wheel), classify_spec(other)),
{
    lemma_lowest_rank(wheel);
    lemma_lowest_rank(other);
    lemma_straight_classification(wheel);
    lemma_straight_classification(other);
}

} // verus!
