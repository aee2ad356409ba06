//! Hand categories and the order in which they rank.

use vstd::prelude::*;
use core::cmp::Ordering;

verus! {

/// The classification of a five-card hand: its category, weakest first, and the
/// ranks that break ties inside the category, most significant first.
#[derive(Debug, Clone, Copy, PartialEq, Eq, Structural)]
pub enum HandCategory {
    HighCard(u8, u8, u8, u8, u8),
    OnePair(u8, u8, u8, u8),
    TwoPair(u8, u8, u8),
    ThreeOfAKind(u8, u8, u8),
    Straight(u8),
    Flush(u8, u8, u8, u8, u8),
    FullHouse(u8, u8),
    FourOfAKind(u8, u8),
    StraightFlush(u8),
}

/// Strength of a category: 0 for a high card up to 8 for a straight flush.
pub open spec fn strength(h: HandCategory) -> nat {
    match h {
        HandCategory::HighCard(..) => 0,
        HandCategory::OnePair(..) => 1,
        HandCategory::TwoPair(..) => 2,
        HandCategory::ThreeOfAKind(..) => 3,
        HandCategory::Straight(..) => 4,
        HandCategory::Flush(..) => 5,
        HandCategory::FullHouse(..) => 6,
        HandCategory::FourOfAKind(..) => 7,
        HandCategory::StraightFlush(..) => 8,
    }
}

/// The tie-break ranks of a classification, most significant first.
pub open spec fn tiebreak(h: HandCategory) -> Seq<u8> {
    match h {
        HandCategory::HighCard(a, b, c, d, e) => seq![a, b, c, d, e],
        HandCategory::OnePair(a, b, c, d) => seq![a, b, c, d],
        HandCategory::TwoPair(a, b, c) => seq![a, b, c],
        HandCategory::ThreeOfAKind(a, b, c) => seq![a, b, c],
        HandCategory::Straight(a) => seq![a],
        HandCategory::Flush(a, b, c, d, e) => seq![a, b, c, d, e],
        HandCategory::FullHouse(a, b) => seq![a, b],
        HandCategory::FourOfAKind(a, b) => seq![a, b],
        HandCategory::StraightFlush(a) => seq![a],
    }
}

/// Lexicographic order on two rank lists of equal length.
pub open spec fn lex_lt(a: Seq<u8>, b: Seq<u8>) -> bool
    decreases a.len(),
{
    if a.len() == 0 || b.len() == 0 {
        false
    } else if a[0] != b[0] {
        a[0] < b[0]
    } else {
        lex_lt(a.drop_first(), b.drop_first())
    }
}

/// `a` ranks strictly below `b`: a weaker category, or the same category with
/// lower tie-break ranks.
pub open spec fn ranks_below(a: HandCategory, b: HandCategory) -> bool {
    strength(a) < strength(b) || (strength(a) == strength(b) && lex_lt(tiebreak(a), tiebreak(b)))
}

/// Three-way comparison as an `Ordering`.
pub open spec fn compare_spec(a: HandCategory, b: HandCategory) -> Ordering {
    if ranks_below(a, b) {
        Ordering::Less
    } else if ranks_below(b, a) {
        Ordering::Greater
    } else {
        Ordering::Equal
    }
}

proof fn lemma_lex_lt_irreflexive(a: Seq<u8>)
    ensures
        !lex_lt(a, a),
    decreases a.len(),
{
    if a.len() > 0 {
        lemma_lex_lt_irreflexive(a.drop_first());
    }
}

proof fn lemma_lex_lt_asymmetric(a: Seq<u8>, b: Seq<u8>)
    ensures
        !(lex_lt(a, b) && lex_lt(b, a)),
    decreases a.len(),
{
    if a.len() > 0 && b.len() > 0 && a[0] == b[0] {
        lemma_lex_lt_asymmetric(a.drop_first(), b.drop_first());
    }
}

proof fn lemma_lex_lt_transitive(a: Seq<u8>, b: Seq<u8>, c: Seq<u8>)
    requires
        lex_lt(a, b),
        lex_lt(b, c),
    ensures
        lex_lt(a, c),
    decreases a.len(),
{
    if a[0] == b[0] && b[0] == c[0] {
        lemma_lex_lt_transitive(a.drop_first(), b.drop_first(), c.drop_first());
    }
}

proof fn lemma_lex_lt_total(a: Seq<u8>, b: Seq<u8>)
    requires
        a.len() == b.len(),
        !lex_lt(a, b),
        !lex_lt(b, a),
    ensures
        a == b,
    decreases a.len(),
{
    if a.len() > 0 {
        lemma_lex_lt_total(a.drop_first(), b.drop_first());
        assert(a =~= seq![a[0]] + a.drop_first());
        assert(b =~= seq![b[0]] + b.drop_first());
    } else {
        assert(a =~= b);
    }
}

/// Two classifications with the same strength and the same tie-break ranks are equal.
proof fn lemma_category_determined(a: HandCategory, b: HandCategory)
    requires
        strength(a) == strength(b),
        tiebreak(a) == tiebreak(b),
    ensures
        a == b,
{
    let ta = tiebreak(a);
    let tb = tiebreak(b);
    assert(ta[0] == tb[0]);
    match a {
        HandCategory::HighCard(..) | HandCategory::Flush(..) => {
            assert(ta[1] == tb[1] && ta[2] == tb[2] && ta[3] == tb[3] && ta[4] == tb[4]);
        },
        HandCategory::OnePair(..) => {
            assert(ta[1] == tb[1] && ta[2] == tb[2] && ta[3] == tb[3]);
        },
        HandCategory::TwoPair(..) | HandCategory::ThreeOfAKind(..) => {
            assert(ta[1] == tb[1] && ta[2] == tb[2]);
        },
        HandCategory::FullHouse(..) | HandCategory::FourOfAKind(..) => {
            assert(ta[1] == tb[1]);
        },
        _ => {},
    }
}

/// The ranking of classifications is a strict total order: irreflexive, transitive,
/// and any two distinct classifications are comparable.
pub proof fn lemma_ranking_is_strict_total_order(a: HandCategory, b: HandCategory, c: HandCategory)
    ensures
        !ranks_below(a, a),
        ranks_below(a, b) && ranks_below(b, c) ==> ranks_below(a, c),
        !(ranks_below(a, b) && ranks_below(b, a)),
        a != b ==> ranks_below(a, b) || ranks_below(b, a),
{
    lemma_lex_lt_irreflexive(tiebreak(a));
    lemma_lex_lt_asymmetric(tiebreak(a), tiebreak(b));
    if ranks_below(a, b) && ranks_below(b, c) && strength(a) == strength(c) {
        lemma_lex_lt_transitive(tiebreak(a), tiebreak(b), tiebreak(c));
    }
    if a != b && !ranks_below(a, b) && !ranks_below(b, a) {
        lemma_lex_lt_total(tiebreak(a), tiebreak(b));
        lemma_category_determined(a, b);
    }
}

/// Categories rank by kind alone, whatever the ranks inside them: straight flush over
/// four of a kind over full house over flush over straight over three of a kind over
/// two pair over one pair over high card.
pub proof fn lemma_category_order(a: HandCategory, b: HandCategory)
    requires
        strength(a) < strength(b),
    ensures
        ranks_below(a, b),
        !ranks_below(b, a),
{
}

/// The three-way comparison agrees with `ranks_below` and is `Equal` exactly on equal values.
pub proof fn lemma_compare_spec(a: HandCategory, b: HandCategory)
    ensures
        (compare_spec(a, b) == Ordering::Less) == ranks_below(a, b),
        (compare_spec(a, b) == Ordering::Greater) == ranks_below(b, a),
        (compare_spec(a, b) == Ordering::Equal) == (a == b),
{
    lemma_ranking_is_strict_total_order(a, b, a);
}

fn lex_compare(a: &Vec<u8>, b: &Vec<u8>) -> (r: Ordering)
    requires
        a@.len() == b@.len(),
    ensures
        (r == Ordering::Less) == lex_lt(a@, b@),
        (r == Ordering::Greater) == lex_lt(b@, a@),
        (r == Ordering::Equal) == (a@ == b@),
{
    let mut i: usize = 0;
    assert(a@.subrange(0, a@.len() as int) =~= a@);
    assert(b@.subrange(0, b@.len() as int) =~= b@);
    while i < a.len()
        invariant
            a@.len() == b@.len(),
            i <= a@.len(),
            a@.subrange(0, i as int) == b@.subrange(0, i as int),
            lex_lt(a@, b@) == lex_lt(a@.subrange(i as int, a@.len() as int), b@.subrange(i as int, b@.len() as int)),
            lex_lt(b@, a@) == lex_lt(b@.subrange(i as int, b@.len() as int), a@.subrange(i as int, a@.len() as int)),
        decreases a@.len() - i,
    {
        proof {
            assert(a@.subrange(i as int, a@.len() as int).drop_first() =~= a@.subrange(i + 1, a@.len() as int));
            assert(b@.subrange(i as int, b@.len() as int).drop_first() =~= b@.subrange(i + 1, b@.len() as int));
        }
        if a[i] < b[i] {
            proof {
                assert(a@[i as int] != b@[i as int]);
            }
            return Ordering::Less;
        }
        if a[i] > b[i] {
            return Ordering::Greater;
        }
        assert(a@.subrange(0, i + 1) =~= a@.subrange(0, i as int).push(a@[i as int]));
        assert(b@.subrange(0, i + 1) =~= b@.subrange(0, i as int).push(b@[i as int]));
        i += 1;
    }
    assert(a@ =~= a@.subrange(0, i as int));
    assert(b@ =~= b@.subrange(0, i as int));
    proof {
        lemma_lex_lt_irreflexive(a@);
    }
    Ordering::Equal
}

impl HandCategory {
    /// Strength of the category, 0 for a high card up to 8 for a straight flush.
    pub fn strength(&self) -> (r: u8)
        ensures
            r as nat == strength(*self),
    {
        match self {
            HandCategory::HighCard(..) => 0,
            HandCategory::OnePair(..) => 1,
            HandCategory::TwoPair(..) => 2,
            HandCategory::ThreeOfAKind(..) => 3,
            HandCategory::Straight(..) => 4,
            HandCategory::Flush(..) => 5,
            HandCategory::FullHouse(..) => 6,
            HandCategory::FourOfAKind(..) => 7,
            HandCategory::StraightFlush(..) => 8,
        }
    }

    /// The tie-break ranks, most significant first.
    pub fn tiebreak(&self) -> (r: Vec<u8>)
        ensures
            r@ == tiebreak(*self),
    {
        let r = match *self {
            HandCategory::HighCard(a, b, c, d, e) => vec![a, b, c, d, e],
            HandCategory::OnePair(a, b, c, d) => vec![a, b, c, d],
            HandCategory::TwoPair(a, b, c) => vec![a, b, c],
            HandCategory::ThreeOfAKind(a, b, c) => vec![a, b, c],
            HandCategory::Straight(a) => vec![a],
            HandCategory::Flush(a, b, c, d, e) => vec![a, b, c, d, e],
            HandCategory::FullHouse(a, b) => vec![a, b],
            HandCategory::FourOfAKind(a, b) => vec![a, b],
            HandCategory::StraightFlush(a) => vec![a],
        };
        assert(r@ =~= tiebreak(*self));
        r
    }

    /// Compares two classifications: category strength first, then tie-break ranks.
    pub fn compare(&self, other: &HandCategory) -> (r: Ordering)
        ensures
            r == compare_spec(*self, *other),
            (r == Ordering::Equal) == (*self == *other),
    {
        proof {
            lemma_compare_spec(*self, *other);
        }
        let s1 = self.strength();
        let s2 = other.strength();
        if s1 < s2 {
            Ordering::Less
        } else if s1 > s2 {
            Ordering::Greater
        } else {
            let t1 = self.tiebreak();
            let t2 = other.tiebreak();
            lex_compare(&t1, &t2)
        }
    }
}

} // verus!
