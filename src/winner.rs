//! Parsing whole hands and selecting the winners among several.

use vstd::prelude::*;
use crate::card::{Card, PokerError, card_of, tokens_of, split_tokens, card_from_chars};
use crate::category::{HandCategory, ranks_below, lemma_ranking_is_strict_total_order};
use crate::classify::{classify, classify_spec, valid_hand};

verus! {

/// The cards of a hand string: exactly five whitespace-separated tokens, each a card.
pub open spec fn parse_hand(s: Seq<char>) -> Result<Seq<Card>, PokerError> {
    let t = tokens_of(s);
    if t.len() != 5 {
        Err(PokerError::InvalidHandSize)
    } else if exists|i: int| 0 <= i < 5 && #[trigger] card_of(t[i]) is None {
        Err(PokerError::InvalidCardFormat)
    } else {
        Ok(t.map_values(|x: Seq<char>| card_of(x)->Some_0))
    }
}

/// The classification of a hand string, or why it has none.
pub open spec fn evaluate(s: Seq<char>) -> Result<HandCategory, PokerError> {
    match parse_hand(s) {
        Ok(h) => Ok(classify_spec(h)),
        Err(e) => Err(e),
    }
}

/// Evaluates hand strings in order; the first failure is the outcome.
pub open spec fn evaluate_all(hs: Seq<Seq<char>>) -> Result<Seq<HandCategory>, PokerError>
    decreases hs.len(),
{
    if hs.len() == 0 {
        Ok(Seq::empty())
    } else {
        match evaluate_all(hs.drop_last()) {
            Err(e) => Err(e),
            Ok(cs) => match evaluate(hs.last()) {
                Err(e) => Err(e),
                Ok(c) => Ok(cs.push(c)),
            },
        }
    }
}

/// The highest-ranking classification of a non-empty list.
pub open spec fn best(cs: Seq<HandCategory>) -> HandCategory
    decreases cs.len(),
{
    if cs.len() <= 1 {
        cs[0]
    } else {
        let m = best(cs.drop_last());
        if ranks_below(m, cs.last()) {
            cs.last()
        } else {
            m
        }
    }
}

/// The character views of a list of hand strings.
pub open spec fn texts_of<'a>(hands: Seq<&'a str>) -> Seq<Seq<char>> {
    hands.map_values(|s: &'a str| s@)
}

/// Holds of a hand string whose classification is `top`.
pub open spec fn classified_as<'a>(top: HandCategory) -> spec_fn(&'a str) -> bool {
    |s: &'a str| evaluate(s@) == Ok::<HandCategory, PokerError>(top)
}

/// The outcome of selecting winners: an error for an empty list or for the first hand
/// that fails, else every hand whose classification equals the best one, in input order.
pub open spec fn winners_spec<'a>(hands: Seq<&'a str>) -> Result<Seq<&'a str>, PokerError> {
    if hands.len() == 0 {
        Err(PokerError::EmptyInput)
    } else {
        match evaluate_all(texts_of(hands)) {
            Err(e) => Err(e),
            Ok(cs) => Ok(hands.filter(classified_as::<'a>(best(cs)))),
        }
    }
}

/// A parsed hand: its five cards and their classification.
#[derive(Debug)]
pub struct Hand {
    pub cards: Vec<Card>,
    pub category: HandCategory,
}

proof fn lemma_parsed_hand_valid(s: Seq<char>)
    requires
        parse_hand(s) is Ok,
    ensures
        valid_hand(parse_hand(s)->Ok_0),
{
    let t = tokens_of(s);
    let h = parse_hand(s)->Ok_0;
    assert forall|i: int| 0 <= i < h.len() implies 2 <= #[trigger] h[i].rank <= 14 by {
        assert(card_of(t[i]) is Some);
    }
}

impl Hand {
    /// Parses a hand string such as "4S 5H 4C 8D 4H" and classifies it.
    pub fn new(text: &str) -> (r: Result<Hand, PokerError>)
        ensures
            match parse_hand(text@) {
                Ok(h) => r is Ok && r->Ok_0.cards@ == h && r->Ok_0.category == classify_spec(h),
                Err(e) => r == Err::<Hand, PokerError>(e),
            },
    {
        let toks = split_tokens(text);
        let ghost t = tokens_of(text@);
        if toks.len() != 5 {
            return Err(PokerError::InvalidHandSize);
        }
        proof {
            assert forall|j: int| 0 <= j < 5 implies #[trigger] toks@[j]@ == t[j] by {
                assert(crate::card::views_of(toks@)[j] == toks@[j]@);
            }
        }
        let mut cards: Vec<Card> = Vec::new();
        let mut i: usize = 0;
        while i < 5
            invariant
                i <= 5,
                t == tokens_of(text@),
                toks@.len() == 5,
                t.len() == 5,
                forall|j: int| 0 <= j < 5 ==> #[trigger] toks@[j]@ == t[j],
                cards@.len() == i,
                forall|j: int| 0 <= j < i ==> #[trigger] cards@[j] == card_of(t[j])->Some_0,
                forall|j: int| 0 <= j < i ==> (#[trigger] card_of(t[j])) is Some,
            decreases 5 - i,
        {
            assert(toks[i as int]@ == t[i as int]);
            match card_from_chars(&toks[i]) {
                Ok(c) => {
                    let ghost prev = cards@;
                    cards.push(c);
                    assert(card_of(t[i as int]) is Some);
                    assert forall|j: int| 0 <= j <= i implies #[trigger] cards@[j] == card_of(t[j])->Some_0 by {
                        if j < i {
                            assert(cards@[j] == prev[j]);
                        }
                    }
                },
                Err(e) => {
                    proof {
                        assert(card_of(t[i as int]) is None);
                    }
                    return Err(e);
                },
            }
            i += 1;
        }
        proof {
            assert(!exists|j: int| 0 <= j < 5 && #[trigger] card_of(t[j]) is None);
            assert(cards@ =~= t.map_values(|x: Seq<char>| card_of(x)->Some_0));
            lemma_parsed_hand_valid(text@);
        }
        let category = classify(cards.as_slice());
        Ok(Hand { cards, category })
    }
}


proof fn lemma_evaluate_all_ok(hs: Seq<Seq<char>>)
    requires
        evaluate_all(hs) is Ok,
    ensures
        evaluate_all(hs)->Ok_0.len() == hs.len(),
        forall|i: int|
            0 <= i < hs.len() ==> evaluate(#[trigger] hs[i]) == Ok::<HandCategory, PokerError>(
                evaluate_all(hs)->Ok_0[i],
            ),
    decreases hs.len(),
{
    if hs.len() > 0 {
        let t = hs.drop_last();
        lemma_evaluate_all_ok(t);
        assert forall|i: int|
            0 <= i < hs.len() implies evaluate(#[trigger] hs[i]) == Ok::<HandCategory, PokerError>(
                evaluate_all(hs)->Ok_0[i],
            ) by {
            if i < hs.len() - 1 {
                assert(hs[i] == t[i]);
            }
        }
    }
}

proof fn lemma_evaluate_all_prefix_err(hs: Seq<Seq<char>>, k: int)
    requires
        0 <= k <= hs.len(),
        evaluate_all(hs.take(k)) is Err,
    ensures
        evaluate_all(hs) == evaluate_all(hs.take(k)),
    decreases hs.len(),
{
    if k < hs.len() {
        let t = hs.drop_last();
        assert(t.take(k) =~= hs.take(k));
        lemma_evaluate_all_prefix_err(t, k);
    } else {
        assert(hs.take(k) =~= hs);
    }
}

/// The best classification ranks at least as high as every member of the list and is one of them.
pub proof fn lemma_best_is_maximum(cs: Seq<HandCategory>)
    requires
        cs.len() > 0,
    ensures
        forall|i: int| 0 <= i < cs.len() ==> !ranks_below(best(cs), #[trigger] cs[i]),
        exists|i: int| 0 <= i < cs.len() && cs[i] == best(cs),
    decreases cs.len(),
{
    if cs.len() == 1 {
        lemma_ranking_is_strict_total_order(cs[0], cs[0], cs[0]);
        assert(cs[0] == best(cs));
    } else {
        let t = cs.drop_last();
        let m = best(t);
        lemma_best_is_maximum(t);
        let j = choose|j: int| 0 <= j < t.len() && t[j] == m;
        assert(cs[j] == best(cs) || cs[cs.len() - 1] == best(cs));
        assert forall|i: int| 0 <= i < cs.len() implies !ranks_below(best(cs), #[trigger] cs[i]) by {
            lemma_ranking_is_strict_total_order(m, cs.last(), cs[i]);
            lemma_ranking_is_strict_total_order(cs.last(), m, cs[i]);
            lemma_ranking_is_strict_total_order(cs[i], cs[i], cs[i]);
            if i < cs.len() - 1 {
                assert(cs[i] == t[i]);
            }
        }
    }
}

/// Given hand strings in order, returns every hand whose classification equals the best
/// one among them, in input order. Fails with `EmptyInput` on an empty list, and otherwise
/// with the error of the first hand that cannot be parsed.
pub fn winning_hands<'a>(hands: &[&'a str]) -> (r: Result<Vec<&'a str>, PokerError>)
    ensures
        match r {
            Ok(w) => winners_spec(hands@) == Ok::<Seq<&'a str>, PokerError>(w@),
            Err(e) => winners_spec(hands@) == Err::<Seq<&'a str>, PokerError>(e),
        },
{
    if hands.len() == 0 {
        return Err(PokerError::EmptyInput);
    }
    let ghost texts = texts_of(hands@);
    let mut cats: Vec<HandCategory> = Vec::new();
    let mut i: usize = 0;
    assert(texts.take(0) =~= Seq::<Seq<char>>::empty());
    while i < hands.len()
        invariant
            i <= hands@.len(),
            texts == texts_of(hands@),
            evaluate_all(texts.take(i as int)) == Ok::<Seq<HandCategory>, PokerError>(cats@),
        decreases hands@.len() - i,
    {
        let ghost pre = texts.take(i as int);
        let ghost cur = texts.take(i + 1);
        assert(cur.drop_last() =~= pre);
        assert(cur.last() == hands@[i as int]@);
        match Hand::new(hands[i]) {
            Ok(hand) => {
                cats.push(hand.category);
            },
            Err(e) => {
                proof {
                    lemma_evaluate_all_prefix_err(texts, i + 1);
                }
                return Err(e);
            },
        }
        i += 1;
    }
    assert(texts.take(i as int) =~= texts);
    proof {
        lemma_evaluate_all_ok(texts);
    }
    let ghost cs = cats@;
    let mut top = cats[0];
    let mut k: usize = 1;
    assert(cs.take(1).drop_last().len() == 0);
    while k < cats.len()
        invariant
            1 <= k <= cats@.len(),
            cats@ == cs,
            top == best(cs.take(k as int)),
        decreases cats@.len() - k,
    {
        assert(cs.take(k + 1).drop_last() =~= cs.take(k as int));
        if let core::cmp::Ordering::Less = top.compare(&cats[k]) {
            top = cats[k];
        }
        k += 1;
    }
    assert(cs.take(k as int) =~= cs);
    let ghost keep = classified_as::<'a>(top);
    let mut out: Vec<&'a str> = Vec::new();
    let mut j: usize = 0;
    assert(hands@.take(0) =~= Seq::<&'a str>::empty());
    while j < hands.len()
        invariant
            j <= hands@.len(),
            cats@ == cs,
            cs.len() == hands@.len(),
            texts == texts_of(hands@),
            keep == classified_as::<'a>(top),
            forall|q: int| 0 <= q < texts.len() ==> evaluate(#[trigger] texts[q]) == Ok::<HandCategory, PokerError>(cs[q]),
            out@ == hands@.take(j as int).filter(keep),
        decreases hands@.len() - j,
    {
        proof {
            assert(hands@.take(j + 1) =~= hands@.take(j as int).push(hands@[j as int]));
            hands@.take(j as int).lemma_filter_push(hands@[j as int], keep);
            assert(texts[j as int] == hands@[j as int]@);
        }
        if cats[j] == top {
            out.push(hands[j]);
        }
        j += 1;
    }
    assert(hands@.take(j as int) =~= hands@);
    Ok(out)
}


/// A single hand that parses is the one winner.
pub proof fn lemma_single_hand_wins<'a>(h: &'a str)
    requires
        evaluate(h@) is Ok,
    ensures
        winners_spec(seq![h]) == Ok::<Seq<&'a str>, PokerError>(seq![h]),
{
    let hs = seq![h];
    let texts = texts_of(hs);
    let c = evaluate(h@)->Ok_0;
    assert(texts.drop_last() =~= Seq::<Seq<char>>::empty());
    assert(texts.last() == h@);
    assert(evaluate_all(texts.drop_last()) == Ok::<Seq<HandCategory>, PokerError>(Seq::empty()));
    assert(Seq::<HandCategory>::empty().push(c) =~= seq![c]);
    assert(evaluate_all(texts) == Ok::<Seq<HandCategory>, PokerError>(seq![c]));
    assert(best(seq![c]) == c);
    let e = Seq::<&'a str>::empty();
    assert(e.push(h) =~= hs);
    e.lemma_filter_push(h, classified_as::<'a>(c));
    reveal(Seq::filter);
    assert(e.filter(classified_as::<'a>(c)) =~= e);
    assert(hs.filter(classified_as::<'a>(c)) =~= hs);
}

/// When every hand parses, a hand is among the winners exactly when no hand ranks above
/// it: all hands that tie with the best one are returned.
pub proof fn lemma_winner_iff_unbeaten<'a>(hands: Seq<&'a str>, i: int)
    requires
        winners_spec(hands) is Ok,
        0 <= i < hands.len(),
    ensures
        winners_spec(hands)->Ok_0.contains(hands[i]) <==> (forall|j: int|
            0 <= j < hands.len() ==> !ranks_below(
                evaluate(hands[i]@)->Ok_0,
                #[trigger] evaluate(hands[j]@)->Ok_0,
            )),
{
    broadcast use vstd::seq_lib::group_filter_ensures;

    let texts = texts_of(hands);
    lemma_evaluate_all_ok(texts);
    let cs = evaluate_all(texts)->Ok_0;
    let top = best(cs);
    let keep = classified_as::<'a>(top);
    lemma_best_is_maximum(cs);
    assert forall|k: int| 0 <= k < hands.len() implies #[trigger] evaluate(hands[k]@) == Ok::<HandCategory, PokerError>(cs[k]) by {
        assert(texts[k] == hands[k]@);
    }
    let w = hands.filter(keep);
    if w.contains(hands[i]) {
        let k = choose|k: int| 0 <= k < w.len() && w[k] == hands[i];
        assert(keep(w[k]));
        assert(cs[i] == top);
        assert forall|j: int| 0 <= j < hands.len() implies !ranks_below(
            evaluate(hands[i]@)->Ok_0,
            #[trigger] evaluate(hands[j]@)->Ok_0,
        ) by {
            assert(!ranks_below(top, cs[j]));
        }
    }
    if forall|j: int|
        0 <= j < hands.len() ==> !ranks_below(
            evaluate(hands[i]@)->Ok_0,
            #[trigger] evaluate(hands[j]@)->Ok_0,
        ) {
        let m = choose|m: int| 0 <= m < cs.len() && cs[m] == top;
        assert(evaluate(hands[m]@)->Ok_0 == top);
        assert(!ranks_below(cs[i], top));
        assert(!ranks_below(top, cs[i]));
        lemma_ranking_is_strict_total_order(cs[i], top, cs[i]);
        assert(keep(hands[i]));
        hands.lemma_filter_contains(keep, i);
    }
}

} // verus!
