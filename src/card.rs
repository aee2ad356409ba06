//! Cards and the textual format of hands.

use vstd::prelude::*;

verus! {

/// Why a hand or a list of hands could not be evaluated.
#[derive(Debug, Clone, Copy, PartialEq, Eq, Structural)]
pub enum PokerError {
    /// A card token has no recognised rank, or no suit after its rank.
    InvalidCardFormat,
    /// A hand does not consist of exactly five card tokens.
    InvalidHandSize,
    /// No hands were given.
    EmptyInput,
}

/// A playing card. `rank` runs from 2 to 14 (11 jack, 12 queen, 13 king, 14 ace).
#[derive(Debug, Clone, Copy, PartialEq, Eq, Structural)]
pub struct Card {
    pub rank: u8,
    pub suit: char,
}

/// The rank written by a one-character rank symbol.
pub open spec fn rank_symbol(c: char) -> Option<u8> {
    match c {
        '2' => Some(2u8),
        '3' => Some(3u8),
        '4' => Some(4u8),
        '5' => Some(5u8),
        '6' => Some(6u8),
        '7' => Some(7u8),
        '8' => Some(8u8),
        '9' => Some(9u8),
        'J' => Some(11u8),
        'Q' => Some(12u8),
        'K' => Some(13u8),
        'A' => Some(14u8),
        _ => None,
    }
}

/// The card a token denotes: a rank symbol (or "10") followed by exactly one suit character.
pub open spec fn card_of(t: Seq<char>) -> Option<Card> {
    if t.len() == 2 && rank_symbol(t[0]) is Some {
        Some(Card { rank: rank_symbol(t[0])->Some_0, suit: t[1] })
    } else if t.len() == 3 && t[0] == '1' && t[1] == '0' {
        Some(Card { rank: 10u8, suit: t[2] })
    } else {
        None
    }
}

/// Characters that separate the tokens of a hand (ASCII whitespace).
pub open spec fn is_separator(c: char) -> bool {
    c == ' ' || c == '\t' || c == '\n' || c == '\r' || c == '\x0C'
}

/// Splitting `s` from position `i` on, where `cur` is the token being read and
/// `acc` the tokens already complete: the maximal runs of non-separators, in order.
pub open spec fn split_from(s: Seq<char>, i: int, cur: Seq<char>, acc: Seq<Seq<char>>) -> Seq<
    Seq<char>,
>
    decreases s.len() - i,
{
    if i >= s.len() {
        if cur.len() > 0 {
            acc.push(cur)
        } else {
            acc
        }
    } else if is_separator(s[i]) {
        split_from(s, i + 1, Seq::empty(), if cur.len() > 0 { acc.push(cur) } else { acc })
    } else {
        split_from(s, i + 1, cur.push(s[i]), acc)
    }
}

/// The whitespace-separated tokens of `s`.
pub open spec fn tokens_of(s: Seq<char>) -> Seq<Seq<char>> {
    split_from(s, 0, Seq::empty(), Seq::empty())
}

/// The views of a list of character vectors.
pub open spec fn views_of(v: Seq<Vec<char>>) -> Seq<Seq<char>> {
    v.map_values(|t: Vec<char>| t@)
}

fn is_separator_char(c: char) -> (r: bool)
    ensures
        r == is_separator(c),
{
    c == ' ' || c == '\t' || c == '\n' || c == '\r' || c == '\x0C'
}

fn rank_of_symbol(c: char) -> (r: Option<u8>)
    ensures
        r == rank_symbol(c),
{
    match c {
        '2' => Some(2u8),
        '3' => Some(3u8),
        '4' => Some(4u8),
        '5' => Some(5u8),
        '6' => Some(6u8),
        '7' => Some(7u8),
        '8' => Some(8u8),
        '9' => Some(9u8),
        'J' => Some(11u8),
        'Q' => Some(12u8),
        'K' => Some(13u8),
        'A' => Some(14u8),
        _ => None,
    }
}

/// The characters of `s`, in order.
pub fn chars_of(s: &str) -> (r: Vec<char>)
    ensures
        r@ == s@,
{
    let n = s.unicode_len();
    let mut out: Vec<char> = Vec::new();
    let mut i: usize = 0;
    while i < n
        invariant
            n == s@.len(),
            i <= n,
            out@ == s@.subrange(0, i as int),
        decreases n - i,
    {
        out.push(s.get_char(i));
        i += 1;
    }
    assert(out@ =~= s@);
    out
}

/// Splits `s` into its whitespace-separated tokens.
pub fn split_tokens(s: &str) -> (r: Vec<Vec<char>>)
    ensures
        views_of(r@) == tokens_of(s@),
{
    let n = s.unicode_len();
    let mut acc: Vec<Vec<char>> = Vec::new();
    let mut cur: Vec<char> = Vec::new();
    let mut i: usize = 0;
    assert(views_of(acc@) =~= Seq::<Seq<char>>::empty());
    while i < n
        invariant
            n == s@.len(),
            i <= n,
            split_from(s@, i as int, cur@, views_of(acc@)) == tokens_of(s@),
        decreases n - i,
    {
        let c = s.get_char(i);
        if is_separator_char(c) {
            if cur.len() > 0 {
                let ghost before = acc@;
                acc.push(cur);
                assert(views_of(acc@) =~= views_of(before).push(cur@));
            }
            cur = Vec::new();
            assert(cur@ =~= Seq::<char>::empty());
        } else {
            cur.push(c);
        }
        i += 1;
    }
    if cur.len() > 0 {
        let ghost before = acc@;
        acc.push(cur);
        assert(views_of(acc@) =~= views_of(before).push(cur@));
    }
    acc
}

/// Reads a card from the characters of one token.
pub fn card_from_chars(t: &Vec<char>) -> (r: Result<Card, PokerError>)
    ensures
        card_of(t@) is Some ==> r == Ok::<Card, PokerError>(card_of(t@)->Some_0),
        card_of(t@) is None ==> r == Err::<Card, PokerError>(PokerError::InvalidCardFormat),
{
    if t.len() == 2 {
        match rank_of_symbol(t[0]) {
            Some(rank) => Ok(Card { rank, suit: t[1] }),
            None => Err(PokerError::InvalidCardFormat),
        }
    } else if t.len() == 3 && t[0] == '1' && t[1] == '0' {
        Ok(Card { rank: 10, suit: t[2] })
    } else {
        Err(PokerError::InvalidCardFormat)
    }
}

impl Card {
    /// Reads a card token such as "4S", "10H" or "AD".
    pub fn new(token: &str) -> (r: Result<Card, PokerError>)
        ensures
            card_of(token@) is Some ==> r == Ok::<Card, PokerError>(card_of(token@)->Some_0),
            card_of(token@) is None ==> r == Err::<Card, PokerError>(
                PokerError::InvalidCardFormat,
            ),
    {
        let t = chars_of(token);
        card_from_chars(&t)
    }
}

} // verus!
