//! The card-rank rules: raw-value to rank, the matching rule, and the
//! verbosity levels used by callers when reporting progress.

use crate::{Card, RawCard};
use vstd::prelude::*;

verus! {

/// How talkative a caller asked the program to be.
#[derive(Debug, PartialEq, Eq, Hash, Copy, Clone, PartialOrd, Ord, Structural)]
pub enum Verbosity {
    Off,
    Low,
    Medium,
    High,
    VeryHigh,
}

/// The rank encoded by a raw card value: 1 (Ace) up to 13 (King).
pub open spec fn spec_rank(raw: u8) -> u8 {
    (raw % 13 + 1) as u8
}

/// The rank that pairs with `rank` under the sum-to-thirteen rule; a King
/// (13) pairs with itself.
pub open spec fn spec_match_rank(rank: u8) -> u8 {
    if rank == 13 {
        13
    } else {
        (13 - rank) as u8
    }
}

/// Whether two distinct physical cards form a legal pair: their ranks sum to
/// thirteen, or both are Kings. A card never pairs with itself.
pub open spec fn spec_cards_match(a: RawCard, b: RawCard) -> bool {
    a != b && spec_match_rank(spec_rank(a.0)) == spec_rank(b.0)
}

/// Map a verbosity count (0, 1, 2, ...) to the matching level; everything
/// past 3 is the loudest level.
pub fn parse_verbosity(verbosity: u8) -> (r: Verbosity)
    ensures
        r == (match verbosity {
            0u8 => Verbosity::Off,
            1u8 => Verbosity::Low,
            2u8 => Verbosity::Medium,
            3u8 => Verbosity::High,
            _ => Verbosity::VeryHigh,
        }),
{
    match verbosity {
        0 => Verbosity::Off,
        1 => Verbosity::Low,
        2 => Verbosity::Medium,
        3 => Verbosity::High,
        _ => Verbosity::VeryHigh,
    }
}

/// A raw value will be from 0 to 51; aces are 0, 13, 26 and 39, for example.
/// This turns a raw value into the card rank: 0/13/26/39 all give 1, an Ace.
pub fn card_from_raw(val: u8) -> (r: u8)
    ensures
        r == spec_rank(val),
{
    (val % 13) + 1
}

/// The rank that would match with this card's rank: 1 (Ace) gives 12 (Queen),
/// and 13 (King) gives 13, since a King matches only itself.
pub fn match_card(card: Card) -> (r: Card)
    requires
        1 <= card.0 <= 13,
    ensures
        r.0 == spec_match_rank(card.0),
{
    match card {
        Card(13) => Card(13),
        Card(x) => Card(13 - x),
    }
}

/// The character for one decimal digit.
pub open spec fn spec_digit_char(d: int) -> char {
    if d == 0 {
        '0'
    } else if d == 1 {
        '1'
    } else if d == 2 {
        '2'
    } else if d == 3 {
        '3'
    } else if d == 4 {
        '4'
    } else if d == 5 {
        '5'
    } else if d == 6 {
        '6'
    } else if d == 7 {
        '7'
    } else if d == 8 {
        '8'
    } else {
        '9'
    }
}

/// The decimal spelling of a non-negative number, most significant digit
/// first and without leading zeroes.
pub open spec fn spec_dec(v: int) -> Seq<char>
    decreases v,
{
    if v < 10 {
        seq![spec_digit_char(v)]
    } else {
        spec_dec(v / 10).push(spec_digit_char(v % 10))
    }
}

/// The string for one decimal digit.
pub fn digit_str(d: u32) -> (r: &'static str)
    requires
        d < 10,
    ensures
        r@ == seq![spec_digit_char(d as int)],
{
    proof {
        reveal_strlit("0");
        reveal_strlit("1");
        reveal_strlit("2");
        reveal_strlit("3");
        reveal_strlit("4");
        reveal_strlit("5");
        reveal_strlit("6");
        reveal_strlit("7");
        reveal_strlit("8");
        reveal_strlit("9");
    }
    let r = match d {
        0 => "0",
        1 => "1",
        2 => "2",
        3 => "3",
        4 => "4",
        5 => "5",
        6 => "6",
        7 => "7",
        8 => "8",
        _ => "9",
    };
    proof {
        assert(r@ =~= seq![spec_digit_char(d as int)]);
    }
    r
}

/// Append the decimal spelling of `v` to a string.
pub fn append_dec(s: &mut String, v: u32)
    ensures
        final(s)@ == old(s)@ + spec_dec(v as int),
    decreases v,
{
    if v >= 10 {
        append_dec(s, v / 10);
    }
    let ghost mid = s@;
    vstd::string::StringExecFns::append(s, digit_str(v % 10));
    proof {
        if v >= 10 {
            assert(spec_dec(v as int) == spec_dec(v as int / 10).push(
                spec_digit_char(v as int % 10),
            ));
            assert(s@ =~= old(s)@ + spec_dec(v as int));
        } else {
            assert(s@ =~= old(s)@ + spec_dec(v as int));
        }
    }
}

/// Check if two cards are a matching pair.
pub fn cards_match(a: RawCard, b: RawCard) -> (r: bool)
    ensures
        r == spec_cards_match(a, b),
{
    if a == b {
        return false;
    }

    let a_card: Card = a.into();
    let b_card: Card = b.into();
    match_card(a_card) == b_card
}

/// An unusable character in a board or pile description; only rank characters
/// are accepted.
#[derive(Debug, PartialEq, Eq, Clone, Copy)]
pub struct ParseError {
    /// The character that could not be read as a rank.
    pub ch: char,
}

/// The rank a text character stands for: a or 1 for an Ace, plain digits,
/// 0 for a ten, j, q (or d) and k for the faces; 0 for anything unusable.
pub open spec fn spec_char_rank(c: char) -> int {
    if c == 'a' || c == 'A' || c == '1' {
        1
    } else if c == '2' {
        2
    } else if c == '3' {
        3
    } else if c == '4' {
        4
    } else if c == '5' {
        5
    } else if c == '6' {
        6
    } else if c == '7' {
        7
    } else if c == '8' {
        8
    } else if c == '9' {
        9
    } else if c == '0' {
        10
    } else if c == 'j' || c == 'J' {
        11
    } else if c == 'q' || c == 'Q' || c == 'd' || c == 'D' {
        12
    } else if c == 'k' || c == 'K' {
        13
    } else {
        0
    }
}

/// How many characters of rank `rank` a text holds.
pub open spec fn rank_occurrences(s: Seq<char>, rank: int) -> int
    decreases s.len(),
{
    if s.len() == 0 {
        0
    } else {
        rank_occurrences(s.drop_last(), rank) + if spec_char_rank(s.last()) == rank {
            1int
        } else {
            0int
        }
    }
}

/// Whether every character of a text is a rank character.
pub open spec fn all_valid(s: Seq<char>) -> bool {
    forall|i: int| 0 <= i < s.len() ==> spec_char_rank(#[trigger] s[i]) != 0
}

/// The cards spelled by a text, given how many copies of each rank have been
/// seen so far: each card's raw value is its rank offset plus thirteen for
/// every earlier copy, so equal ranks get distinct physical cards.
pub open spec fn parse_fold(chars: Seq<char>, i: int, counts: Seq<int>, acc: Seq<RawCard>) -> (
    Seq<RawCard>,
    Seq<int>,
)
    decreases chars.len() - i,
{
    if i < 0 || i >= chars.len() {
        (acc, counts)
    } else {
        let v = spec_char_rank(chars[i]);
        let raw = (v - 1 + counts[v - 1] * 13) as u8;
        parse_fold(
            chars,
            i + 1,
            counts.update(v - 1, counts[v - 1] + 1),
            acc.push(RawCard(raw)),
        )
    }
}

/// Thirteen zeroes: no copies seen yet.
pub open spec fn zero_counts() -> Seq<int> {
    Seq::new(13, |i: int| 0int)
}

/// The rank a text character stands for, or 0 when it stands for none.
pub fn char_rank(c: char) -> (r: u8)
    ensures
        r as int == spec_char_rank(c),
{
    if c == 'a' || c == 'A' || c == '1' {
        1
    } else if c == '2' {
        2
    } else if c == '3' {
        3
    } else if c == '4' {
        4
    } else if c == '5' {
        5
    } else if c == '6' {
        6
    } else if c == '7' {
        7
    } else if c == '8' {
        8
    } else if c == '9' {
        9
    } else if c == '0' {
        10
    } else if c == 'j' || c == 'J' {
        11
    } else if c == 'q' || c == 'Q' || c == 'd' || c == 'D' {
        12
    } else if c == 'k' || c == 'K' {
        13
    } else {
        0
    }
}

/// A prefix never holds more copies of a rank than the whole text.
pub proof fn lemma_rank_occurrences_prefix(s: Seq<char>, i: int, rank: int)
    requires
        0 <= i <= s.len(),
    ensures
        rank_occurrences(s.take(i), rank) <= rank_occurrences(s, rank),
    decreases s.len() - i,
{
    if i < s.len() {
        lemma_rank_occurrences_prefix(s, i + 1, rank);
        assert(s.take(i + 1).drop_last() =~= s.take(i));
        assert(s.take(i + 1).last() == s[i]);
    } else {
        assert(s.take(i) =~= s);
    }
}

/// Counting occurrences never gives a negative number.
pub proof fn lemma_rank_occurrences_nonneg(s: Seq<char>, rank: int)
    ensures
        0 <= rank_occurrences(s, rank) <= s.len(),
    decreases s.len(),
{
    if s.len() > 0 {
        lemma_rank_occurrences_nonneg(s.drop_last(), rank);
    }
}

/// Parse card and pile texts into card lists. Duplicate ranks get successive
/// copy slots, counted across both texts in order, so the same deal text
/// always gives the same physical cards. An unusable character is reported
/// back; the first one wins.
#[verifier::loop_isolation(false)]
#[verifier::rlimit(60)]
pub fn parse_board(cards_str: String, stack_str: String) -> (r: Result<
    (Vec<RawCard>, Vec<RawCard>),
    ParseError,
>)
    requires
        forall|rank: int|
            1 <= rank <= 13 ==> rank_occurrences(cards_str@ + stack_str@, rank) <= 18,
    ensures
        ({
            let full = cards_str@ + stack_str@;
            match r {
                Ok(pair) => {
                    &&& all_valid(full)
                    &&& pair.0@ == parse_fold(cards_str@, 0, zero_counts(), Seq::empty()).0
                    &&& pair.1@ == parse_fold(
                        stack_str@,
                        0,
                        parse_fold(cards_str@, 0, zero_counts(), Seq::empty()).1,
                        Seq::empty(),
                    ).0
                },
                Err(e) => exists|i: int|
                    0 <= i < full.len() && spec_char_rank(#[trigger] full[i]) == 0 && e.ch
                        == full[i] && forall|k: int| 0 <= k < i ==> spec_char_rank(full[k]) != 0,
            }
        }),
{
    let ghost full = cards_str@ + stack_str@;
    let mut counts: Vec<u8> = Vec::new();
    let mut z: usize = 0;
    while z < 13
        invariant
            z <= 13,
            counts@.len() == z,
            forall|k: int| 0 <= k < z ==> counts@[k] == 0,
        decreases 13 - z,
    {
        counts.push(0);
        z += 1;
    }
    proof {
        assert(counts@.map_values(|c: u8| c as int) =~= zero_counts());
    }
    let mut cards: Vec<RawCard> = Vec::new();
    let cs = cards_str.as_str();
    let n1 = cs.unicode_len();
    let mut i: usize = 0;
    while i < n1
        invariant
            n1 == cards_str@.len(),
            i <= n1,
            counts@.len() == 13,
            full == cards_str@ + stack_str@,
            forall|k: int| 0 <= k < i ==> spec_char_rank(#[trigger] cards_str@[k]) != 0,
            forall|rank: int|
                1 <= rank <= 13 ==> #[trigger] counts@[rank - 1] as int == rank_occurrences(
                    cards_str@.take(i as int),
                    rank,
                ),
            parse_fold(cards_str@, 0, zero_counts(), Seq::empty()) == parse_fold(
                cards_str@,
                i as int,
                counts@.map_values(|c: u8| c as int),
                cards@,
            ),
        decreases n1 - i,
    {
        let c = vstd::string::StrSliceExecFns::get_char(cs, i);
        let v = char_rank(c);
        if v == 0 {
            proof {
                assert(full[i as int] == cards_str@[i as int]);
                assert forall|k: int| 0 <= k < i implies spec_char_rank(full[k]) != 0 by {
                    assert(full[k] == cards_str@[k]);
                }
            }
            return Err(ParseError { ch: c });
        }
        let idx = (v - 1) as usize;
        proof {
            lemma_rank_occurrences_prefix(cards_str@, i as int, v as int);
            assert(rank_occurrences(cards_str@, v as int) <= rank_occurrences(full, v as int)) by {
                lemma_occurrences_concat(cards_str@, stack_str@, v as int);
                lemma_rank_occurrences_nonneg(stack_str@, v as int);
            }
        }
        let ghost cmap0 = counts@.map_values(|c: u8| c as int);
        let ghost cards0 = cards@;
        let cnt = counts[idx];
        cards.push(RawCard(v - 1 + cnt * 13));
        counts.set(idx, cnt + 1);
        proof {
            assert forall|rank: int| 1 <= rank <= 13 implies #[trigger] counts@[rank - 1] as int
                == rank_occurrences(cards_str@.take(i as int + 1), rank) by {
                assert(cards_str@.take(i as int + 1).drop_last() =~= cards_str@.take(i as int));
                assert(cards_str@.take(i as int + 1).last() == cards_str@[i as int]);
            }
            assert(counts@.map_values(|c: u8| c as int) =~= cmap0.update(
                idx as int,
                cmap0[idx as int] + 1,
            ));
            assert(parse_fold(cards_str@, i as int, cmap0, cards0) == parse_fold(
                cards_str@,
                i as int + 1,
                counts@.map_values(|c: u8| c as int),
                cards@,
            ));
        }
        i += 1;
    }
    proof {
        assert(cards_str@.take(n1 as int) =~= cards_str@);
    }
    let mut stack: Vec<RawCard> = Vec::new();
    let ghost counts_mid = counts@.map_values(|c: u8| c as int);
    let ss = stack_str.as_str();
    let n2 = ss.unicode_len();
    let mut j: usize = 0;
    while j < n2
        invariant
            n2 == stack_str@.len(),
            j <= n2,
            counts@.len() == 13,
            full == cards_str@ + stack_str@,
            all_valid(cards_str@),
            forall|k: int| 0 <= k < j ==> spec_char_rank(#[trigger] stack_str@[k]) != 0,
            forall|rank: int|
                1 <= rank <= 13 ==> #[trigger] counts@[rank - 1] as int == rank_occurrences(
                    cards_str@,
                    rank,
                ) + rank_occurrences(stack_str@.take(j as int), rank),
            parse_fold(stack_str@, 0, counts_mid, Seq::empty()) == parse_fold(
                stack_str@,
                j as int,
                counts@.map_values(|c: u8| c as int),
                stack@,
            ),
        decreases n2 - j,
    {
        let c = vstd::string::StrSliceExecFns::get_char(ss, j);
        let v = char_rank(c);
        if v == 0 {
            proof {
                assert(full[cards_str@.len() + j as int] == stack_str@[j as int]);
                assert forall|k: int| 0 <= k < cards_str@.len() + j implies spec_char_rank(
                    full[k],
                ) != 0 by {
                    if k < cards_str@.len() {
                        assert(full[k] == cards_str@[k]);
                    } else {
                        assert(full[k] == stack_str@[k - cards_str@.len()]);
                    }
                }
            }
            return Err(ParseError { ch: c });
        }
        let idx = (v - 1) as usize;
        proof {
            lemma_rank_occurrences_prefix(stack_str@, j as int, v as int);
            lemma_occurrences_concat(cards_str@, stack_str@, v as int);
        }
        let ghost cmap0 = counts@.map_values(|c: u8| c as int);
        let ghost stack0 = stack@;
        let cnt = counts[idx];
        stack.push(RawCard(v - 1 + cnt * 13));
        counts.set(idx, cnt + 1);
        proof {
            assert forall|rank: int| 1 <= rank <= 13 implies #[trigger] counts@[rank - 1] as int
                == rank_occurrences(cards_str@, rank) + rank_occurrences(
                stack_str@.take(j as int + 1),
                rank,
            ) by {
                assert(stack_str@.take(j as int + 1).drop_last() =~= stack_str@.take(j as int));
                assert(stack_str@.take(j as int + 1).last() == stack_str@[j as int]);
            }
            assert(counts@.map_values(|c: u8| c as int) =~= cmap0.update(
                idx as int,
                cmap0[idx as int] + 1,
            ));
            assert(parse_fold(stack_str@, j as int, cmap0, stack0) == parse_fold(
                stack_str@,
                j as int + 1,
                counts@.map_values(|c: u8| c as int),
                stack@,
            ));
        }
        j += 1;
    }
    proof {
        assert(stack_str@.take(n2 as int) =~= stack_str@);
        assert forall|k: int| 0 <= k < full.len() implies spec_char_rank(#[trigger] full[k])
            != 0 by {
            if k < cards_str@.len() {
                assert(full[k] == cards_str@[k]);
            } else {
                assert(full[k] == stack_str@[k - cards_str@.len()]);
            }
        }
    }
    Ok((cards, stack))
}

/// Occurrences across two texts add up.
pub proof fn lemma_occurrences_concat(a: Seq<char>, b: Seq<char>, rank: int)
    ensures
        rank_occurrences(a + b, rank) == rank_occurrences(a, rank) + rank_occurrences(b, rank),
    decreases b.len(),
{
    if b.len() == 0 {
        assert(a + b =~= a);
    } else {
        lemma_occurrences_concat(a, b.drop_last(), rank);
        assert((a + b).drop_last() =~= a + b.drop_last());
        assert((a + b).last() == b.last());
    }
}

} // verus!
