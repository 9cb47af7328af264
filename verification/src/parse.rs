use vstd::prelude::*;

use crate::tile::{Honor, Suit, Tile};

verus! {

/// Why a notation string failed to parse.
#[derive(Clone, Copy, PartialEq, Eq, Structural, Debug)]
pub enum ParseError {
    /// A character outside the recognized alphabet.
    UnexpectedCharacter(char),
    /// An honor group held a digit outside 1..=7.
    InvalidHonorNumber(u8),
    /// A red-five token (`0`) stood in an honor group.
    RedFiveWithHonor,
    /// The input ended with digits that no terminator resolved.
    TrailingDigitsWithoutSuit,
}

/// A parsed hand: the tiles in input order, and how many of them were
/// written as red fives.
#[derive(Clone, Debug)]
pub struct ParsedHand {
    pub tiles: Vec<Tile>,
    pub aka_count: usize,
}

/// A digit character `1`..=`9`.
pub open spec fn is_digit19(c: char) -> bool {
    '1' <= c && c <= '9'
}

/// The numeric value of a digit character.
pub open spec fn digit_of(c: char) -> u8 {
    (c as u32 - '0' as u32) as u8
}

/// A suit terminator: `m`, `p` or `s`.
pub open spec fn is_suit_char(c: char) -> bool {
    c == 'm' || c == 'p' || c == 's'
}

/// The suit a terminator stands for.
pub open spec fn suit_of(c: char) -> Suit {
    if c == 'm' {
        Suit::Man
    } else if c == 'p' {
        Suit::Pin
    } else {
        Suit::Sou
    }
}

/// Whitespace that the scanner skips without touching its buffer.
pub open spec fn is_space(c: char) -> bool {
    c == ' ' || c == '\t' || c == '\n'
}

/// The honor kind a digit 1..=7 denotes.
pub open spec fn honor_of(d: u8) -> Honor {
    if d == 1 {
        Honor::East
    } else if d == 2 {
        Honor::South
    } else if d == 3 {
        Honor::West
    } else if d == 4 {
        Honor::North
    } else if d == 5 {
        Honor::White
    } else if d == 6 {
        Honor::Green
    } else {
        Honor::Red
    }
}

/// The tiles a pending buffer yields under a suit terminator, in buffer order.
/// A pending pair is (digit value, written as a red five).
pub open spec fn suit_tiles(pending: Seq<(u8, bool)>, s: Suit) -> Seq<Tile>
    decreases pending.len(),
{
    if pending.len() == 0 {
        Seq::empty()
    } else {
        seq![Tile::Suited { suit: s, rank: pending[0].0 }] + suit_tiles(pending.drop_first(), s)
    }
}

/// How many pairs of a pending buffer carry the red mark.
pub open spec fn red_count(pending: Seq<(u8, bool)>) -> nat
    decreases pending.len(),
{
    if pending.len() == 0 {
        0
    } else {
        (if pending[0].1 {
            1nat
        } else {
            0nat
        }) + red_count(pending.drop_first())
    }
}

/// The tiles a pending buffer yields under the honor terminator, or the
/// error of its first offending pair: a red mark fails before the digit of
/// the same pair is inspected, and earlier pairs fail before later ones.
pub open spec fn honor_tiles(pending: Seq<(u8, bool)>) -> Result<Seq<Tile>, ParseError>
    decreases pending.len(),
{
    if pending.len() == 0 {
        Ok(Seq::empty())
    } else if pending[0].1 {
        Err(ParseError::RedFiveWithHonor)
    } else if !(1 <= pending[0].0 <= 7) {
        Err(ParseError::InvalidHonorNumber(pending[0].0))
    } else {
        match honor_tiles(pending.drop_first()) {
            Ok(ts) => Ok(seq![Tile::Honor { kind: honor_of(pending[0].0) }] + ts),
            Err(e) => Err(e),
        }
    }
}

/// The scan, one character at a time, carrying the pending digit buffer,
/// the tiles emitted so far and the red-five count so far. This is the
/// reference meaning of the notation: digits accumulate, a terminator
/// resolves the whole buffer in order, whitespace is skipped, anything
/// else fails, and a non-empty buffer at the end of the input fails.
pub open spec fn scan(
    s: Seq<char>,
    pending: Seq<(u8, bool)>,
    tiles: Seq<Tile>,
    aka: nat,
) -> Result<(Seq<Tile>, nat), ParseError>
    decreases s.len(),
{
    if s.len() == 0 {
        if pending.len() == 0 {
            Ok((tiles, aka))
        } else {
            Err(ParseError::TrailingDigitsWithoutSuit)
        }
    } else {
        let c = s[0];
        if is_digit19(c) {
            scan(s.drop_first(), pending.push((digit_of(c), false)), tiles, aka)
        } else if c == '0' {
            scan(s.drop_first(), pending.push((5u8, true)), tiles, aka)
        } else if is_suit_char(c) {
            scan(
                s.drop_first(),
                Seq::empty(),
                tiles + suit_tiles(pending, suit_of(c)),
                aka + red_count(pending),
            )
        } else if c == 'z' {
            match honor_tiles(pending) {
                Ok(ts) => scan(s.drop_first(), Seq::empty(), tiles + ts, aka),
                Err(e) => Err(e),
            }
        } else if is_space(c) {
            scan(s.drop_first(), pending, tiles, aka)
        } else {
            Err(ParseError::UnexpectedCharacter(c))
        }
    }
}

/// What parsing a whole input means: a scan from the empty state.
pub open spec fn spec_parse(s: Seq<char>) -> Result<(Seq<Tile>, nat), ParseError> {
    scan(s, Seq::empty(), Seq::empty(), 0)
}

/// How many digit tokens a piece of input holds, `0` tokens included.
pub open spec fn digit_token_count(s: Seq<char>) -> nat
    decreases s.len(),
{
    if s.len() == 0 {
        0
    } else {
        (if is_digit19(s[0]) || s[0] == '0' {
            1nat
        } else {
            0nat
        }) + digit_token_count(s.drop_first())
    }
}

proof fn lemma_suit_tiles_len(pending: Seq<(u8, bool)>, st: Suit)
    ensures
        suit_tiles(pending, st).len() == pending.len(),
    decreases pending.len(),
{
    if pending.len() > 0 {
        lemma_suit_tiles_len(pending.drop_first(), st);
    }
}

proof fn lemma_honor_tiles_len(pending: Seq<(u8, bool)>)
    ensures
        honor_tiles(pending) matches Ok(ts) ==> ts.len() == pending.len(),
    decreases pending.len(),
{
    if pending.len() > 0 {
        lemma_honor_tiles_len(pending.drop_first());
    }
}

proof fn lemma_scan_len(s: Seq<char>, pending: Seq<(u8, bool)>, tiles: Seq<Tile>, aka: nat)
    requires
        scan(s, pending, tiles, aka) matches Ok(_),
    ensures
        scan(s, pending, tiles, aka)->Ok_0.0.len() == tiles.len() + pending.len()
            + digit_token_count(s),
    decreases s.len(),
{
    if s.len() == 0 {
    } else {
        let c = s[0];
        if is_digit19(c) {
            lemma_scan_len(s.drop_first(), pending.push((digit_of(c), false)), tiles, aka);
        } else if c == '0' {
            lemma_scan_len(s.drop_first(), pending.push((5u8, true)), tiles, aka);
        } else if is_suit_char(c) {
            lemma_suit_tiles_len(pending, suit_of(c));
            lemma_scan_len(
                s.drop_first(),
                Seq::empty(),
                tiles + suit_tiles(pending, suit_of(c)),
                aka + red_count(pending),
            );
        } else if c == 'z' {
            let ts = honor_tiles(pending)->Ok_0;
            lemma_honor_tiles_len(pending);
            lemma_scan_len(s.drop_first(), Seq::empty(), tiles + ts, aka);
        } else if is_space(c) {
            lemma_scan_len(s.drop_first(), pending, tiles, aka);
        }
    }
}

/// Law: a well-formed input yields exactly one tile per digit token, over
/// all its groups together.
pub proof fn lemma_parse_len(s: Seq<char>)
    requires
        spec_parse(s) matches Ok(_),
    ensures
        spec_parse(s)->Ok_0.0.len() == digit_token_count(s),
{
    lemma_scan_len(s, Seq::empty(), Seq::empty(), 0);
}

proof fn lemma_scan_append(
    s1: Seq<char>,
    s2: Seq<char>,
    pending: Seq<(u8, bool)>,
    tiles: Seq<Tile>,
    aka: nat,
)
    requires
        scan(s1, pending, tiles, aka) matches Ok(_),
    ensures
        scan(s1 + s2, pending, tiles, aka) == scan(
            s2,
            Seq::empty(),
            scan(s1, pending, tiles, aka)->Ok_0.0,
            scan(s1, pending, tiles, aka)->Ok_0.1,
        ),
    decreases s1.len(),
{
    if s1.len() == 0 {
        assert(pending =~= Seq::<(u8, bool)>::empty());
        assert(s1 + s2 =~= s2);
    } else {
        let c = s1[0];
        assert((s1 + s2)[0] == c);
        assert((s1 + s2).drop_first() =~= s1.drop_first() + s2);
        if is_digit19(c) {
            lemma_scan_append(s1.drop_first(), s2, pending.push((digit_of(c), false)), tiles, aka);
        } else if c == '0' {
            lemma_scan_append(s1.drop_first(), s2, pending.push((5u8, true)), tiles, aka);
        } else if is_suit_char(c) {
            lemma_scan_append(
                s1.drop_first(),
                s2,
                Seq::empty(),
                tiles + suit_tiles(pending, suit_of(c)),
                aka + red_count(pending),
            );
        } else if c == 'z' {
            let ts = honor_tiles(pending)->Ok_0;
            lemma_scan_append(s1.drop_first(), s2, Seq::empty(), tiles + ts, aka);
        } else if is_space(c) {
            lemma_scan_append(s1.drop_first(), s2, pending, tiles, aka);
        }
    }
}

proof fn lemma_scan_shift(s: Seq<char>, pending: Seq<(u8, bool)>, tiles: Seq<Tile>, aka: nat)
    ensures
        scan(s, pending, tiles, aka) == (match scan(s, pending, Seq::empty(), 0) {
            Ok(ta) => Ok::<_, ParseError>((tiles + ta.0, (aka + ta.1) as nat)),
            Err(e) => Err(e),
        }),
    decreases s.len(),
{
    if s.len() == 0 {
        if pending.len() == 0 {
            assert(tiles + Seq::<Tile>::empty() =~= tiles);
        }
    } else {
        let c = s[0];
        if is_digit19(c) {
            lemma_scan_shift(s.drop_first(), pending.push((digit_of(c), false)), tiles, aka);
            lemma_scan_shift(s.drop_first(), pending.push((digit_of(c), false)), Seq::empty(), 0);
        } else if c == '0' {
            lemma_scan_shift(s.drop_first(), pending.push((5u8, true)), tiles, aka);
            lemma_scan_shift(s.drop_first(), pending.push((5u8, true)), Seq::empty(), 0);
        } else if is_suit_char(c) {
            let st = suit_tiles(pending, suit_of(c));
            let rc = red_count(pending);
            lemma_scan_shift(s.drop_first(), Seq::empty(), tiles + st, aka + rc);
            lemma_scan_shift(s.drop_first(), Seq::empty(), st, rc);
            lemma_scan_shift(s.drop_first(), Seq::empty(), Seq::<Tile>::empty() + st, 0 + rc);
            assert(Seq::<Tile>::empty() + st =~= st);
            if scan(s.drop_first(), Seq::empty(), Seq::empty(), 0) is Ok {
                let ta = scan(s.drop_first(), Seq::empty(), Seq::empty(), 0)->Ok_0;
                assert(tiles + (st + ta.0) =~= (tiles + st) + ta.0);
            }
        } else if c == 'z' {
            if honor_tiles(pending) is Ok {
                let ts = honor_tiles(pending)->Ok_0;
                lemma_scan_shift(s.drop_first(), Seq::empty(), tiles + ts, aka);
                lemma_scan_shift(s.drop_first(), Seq::empty(), ts, 0);
                lemma_scan_shift(s.drop_first(), Seq::empty(), Seq::<Tile>::empty() + ts, 0);
                assert(Seq::<Tile>::empty() + ts =~= ts);
                if scan(s.drop_first(), Seq::empty(), Seq::empty(), 0) is Ok {
                    let ta = scan(s.drop_first(), Seq::empty(), Seq::empty(), 0)->Ok_0;
                    assert(tiles + (ts + ta.0) =~= (tiles + ts) + ta.0);
                }
            }
        } else if is_space(c) {
            lemma_scan_shift(s.drop_first(), pending, tiles, aka);
            lemma_scan_shift(s.drop_first(), pending, Seq::empty(), 0);
        }
    }
}

/// Law: tiles come out in left-to-right token order, independent of how the
/// input is grouped. Parsing two well-formed inputs in sequence equals
/// parsing their concatenation: the tile sequences concatenate and the
/// red-five counts add.
pub proof fn lemma_parse_append(s1: Seq<char>, s2: Seq<char>)
    requires
        spec_parse(s1) matches Ok(_),
        spec_parse(s2) matches Ok(_),
    ensures
        spec_parse(s1 + s2) == Ok::<_, ParseError>(
            (
                spec_parse(s1)->Ok_0.0 + spec_parse(s2)->Ok_0.0,
                (spec_parse(s1)->Ok_0.1 + spec_parse(s2)->Ok_0.1) as nat,
            ),
        ),
{
    let t1 = spec_parse(s1)->Ok_0.0;
    let a1 = spec_parse(s1)->Ok_0.1;
    lemma_scan_append(s1, s2, Seq::empty(), Seq::empty(), 0);
    lemma_scan_shift(s2, Seq::empty(), t1, a1);
}

/// A tile a red marker can denote: a suited five of any suit.
pub open spec fn is_suited_five(t: Tile) -> bool {
    match t {
        Tile::Suited { suit: _, rank } => rank == 5,
        Tile::Honor { kind: _ } => false,
    }
}

/// How many tiles of a sequence are suited fives.
pub open spec fn five_count(ts: Seq<Tile>) -> nat
    decreases ts.len(),
{
    if ts.len() == 0 {
        0
    } else {
        (if is_suited_five(ts[0]) {
            1nat
        } else {
            0nat
        }) + five_count(ts.drop_first())
    }
}

/// What the scanner keeps in its buffer: digits within 1..=9, and a red
/// mark only on a five.
pub open spec fn pending_wf(pending: Seq<(u8, bool)>) -> bool {
    forall|i: int|
        0 <= i < pending.len() ==> 1 <= (#[trigger] pending[i]).0 <= 9 && (pending[i].1
            ==> pending[i].0 == 5)
}

proof fn lemma_five_count_add(a: Seq<Tile>, b: Seq<Tile>)
    ensures
        five_count(a + b) == five_count(a) + five_count(b),
    decreases a.len(),
{
    if a.len() == 0 {
        assert(a + b =~= b);
    } else {
        assert((a + b)[0] == a[0]);
        assert((a + b).drop_first() =~= a.drop_first() + b);
        lemma_five_count_add(a.drop_first(), b);
    }
}

proof fn lemma_suit_tiles_wf(pending: Seq<(u8, bool)>, st: Suit)
    requires
        pending_wf(pending),
    ensures
        forall|i: int|
            0 <= i < suit_tiles(pending, st).len() ==> (#[trigger] suit_tiles(pending, st)[i]).wf(),
        red_count(pending) <= five_count(suit_tiles(pending, st)),
    decreases pending.len(),
{
    if pending.len() > 0 {
        lemma_suit_tiles_wf(pending.drop_first(), st);
        let t = (Tile::Suited { suit: st, rank: pending[0].0 });
        assert(suit_tiles(pending, st) == seq![t] + suit_tiles(pending.drop_first(), st));
        assert(five_count(seq![t] + suit_tiles(pending.drop_first(), st)) == five_count(seq![t])
            + five_count(suit_tiles(pending.drop_first(), st))) by {
            lemma_five_count_add(seq![t], suit_tiles(pending.drop_first(), st));
        }
        assert(five_count(seq![t]) == (if is_suited_five(t) {
            1nat
        } else {
            0nat
        })) by {
            assert(seq![t].len() == 1);
            assert(seq![t][0] == t);
            assert(seq![t].drop_first() =~= Seq::<Tile>::empty());
            assert(five_count(seq![t].drop_first()) == 0);
        }
    }
}

proof fn lemma_honor_tiles_wf(pending: Seq<(u8, bool)>)
    ensures
        honor_tiles(pending) matches Ok(ts) ==> forall|i: int|
            0 <= i < ts.len() ==> (#[trigger] ts[i]).wf(),
    decreases pending.len(),
{
    if pending.len() > 0 {
        lemma_honor_tiles_wf(pending.drop_first());
    }
}

proof fn lemma_scan_wf(s: Seq<char>, pending: Seq<(u8, bool)>, tiles: Seq<Tile>, aka: nat)
    requires
        pending_wf(pending),
        forall|i: int| 0 <= i < tiles.len() ==> (#[trigger] tiles[i]).wf(),
        aka <= five_count(tiles),
    ensures
        scan(s, pending, tiles, aka) matches Ok(ta) ==> (forall|i: int|
            0 <= i < ta.0.len() ==> (#[trigger] ta.0[i]).wf()) && ta.1 <= five_count(ta.0),
    decreases s.len(),
{
    if s.len() == 0 {
    } else {
        let c = s[0];
        if is_digit19(c) {
            lemma_scan_wf(s.drop_first(), pending.push((digit_of(c), false)), tiles, aka);
        } else if c == '0' {
            lemma_scan_wf(s.drop_first(), pending.push((5u8, true)), tiles, aka);
        } else if is_suit_char(c) {
            let st = suit_tiles(pending, suit_of(c));
            lemma_suit_tiles_wf(pending, suit_of(c));
            lemma_five_count_add(tiles, st);
            lemma_scan_wf(s.drop_first(), Seq::empty(), tiles + st, aka + red_count(pending));
        } else if c == 'z' {
            if honor_tiles(pending) is Ok {
                let ts = honor_tiles(pending)->Ok_0;
                lemma_honor_tiles_wf(pending);
                lemma_five_count_add(tiles, ts);
                lemma_scan_wf(s.drop_first(), Seq::empty(), tiles + ts, aka);
            }
        } else if is_space(c) {
            lemma_scan_wf(s.drop_first(), pending, tiles, aka);
        }
    }
}

/// Law: every tile of a successful parse is well formed, and the red-five
/// count never exceeds the number of suited fives among the tiles.
pub proof fn lemma_parse_wf(s: Seq<char>)
    ensures
        spec_parse(s) matches Ok(ta) ==> (forall|i: int|
            0 <= i < ta.0.len() ==> (#[trigger] ta.0[i]).wf()) && ta.1 <= five_count(ta.0),
{
    lemma_scan_wf(s, Seq::empty(), Seq::empty(), 0);
}

/// The honor kind a digit 1..=7 denotes.
fn honor_from_digit(d: u8) -> (k: Honor)
    requires
        1 <= d <= 7,
    ensures
        k == honor_of(d),
{
    if d == 1 {
        Honor::East
    } else if d == 2 {
        Honor::South
    } else if d == 3 {
        Honor::West
    } else if d == 4 {
        Honor::North
    } else if d == 5 {
        Honor::White
    } else if d == 6 {
        Honor::Green
    } else {
        Honor::Red
    }
}

/// Parse a notation string into tiles, also counting the red fives it spent.
/// The result is exactly what the reference scan says of the input.
pub fn parse_hand_with_aka(input: &str) -> (r: Result<ParsedHand, ParseError>)
    ensures
        (match spec_parse(input@) {
            Ok(ta) => r matches Ok(h) && h.tiles@ == ta.0 && h.aka_count as nat == ta.1,
            Err(e) => r matches Err(e2) && e2 == e,
        }),
        r matches Ok(h) ==> (forall|i: int|
            0 <= i < h.tiles@.len() ==> (#[trigger] h.tiles@[i]).wf()) && h.aka_count
            <= five_count(h.tiles@),
{
    proof {
        lemma_parse_wf(input@);
    }
    let mut tiles: Vec<Tile> = Vec::new();
    let mut aka_count: usize = 0;
    let mut pending: Vec<(u8, bool)> = Vec::new();
    let ghost mut pos: int = 0;

    proof {
        assert(input@.skip(0) =~= input@);
    }
    for c in it: input.chars()
        invariant
            it.seq() == input@,
            pos == it.index(),
            aka_count <= tiles@.len(),
            scan(input@.skip(pos), pending@, tiles@, aka_count as nat) == spec_parse(input@),
    {
        proof {
            assert(0 <= pos < input@.len());
            assert(c == input@[pos]);
            assert(input@.skip(pos).drop_first() =~= input@.skip(pos + 1));
        }
        if '1' <= c && c <= '9' {
            let d = ((c as u32) - ('0' as u32)) as u8;
            proof {
                assert(d == digit_of(c));
            }
            pending.push((d, false));
        } else if c == '0' {
            pending.push((5, true));
        } else if c == 'm' || c == 'p' || c == 's' {
            let suit = if c == 'm' {
                Suit::Man
            } else if c == 'p' {
                Suit::Pin
            } else {
                Suit::Sou
            };
            let ghost entry_tiles = tiles@;
            let ghost entry_aka = aka_count as nat;
            proof {
                assert(pending@.skip(0) =~= pending@);
            }
            let mut j: usize = 0;
            while j < pending.len()
                invariant
                    j <= pending@.len(),
                    aka_count <= tiles@.len(),
                    entry_tiles + suit_tiles(pending@, suit) == tiles@ + suit_tiles(
                        pending@.skip(j as int),
                        suit,
                    ),
                    entry_aka + red_count(pending@) == aka_count + red_count(
                        pending@.skip(j as int),
                    ),
                decreases pending@.len() - j,
            {
                let p = pending[j];
                let ghost t = (Tile::Suited { suit, rank: p.0 });
                proof {
                    assert(pending@.skip(j as int).drop_first() =~= pending@.skip(j as int + 1));
                    assert(pending@.skip(j as int)[0] == pending@[j as int]);
                    assert(suit_tiles(pending@.skip(j as int), suit) == seq![t] + suit_tiles(
                        pending@.skip(j as int + 1),
                        suit,
                    ));
                    assert(tiles@ + (seq![t] + suit_tiles(pending@.skip(j as int + 1), suit))
                        =~= tiles@.push(t) + suit_tiles(pending@.skip(j as int + 1), suit));
                }
                tiles.push(Tile::Suited { suit, rank: p.0 });
                if p.1 {
                    let n = tiles.len();
                    proof {
                        assert(aka_count < n);
                    }
                    aka_count = aka_count + 1;
                }
                j = j + 1;
            }
            proof {
                assert(pending@.skip(pending@.len() as int) =~= Seq::<(u8, bool)>::empty());
                assert(tiles@ + suit_tiles(Seq::empty(), suit) =~= tiles@);
                assert(tiles@ == entry_tiles + suit_tiles(pending@, suit));
                assert(suit == suit_of(c));
            }
            pending.clear();
        } else if c == 'z' {
            let ghost rest1 = input@.skip(pos + 1);
            proof {
                assert(pending@.skip(0) =~= pending@);
            }
            let mut j: usize = 0;
            while j < pending.len()
                invariant
                    j <= pending@.len(),
                    aka_count <= tiles@.len(),
                    (match honor_tiles(pending@.skip(j as int)) {
                        Ok(ts) => scan(rest1, Seq::empty(), tiles@ + ts, aka_count as nat),
                        Err(e) => Err(e),
                    }) == spec_parse(input@),
                decreases pending@.len() - j,
            {
                let p = pending[j];
                proof {
                    assert(pending@.skip(j as int).drop_first() =~= pending@.skip(j as int + 1));
                    assert(pending@.skip(j as int)[0] == pending@[j as int]);
                }
                if p.1 {
                    return Err(ParseError::RedFiveWithHonor);
                }
                if p.0 < 1 || p.0 > 7 {
                    return Err(ParseError::InvalidHonorNumber(p.0));
                }
                let kind = honor_from_digit(p.0);
                let ghost t = (Tile::Honor { kind });
                proof {
                    if honor_tiles(pending@.skip(j as int + 1)) is Ok {
                        let ts = honor_tiles(pending@.skip(j as int + 1))->Ok_0;
                        assert(honor_tiles(pending@.skip(j as int)) == Ok::<_, ParseError>(
                            seq![t] + ts,
                        ));
                        assert(tiles@ + (seq![t] + ts) =~= tiles@.push(t) + ts);
                    }
                }
                tiles.push(Tile::Honor { kind });
                j = j + 1;
            }
            proof {
                assert(pending@.skip(pending@.len() as int) =~= Seq::<(u8, bool)>::empty());
                assert(tiles@ + Seq::<Tile>::empty() =~= tiles@);
            }
            pending.clear();
        } else if c == ' ' || c == '\t' || c == '\n' {
        } else {
            return Err(ParseError::UnexpectedCharacter(c));
        }
        proof {
            pos = pos + 1;
        }
    }
    proof {
        assert(pos == input@.len());
        assert(input@.skip(pos) =~= Seq::<char>::empty());
    }
    if pending.len() > 0 {
        return Err(ParseError::TrailingDigitsWithoutSuit);
    }
    Ok(ParsedHand { tiles, aka_count })
}

/// Parse a notation string into tiles, dropping the red-five count.
pub fn parse_hand(input: &str) -> (r: Result<Vec<Tile>, ParseError>)
    ensures
        (match spec_parse(input@) {
            Ok(ta) => r matches Ok(ts) && ts@ == ta.0,
            Err(e) => r matches Err(e2) && e2 == e,
        }),
        r matches Ok(ts) ==> forall|i: int| 0 <= i < ts@.len() ==> (#[trigger] ts@[i]).wf(),
{
    match parse_hand_with_aka(input) {
        Ok(h) => Ok(h.tiles),
        Err(e) => Err(e),
    }
}

} // verus!
