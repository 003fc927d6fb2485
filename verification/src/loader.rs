//! The text form of a board: its cells row by row, each written `0` for a
//! dead cell or `1` for a live one, with commas between them. Newlines
//! around a cell are ignored, and what is neither `0` nor `1` is skipped.

use crate::cell::Tile;
use vstd::prelude::*;

verus! {

/// The comma that parts one token from the next.
pub const SEPARATOR: u8 = 44;

/// The line feed that may stand around a token.
pub const NEWLINE: u8 = 10;

/// The digit `0`, which names a dead cell.
pub const DEAD: u8 = 48;

/// The digit `1`, which names a live cell.
pub const ALIVE: u8 = 49;

/// What reading a text has given: the cells it names, in the order in which
/// they stand, and the tokens that name none, each by its number in the
/// text, counted from 0.
#[derive(Debug, PartialEq)]
pub struct Seed {
    pub tiles: Vec<Tile>,
    pub skipped: Vec<usize>,
}

/// The tokens of a text: the stretches of bytes between its commas, empty
/// ones included, from left to right. A text without a comma is one token.
/// Reading one more byte opens a new token where the byte is a comma, and
/// otherwise makes the last token one byte longer.
pub open spec fn tokens(text: Seq<u8>) -> Seq<Seq<u8>>
    decreases text.len(),
{
    if text.len() == 0 {
        seq![Seq::<u8>::empty()]
    } else {
        let before = tokens(text.drop_last());
        if text.last() == SEPARATOR {
            before.push(Seq::<u8>::empty())
        } else {
            before.drop_last().push(before.last().push(text.last()))
        }
    }
}

/// A token without the newlines at its start.
pub open spec fn trim_start(token: Seq<u8>) -> Seq<u8>
    decreases token.len(),
{
    if token.len() > 0 && token.first() == NEWLINE {
        trim_start(token.drop_first())
    } else {
        token
    }
}

/// A token without the newlines at its end.
pub open spec fn trim_end(token: Seq<u8>) -> Seq<u8>
    decreases token.len(),
{
    if token.len() > 0 && token.last() == NEWLINE {
        trim_end(token.drop_last())
    } else {
        token
    }
}

/// The cell that a token names: once the newlines at both ends are taken
/// off, `0` is a dead cell, `1` a live one, and anything else is none.
pub open spec fn tile_of(token: Seq<u8>) -> Option<Tile> {
    let name = trim_end(trim_start(token));
    if name.len() == 1 && name[0] == DEAD {
        Some(Tile { on: false })
    } else if name.len() == 1 && name[0] == ALIVE {
        Some(Tile { on: true })
    } else {
        None
    }
}

/// The cells that the tokens name, in the order of the tokens. A token
/// that names none adds nothing.
pub open spec fn tiles_of(tokens: Seq<Seq<u8>>) -> Seq<Tile>
    decreases tokens.len(),
{
    if tokens.len() == 0 {
        Seq::empty()
    } else {
        let before = tiles_of(tokens.drop_last());
        match tile_of(tokens.last()) {
            Some(tile) => before.push(tile),
            None => before,
        }
    }
}

/// The numbers of the tokens that name no cell, in rising order.
pub open spec fn skipped_of(tokens: Seq<Seq<u8>>) -> Seq<int>
    decreases tokens.len(),
{
    if tokens.len() == 0 {
        Seq::empty()
    } else {
        let before = skipped_of(tokens.drop_last());
        match tile_of(tokens.last()) {
            Some(_) => before,
            None => before.push(tokens.len() - 1),
        }
    }
}

/// The tokens written out again, with a comma between each two.
pub open spec fn joined(tokens: Seq<Seq<u8>>) -> Seq<u8>
    decreases tokens.len(),
{
    if tokens.len() == 0 {
        Seq::empty()
    } else if tokens.len() == 1 {
        tokens[0]
    } else {
        joined(tokens.drop_last()).push(SEPARATOR) + tokens.last()
    }
}

/// Cutting a text at its commas loses nothing but the commas: there is at
/// least one token, no token holds a comma, and the tokens with a comma
/// between each two are the text again.
pub proof fn lemma_tokens_rejoin(text: Seq<u8>)
    ensures
        tokens(text).len() >= 1,
        forall|k: int, j: int|
            0 <= k < tokens(text).len() && 0 <= j < tokens(text)[k].len()
                ==> #[trigger] tokens(text)[k][j] != SEPARATOR,
        joined(tokens(text)) == text,
    decreases text.len(),
{
    if text.len() == 0 {
        assert(joined(tokens(text)) =~= text);
    } else {
        let before = tokens(text.drop_last());
        lemma_tokens_rejoin(text.drop_last());
        if text.last() == SEPARATOR {
            let now = before.push(Seq::<u8>::empty());
            assert(now.drop_last() =~= before);
            assert(joined(now) =~= text);
        } else {
            let last = before.last().push(text.last());
            let now = before.drop_last().push(last);
            assert(now.drop_last() =~= before.drop_last());
            assert(joined(now) =~= joined(before).push(text.last()));
            assert(joined(now) =~= text);
        }
    }
}

/// Every token is either read as a cell or skipped.
pub proof fn lemma_every_token_counts(tokens: Seq<Seq<u8>>)
    ensures
        tiles_of(tokens).len() + skipped_of(tokens).len() == tokens.len(),
    decreases tokens.len(),
{
    if tokens.len() > 0 {
        lemma_every_token_counts(tokens.drop_last());
    }
}

/// The cell named by the token that runs from `start` up to `end` in
/// `text`, if it names one.
fn read_token(text: &[u8], start: usize, end: usize) -> (tile: Option<Tile>)
    requires
        start <= end <= text@.len(),
    ensures
        tile == tile_of(text@.subrange(start as int, end as int)),
{
    let ghost token = text@.subrange(start as int, end as int);
    let mut from = start;
    while from < end && text[from] == NEWLINE
        invariant
            start <= from <= end <= text@.len(),
            trim_start(token) == trim_start(text@.subrange(from as int, end as int)),
        decreases end - from,
    {
        assert(text@.subrange(from as int, end as int).drop_first()
            =~= text@.subrange(from + 1, end as int));
        from += 1;
    }
    let ghost rest = text@.subrange(from as int, end as int);
    let mut to = end;
    while to > from && text[to - 1] == NEWLINE
        invariant
            from <= to <= end <= text@.len(),
            trim_end(rest) == trim_end(text@.subrange(from as int, to as int)),
        decreases to - from,
    {
        assert(text@.subrange(from as int, to as int).drop_last()
            =~= text@.subrange(from as int, to - 1));
        to -= 1;
    }
    if to - from == 1 {
        if text[from] == DEAD {
            Some(Tile::new(false))
        } else if text[from] == ALIVE {
            Some(Tile::new(true))
        } else {
            None
        }
    } else {
        None
    }
}

/// Reads a board's cells from its text form. The text is cut at its commas;
/// each token that names a cell gives that cell, and each other token is
/// skipped and its number kept.
pub fn read_seed(text: &[u8]) -> (seed: Seed)
    ensures
        seed.tiles@ == tiles_of(tokens(text@)),
        seed.skipped@.map_values(|number: usize| number as int) == skipped_of(tokens(text@)),
{
    let mut seed = Seed { tiles: Vec::new(), skipped: Vec::new() };
    let mut start: usize = 0;
    let mut end: usize = 0;
    let ghost mut done: Seq<Seq<u8>> = Seq::empty();
    assert(tokens(text@.take(0)) =~~= done.push(text@.subrange(0, 0)));
    loop
        invariant_except_break
            start <= end <= text@.len(),
            tokens(text@.take(end as int)) == done.push(text@.subrange(start as int, end as int)),
            done.len() <= start,
            seed.tiles@ == tiles_of(done),
            seed.skipped@.map_values(|number: usize| number as int) == skipped_of(done),
            seed.tiles@.len() + seed.skipped@.len() == done.len(),
        ensures
            done == tokens(text@),
            seed.tiles@ == tiles_of(done),
            seed.skipped@.map_values(|number: usize| number as int) == skipped_of(done),
        decreases text@.len() - end,
    {
        let at_end = end == text.len();
        if at_end || text[end] == SEPARATOR {
            let ghost token = text@.subrange(start as int, end as int);
            let ghost skipped_before = seed.skipped@;
            let number = seed.tiles.len() + seed.skipped.len();
            match read_token(text, start, end) {
                Some(tile) => {
                    seed.tiles.push(tile);
                },
                None => {
                    seed.skipped.push(number);
                    assert(seed.skipped@.map_values(|number: usize| number as int)
                        =~= skipped_before.map_values(|number: usize| number as int).push(number as int));
                },
            }
            proof {
                assert(done.push(token).drop_last() =~= done);
                done = done.push(token);
            }
            if at_end {
                assert(text@.take(end as int) =~= text@);
                break ;
            }
            start = end + 1;
        }
        proof {
            let read = text@.take(end + 1);
            assert(read.drop_last() =~= text@.take(end as int));
            if read.last() == SEPARATOR {
                assert(text@.subrange(start as int, end + 1) =~= Seq::<u8>::empty());
            } else {
                assert(text@.subrange(start as int, end + 1)
                    =~= text@.subrange(start as int, end as int).push(read.last()));
                let before = tokens(text@.take(end as int));
                assert(before.drop_last() =~= done);
            }
        }
        end += 1;
    }
    seed
}

} // verus!
