//! Properties that hold of every position.

use vstd::prelude::*;
use crate::chess::{CastlingView, PlayView, PositionView, Side};

verus! {

/// A square with no occupant generates no plays.
pub proof fn lemma_empty_square_no_plays(v: PositionView, c: int)
    requires
        v.wf(),
        0 <= c < v.size(),
        v.tiles[c] is None,
    ensures
        v.plays_at(c) == Seq::<PlayView>::empty(),
{
}

/// After a troop moves, the en-passant trail has length 0 or 3.
pub proof fn lemma_move_trail_length(v: PositionView, c: int, play: PlayView)
    requires
        v.wf(),
        0 <= c < v.size(),
        v.tiles[c] is Some,
    ensures
        v.after_play(c, play).passant.len() == 0 || v.after_play(c, play).passant.len() == 3,
{
}

/// Once a troop has left a square, that square generates no plays.
pub proof fn lemma_vacated_square_no_plays(v: PositionView, c: int, play: PlayView)
    requires
        v.wf(),
        0 <= c < v.size(),
        v.tiles[c] is Some,
        v.play_in_board(play),
        play.to.idx != c,
    ensures
        v.after_play(c, play).tiles[c] is None,
        v.after_play(c, play).plays_at(c) == Seq::<PlayView>::empty(),
{
}

/// With an eligible partner in place, castling is available exactly when no
/// path square is occupied, whatever side occupies it.
pub proof fn lemma_castle_needs_clear_path(rule: CastlingView, v: PositionView, side: Side)
    requires
        v.wf(),
        rule.in_board(v),
        rule.partner_ready(v, side),
    ensures
        rule.can_castle(v, side) <==> !exists|i: int|
            0 <= i < rule.passing.len() && (#[trigger] v.tiles[rule.passing[i].idx as int]) is Some,
{
}

/// A side with no recorded king coordinate is never in check.
pub proof fn lemma_kingless_never_in_check(v: PositionView, side: Side)
    requires
        v.wf(),
        side.idx < 8,
        v.alphas[side.idx as int] is None,
    ensures
        !v.in_check(side),
{
}

} // verus!
