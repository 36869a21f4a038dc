use std::rc::Rc;
use vstd::prelude::*;
use crate::chess::{
    copy_of, lemma_cell_in_board, lemma_square_in_board, lemma_views_empty, lemma_views_push, views,
    Coord, Game, MovePly, PlayApply, PlayGen, PlayView, Position, PositionView, Side, Tile, Troop,
    TroopId, TroopInfo, TroopPlay,
};

verus! {

/// The classical troop table: king, queen, rook, bishop, knight, pawn.
pub open spec fn classical_troops() -> Seq<Troop> {
    seq![
        Troop { char: 'K', get_plays: PlayGen::King, do_play: PlayApply::Normal },
        Troop { char: 'Q', get_plays: PlayGen::Queen, do_play: PlayApply::Normal },
        Troop { char: 'R', get_plays: PlayGen::Rook, do_play: PlayApply::Normal },
        Troop { char: 'B', get_plays: PlayGen::Bishop, do_play: PlayApply::Normal },
        Troop { char: 'N', get_plays: PlayGen::Knight, do_play: PlayApply::Normal },
        Troop { char: 'P', get_plays: PlayGen::Pawn, do_play: PlayApply::Pawn },
    ]
}

/// The troop kind on file `x` of a back rank.
pub open spec fn back_rank(x: int) -> u8 {
    if x == 0 || x == 7 { 2 }
    else if x == 1 || x == 6 { 4 }
    else if x == 2 || x == 5 { 3 }
    else if x == 3 { 1 }
    else { 0 }
}

/// The classical starting occupant of square `i` of an 8x8 board.
pub open spec fn classical_start(i: int) -> Tile {
    let x = i % 8;
    let y = i / 8;
    if y == 1 {
        Some((Side { idx: 0 }, TroopId { idx: 5 }))
    } else if y == 6 {
        Some((Side { idx: 1 }, TroopId { idx: 5 }))
    } else if y == 0 {
        Some((Side { idx: 0 }, TroopId { idx: back_rank(x) }))
    } else if y == 7 {
        Some((Side { idx: 1 }, TroopId { idx: back_rank(x) }))
    } else {
        None
    }
}

/// The 8x8 game with the six classical troop kinds.
pub fn classical_game() -> (r: Rc<Game>)
    ensures
        r.width == 8,
        r.height == 8,
        r.troops@ == classical_troops(),
        !r.multi_castle,
{
    let mut troops: Vec<Troop> = Vec::new();
    troops.push(Troop { char: 'K', get_plays: PlayGen::King, do_play: PlayApply::Normal });
    troops.push(Troop { char: 'Q', get_plays: PlayGen::Queen, do_play: PlayApply::Normal });
    troops.push(Troop { char: 'R', get_plays: PlayGen::Rook, do_play: PlayApply::Normal });
    troops.push(Troop { char: 'B', get_plays: PlayGen::Bishop, do_play: PlayApply::Normal });
    troops.push(Troop { char: 'N', get_plays: PlayGen::Knight, do_play: PlayApply::Normal });
    troops.push(Troop { char: 'P', get_plays: PlayGen::Pawn, do_play: PlayApply::Pawn });
    assert(troops@ =~= classical_troops());
    Rc::new(Game { width: 8, height: 8, troops, multi_castle: false })
}

fn start_tile(i: u8) -> (r: Tile)
    ensures
        r == classical_start(i as int),
{
    let x = i % 8;
    let y = i / 8;
    let side = if y < 4 { Side { idx: 0 } } else { Side { idx: 1 } };
    if y == 1 || y == 6 {
        Some((side, TroopId { idx: 5 }))
    } else if y == 0 || y == 7 {
        let kind: u8 = if x == 0 || x == 7 { 2 }
            else if x == 1 || x == 6 { 4 }
            else if x == 2 || x == 5 { 3 }
            else if x == 3 { 1 }
            else { 0 };
        Some((side, TroopId { idx: kind }))
    } else {
        None
    }
}

/// The classical starting position: pawns on the second and seventh ranks,
/// rook, knight, bishop, queen, king, bishop, knight, rook behind them; no
/// king coordinates recorded, no trail, no castling rules.
pub fn setup_classical() -> (r: Position)
    ensures
        r.wf(),
        r@.width == 8,
        r@.height == 8,
        r@.troops == classical_troops(),
        r@.tiles == Seq::new(64, |i: int| classical_start(i)),
        forall|s: int| 0 <= s < 8 ==> (#[trigger] r@.alphas[s]) is None,
        r@.passant.len() == 0,
        r.castlings@.len() == 8,
        forall|s: int| 0 <= s < 8 ==> (#[trigger] r.castlings@[s])@.len() == 0,
        forall|i: int| 0 <= i < 24 ==> (#[trigger] r.recent_plys@[i]) is Empty,
{
    let mut position = Position::new(classical_game());
    let mut i: u8 = 0;
    while i < 64
        invariant
            i <= 64,
            position.wf(),
            position@.width == 8,
            position@.height == 8,
            position@.troops == classical_troops(),
            forall|s: int| 0 <= s < 8 ==> (#[trigger] position@.alphas[s]) is None,
            position@.passant.len() == 0,
            position.castlings@.len() == 8,
            forall|s: int| 0 <= s < 8 ==> (#[trigger] position.castlings@[s])@.len() == 0,
            forall|i: int| 0 <= i < 24 ==> (#[trigger] position.recent_plys@[i]) is Empty,
            position@.tiles == Seq::new(64, |j: int| if j < i { classical_start(j) } else { None }),
        decreases 64 - i,
    {
        let t = start_tile(i);
        position.tiles.set(i as usize, t);
        proof {
            let v = position@;
            assert(v.tiles =~= Seq::new(64, |j: int| if j < i + 1 { classical_start(j) } else { None }));
            assert forall|j: int| 0 <= j < v.tiles.len() implies #[trigger] v.tile_ok(v.tiles[j]) by {
                if j <= i {
                    assert(0 <= back_rank(j % 8) < 6);
                }
            }
        }
        i += 1;
    }
    assert(position@.tiles =~= Seq::new(64, |i: int| classical_start(i)));
    position
}

/// The king's eight neighbour offsets, in generation order.
pub open spec fn king_offset(k: int) -> (int, int) {
    if k == 0 { (-1, -1) }
    else if k == 1 { (-1, 0) }
    else if k == 2 { (-1, 1) }
    else if k == 3 { (0, -1) }
    else if k == 4 { (0, 1) }
    else if k == 5 { (1, -1) }
    else if k == 6 { (1, 0) }
    else { (1, 1) }
}

/// The knight's eight jumps, in generation order.
pub open spec fn knight_offset(k: int) -> (int, int) {
    if k == 0 { (-2, -1) }
    else if k == 1 { (-2, 1) }
    else if k == 2 { (2, -1) }
    else if k == 3 { (2, 1) }
    else if k == 4 { (-1, -2) }
    else if k == 5 { (-1, 2) }
    else if k == 6 { (1, -2) }
    else { (1, 2) }
}

pub open spec fn jump_offset(knight: bool, k: int) -> (int, int) {
    if knight { knight_offset(k) } else { king_offset(k) }
}

/// A single step onto (x, y): nothing off the board or onto a friend, a quiet
/// play onto an empty square, a capture onto an enemy.
pub open spec fn step_plays(v: PositionView, side: Side, x: int, y: int) -> Seq<PlayView> {
    if !v.in_board(x, y) {
        seq![]
    } else if v.tiles[v.cell(x, y)] is None {
        seq![v.quiet(x, y)]
    } else if v.enemy_at(side, v.cell(x, y)) {
        seq![v.capture(x, y)]
    } else {
        seq![]
    }
}

/// The steps of the first `k` offsets from (x, y), in order.
pub open spec fn jump_plays(v: PositionView, side: Side, x: int, y: int, knight: bool, k: nat) -> Seq<PlayView>
    decreases k,
{
    if k == 0 {
        seq![]
    } else {
        let (dx, dy) = jump_offset(knight, k - 1);
        jump_plays(v, side, x, y, knight, (k - 1) as nat) + step_plays(v, side, x + dx, y + dy)
    }
}

pub open spec fn slide_measure(v: PositionView, x: int, y: int, dx: int, dy: int) -> int {
    (if dx > 0 { v.width - x } else if dx < 0 { x + 1 } else { 0 })
        + (if dy > 0 { v.height - y } else if dy < 0 { y + 1 } else { 0 })
}

/// Sliding from (x, y) by (dx, dy): quiet plays over empty squares, then a
/// capture of the first enemy met; a friend or the edge ends the ray.
pub open spec fn slide_plays(v: PositionView, side: Side, x: int, y: int, dx: int, dy: int) -> Seq<PlayView>
    decreases slide_measure(v, x, y, dx, dy),
{
    let nx = x + dx;
    let ny = y + dy;
    if (dx == 0 && dy == 0) || !v.in_board(nx, ny) {
        seq![]
    } else if v.tiles[v.cell(nx, ny)] is None {
        seq![v.quiet(nx, ny)] + slide_plays(v, side, nx, ny, dx, dy)
    } else if v.enemy_at(side, v.cell(nx, ny)) {
        seq![v.capture(nx, ny)]
    } else {
        seq![]
    }
}

pub open spec fn rook_plays(v: PositionView, side: Side, x: int, y: int) -> Seq<PlayView> {
    slide_plays(v, side, x, y, 1, 0) + slide_plays(v, side, x, y, -1, 0)
        + slide_plays(v, side, x, y, 0, 1) + slide_plays(v, side, x, y, 0, -1)
}

pub open spec fn bishop_plays(v: PositionView, side: Side, x: int, y: int) -> Seq<PlayView> {
    slide_plays(v, side, x, y, 1, 1) + slide_plays(v, side, x, y, -1, 1)
        + slide_plays(v, side, x, y, 1, -1) + slide_plays(v, side, x, y, -1, -1)
}

/// Side 0 moves towards higher ranks, side 1 towards lower ones.
pub open spec fn pawn_dir(side: Side) -> int {
    if side.idx == 0 { 1 } else { -1 }
}

/// The rank from which a pawn may make a double step.
pub open spec fn dash_rank(side: Side) -> int {
    if side.idx == 0 { 1 } else { 6 }
}

/// The rank on which a pawn promotes.
pub open spec fn promotion_rank(side: Side) -> int {
    if side.idx == 0 { 7 } else { 0 }
}

pub open spec fn pawn_advances(v: PositionView, side: Side, x: int, y: int) -> Seq<PlayView> {
    let dy = pawn_dir(side);
    if v.empty_at(x, y + dy) {
        seq![v.quiet(x, y + dy)] + if y == dash_rank(side) && v.empty_at(x, y + 2 * dy) {
            seq![v.quiet(x, y + 2 * dy)]
        } else {
            seq![]
        }
    } else {
        seq![]
    }
}

/// The trail of a double step that ended beside (x, y) on file `tx` holds an
/// enemy on its capturable square.
pub open spec fn passant_open(v: PositionView, side: Side, tx: int, y: int) -> bool {
    &&& v.passant.len() == 3
    &&& v.file_of(v.passant[1].idx as int) == tx
    &&& v.rank_of(v.passant[1].idx as int) == y
    &&& v.enemy_at(side, v.passant[2].idx as int)
}

/// Diagonal plays of a pawn at (x, y) towards file x + dx: an ordinary
/// capture, then an en-passant capture.
pub open spec fn pawn_captures(v: PositionView, side: Side, x: int, y: int, dx: int) -> Seq<PlayView> {
    let dy = pawn_dir(side);
    if !v.in_board(x + dx, y + dy) {
        seq![]
    } else {
        (if v.enemy_at(side, v.cell(x + dx, y + dy)) {
            seq![v.capture(x + dx, y + dy)]
        } else {
            seq![]
        }) + (if passant_open(v, side, x + dx, y) {
            seq![PlayView { to: v.at(x + dx, y + dy), threats: seq![v.passant[2]] }]
        } else {
            seq![]
        })
    }
}

pub open spec fn pawn_plays(v: PositionView, side: Side, x: int, y: int) -> Seq<PlayView> {
    pawn_advances(v, side, x, y) + pawn_captures(v, side, x, y, -1) + pawn_captures(v, side, x, y, 1)
}

/// Candidate plays of a troop of kind `g` and side `side` at (x, y).
pub open spec fn gen_plays(v: PositionView, g: PlayGen, side: Side, x: int, y: int) -> Seq<PlayView> {
    match g {
        PlayGen::King => jump_plays(v, side, x, y, false, 8),
        PlayGen::Knight => jump_plays(v, side, x, y, true, 8),
        PlayGen::Rook => rook_plays(v, side, x, y),
        PlayGen::Bishop => bishop_plays(v, side, x, y),
        PlayGen::Queen => rook_plays(v, side, x, y) + bishop_plays(v, side, x, y),
        PlayGen::Pawn => pawn_plays(v, side, x, y),
    }
}

/// The troop leaves its square, lands on the target, and the trail is cleared.
pub open spec fn normal_result(v: PositionView, info: TroopInfo, play: PlayView) -> PositionView {
    PositionView {
        tiles: v.tiles.update(info.coord.idx as int, None).update(
            play.to.idx as int,
            Some((info.side, info.id)),
        ),
        passant: seq![],
        ..v
    }
}

/// Every captured square emptied.
pub open spec fn cleared(tiles: Seq<Tile>, threats: Seq<Coord>) -> Seq<Tile> {
    Seq::new(
        tiles.len(),
        |i: int|
            if exists|j: int| 0 <= j < threats.len() && #[trigger] threats[j].idx == i {
                None
            } else {
                tiles[i]
            },
    )
}

pub open spec fn abs(a: int) -> int {
    if a < 0 { -a } else { a }
}

/// Captured squares are emptied, then the pawn moves; a double step leaves the
/// trail (from, to, to), any other move clears it; on the promotion rank the
/// pawn becomes troop kind 0.
pub open spec fn pawn_result(v: PositionView, info: TroopInfo, play: PlayView) -> PositionView {
    let from = info.coord.idx as int;
    let to = play.to.idx as int;
    let moved = cleared(v.tiles, play.threats).update(from, None).update(to, Some((info.side, info.id)));
    PositionView {
        tiles: if v.rank_of(to) == promotion_rank(info.side) {
            moved.update(to, Some((info.side, TroopId { idx: 0 })))
        } else {
            moved
        },
        passant: if abs(v.rank_of(from) - v.rank_of(to)) > 1 {
            seq![info.coord, play.to, play.to]
        } else {
            seq![]
        },
        ..v
    }
}

pub open spec fn apply_play_of(v: PositionView, a: PlayApply, info: TroopInfo, play: PlayView) -> PositionView {
    match a {
        PlayApply::Normal => normal_result(v, info, play),
        PlayApply::Pawn => pawn_result(v, info, play),
    }
}

/// The occupant described by `info` stands on its square.
pub open spec fn info_matches(v: PositionView, info: TroopInfo) -> bool {
    &&& info.coord.idx < v.size()
    &&& v.tiles[info.coord.idx as int] == Some((info.side, info.id))
}

fn push_play(plays: &mut Vec<TroopPlay>, p: TroopPlay)
    ensures
        views(final(plays)@) == views(old(plays)@) + seq![p@],
{
    proof {
        lemma_views_push(plays@, p);
        assert(views(plays@).push(p@) =~= views(plays@) + seq![p@]);
    }
    plays.push(p);
}

fn single(c: Coord) -> (r: Vec<Coord>)
    ensures
        r@ == seq![c],
{
    let mut r = Vec::new();
    r.push(c);
    assert(r@ =~= seq![c]);
    r
}

/// Adds the single step onto (x, y).
fn push_step(position: &Position, plays: &mut Vec<TroopPlay>, side: Side, x: i32, y: i32)
    requires
        position@.wf(),
        -8 <= x <= 512,
        -8 <= y <= 512,
    ensures
        views(final(plays)@) == views(old(plays)@) + step_plays(position@, side, x as int, y as int),
{
    let ghost v = position@;
    if x < 0 || y < 0 || x >= position.game.width as i32 || y >= position.game.height as i32 {
        assert(views(plays@) + seq![] =~= views(plays@));
        return;
    }
    proof {
        lemma_cell_in_board(v, x as int, y as int);
    }
    let c = Coord::from_xy(&position.game, x as u8, y as u8);
    match position.tiles[c.idx as usize] {
        None => {
            let p = TroopPlay { to: c, threats: Vec::new() };
            assert(p@.threats =~= seq![]);
            push_play(plays, p);
        },
        Some((s, _)) => {
            if s != side {
                push_play(plays, TroopPlay { to: c, threats: single(c) });
            } else {
                assert(views(plays@) + seq![] =~= views(plays@));
            }
        },
    }
}

fn offset(knight: bool, k: usize) -> (r: (i32, i32))
    requires
        k < 8,
    ensures
        r.0 as int == jump_offset(knight, k as int).0,
        r.1 as int == jump_offset(knight, k as int).1,
{
    if knight {
        if k == 0 { (-2, -1) }
        else if k == 1 { (-2, 1) }
        else if k == 2 { (2, -1) }
        else if k == 3 { (2, 1) }
        else if k == 4 { (-1, -2) }
        else if k == 5 { (-1, 2) }
        else if k == 6 { (1, -2) }
        else { (1, 2) }
    } else {
        if k == 0 { (-1, -1) }
        else if k == 1 { (-1, 0) }
        else if k == 2 { (-1, 1) }
        else if k == 3 { (0, -1) }
        else if k == 4 { (0, 1) }
        else if k == 5 { (1, -1) }
        else if k == 6 { (1, 0) }
        else { (1, 1) }
    }
}

/// Adds the eight single steps of a king, or the eight jumps of a knight.
fn add_jump_plays(position: &Position, plays: &mut Vec<TroopPlay>, info: TroopInfo, knight: bool)
    requires
        position@.wf(),
        info.coord.idx < position@.size(),
    ensures
        views(final(plays)@) == views(old(plays)@) + jump_plays(
            position@,
            info.side,
            position@.file_of(info.coord.idx as int),
            position@.rank_of(info.coord.idx as int),
            knight,
            8,
        ),
{
    let ghost v = position@;
    let (x, y) = info.coord.decomp(&position.game);
    let ghost start = views(plays@);
    let mut k: usize = 0;
    while k < 8
        invariant
            0 <= k <= 8,
            v == position@,
            v.wf(),
            x as int == v.file_of(info.coord.idx as int),
            y as int == v.rank_of(info.coord.idx as int),
            views(plays@) == start + jump_plays(v, info.side, x as int, y as int, knight, k as nat),
        decreases 8 - k,
    {
        let (dx, dy) = offset(knight, k);
        let ghost before = views(plays@);
        push_step(position, plays, info.side, x as i32 + dx, y as i32 + dy);
        proof {
            let j = jump_plays(v, info.side, x as int, y as int, knight, k as nat);
            let st = step_plays(v, info.side, x + dx, y + dy);
            assert(jump_plays(v, info.side, x as int, y as int, knight, (k + 1) as nat) == j + st);
            assert((start + j) + st =~= start + (j + st));
        }
        k += 1;
    }
}

/// Adds the plays of a ray from `from` in direction (dx, dy).
fn add_slide_plays(position: &Position, plays: &mut Vec<TroopPlay>, from: Coord, dx: i32, dy: i32)
    requires
        position@.wf(),
        from.idx < position@.size(),
        position@.tiles[from.idx as int] is Some,
        -1 <= dx <= 1,
        -1 <= dy <= 1,
        !(dx == 0 && dy == 0),
    ensures
        views(final(plays)@) == views(old(plays)@) + slide_plays(
            position@,
            position@.side_at(from.idx as int)->0,
            position@.file_of(from.idx as int),
            position@.rank_of(from.idx as int),
            dx as int,
            dy as int,
        ),
{
    let ghost v = position@;
    let (x0, y0) = from.decomp(&position.game);
    let (side, _) = position.tiles[from.idx as usize].unwrap();
    proof {
        lemma_square_in_board(v, from.idx as int);
    }
    let w = position.game.width as i32;
    let h = position.game.height as i32;
    let mut x: i32 = x0 as i32;
    let mut y: i32 = y0 as i32;
    let ghost start = views(plays@);
    let ghost total = slide_plays(v, side, x0 as int, y0 as int, dx as int, dy as int);
    loop
        invariant_except_break
            views(plays@) + slide_plays(v, side, x as int, y as int, dx as int, dy as int) == start + total,
        invariant
            v == position@,
            v.wf(),
            w == v.width,
            h == v.height,
            0 <= x < w,
            0 <= y < h,
            -1 <= dx <= 1,
            -1 <= dy <= 1,
            !(dx == 0 && dy == 0),
        ensures
            views(plays@) == start + total,
        decreases slide_measure(v, x as int, y as int, dx as int, dy as int),
    {
        let nx = x + dx;
        let ny = y + dy;
        let ghost done = views(plays@);
        if nx < 0 || ny < 0 || nx >= w || ny >= h {
            assert(done + seq![] =~= done);
            break;
        }
        proof {
            lemma_cell_in_board(v, nx as int, ny as int);
        }
        let c = Coord::from_xy(&position.game, nx as u8, ny as u8);
        match position.tiles[c.idx as usize] {
            Some((s, _)) => {
                if s != side {
                    push_play(plays, TroopPlay { to: c, threats: single(c) });
                } else {
                    assert(done + seq![] =~= done);
                }
                break;
            },
            None => {
                let p = TroopPlay { to: c, threats: Vec::new() };
                assert(p@.threats =~= seq![]);
                push_play(plays, p);
                proof {
                    let rest = slide_plays(v, side, nx as int, ny as int, dx as int, dy as int);
                    assert((done + seq![v.quiet(nx as int, ny as int)]) + rest
                        =~= done + (seq![v.quiet(nx as int, ny as int)] + rest));
                }
                x = nx;
                y = ny;
            },
        }
    }
}

fn get_king_plays(position: &Position, info: TroopInfo) -> (r: Vec<TroopPlay>)
    requires
        position@.wf(),
        info_matches(position@, info),
    ensures
        views(r@) == gen_plays(
            position@,
            PlayGen::King,
            info.side,
            position@.file_of(info.coord.idx as int),
            position@.rank_of(info.coord.idx as int),
        ),
{
    let mut plays = Vec::new();
    proof { lemma_views_empty(plays@); }
    add_jump_plays(position, &mut plays, info, false);
    plays
}

fn get_knight_plays(position: &Position, info: TroopInfo) -> (r: Vec<TroopPlay>)
    requires
        position@.wf(),
        info_matches(position@, info),
    ensures
        views(r@) == gen_plays(
            position@,
            PlayGen::Knight,
            info.side,
            position@.file_of(info.coord.idx as int),
            position@.rank_of(info.coord.idx as int),
        ),
{
    let mut plays = Vec::new();
    proof { lemma_views_empty(plays@); }
    add_jump_plays(position, &mut plays, info, true);
    plays
}

fn get_rook_plays(position: &Position, info: TroopInfo) -> (r: Vec<TroopPlay>)
    requires
        position@.wf(),
        info_matches(position@, info),
    ensures
        views(r@) == rook_plays(
            position@,
            info.side,
            position@.file_of(info.coord.idx as int),
            position@.rank_of(info.coord.idx as int),
        ),
{
    let mut plays = Vec::new();
    proof { lemma_views_empty(plays@); }
    add_slide_plays(position, &mut plays, info.coord, 1, 0);
    add_slide_plays(position, &mut plays, info.coord, -1, 0);
    add_slide_plays(position, &mut plays, info.coord, 0, 1);
    add_slide_plays(position, &mut plays, info.coord, 0, -1);
    plays
}

fn get_bishop_plays(position: &Position, info: TroopInfo) -> (r: Vec<TroopPlay>)
    requires
        position@.wf(),
        info_matches(position@, info),
    ensures
        views(r@) == bishop_plays(
            position@,
            info.side,
            position@.file_of(info.coord.idx as int),
            position@.rank_of(info.coord.idx as int),
        ),
{
    let mut plays = Vec::new();
    proof { lemma_views_empty(plays@); }
    add_slide_plays(position, &mut plays, info.coord, 1, 1);
    add_slide_plays(position, &mut plays, info.coord, -1, 1);
    add_slide_plays(position, &mut plays, info.coord, 1, -1);
    add_slide_plays(position, &mut plays, info.coord, -1, -1);
    plays
}

fn get_queen_plays(position: &Position, info: TroopInfo) -> (r: Vec<TroopPlay>)
    requires
        position@.wf(),
        info_matches(position@, info),
    ensures
        views(r@) == rook_plays(
            position@,
            info.side,
            position@.file_of(info.coord.idx as int),
            position@.rank_of(info.coord.idx as int),
        ) + bishop_plays(
            position@,
            info.side,
            position@.file_of(info.coord.idx as int),
            position@.rank_of(info.coord.idx as int),
        ),
{
    let mut plays = Vec::new();
    proof { lemma_views_empty(plays@); }
    add_slide_plays(position, &mut plays, info.coord, 1, 0);
    add_slide_plays(position, &mut plays, info.coord, -1, 0);
    add_slide_plays(position, &mut plays, info.coord, 0, 1);
    add_slide_plays(position, &mut plays, info.coord, 0, -1);
    add_slide_plays(position, &mut plays, info.coord, 1, 1);
    add_slide_plays(position, &mut plays, info.coord, -1, 1);
    add_slide_plays(position, &mut plays, info.coord, 1, -1);
    add_slide_plays(position, &mut plays, info.coord, -1, -1);
    proof {
        let v = position@;
        let (x, y) = (v.file_of(info.coord.idx as int), v.rank_of(info.coord.idx as int));
        assert(views(plays@) =~= rook_plays(v, info.side, x, y) + bishop_plays(v, info.side, x, y));
    }
    plays
}

/// Adds a pawn's diagonal plays towards file x + dx.
fn add_pawn_captures(position: &Position, plays: &mut Vec<TroopPlay>, side: Side, x: i32, y: i32, dy: i32, dx: i32)
    requires
        position@.wf(),
        position@.in_board(x as int, y as int),
        dy == pawn_dir(side),
        -1 <= dx <= 1,
    ensures
        views(final(plays)@) == views(old(plays)@) + pawn_captures(position@, side, x as int, y as int, dx as int),
{
    let ghost v = position@;
    let ghost start = views(plays@);
    let tx = x + dx;
    let ty = y + dy;
    if tx < 0 || ty < 0 || tx >= position.game.width as i32 || ty >= position.game.height as i32 {
        assert(start + seq![] =~= start);
        return;
    }
    proof {
        lemma_cell_in_board(v, tx as int, ty as int);
    }
    let c = Coord::from_xy(&position.game, tx as u8, ty as u8);
    let mut ordinary = false;
    if let Some((s, _)) = position.tiles[c.idx as usize] {
        if s != side {
            push_play(plays, TroopPlay { to: c, threats: single(c) });
            ordinary = true;
        }
    }
    let ghost mid = views(plays@);
    proof {
        if !ordinary {
            assert(start + seq![] =~= start);
        }
    }
    let mut passant = false;
    if position.passant.len() == 3 {
        let (px, py) = position.passant[1].decomp(&position.game);
        if px as i32 == tx && py as i32 == y {
            let target = position.passant[2];
            if let Some((s, _)) = position.tiles[target.idx as usize] {
                if s != side {
                    push_play(plays, TroopPlay { to: c, threats: single(target) });
                    passant = true;
                }
            }
        }
    }
    proof {
        if !passant {
            assert(mid + seq![] =~= mid);
        }
        let a = if v.enemy_at(side, v.cell(tx as int, ty as int)) { seq![v.capture(tx as int, ty as int)] } else { seq![] };
        let b = if passant_open(v, side, tx as int, y as int) {
            seq![PlayView { to: v.at(tx as int, ty as int), threats: seq![v.passant[2]] }]
        } else {
            seq![]
        };
        assert(views(plays@) =~= start + (a + b));
    }
}

fn get_pawn_plays(position: &Position, info: TroopInfo) -> (r: Vec<TroopPlay>)
    requires
        position@.wf(),
        info_matches(position@, info),
        info.side.idx < 2,
    ensures
        views(r@) == pawn_plays(
            position@,
            info.side,
            position@.file_of(info.coord.idx as int),
            position@.rank_of(info.coord.idx as int),
        ),
{
    let ghost v = position@;
    let (x8, y8) = info.coord.decomp(&position.game);
    proof {
        lemma_square_in_board(v, info.coord.idx as int);
    }
    let x = x8 as i32;
    let y = y8 as i32;
    let h = position.game.height as i32;
    let dy: i32 = if info.side.idx == 0 { 1 } else { -1 };
    let dash: i32 = if info.side.idx == 0 { 1 } else { 6 };
    let mut plays = Vec::new();
    proof { lemma_views_empty(plays@); }
    let ny = y + dy;
    if 0 <= ny && ny < h {
        proof {
            lemma_cell_in_board(v, x as int, ny as int);
        }
        let c = Coord::from_xy(&position.game, x8, ny as u8);
        if position.tiles[c.idx as usize].is_none() {
            let p = TroopPlay { to: c, threats: Vec::new() };
            assert(p@.threats =~= seq![]);
            push_play(&mut plays, p);
            let ny2 = ny + dy;
            let mut dashed = false;
            if y == dash && 0 <= ny2 && ny2 < h {
                proof {
                    lemma_cell_in_board(v, x as int, ny2 as int);
                }
                let c2 = Coord::from_xy(&position.game, x8, ny2 as u8);
                if position.tiles[c2.idx as usize].is_none() {
                    let p2 = TroopPlay { to: c2, threats: Vec::new() };
                    assert(p2@.threats =~= seq![]);
                    push_play(&mut plays, p2);
                    dashed = true;
                }
            }
            proof {
                let q = seq![v.quiet(x as int, ny as int)];
                if dashed {
                    assert(views(plays@) =~= q + seq![v.quiet(x as int, ny2 as int)]);
                } else {
                    assert(views(plays@) =~= q + seq![]);
                }
            }
        }
    }
    add_pawn_captures(position, &mut plays, info.side, x, y, dy, -1);
    add_pawn_captures(position, &mut plays, info.side, x, y, dy, 1);
    plays
}

/// Moves the troop and clears the trail; the captured square is the target,
/// which the troop overwrites.
fn do_normal_play(position: &mut Position, info: TroopInfo, play: &TroopPlay) -> (r: MovePly)
    requires
        old(position).wf(),
        info.coord.idx < old(position)@.size(),
        old(position)@.play_in_board(play@),
    ensures
        final(position)@ == normal_result(old(position)@, info, play@),
        final(position)@.passant.len() == 0,
        final(position).game == old(position).game,
        final(position).recent_plys == old(position).recent_plys,
        final(position).castlings == old(position).castlings,
        r.troop == info.id,
        r.from == info.coord,
        r.to == play.to,
        r.kills@ == play.threats@,
{
    let ply = MovePly { troop: info.id, from: info.coord, to: play.to, kills: copy_of(&play.threats) };
    position.tiles.set(info.coord.idx as usize, None);
    position.tiles.set(play.to.idx as usize, Some((info.side, info.id)));
    position.passant = Vec::new();
    assert(position@.passant =~= seq![]);
    ply
}

/// Empties the captured squares, moves the pawn, records or clears the
/// trail, and promotes on the last rank.
fn do_pawn_play(position: &mut Position, info: TroopInfo, play: &TroopPlay) -> (r: MovePly)
    requires
        old(position).wf(),
        info.coord.idx < old(position)@.size(),
        info.side.idx < 2,
        old(position)@.play_in_board(play@),
    ensures
        final(position)@ == pawn_result(old(position)@, info, play@),
        final(position)@.passant.len() == 0 || final(position)@.passant.len() == 3,
        final(position).game == old(position).game,
        final(position).recent_plys == old(position).recent_plys,
        final(position).castlings == old(position).castlings,
        r.troop == info.id,
        r.from == info.coord,
        r.to == play.to,
        r.kills@ == play.threats@,
{
    let ghost v = position@;
    let ply = MovePly { troop: info.id, from: info.coord, to: play.to, kills: copy_of(&play.threats) };
    let mut j: usize = 0;
    while j < play.threats.len()
        invariant
            j <= play.threats@.len(),
            v == old(position)@,
            v.wf(),
            v.play_in_board(play@),
            position.game == old(position).game,
            position.recent_plys == old(position).recent_plys,
            position.castlings == old(position).castlings,
            position.alphas == old(position).alphas,
            position.passant == old(position).passant,
            position.tiles@ == cleared(v.tiles, play.threats@.take(j as int)),
        decreases play.threats@.len() - j,
    {
        let t = play.threats[j];
        assert(play@.threats[j as int].idx < v.size());
        position.tiles.set(t.idx as usize, None);
        proof {
            let before = play.threats@.take(j as int);
            let after = play.threats@.take(j as int + 1);
            assert forall|i: int| 0 <= i < v.tiles.len() implies
                cleared(v.tiles, after)[i] == position.tiles@[i] by {
                if i == t.idx {
                    assert(after[j as int].idx == i);
                } else if exists|k: int| 0 <= k < after.len() && #[trigger] after[k].idx == i {
                    let k = choose|k: int| 0 <= k < after.len() && #[trigger] after[k].idx == i;
                    assert(before[k].idx == i);
                } else {
                    assert forall|k: int| 0 <= k < before.len() implies #[trigger] before[k].idx != i by {
                        assert(after[k] == before[k]);
                    }
                }
            }
            assert(cleared(v.tiles, after) =~= position.tiles@);
        }
        j += 1;
    }
    assert(play.threats@.take(play.threats@.len() as int) =~= play.threats@);
    position.tiles.set(info.coord.idx as usize, None);
    position.tiles.set(play.to.idx as usize, Some((info.side, info.id)));
    let (_, fy) = info.coord.decomp(&position.game);
    let (_, ty) = play.to.decomp(&position.game);
    let dashed = if fy > ty { fy - ty > 1 } else { ty - fy > 1 };
    if dashed {
        let mut trail = Vec::new();
        trail.push(info.coord);
        trail.push(play.to);
        trail.push(play.to);
        position.passant = trail;
        assert(position@.passant =~= seq![info.coord, play.to, play.to]);
    } else {
        position.passant = Vec::new();
        assert(position@.passant =~= seq![]);
    }
    let prom_rank: u8 = if info.side.idx == 0 { 7 } else { 0 };
    if ty == prom_rank {
        position.tiles.set(play.to.idx as usize, Some((info.side, TroopId { idx: 0 })));
    }
    ply
}

/// Carries out `play` for the occupant described by `info`, by behaviour `a`.
pub(crate) fn do_play_of(position: &mut Position, a: PlayApply, info: TroopInfo, play: &TroopPlay) -> (r: MovePly)
    requires
        old(position).wf(),
        info_matches(old(position)@, info),
        old(position)@.troops[info.id.idx as int].do_play == a,
        old(position)@.play_in_board(play@),
    ensures
        final(position)@ == apply_play_of(old(position)@, a, info, play@),
        final(position).game == old(position).game,
        final(position).recent_plys == old(position).recent_plys,
        final(position).castlings == old(position).castlings,
        r.troop == info.id,
        r.from == info.coord,
        r.to == play.to,
        r.kills@ == play.threats@,
{
    proof {
        assert(old(position)@.tile_ok(old(position)@.tiles[info.coord.idx as int]));
    }
    match a {
        PlayApply::Normal => do_normal_play(position, info, play),
        PlayApply::Pawn => do_pawn_play(position, info, play),
    }
}

/// Every play in `ps` lands and captures on the board.
pub open spec fn all_in_board(v: PositionView, ps: Seq<PlayView>) -> bool {
    forall|i: int| 0 <= i < ps.len() ==> v.play_in_board(#[trigger] ps[i])
}

pub proof fn lemma_all_in_board_concat(v: PositionView, a: Seq<PlayView>, b: Seq<PlayView>)
    requires
        all_in_board(v, a),
        all_in_board(v, b),
    ensures
        all_in_board(v, a + b),
{
    assert forall|i: int| 0 <= i < (a + b).len() implies v.play_in_board(#[trigger] (a + b)[i]) by {
        if i < a.len() {
            assert((a + b)[i] == a[i]);
        } else {
            assert((a + b)[i] == b[i - a.len()]);
        }
    }
}

proof fn lemma_step_in_board(v: PositionView, side: Side, x: int, y: int)
    requires
        v.wf(),
    ensures
        all_in_board(v, step_plays(v, side, x, y)),
{
    if v.in_board(x, y) {
        lemma_cell_in_board(v, x, y);
    }
}

proof fn lemma_jump_in_board(v: PositionView, side: Side, x: int, y: int, knight: bool, k: nat)
    requires
        v.wf(),
    ensures
        all_in_board(v, jump_plays(v, side, x, y, knight, k)),
    decreases k,
{
    if k > 0 {
        let (dx, dy) = jump_offset(knight, k - 1);
        lemma_jump_in_board(v, side, x, y, knight, (k - 1) as nat);
        lemma_step_in_board(v, side, x + dx, y + dy);
        lemma_all_in_board_concat(
            v,
            jump_plays(v, side, x, y, knight, (k - 1) as nat),
            step_plays(v, side, x + dx, y + dy),
        );
    }
}

proof fn lemma_slide_in_board(v: PositionView, side: Side, x: int, y: int, dx: int, dy: int)
    requires
        v.wf(),
    ensures
        all_in_board(v, slide_plays(v, side, x, y, dx, dy)),
    decreases slide_measure(v, x, y, dx, dy),
{
    let nx = x + dx;
    let ny = y + dy;
    if !((dx == 0 && dy == 0) || !v.in_board(nx, ny)) {
        lemma_cell_in_board(v, nx, ny);
        if v.tiles[v.cell(nx, ny)] is None {
            lemma_slide_in_board(v, side, nx, ny, dx, dy);
            lemma_all_in_board_concat(v, seq![v.quiet(nx, ny)], slide_plays(v, side, nx, ny, dx, dy));
        }
    }
}

proof fn lemma_pawn_in_board(v: PositionView, side: Side, x: int, y: int)
    requires
        v.wf(),
    ensures
        all_in_board(v, pawn_plays(v, side, x, y)),
{
    let dy = pawn_dir(side);
    if v.in_board(x, y + dy) {
        lemma_cell_in_board(v, x, y + dy);
    }
    if v.in_board(x, y + 2 * dy) {
        lemma_cell_in_board(v, x, y + 2 * dy);
    }
    if v.in_board(x - 1, y + dy) {
        lemma_cell_in_board(v, x - 1, y + dy);
    }
    if v.in_board(x + 1, y + dy) {
        lemma_cell_in_board(v, x + 1, y + dy);
    }
    if v.passant.len() == 3 {
        assert(v.passant[2].idx < v.size());
    }
    let adv = pawn_advances(v, side, x, y);
    let l = pawn_captures(v, side, x, y, -1);
    let r = pawn_captures(v, side, x, y, 1);
    assert(all_in_board(v, adv));
    assert(all_in_board(v, l));
    assert(all_in_board(v, r));
    lemma_all_in_board_concat(v, adv, l);
    lemma_all_in_board_concat(v, adv + l, r);
}

/// Generated plays never leave the board.
pub proof fn lemma_gen_in_board(v: PositionView, g: PlayGen, side: Side, x: int, y: int)
    requires
        v.wf(),
    ensures
        all_in_board(v, gen_plays(v, g, side, x, y)),
{
    lemma_jump_in_board(v, side, x, y, false, 8);
    lemma_jump_in_board(v, side, x, y, true, 8);
    lemma_slide_in_board(v, side, x, y, 1, 0);
    lemma_slide_in_board(v, side, x, y, -1, 0);
    lemma_slide_in_board(v, side, x, y, 0, 1);
    lemma_slide_in_board(v, side, x, y, 0, -1);
    lemma_slide_in_board(v, side, x, y, 1, 1);
    lemma_slide_in_board(v, side, x, y, -1, 1);
    lemma_slide_in_board(v, side, x, y, 1, -1);
    lemma_slide_in_board(v, side, x, y, -1, -1);
    let r1 = slide_plays(v, side, x, y, 1, 0);
    let r2 = slide_plays(v, side, x, y, -1, 0);
    let r3 = slide_plays(v, side, x, y, 0, 1);
    let r4 = slide_plays(v, side, x, y, 0, -1);
    let b1 = slide_plays(v, side, x, y, 1, 1);
    let b2 = slide_plays(v, side, x, y, -1, 1);
    let b3 = slide_plays(v, side, x, y, 1, -1);
    let b4 = slide_plays(v, side, x, y, -1, -1);
    lemma_all_in_board_concat(v, r1, r2);
    lemma_all_in_board_concat(v, r1 + r2, r3);
    lemma_all_in_board_concat(v, r1 + r2 + r3, r4);
    lemma_all_in_board_concat(v, b1, b2);
    lemma_all_in_board_concat(v, b1 + b2, b3);
    lemma_all_in_board_concat(v, b1 + b2 + b3, b4);
    lemma_all_in_board_concat(v, rook_plays(v, side, x, y), bishop_plays(v, side, x, y));
    lemma_pawn_in_board(v, side, x, y);
}

/// A play keeps the model well formed and leaves the king table alone.
pub proof fn lemma_apply_wf(v: PositionView, a: PlayApply, info: TroopInfo, play: PlayView)
    requires
        v.wf(),
        info_matches(v, info),
        v.troops[info.id.idx as int].do_play == a,
        v.play_in_board(play),
    ensures
        apply_play_of(v, a, info, play).wf(),
        apply_play_of(v, a, info, play).alphas == v.alphas,
        apply_play_of(v, a, info, play).size() == v.size(),
        apply_play_of(v, a, info, play).width == v.width,
        apply_play_of(v, a, info, play).height == v.height,
        apply_play_of(v, a, info, play).troops == v.troops,
{
    let r = apply_play_of(v, a, info, play);
    assert(v.tile_ok(v.tiles[info.coord.idx as int]));
    assert(v.tile_ok(Some((info.side, TroopId { idx: 0 }))) || a == PlayApply::Normal);
    assert forall|i: int| 0 <= i < r.tiles.len() implies #[trigger] r.tile_ok(r.tiles[i]) by {
        assert(v.tile_ok(v.tiles[i]));
    }
}

/// Runs the generator `g` for the occupant described by `info`.
pub(crate) fn get_plays_of(position: &Position, g: PlayGen, info: TroopInfo) -> (r: Vec<TroopPlay>)
    requires
        position@.wf(),
        info_matches(position@, info),
        position@.troops[info.id.idx as int].get_plays == g,
    ensures
        views(r@) == gen_plays(
            position@,
            g,
            info.side,
            position@.file_of(info.coord.idx as int),
            position@.rank_of(info.coord.idx as int),
        ),
{
    proof {
        assert(position@.tile_ok(position@.tiles[info.coord.idx as int]));
    }
    match g {
        PlayGen::King => get_king_plays(position, info),
        PlayGen::Queen => get_queen_plays(position, info),
        PlayGen::Rook => get_rook_plays(position, info),
        PlayGen::Bishop => get_bishop_plays(position, info),
        PlayGen::Knight => get_knight_plays(position, info),
        PlayGen::Pawn => get_pawn_plays(position, info),
    }
}

} // verus!
