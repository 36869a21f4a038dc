use std::rc::Rc;
use vstd::prelude::*;
use crate::export::{decimal, push_decimal};
use crate::classical::{
    all_in_board, apply_play_of, do_play_of, gen_plays, get_plays_of, info_matches, lemma_apply_wf,
    lemma_gen_in_board,
};

verus! {

/// A square, as an index into the row-major flattened board.
#[derive(Clone, Copy, PartialEq, Eq, Structural, Debug)]
pub struct Coord {
    pub idx: u8,
}

/// A player; up to eight take part.
#[derive(Clone, Copy, PartialEq, Eq, Structural, Debug, Hash)]
pub struct Side {
    pub idx: u8,
}

/// Index of a troop kind in the game's troop table.
#[derive(Clone, Copy, PartialEq, Eq, Structural, Debug)]
pub struct TroopId {
    pub idx: u8,
}

/// A candidate play: where the troop lands and which squares it captures on.
#[derive(Clone, Debug)]
pub struct TroopPlay {
    pub to: Coord,
    pub threats: Vec<Coord>,
}

#[derive(Clone, Debug)]
pub struct MovePly {
    pub troop: TroopId,
    pub from: Coord,
    pub to: Coord,
    pub kills: Vec<Coord>,
}

#[derive(Clone, Copy, Debug)]
pub struct CastlePly {
    pub from: Coord,
    pub to: Coord,
    pub castle_from: Coord,
    pub castle_to: Coord,
}

/// A recorded half-move.
#[derive(Clone, Debug)]
pub enum Ply {
    Empty,
    Castle(CastlePly),
    Move(MovePly),
    Promote(MovePly, TroopId),
    Resign,
}

/// How a troop kind generates its candidate plays.
#[derive(Clone, Copy, PartialEq, Eq, Structural, Debug)]
pub enum PlayGen {
    King,
    Queen,
    Rook,
    Bishop,
    Knight,
    Pawn,
}

/// How a troop kind carries out a chosen play.
#[derive(Clone, Copy, PartialEq, Eq, Structural, Debug)]
pub enum PlayApply {
    Normal,
    Pawn,
}

/// A troop kind: its letter and its two behaviours.
#[derive(Clone, Copy, Debug)]
pub struct Troop {
    pub char: char,
    pub get_plays: PlayGen,
    pub do_play: PlayApply,
}

/// The immutable definition of a game, shared by every position.
#[derive(Debug)]
pub struct Game {
    pub width: u8,
    pub height: u8,
    pub troops: Vec<Troop>,
    pub multi_castle: bool,
}

/// The troop standing on a square, with its coordinate and side.
#[derive(Clone, Copy, Debug)]
pub struct TroopInfo {
    pub id: TroopId,
    pub coord: Coord,
    pub side: Side,
}

/// A castling rule: the partner's squares, the path the king-analog walks
/// (first square to last) which must be empty, and the eligible partners.
#[derive(Clone, Debug)]
pub struct Castling {
    castle_from: Coord,
    castle_to: Coord,
    passing: Vec<Coord>,
    castles: Vec<TroopId>,
}

/// A mutable game state.
#[derive(Clone, Debug)]
pub struct Position {
    pub game: Rc<Game>,
    pub alphas: [Option<Coord>; 8],
    pub tiles: Vec<Option<(Side, TroopId)>>,
    pub recent_plys: Vec<Ply>,
    /// After a double step: vacated-from, vacated-to, capturable square.
    /// After castling: the king-analog's path. Otherwise empty.
    pub passant: Vec<Coord>,
    pub castlings: Vec<Vec<Castling>>,
}

/// The attack map: for each square, which sides threaten it.
pub struct PositionInfo {
    pub threats: Vec<[bool; 8]>,
}

pub type Tile = Option<(Side, TroopId)>;

/// The mathematical model of a candidate play.
pub struct PlayView {
    pub to: Coord,
    pub threats: Seq<Coord>,
}

/// The mathematical model of a position: what move generation, analysis and
/// move application read and write.
pub struct PositionView {
    pub width: int,
    pub height: int,
    pub troops: Seq<Troop>,
    pub tiles: Seq<Tile>,
    pub alphas: Seq<Option<Coord>>,
    pub passant: Seq<Coord>,
}

impl View for TroopPlay {
    type V = PlayView;

    open spec fn view(&self) -> PlayView {
        PlayView { to: self.to, threats: self.threats@ }
    }
}

/// The model of a recorded move.
pub struct MoveView {
    pub troop: TroopId,
    pub from: Coord,
    pub to: Coord,
    pub kills: Seq<Coord>,
}

/// The model of a recorded half-move.
pub enum PlyView {
    Empty,
    Castle(CastlePly),
    Move(MoveView),
    Promote(MoveView, TroopId),
    Resign,
}

impl View for MovePly {
    type V = MoveView;

    open spec fn view(&self) -> MoveView {
        MoveView { troop: self.troop, from: self.from, to: self.to, kills: self.kills@ }
    }
}

impl View for Ply {
    type V = PlyView;

    open spec fn view(&self) -> PlyView {
        match self {
            Ply::Empty => PlyView::Empty,
            Ply::Castle(c) => PlyView::Castle(*c),
            Ply::Move(m) => PlyView::Move(m@),
            Ply::Promote(m, t) => PlyView::Promote(m@, *t),
            Ply::Resign => PlyView::Resign,
        }
    }
}

impl MovePly {
    /// An independent copy.
    pub fn duplicate(&self) -> (r: MovePly)
        ensures
            r@ == self@,
    {
        MovePly { troop: self.troop, from: self.from, to: self.to, kills: copy_of(&self.kills) }
    }
}

impl Ply {
    /// An independent copy.
    pub fn duplicate(&self) -> (r: Ply)
        ensures
            r@ == self@,
    {
        match self {
            Ply::Empty => Ply::Empty,
            Ply::Castle(c) => Ply::Castle(*c),
            Ply::Move(m) => Ply::Move(m.duplicate()),
            Ply::Promote(m, t) => Ply::Promote(m.duplicate(), *t),
            Ply::Resign => Ply::Resign,
        }
    }
}

/// Copies a ply record slot by slot.
fn copy_plys(v: &Vec<Ply>) -> (r: Vec<Ply>)
    ensures
        r@.len() == v@.len(),
        forall|i: int| 0 <= i < v@.len() ==> (#[trigger] r@[i])@ == v@[i]@,
{
    let mut r: Vec<Ply> = Vec::new();
    let mut i: usize = 0;
    while i < v.len()
        invariant
            i <= v@.len(),
            r@.len() == i,
            forall|k: int| 0 <= k < i ==> (#[trigger] r@[k])@ == v@[k]@,
        decreases v@.len() - i,
    {
        r.push(v[i].duplicate());
        i += 1;
    }
    r
}

/// Copies the per-side castling lists rule by rule.
fn copy_castlings(v: &Vec<Vec<Castling>>) -> (r: Vec<Vec<Castling>>)
    ensures
        r@.len() == v@.len(),
        forall|s: int| 0 <= s < v@.len() ==> (#[trigger] r@[s])@.len() == v@[s]@.len(),
        forall|s: int, k: int| 0 <= s < v@.len() && 0 <= k < v@[s]@.len() ==> (#[trigger] r@[s]@[k])@ == v@[s]@[k]@,
{
    let mut r: Vec<Vec<Castling>> = Vec::new();
    let mut s: usize = 0;
    while s < v.len()
        invariant
            s <= v@.len(),
            r@.len() == s,
            forall|t: int| 0 <= t < s ==> (#[trigger] r@[t])@.len() == v@[t]@.len(),
            forall|t: int, k: int| 0 <= t < s && 0 <= k < v@[t]@.len() ==> (#[trigger] r@[t]@[k])@ == v@[t]@[k]@,
        decreases v@.len() - s,
    {
        let rules = &v[s];
        let mut list: Vec<Castling> = Vec::new();
        let mut k: usize = 0;
        while k < rules.len()
            invariant
                k <= rules@.len(),
                list@.len() == k,
                forall|j: int| 0 <= j < k ==> (#[trigger] list@[j])@ == rules@[j]@,
            decreases rules@.len() - k,
        {
            list.push(rules[k].duplicate());
            k += 1;
        }
        r.push(list);
        s += 1;
    }
    r
}

impl View for Position {
    type V = PositionView;

    open spec fn view(&self) -> PositionView {
        PositionView {
            width: self.game.width as int,
            height: self.game.height as int,
            troops: self.game.troops@,
            tiles: self.tiles@,
            alphas: self.alphas@,
            passant: self.passant@,
        }
    }
}

pub open spec fn views(s: Seq<TroopPlay>) -> Seq<PlayView> {
    s.map_values(|p: TroopPlay| p@)
}

pub proof fn lemma_views_push(s: Seq<TroopPlay>, p: TroopPlay)
    ensures
        views(s.push(p)) == views(s).push(p@),
{
    assert(views(s.push(p)) =~= views(s).push(p@));
}

pub proof fn lemma_views_empty(s: Seq<TroopPlay>)
    requires
        s.len() == 0,
    ensures
        views(s) == Seq::<PlayView>::empty(),
        forall|t: Seq<PlayView>| views(s) + t == t,
{
    assert(views(s) =~= Seq::<PlayView>::empty());
    assert forall|t: Seq<PlayView>| views(s) + t == t by {
        assert(views(s) + t =~= t);
    }
}

impl PositionView {
    pub open spec fn size(self) -> int {
        self.width * self.height
    }

    pub open spec fn in_board(self, x: int, y: int) -> bool {
        0 <= x < self.width && 0 <= y < self.height
    }

    pub open spec fn cell(self, x: int, y: int) -> int {
        x + y * self.width
    }

    pub open spec fn at(self, x: int, y: int) -> Coord {
        Coord { idx: (x + y * self.width) as u8 }
    }

    pub open spec fn file_of(self, i: int) -> int {
        i % self.width
    }

    pub open spec fn rank_of(self, i: int) -> int {
        i / self.width
    }

    pub open spec fn tile_ok(self, t: Tile) -> bool {
        match t {
            None => true,
            Some((side, id)) => {
                &&& side.idx < 8
                &&& id.idx < self.troops.len()
                &&& (self.troops[id.idx as int].get_plays == PlayGen::Pawn
                    || self.troops[id.idx as int].do_play == PlayApply::Pawn) ==> side.idx < 2
            },
        }
    }

    /// Board size fits, every square's occupant names a known troop kind and
    /// a side below eight (below two for pawn-like kinds), and every stored
    /// coordinate lies on the board.
    pub open spec fn wf(self) -> bool {
        &&& 1 <= self.width
        &&& 1 <= self.height
        &&& self.width * self.height <= 256
        &&& self.tiles.len() == self.width * self.height
        &&& self.alphas.len() == 8
        &&& forall|i: int| 0 <= i < self.tiles.len() ==> #[trigger] self.tile_ok(self.tiles[i])
        &&& forall|i: int| 0 <= i < self.passant.len() ==> #[trigger] self.passant[i].idx < self.size()
        &&& forall|s: int| 0 <= s < 8 && (#[trigger] self.alphas[s]) is Some
            ==> self.alphas[s]->0.idx < self.size()
    }

    /// The side of the occupant of square `i`, if any.
    pub open spec fn side_at(self, i: int) -> Option<Side> {
        match self.tiles[i] {
            Some((s, _)) => Some(s),
            None => None,
        }
    }

    /// The troop kind of the occupant of square `i`; meaningful only when
    /// the square is occupied.
    pub open spec fn troop_at(self, i: int) -> TroopId {
        match self.tiles[i] {
            Some((_, id)) => id,
            None => TroopId { idx: 0 },
        }
    }

    pub open spec fn enemy_at(self, side: Side, i: int) -> bool {
        self.side_at(i) is Some && self.side_at(i)->0 != side
    }

    pub open spec fn empty_at(self, x: int, y: int) -> bool {
        self.in_board(x, y) && self.tiles[self.cell(x, y)] is None
    }

    pub open spec fn enemy_xy(self, side: Side, x: int, y: int) -> bool {
        self.in_board(x, y) && self.enemy_at(side, self.cell(x, y))
    }

    /// A play onto an empty square.
    pub open spec fn quiet(self, x: int, y: int) -> PlayView {
        PlayView { to: self.at(x, y), threats: seq![] }
    }

    /// A play that captures on the square it lands on.
    pub open spec fn capture(self, x: int, y: int) -> PlayView {
        PlayView { to: self.at(x, y), threats: seq![self.at(x, y)] }
    }

    /// Candidate plays of whatever stands on square `c`; none on an empty square.
    pub open spec fn plays_at(self, c: int) -> Seq<PlayView> {
        match self.tiles[c] {
            None => seq![],
            Some((side, id)) => gen_plays(
                self,
                self.troops[id.idx as int].get_plays,
                side,
                self.file_of(c),
                self.rank_of(c),
            ),
        }
    }

    /// The position after the occupant of `c` carries out `play`.
    pub open spec fn after_play(self, c: int, play: PlayView) -> PositionView {
        match self.tiles[c] {
            None => self,
            Some((side, id)) => apply_play_of(
                self,
                self.troops[id.idx as int].do_play,
                TroopInfo { id, coord: Coord { idx: c as u8 }, side },
                play,
            ),
        }
    }

    pub open spec fn play_in_board(self, play: PlayView) -> bool {
        &&& play.to.idx < self.size()
        &&& forall|j: int| 0 <= j < play.threats.len() ==> #[trigger] play.threats[j].idx < self.size()
    }

    /// Some play in `plays` captures on square `c`.
    pub open spec fn marks(plays: Seq<PlayView>, c: int) -> bool {
        exists|i: int, j: int|
            0 <= i < plays.len() && 0 <= j < plays[i].threats.len() && #[trigger] plays[i].threats[j].idx == c
    }

    /// The occupant of square `from` belongs to side `s` and threatens `c`.
    pub open spec fn attacks(self, from: int, s: int, c: int) -> bool {
        &&& 0 <= from < self.size()
        &&& self.side_at(from) is Some
        &&& self.side_at(from)->0.idx == s
        &&& Self::marks(self.plays_at(from), c)
    }

    /// Side `s` threatens square `c`.
    pub open spec fn threatened(self, c: int, s: int) -> bool {
        exists|from: int| #[trigger] self.attacks(from, s, c)
    }

    /// The side has a recorded king coordinate and another side threatens it.
    pub open spec fn in_check(self, side: Side) -> bool {
        match self.alphas[side.idx as int] {
            None => false,
            Some(a) => exists|s: int| 0 <= s < 8 && s != side.idx && #[trigger] self.threatened(a.idx as int, s),
        }
    }
}

/// Relies on String::push: appends one character at the end.
#[verifier::external_body]
pub(crate) fn push_char(s: &mut String, c: char)
    ensures
        final(s)@ == old(s)@.push(c),
{
    s.push(c)
}

impl Coord {
    /// The square at file `x`, rank `y`.
    pub fn from_xy(game: &Game, x: u8, y: u8) -> (r: Coord)
        requires
            x + y * game.width <= 255,
        ensures
            r.idx == x + y * game.width,
    {
        Coord { idx: x + y * game.width }
    }

    /// (file, rank) of the square.
    pub fn decomp(self, game: &Game) -> (r: (u8, u8))
        requires
            game.width > 0,
        ensures
            r.0 == self.idx % game.width,
            r.1 == self.idx / game.width,
    {
        (self.idx % game.width, self.idx / game.width)
    }

    /// File letter counted from `a`, then the rank number counted from 1.
    pub fn fmt(self, game: &Game) -> (r: String)
        requires
            game.width > 0,
            self.idx % game.width + 97 <= 255,
        ensures
            r@ == seq![((self.idx % game.width) + 97) as char] + decimal((self.idx / game.width + 1) as nat),
    {
        let (x, y) = self.decomp(game);
        let mut s = String::new();
        push_char(&mut s, (x + 97u8) as char);
        push_decimal(&mut s, y as u16 + 1);
        s
    }
}

impl From<u8> for Coord {
    fn from(idx: u8) -> Coord {
        Coord { idx }
    }
}

impl vstd::std_specs::convert::FromSpecImpl<u8> for Coord {
    open spec fn obeys_from_spec() -> bool {
        true
    }

    open spec fn from_spec(idx: u8) -> Coord {
        Coord { idx }
    }
}

impl From<u8> for Side {
    fn from(idx: u8) -> Side {
        Side { idx }
    }
}

impl vstd::std_specs::convert::FromSpecImpl<u8> for Side {
    open spec fn obeys_from_spec() -> bool {
        true
    }

    open spec fn from_spec(idx: u8) -> Side {
        Side { idx }
    }
}

impl From<u8> for TroopId {
    fn from(idx: u8) -> TroopId {
        TroopId { idx }
    }
}

impl vstd::std_specs::convert::FromSpecImpl<u8> for TroopId {
    open spec fn obeys_from_spec() -> bool {
        true
    }

    open spec fn from_spec(idx: u8) -> TroopId {
        TroopId { idx }
    }
}

impl From<i32> for Coord {
    fn from(idx: i32) -> Coord {
        Coord { idx: idx as u8 }
    }
}

impl vstd::std_specs::convert::FromSpecImpl<i32> for Coord {
    open spec fn obeys_from_spec() -> bool {
        true
    }

    open spec fn from_spec(idx: i32) -> Coord {
        Coord { idx: idx as u8 }
    }
}

impl From<usize> for Coord {
    fn from(idx: usize) -> Coord {
        Coord { idx: idx as u8 }
    }
}

impl vstd::std_specs::convert::FromSpecImpl<usize> for Coord {
    open spec fn obeys_from_spec() -> bool {
        true
    }

    open spec fn from_spec(idx: usize) -> Coord {
        Coord { idx: idx as u8 }
    }
}

impl From<i32> for Side {
    fn from(idx: i32) -> Side {
        Side { idx: idx as u8 }
    }
}

impl vstd::std_specs::convert::FromSpecImpl<i32> for Side {
    open spec fn obeys_from_spec() -> bool {
        true
    }

    open spec fn from_spec(idx: i32) -> Side {
        Side { idx: idx as u8 }
    }
}

impl From<usize> for Side {
    fn from(idx: usize) -> Side {
        Side { idx: idx as u8 }
    }
}

impl vstd::std_specs::convert::FromSpecImpl<usize> for Side {
    open spec fn obeys_from_spec() -> bool {
        true
    }

    open spec fn from_spec(idx: usize) -> Side {
        Side { idx: idx as u8 }
    }
}

impl From<i32> for TroopId {
    fn from(idx: i32) -> TroopId {
        TroopId { idx: idx as u8 }
    }
}

impl vstd::std_specs::convert::FromSpecImpl<i32> for TroopId {
    open spec fn obeys_from_spec() -> bool {
        true
    }

    open spec fn from_spec(idx: i32) -> TroopId {
        TroopId { idx: idx as u8 }
    }
}

impl<T> std::ops::Index<Coord> for [T] {
    type Output = T;

    fn index(&self, coord: Coord) -> (r: &T)
        ensures
            *r == self@[coord.idx as int],
    {
        &self[coord.idx as usize]
    }
}

impl<T> vstd::std_specs::core::IndexSpecImpl<Coord> for [T] {
    open spec fn index_req(&self, coord: &Coord) -> bool {
        coord.idx < self@.len()
    }
}

impl<T> std::ops::IndexMut<Coord> for [T] {
    fn index_mut(&mut self, coord: Coord) -> (r: &mut T)
        requires
            coord.idx < old(self)@.len(),
    {
        &mut self[coord.idx as usize]
    }
}

impl<T> std::ops::Index<Side> for [T] {
    type Output = T;

    fn index(&self, side: Side) -> (r: &T)
        ensures
            *r == self@[side.idx as int],
    {
        &self[side.idx as usize]
    }
}

impl<T> vstd::std_specs::core::IndexSpecImpl<Side> for [T] {
    open spec fn index_req(&self, side: &Side) -> bool {
        side.idx < self@.len()
    }
}

impl<T> std::ops::IndexMut<Side> for [T] {
    fn index_mut(&mut self, side: Side) -> (r: &mut T)
        requires
            side.idx < old(self)@.len(),
    {
        &mut self[side.idx as usize]
    }
}

impl Game {
    /// The troop kind at index `id` of the table.
    pub fn get_troop(&self, id: TroopId) -> (r: &Troop)
        requires
            id.idx < self.troops@.len(),
        ensures
            *r == self.troops@[id.idx as int],
    {
        &self.troops[id.idx as usize]
    }
}

pub proof fn lemma_cell_in_board(v: PositionView, x: int, y: int)
    requires
        v.wf(),
        v.in_board(x, y),
    ensures
        0 <= v.cell(x, y) < v.size(),
        v.cell(x, y) <= 255,
        v.file_of(v.cell(x, y)) == x,
        v.rank_of(v.cell(x, y)) == y,
        v.at(x, y).idx == v.cell(x, y),
{
    assert(0 <= y * v.width <= (v.height - 1) * v.width) by (nonlinear_arith)
        requires 0 <= y < v.height, 1 <= v.width;
    assert((v.height - 1) * v.width + v.width == v.width * v.height) by (nonlinear_arith);
    vstd::arithmetic::div_mod::lemma_fundamental_div_mod_converse(x + y * v.width, v.width, y, x);
}

/// The coordinates of a square on the board lie on the board.
pub proof fn lemma_square_in_board(v: PositionView, i: int)
    requires
        v.wf(),
        0 <= i < v.size(),
    ensures
        v.in_board(v.file_of(i), v.rank_of(i)),
        v.cell(v.file_of(i), v.rank_of(i)) == i,
{
    vstd::arithmetic::div_mod::lemma_fundamental_div_mod(i, v.width);
    vstd::arithmetic::div_mod::lemma_div_pos_is_pos(i, v.width);
    assert(v.width * v.height == v.height * v.width) by (nonlinear_arith);
    vstd::arithmetic::div_mod::lemma_div_by_multiple_is_strongly_ordered(i, v.width * v.height, v.height, v.width);
    vstd::arithmetic::div_mod::lemma_mod_bound(i, v.width);
    vstd::arithmetic::div_mod::lemma_fundamental_div_mod_converse(v.height * v.width, v.width, v.height, 0);
    let q = i / v.width;
    assert(v.width * q == q * v.width) by (nonlinear_arith);
    assert(q < v.height);
}

/// The model of a castling rule.
pub struct CastlingView {
    pub castle_from: Coord,
    pub castle_to: Coord,
    pub passing: Seq<Coord>,
    pub castles: Seq<TroopId>,
}

impl View for Castling {
    type V = CastlingView;

    closed spec fn view(&self) -> CastlingView {
        CastlingView {
            castle_from: self.castle_from,
            castle_to: self.castle_to,
            passing: self.passing@,
            castles: self.castles@,
        }
    }
}

impl CastlingView {
    /// Every square the rule names lies on the board.
    pub open spec fn in_board(self, v: PositionView) -> bool {
        &&& self.castle_from.idx < v.size()
        &&& self.castle_to.idx < v.size()
        &&& forall|i: int| 0 <= i < self.passing.len() ==> #[trigger] self.passing[i].idx < v.size()
    }

    /// The partner square holds an eligible troop of `side`.
    pub open spec fn partner_ready(self, v: PositionView, side: Side) -> bool {
        match v.tiles[self.castle_from.idx as int] {
            None => false,
            Some((s, id)) => s == side && self.castles.contains(id),
        }
    }

    pub open spec fn path_clear(self, v: PositionView) -> bool {
        forall|i: int| 0 <= i < self.passing.len() ==> #[trigger] v.tiles[self.passing[i].idx as int] is None
    }

    /// Castling is available: partner ready and path empty.
    pub open spec fn can_castle(self, v: PositionView, side: Side) -> bool {
        self.partner_ready(v, side) && self.path_clear(v)
    }

    /// Tiles after the king-analog walks the path.
    pub open spec fn king_moved(self, v: PositionView) -> Seq<Tile> {
        let from = self.passing[0].idx as int;
        let to = self.passing.last().idx as int;
        v.tiles.update(from, None).update(to, v.tiles[from])
    }

    /// The position after castling: king-analog from the first path square to
    /// the last, partner from its square to its target, trail set to the path.
    pub open spec fn result(self, v: PositionView) -> PositionView {
        let t1 = self.king_moved(v);
        let cf = self.castle_from.idx as int;
        PositionView {
            tiles: t1.update(cf, None).update(self.castle_to.idx as int, t1[cf]),
            passant: self.passing,
            ..v
        }
    }
}

/// Copies a vector of plain values element by element.
pub(crate) fn copy_of<T: Copy>(v: &Vec<T>) -> (r: Vec<T>)
    ensures
        r@ == v@,
{
    let mut r = Vec::new();
    let mut i: usize = 0;
    while i < v.len()
        invariant
            i <= v@.len(),
            r@ == v@.take(i as int),
        decreases v@.len() - i,
    {
        r.push(v[i]);
        assert(v@.take(i as int).push(v@[i as int]) =~= v@.take(i as int + 1));
        i += 1;
    }
    assert(v@.take(v@.len() as int) =~= v@);
    r
}

/// Relies on Rc::clone: the new pointer shares the allocation, so it refers
/// to the same game.
#[verifier::external_body]
fn share_game(g: &Rc<Game>) -> (r: Rc<Game>)
    ensures
        r == *g,
{
    Rc::clone(g)
}

/// Some play of `ps[..i]`, or of `ps[i].threats[..j]`, captures on `c`.
pub open spec fn marked_upto(ps: Seq<PlayView>, i: int, j: int, c: int) -> bool {
    exists|a: int, b: int|
        0 <= a < ps.len() && 0 <= b < ps[a].threats.len() && (a < i || (a == i && b < j))
            && #[trigger] ps[a].threats[b].idx == c
}

/// Sets, for side `s`, the bit of every square that some play captures on.
fn mark_threats(bits: &mut Vec<[bool; 8]>, plays: &Vec<TroopPlay>, s: u8)
    requires
        s < 8,
        forall|i: int, j: int|
            0 <= i < plays@.len() && 0 <= j < plays@[i].threats@.len()
                ==> (#[trigger] plays@[i].threats@[j]).idx < old(bits)@.len(),
    ensures
        final(bits)@.len() == old(bits)@.len(),
        forall|c: int, t: int|
            0 <= c < old(bits)@.len() && 0 <= t < 8 ==> #[trigger] final(bits)@[c]@[t] == (old(bits)@[c]@[t]
                || (t == s && PositionView::marks(views(plays@), c))),
{
    let ghost ps = views(plays@);
    let ghost orig = bits@;
    let mut i: usize = 0;
    while i < plays.len()
        invariant
            i <= plays@.len(),
            s < 8,
            ps == views(plays@),
            bits@.len() == orig.len(),
            forall|i: int, j: int|
                0 <= i < plays@.len() && 0 <= j < plays@[i].threats@.len()
                    ==> (#[trigger] plays@[i].threats@[j]).idx < orig.len(),
            forall|c: int, t: int|
                0 <= c < orig.len() && 0 <= t < 8 ==> #[trigger] bits@[c]@[t] == (orig[c]@[t]
                    || (t == s && marked_upto(ps, i as int, 0, c))),
        decreases plays@.len() - i,
    {
        let threats = &plays[i].threats;
        let mut j: usize = 0;
        while j < threats.len()
            invariant
                i < plays@.len(),
                j <= threats@.len(),
                *threats == plays@[i as int].threats,
                s < 8,
                ps == views(plays@),
                bits@.len() == orig.len(),
                forall|i: int, j: int|
                    0 <= i < plays@.len() && 0 <= j < plays@[i].threats@.len()
                        ==> (#[trigger] plays@[i].threats@[j]).idx < orig.len(),
                forall|c: int, t: int|
                    0 <= c < orig.len() && 0 <= t < 8 ==> #[trigger] bits@[c]@[t] == (orig[c]@[t]
                        || (t == s && marked_upto(ps, i as int, j as int, c))),
            decreases threats@.len() - j,
        {
            let c = threats[j].idx as usize;
            assert(plays@[i as int].threats@[j as int].idx < orig.len());
            let mut row = bits[c];
            row[s as usize] = true;
            bits.set(c, row);
            proof {
                assert(ps[i as int].threats == plays@[i as int].threats@);
                assert forall|d: int, t: int| 0 <= d < orig.len() && 0 <= t < 8 implies #[trigger] bits@[d]@[t] == (
                orig[d]@[t] || (t == s && marked_upto(ps, i as int, j as int + 1, d))) by {
                    if marked_upto(ps, i as int, j as int + 1, d) && d != c {
                        let (a, b) = choose|a: int, b: int|
                            0 <= a < ps.len() && 0 <= b < ps[a].threats.len() && (a < i || (a == i && b < j + 1))
                                && #[trigger] ps[a].threats[b].idx == d;
                        assert(marked_upto(ps, i as int, j as int, d));
                    }
                    if d == c {
                        assert(ps[i as int].threats[j as int].idx == d);
                    }
                }
            }
            j += 1;
        }
        proof {
            assert forall|d: int| #[trigger] marked_upto(ps, i as int + 1, 0, d) == marked_upto(ps, i as int, threats@.len() as int, d) by {
                if marked_upto(ps, i as int + 1, 0, d) {
                    let (a, b) = choose|a: int, b: int|
                        0 <= a < ps.len() && 0 <= b < ps[a].threats.len() && (a < i + 1 || (a == i + 1 && b < 0))
                            && #[trigger] ps[a].threats[b].idx == d;
                    assert(ps[i as int].threats == plays@[i as int].threats@);
                }
            }
        }
        i += 1;
    }
    proof {
        assert forall|d: int| #[trigger] marked_upto(ps, plays@.len() as int, 0, d) == PositionView::marks(ps, d) by {
            if PositionView::marks(ps, d) {
                let (a, b) = choose|a: int, b: int|
                    0 <= a < ps.len() && 0 <= b < ps[a].threats.len() && #[trigger] ps[a].threats[b].idx == d;
                assert(marked_upto(ps, plays@.len() as int, 0, d));
            }
        }
    }
}

/// Side `s` threatens `c` from a square below `k`.
pub open spec fn attacked_before(v: PositionView, c: int, s: int, k: int) -> bool {
    exists|from: int| 0 <= from < k && #[trigger] v.attacks(from, s, c)
}

impl Castling {
    pub fn new(castle_from: Coord, castle_to: Coord, passing: Vec<Coord>, castles: Vec<TroopId>) -> (r: Castling)
        ensures
            r@ == (CastlingView { castle_from, castle_to, passing: passing@, castles: castles@ }),
    {
        Castling { castle_from, castle_to, passing, castles }
    }

    /// An independent copy.
    pub fn duplicate(&self) -> (r: Castling)
        ensures
            r@ == self@,
    {
        Castling {
            castle_from: self.castle_from,
            castle_to: self.castle_to,
            passing: copy_of(&self.passing),
            castles: copy_of(&self.castles),
        }
    }

    /// The partner square holds an eligible troop of `side` and every path
    /// square is empty.
    pub fn can_castle(&self, position: &Position, side: Side) -> (r: bool)
        requires
            position.wf(),
            self@.in_board(position@),
        ensures
            r == self@.can_castle(position@, side),
    {
        let (piece_side, piece) = match position.tiles[self.castle_from.idx as usize] {
            None => {
                return false;
            },
            Some(t) => t,
        };
        if piece_side != side {
            return false;
        }
        let mut eligible = false;
        let mut k: usize = 0;
        while k < self.castles.len()
            invariant
                k <= self.castles@.len(),
                eligible == exists|j: int| 0 <= j < k && self.castles@[j] == piece,
            decreases self.castles@.len() - k,
        {
            if self.castles[k] == piece {
                eligible = true;
            }
            k += 1;
        }
        if !eligible {
            return false;
        }
        let mut i: usize = 0;
        while i < self.passing.len()
            invariant
                i <= self.passing@.len(),
                position.wf(),
                self@.in_board(position@),
                forall|j: int| 0 <= j < i ==> #[trigger] position@.tiles[self.passing@[j].idx as int] is None,
            decreases self.passing@.len() - i,
        {
            assert(self@.passing[i as int].idx < position@.size());
            if position.tiles[self.passing[i].idx as usize].is_some() {
                return false;
            }
            i += 1;
        }
        true
    }

    /// Moves the king-analog along the path and the partner to its target,
    /// and overwrites the trail with the path.
    pub fn do_castle(&self, position: &mut Position) -> (r: CastlePly)
        requires
            old(position).wf(),
            self@.in_board(old(position)@),
            self@.passing.len() >= 2,
            old(position)@.tiles[self@.passing[0].idx as int] is Some,
            self@.king_moved(old(position)@)[self@.castle_from.idx as int] is Some,
        ensures
            final(position).wf(),
            final(position)@ == self@.result(old(position)@),
            final(position).game == old(position).game,
            final(position).recent_plys == old(position).recent_plys,
            final(position).castlings == old(position).castlings,
            r == (CastlePly {
                from: self@.passing[0],
                to: self@.passing.last(),
                castle_from: self@.castle_from,
                castle_to: self@.castle_to,
            }),
    {
        let ghost v = position@;
        position.passant = copy_of(&self.passing);
        let from = self.passing[0];
        let to = self.passing[self.passing.len() - 1];
        let king = position.tiles[from.idx as usize].unwrap();
        position.tiles.set(from.idx as usize, None);
        position.tiles.set(to.idx as usize, Some(king));
        let castle = position.tiles[self.castle_from.idx as usize].unwrap();
        position.tiles.set(self.castle_from.idx as usize, None);
        position.tiles.set(self.castle_to.idx as usize, Some(castle));
        proof {
            let r = self@.result(v);
            assert(position@ == r);
            assert forall|i: int| 0 <= i < r.tiles.len() implies #[trigger] r.tile_ok(r.tiles[i]) by {
                assert(v.tile_ok(v.tiles[i]));
                assert(v.tile_ok(v.tiles[from.idx as int]));
                assert(v.tile_ok(v.tiles[self.castle_from.idx as int]));
                assert(v.tile_ok(v.tiles[to.idx as int]));
            }
        }
        CastlePly { from, to, castle_from: self.castle_from, castle_to: self.castle_to }
    }
}

impl Position {
    /// The model is well formed and the ply record has its 24 slots.
    pub open spec fn wf(&self) -> bool {
        &&& self@.wf()
        &&& self.recent_plys@.len() == 24
    }

    /// An empty board of the game: no troops, no kings recorded, no trail,
    /// no castling rules, 24 empty ply slots.
    pub fn new(game: Rc<Game>) -> (r: Position)
        requires
            1 <= game.width,
            1 <= game.height,
            game.width * game.height <= 256,
        ensures
            r.wf(),
            r.game == game,
            r@.tiles == Seq::new(r@.size() as nat, |i: int| None::<(Side, TroopId)>),
            forall|s: int| 0 <= s < 8 ==> (#[trigger] r@.alphas[s]) is None,
            r@.passant.len() == 0,
            r.castlings@.len() == 8,
            forall|s: int| 0 <= s < 8 ==> (#[trigger] r.castlings@[s])@.len() == 0,
            forall|i: int| 0 <= i < 24 ==> (#[trigger] r.recent_plys@[i]) is Empty,
    {
        let n: usize = game.width as usize * game.height as usize;
        let mut tiles: Vec<Option<(Side, TroopId)>> = Vec::new();
        while tiles.len() < n
            invariant
                tiles@.len() <= n,
                tiles@ == Seq::new(tiles@.len(), |i: int| None::<(Side, TroopId)>),
            decreases n - tiles@.len(),
        {
            tiles.push(None);
            assert(tiles@ =~= Seq::new(tiles@.len(), |i: int| None::<(Side, TroopId)>));
        }
        let mut recent_plys: Vec<Ply> = Vec::new();
        while recent_plys.len() < 24
            invariant
                recent_plys@.len() <= 24,
                forall|i: int| 0 <= i < recent_plys@.len() ==> (#[trigger] recent_plys@[i]) is Empty,
            decreases 24 - recent_plys@.len(),
        {
            recent_plys.push(Ply::Empty);
        }
        let mut castlings: Vec<Vec<Castling>> = Vec::new();
        while castlings.len() < 8
            invariant
                castlings@.len() <= 8,
                forall|s: int| 0 <= s < castlings@.len() ==> (#[trigger] castlings@[s])@.len() == 0,
            decreases 8 - castlings@.len(),
        {
            castlings.push(Vec::new());
        }
        let alphas: [Option<Coord>; 8] = [None, None, None, None, None, None, None, None];
        Position { game, alphas, tiles, recent_plys, passant: Vec::new(), castlings }
    }

    /// An independent copy: same model, same ply record and castling lists,
    /// no storage shared but the game.
    pub fn duplicate(&self) -> (r: Position)
        ensures
            r@ == self@,
            r.game == self.game,
            r.recent_plys@.len() == self.recent_plys@.len(),
            forall|i: int| 0 <= i < self.recent_plys@.len() ==> (#[trigger] r.recent_plys@[i])@ == self.recent_plys@[i]@,
            r.castlings@.len() == self.castlings@.len(),
            forall|s: int| 0 <= s < self.castlings@.len() ==> (#[trigger] r.castlings@[s])@.len() == self.castlings@[s]@.len(),
            forall|s: int, k: int| 0 <= s < self.castlings@.len() && 0 <= k < self.castlings@[s]@.len()
                ==> (#[trigger] r.castlings@[s]@[k])@ == self.castlings@[s]@[k]@,
    {
        Position {
            game: share_game(&self.game),
            alphas: self.alphas,
            tiles: copy_of(&self.tiles),
            recent_plys: copy_plys(&self.recent_plys),
            passant: copy_of(&self.passant),
            castlings: copy_castlings(&self.castlings),
        }
    }

    /// The occupant of `coord`, as a `TroopInfo`.
    fn info_at(&self, coord: Coord) -> (r: Option<TroopInfo>)
        requires
            self.wf(),
            coord.idx < self@.size(),
        ensures
            r is None <==> self@.tiles[coord.idx as int] is None,
            r is Some ==> info_matches(self@, r->0) && r->0.coord == coord,
            r is Some ==> r->0.id.idx < self@.troops.len() && r->0.side.idx < 8,
    {
        proof {
            assert(self@.tile_ok(self@.tiles[coord.idx as int]));
        }
        match self.tiles[coord.idx as usize] {
            None => None,
            Some((side, id)) => Some(TroopInfo { id, coord, side }),
        }
    }

    /// Candidate plays of the occupant of `coord`; empty on an empty square.
    pub fn troop_plays(&self, coord: Coord) -> (r: Vec<TroopPlay>)
        requires
            self.wf(),
            coord.idx < self@.size(),
        ensures
            views(r@) == self@.plays_at(coord.idx as int),
            self@.tiles[coord.idx as int] is None ==> r@.len() == 0,
    {
        match self.info_at(coord) {
            None => {
                let r = Vec::new();
                proof { lemma_views_empty(r@); }
                r
            },
            Some(info) => {
                let troop = self.game.get_troop(info.id);
                get_plays_of(self, troop.get_plays, info)
            },
        }
    }

    /// For every square and side, whether that side threatens the square:
    /// move generation is run from every occupied square and each captured
    /// square is marked for the mover's side.
    pub fn analyze(&self) -> (r: PositionInfo)
        requires
            self.wf(),
        ensures
            r.threats@.len() == self@.size(),
            forall|c: int, s: int|
                0 <= c < self@.size() && 0 <= s < 8 ==> #[trigger] r.threats@[c]@[s] == self@.threatened(c, s),
    {
        let ghost v = self@;
        let n: usize = self.game.width as usize * self.game.height as usize;
        let mut bits: Vec<[bool; 8]> = Vec::new();
        while bits.len() < n
            invariant
                bits@.len() <= n,
                forall|c: int, t: int| 0 <= c < bits@.len() && 0 <= t < 8 ==> !(#[trigger] bits@[c]@[t]),
            decreases n - bits@.len(),
        {
            let row: [bool; 8] = [false, false, false, false, false, false, false, false];
            assert(row@ =~= seq![false, false, false, false, false, false, false, false]);
            bits.push(row);
        }
        let mut idx: usize = 0;
        while idx < n
            invariant
                v == self@,
                self.wf(),
                n == v.size(),
                idx <= n,
                bits@.len() == n,
                forall|c: int, t: int|
                    0 <= c < n && 0 <= t < 8 ==> #[trigger] bits@[c]@[t] == attacked_before(v, c, t, idx as int),
            decreases n - idx,
        {
            let coord = Coord { idx: idx as u8 };
            match self.info_at(coord) {
                None => {
                    proof {
                        assert forall|c: int, t: int| 0 <= c < n && 0 <= t < 8 implies
                            attacked_before(v, c, t, idx as int + 1) == attacked_before(v, c, t, idx as int) by {
                            if attacked_before(v, c, t, idx as int + 1) {
                                let from = choose|from: int| 0 <= from < idx + 1 && #[trigger] v.attacks(from, t, c);
                                assert(from != idx);
                            }
                        }
                    }
                },
                Some(info) => {
                    let troop = self.game.get_troop(info.id);
                    let plays = get_plays_of(self, troop.get_plays, info);
                    proof {
                        lemma_gen_in_board(v, troop.get_plays, info.side, v.file_of(idx as int), v.rank_of(idx as int));
                        assert forall|i: int, j: int|
                            0 <= i < plays@.len() && 0 <= j < plays@[i].threats@.len()
                                implies (#[trigger] plays@[i].threats@[j]).idx < bits@.len() by {
                            assert(views(plays@)[i] == plays@[i]@);
                            assert(v.play_in_board(views(plays@)[i]));
                            assert(views(plays@)[i].threats[j] == plays@[i].threats@[j]);
                        }
                    }
                    let ghost old_bits = bits@;
                    mark_threats(&mut bits, &plays, info.side.idx);
                    proof {
                        assert(v.plays_at(idx as int) == views(plays@));
                        assert forall|c: int, t: int| 0 <= c < n && 0 <= t < 8 implies
                            #[trigger] bits@[c]@[t] == attacked_before(v, c, t, idx as int + 1) by {
                            assert(bits@[c]@[t] == (old_bits[c]@[t] || (t == info.side.idx
                                && PositionView::marks(views(plays@), c))));
                            if attacked_before(v, c, t, idx as int + 1) && !attacked_before(v, c, t, idx as int) {
                                let from = choose|from: int| 0 <= from < idx + 1 && #[trigger] v.attacks(from, t, c);
                                assert(from == idx);
                            }
                            if t == info.side.idx && PositionView::marks(views(plays@), c) {
                                assert(v.attacks(idx as int, t, c));
                            }
                        }
                    }
                },
            }
            idx += 1;
        }
        proof {
            assert forall|c: int, t: int| 0 <= c < n && 0 <= t < 8 implies
                attacked_before(v, c, t, n as int) == v.threatened(c, t) by {
                if v.threatened(c, t) {
                    let from = choose|from: int| #[trigger] v.attacks(from, t, c);
                    assert(0 <= from < n);
                }
            }
        }
        PositionInfo { threats: bits }
    }

    /// The side has a recorded king coordinate that another side threatens.
    pub fn in_check(&self, side: Side) -> (r: bool)
        requires
            self.wf(),
            side.idx < 8,
        ensures
            r == self@.in_check(side),
    {
        match self.alphas[side.idx as usize] {
            None => false,
            Some(alpha) => {
                let info = self.analyze();
                let row = info.threats[alpha.idx as usize];
                let mut found = false;
                let mut s: usize = 0;
                while s < 8
                    invariant
                        s <= 8,
                        side.idx < 8,
                        alpha.idx < self@.size(),
                        row@ == info.threats@[alpha.idx as int]@,
                        forall|c: int, t: int| 0 <= c < self@.size() && 0 <= t < 8
                            ==> #[trigger] info.threats@[c]@[t] == self@.threatened(c, t),
                        found == exists|t: int| 0 <= t < s && t != side.idx && #[trigger] self@.threatened(alpha.idx as int, t),
                    decreases 8 - s,
                {
                    if s != side.idx as usize && row[s] {
                        found = true;
                    }
                    s += 1;
                }
                found
            },
        }
    }

    /// Whether carrying out `play` from `coord` leaves the mover's king
    /// coordinate unthreatened by every other side; checked on a copy.
    pub fn is_play_safe(&self, coord: Coord, play: &TroopPlay) -> (r: bool)
        requires
            self.wf(),
            coord.idx < self@.size(),
            self@.tiles[coord.idx as int] is Some,
            self@.play_in_board(play@),
        ensures
            r == !self@.after_play(coord.idx as int, play@).in_check(self@.side_at(coord.idx as int)->0),
    {
        let info = self.info_at(coord).unwrap();
        let a = self.game.get_troop(info.id).do_play;
        proof {
            lemma_apply_wf(self@, a, info, play@);
        }
        if self.alphas[info.side.idx as usize].is_none() {
            return true;
        }
        let mut test_position = self.duplicate();
        do_play_of(&mut test_position, a, info, play);
        !test_position.in_check(info.side)
    }

    /// Carries out `play` for the occupant of `coord` and records it in the
    /// first ply slot; does nothing on an empty square.
    pub fn troop_play(&mut self, coord: Coord, play: &TroopPlay)
        requires
            old(self).wf(),
            coord.idx < old(self)@.size(),
            old(self)@.tiles[coord.idx as int] is Some ==> old(self)@.play_in_board(play@),
        ensures
            final(self).wf(),
            final(self)@ == old(self)@.after_play(coord.idx as int, play@),
            final(self).game == old(self).game,
            final(self).castlings == old(self).castlings,
            old(self)@.tiles[coord.idx as int] is Some ==> {
                &&& final(self)@.passant.len() == 0 || final(self)@.passant.len() == 3
                &&& final(self).recent_plys@[0]@ == PlyView::Move(MoveView {
                    troop: old(self)@.troop_at(coord.idx as int),
                    from: coord,
                    to: play.to,
                    kills: play.threats@,
                })
                &&& final(self).recent_plys@.len() == 24
                &&& forall|i: int| 1 <= i < 24 ==> final(self).recent_plys@[i] == old(self).recent_plys@[i]
            },
            old(self)@.tiles[coord.idx as int] is None ==> final(self).recent_plys == old(self).recent_plys,
    {
        match self.info_at(coord) {
            None => {},
            Some(info) => {
                let a = self.game.get_troop(info.id).do_play;
                proof {
                    lemma_apply_wf(self@, a, info, play@);
                    crate::laws::lemma_move_trail_length(self@, coord.idx as int, play@);
                }
                let ply = do_play_of(self, a, info, play);
                self.recent_plys.set(0, Ply::Move(ply));
            },
        }
    }
}

} // verus!
