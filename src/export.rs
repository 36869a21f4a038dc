//! Export of a position as a rank-delimited, run-length encoded string.

use vstd::prelude::*;
use crate::chess::{push_char, Position, PositionView, Side, TroopId};

verus! {

pub open spec fn digit(d: int) -> char {
    ((d + 48) as u8) as char
}

/// Decimal digits of `n`, most significant first.
pub open spec fn decimal(n: nat) -> Seq<char>
    decreases n,
{
    if n < 10 {
        seq![digit(n as int)]
    } else {
        decimal(n / 10).push(digit((n % 10) as int))
    }
}

pub open spec fn lower(c: char) -> char {
    if 'A' <= c <= 'Z' {
        ((c as u8) + 32) as u8 as char
    } else {
        c
    }
}

/// The letter of an occupant: as in the troop table for side 0, in lower
/// case for every other side.
pub open spec fn letter(v: PositionView, t: (Side, TroopId)) -> char {
    let c = v.troops[t.1.idx as int].char;
    if t.0.idx == 0 { c } else { lower(c) }
}

/// A run of `n` empty squares: its count, or nothing when there is none.
pub open spec fn run(n: nat) -> Seq<char> {
    if n > 0 { decimal(n) } else { seq![] }
}

/// Rank `y` from file `x` on, with `e` empty squares pending before it.
pub open spec fn rank_chars(v: PositionView, y: int, x: int, e: nat) -> Seq<char>
    decreases v.width - x,
{
    if x >= v.width {
        run(e)
    } else {
        match v.tiles[v.cell(x, y)] {
            Some(t) => run(e) + seq![letter(v, t)] + rank_chars(v, y, x + 1, 0),
            None => rank_chars(v, y, x + 1, e + 1),
        }
    }
}

/// Ranks n-1 down to 0, separated by '/'.
pub open spec fn board_chars(v: PositionView, n: int) -> Seq<char>
    decreases n,
{
    if n <= 0 {
        seq![]
    } else {
        rank_chars(v, n - 1, 0, 0) + (if n - 1 > 0 { seq!['/'] } else { seq![] }) + board_chars(v, n - 1)
    }
}

/// The export of a position: its ranks from the highest down.
pub open spec fn export(v: PositionView) -> Seq<char> {
    board_chars(v, v.height)
}

pub open spec fn is_digit(c: char) -> bool {
    '0' <= c <= '9'
}

/// Reading an encoded string left to right: (squares counted so far, value
/// of the digit run in progress).
pub open spec fn read_step(st: (int, int), c: char) -> (int, int) {
    if is_digit(c) {
        (st.0, st.1 * 10 + ((c as u8) as int - 48))
    } else if c == '/' {
        (st.0 + st.1, 0)
    } else {
        (st.0 + st.1 + 1, 0)
    }
}

pub open spec fn read(st: (int, int), s: Seq<char>) -> (int, int)
    decreases s.len(),
{
    if s.len() == 0 {
        st
    } else {
        read_step(read(st, s.drop_last()), s.last())
    }
}

/// The squares an encoded string stands for: one per character that is
/// neither a digit nor '/', plus the value of every maximal digit run.
pub open spec fn covered(s: Seq<char>) -> int {
    read((0, 0), s).0 + read((0, 0), s).1
}

/// No troop letter is a digit or the rank separator.
pub open spec fn letters_ok(v: PositionView) -> bool {
    forall|i: int| 0 <= i < v.troops.len() ==> !is_digit(#[trigger] v.troops[i].char) && v.troops[i].char != '/'
}

proof fn lemma_read_concat(st: (int, int), a: Seq<char>, b: Seq<char>)
    ensures
        read(st, a + b) == read(read(st, a), b),
    decreases b.len(),
{
    if b.len() == 0 {
        assert(a + b =~= a);
    } else {
        assert((a + b).drop_last() =~= a + b.drop_last());
        assert((a + b).last() == b.last());
        lemma_read_concat(st, a, b.drop_last());
    }
}

proof fn lemma_read_decimal(acc: int, n: nat)
    ensures
        read((acc, 0), decimal(n)) == (acc, n as int),
    decreases n,
{
    let d = decimal(n);
    if n < 10 {
        assert(d.drop_last() =~= Seq::<char>::empty());
        assert(read((acc, 0), d.drop_last()) == (acc, 0int));
        let c = digit(n as int);
        assert((c as u8) as int == n + 48);
        assert(read((acc, 0), d) == read_step((acc, 0), c));
    } else {
        lemma_read_decimal(acc, n / 10);
        assert(d.drop_last() =~= decimal(n / 10));
        let c = digit((n % 10) as int);
        assert((c as u8) as int == n % 10 + 48);
        assert(read((acc, 0), d) == read_step((acc, (n / 10) as int), c));
        assert((n / 10) * 10 + n % 10 == n) by {
            vstd::arithmetic::div_mod::lemma_fundamental_div_mod(n as int, 10);
        }
    }
}

proof fn lemma_read_run(acc: int, n: nat)
    ensures
        read((acc, 0), run(n)) == (acc, n as int),
{
    if n > 0 {
        lemma_read_decimal(acc, n);
    } else {
        assert(run(n).len() == 0);
    }
}

proof fn lemma_read_one(st: (int, int), c: char)
    ensures
        read(st, seq![c]) == read_step(st, c),
{
    assert(seq![c].drop_last() =~= Seq::<char>::empty());
    assert(read(st, seq![c].drop_last()) == st);
}

proof fn lemma_letter_ok(v: PositionView, t: (Side, TroopId))
    requires
        letters_ok(v),
        t.1.idx < v.troops.len(),
    ensures
        !is_digit(letter(v, t)),
        letter(v, t) != '/',
{
    let c = v.troops[t.1.idx as int].char;
    assert(!is_digit(c) && c != '/');
}

proof fn lemma_rank_covered(v: PositionView, y: int, x: int, e: nat, acc: int)
    requires
        v.wf(),
        letters_ok(v),
        0 <= y < v.height,
        0 <= x <= v.width,
    ensures
        read((acc, 0), rank_chars(v, y, x, e)).0 + read((acc, 0), rank_chars(v, y, x, e)).1 == acc + e + (v.width - x),
    decreases v.width - x,
{
    if x >= v.width {
        lemma_read_run(acc, e);
    } else {
        crate::chess::lemma_cell_in_board(v, x, y);
        match v.tiles[v.cell(x, y)] {
            Some(t) => {
                assert(v.tile_ok(v.tiles[v.cell(x, y)]));
                lemma_letter_ok(v, t);
                let l = seq![letter(v, t)];
                let rest = rank_chars(v, y, x + 1, 0);
                lemma_read_run(acc, e);
                lemma_read_concat((acc, 0), run(e), l);
                lemma_read_one((acc, e as int), letter(v, t));
                assert(read((acc, 0), run(e) + l) == (acc + e + 1, 0int));
                lemma_read_concat((acc, 0), run(e) + l, rest);
                lemma_rank_covered(v, y, x + 1, 0, acc + e + 1);
            },
            None => {
                lemma_rank_covered(v, y, x + 1, e + 1, acc);
            },
        }
    }
}

proof fn lemma_board_covered(v: PositionView, n: int, acc: int)
    requires
        v.wf(),
        letters_ok(v),
        0 <= n <= v.height,
    ensures
        read((acc, 0), board_chars(v, n)).0 + read((acc, 0), board_chars(v, n)).1 == acc + n * v.width,
    decreases n,
{
    if n > 0 {
        let rank = rank_chars(v, n - 1, 0, 0);
        let sep: Seq<char> = if n - 1 > 0 { seq!['/'] } else { seq![] };
        let rest = board_chars(v, n - 1);
        assert(board_chars(v, n) == rank + sep + rest);
        lemma_rank_covered(v, n - 1, 0, 0, acc);
        lemma_read_concat((acc, 0), rank, sep);
        lemma_read_concat((acc, 0), rank + sep, rest);
        let after = read((acc, 0), rank);
        if n - 1 > 0 {
            lemma_read_one(after, '/');
            assert(read(after, sep) == (acc + v.width, 0int));
            lemma_board_covered(v, n - 1, acc + v.width);
            assert(read((acc, 0), board_chars(v, n)) == read((acc + v.width, 0int), rest));
        } else {
            assert(rest == Seq::<char>::empty());
            assert(sep == Seq::<char>::empty());
            assert(rank + sep =~= rank);
            assert(read(read((acc, 0), rank + sep), rest) == read((acc, 0), rank));
            assert(read((acc, 0), board_chars(v, n)) == read((acc, 0), rank));
            assert(n * v.width == v.width) by (nonlinear_arith)
                requires n == 1;
        }
        assert(acc + v.width + (n - 1) * v.width == acc + n * v.width) by (nonlinear_arith);
    } else {
        assert(n * v.width == 0) by (nonlinear_arith)
            requires n == 0;
    }
}

/// Each letter of the export stands for one square and each digit run for
/// that many empty squares: together they cover the whole board.
pub proof fn lemma_export_covers_board(v: PositionView)
    requires
        v.wf(),
        letters_ok(v),
    ensures
        covered(export(v)) == v.width * v.height,
{
    lemma_board_covered(v, v.height, 0);
    assert(v.height * v.width == v.width * v.height) by (nonlinear_arith);
}

fn lowercase(c: char) -> (r: char)
    ensures
        r == lower(c),
{
    if 'A' <= c && c <= 'Z' {
        ((c as u8) + 32u8) as char
    } else {
        c
    }
}

/// Appends the decimal digits of `n`.
pub(crate) fn push_decimal(s: &mut String, n: u16)
    requires
        n < 1000,
    ensures
        final(s)@ == old(s)@ + decimal(n as nat),
{
    let ghost start = s@;
    if n >= 100 {
        push_char(s, ((n / 100) as u8 + 48) as char);
    }
    if n >= 10 {
        push_char(s, ((n / 10 % 10) as u8 + 48) as char);
    }
    push_char(s, ((n % 10) as u8 + 48) as char);
    proof {
        let m = n as nat;
        if m >= 100 {
            assert(decimal(m / 100) == seq![digit((m / 100) as int)]);
            assert(decimal(m / 10) == decimal(m / 100).push(digit((m / 10 % 10) as int)));
            assert((m / 10) / 10 == m / 100);
        } else if m >= 10 {
            assert(decimal(m / 10) == seq![digit((m / 10) as int)]);
            assert(m / 10 % 10 == m / 10);
        }
        assert(s@ =~= start + decimal(m));
    }
}

impl Position {
    /// The position as a run-length string: ranks from the highest down,
    /// separated by '/', files left to right; a run of empty squares is its
    /// count; an occupant is its troop letter, upper case for side 0 and
    /// lower case for every other side.
    pub fn fen_string_2p(&self) -> (r: String)
        requires
            self.wf(),
        ensures
            r@ == export(self@),
    {
        let ghost v = self@;
        let w = self.game.width;
        let h = self.game.height;
        let mut string = String::new();
        let mut i: u8 = 0;
        while i < h
            invariant
                v == self@,
                self.wf(),
                w as int == v.width,
                h as int == v.height,
                i <= h,
                string@ + board_chars(v, h - i) == export(v),
            decreases h - i,
        {
            let y: u8 = h - i - 1;
            let ghost sep: Seq<char> = if y > 0 { seq!['/'] } else { seq![] };
            let ghost tail = sep + board_chars(v, y as int);
            assert(board_chars(v, y + 1) == rank_chars(v, y as int, 0, 0) + sep + board_chars(v, y as int));
            assert(string@ + (rank_chars(v, y as int, 0, 0) + sep + board_chars(v, y as int))
                =~= string@ + rank_chars(v, y as int, 0, 0) + tail);
            let mut empty: u8 = 0;
            let mut x: u8 = 0;
            while x < w
                invariant
                    v == self@,
                    self.wf(),
                    w as int == v.width,
                    h as int == v.height,
                    y < h,
                    x <= w,
                    empty <= x,
                    string@ + rank_chars(v, y as int, x as int, empty as nat) + tail == export(v),
                decreases w - x,
            {
                proof {
                    crate::chess::lemma_cell_in_board(v, x as int, y as int);
                }
                let ghost before = string@;
                let ghost e0 = empty as nat;
                let cell = x as usize + y as usize * w as usize;
                match self.tiles[cell] {
                    Some((side, troop_id)) => {
                        if empty > 0 {
                            push_decimal(&mut string, empty as u16);
                        }
                        assert(string@ == before + run(empty as nat));
                        empty = 0;
                        assert(self@.troops.len() > troop_id.idx) by {
                            assert(v.tile_ok(v.tiles[cell as int]));
                        }
                        let c = self.game.get_troop(troop_id).char;
                        if side.idx == 0 {
                            push_char(&mut string, c);
                        } else {
                            push_char(&mut string, lowercase(c));
                        }
                        proof {
                            let rest = rank_chars(v, y as int, x + 1, 0);
                            let l = letter(v, (side, troop_id));
                                assert(string@ == before + run(e0) + seq![l]);
                            assert(before + (run(e0) + seq![l] + rest) + tail =~= string@ + rest + tail);
                        }
                    },
                    None => {
                        empty = empty + 1;
                    },
                }
                x = x + 1;
            }
            if empty > 0 {
                push_decimal(&mut string, empty as u16);
            }
            if y > 0 {
                push_char(&mut string, '/');
            }
            proof {
                assert(string@ + board_chars(v, y as int) =~= export(v));
            }
            i = i + 1;
        }
        string
    }
}

} // verus!
