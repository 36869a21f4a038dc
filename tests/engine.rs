use std::rc::Rc;
use troop_chess::chess::{Castling, Coord, Game, Ply, Position, Side, TroopId, TroopPlay};
use troop_chess::classical::{classical_game, setup_classical};

fn empty_board() -> Position {
    Position::new(classical_game())
}

fn put(position: &mut Position, idx: u8, side: u8, troop: u8) {
    position.tiles[idx as usize] = Some((Side::from(side), TroopId::from(troop)));
}

fn targets(plays: &[TroopPlay]) -> Vec<u8> {
    plays.iter().map(|p| p.to.idx).collect()
}

fn threats(play: &TroopPlay) -> Vec<u8> {
    play.threats.iter().map(|c| c.idx).collect()
}

/// Squares an export covers: letters count one each, digit runs their value.
fn covered(s: &str) -> u32 {
    let mut total = 0;
    let mut run = 0;
    for c in s.chars() {
        if let Some(d) = c.to_digit(10) {
            run = run * 10 + d;
        } else {
            total += run;
            run = 0;
            if c != '/' {
                total += 1;
            }
        }
    }
    total + run
}

#[test]
fn empty_square_has_no_plays() {
    let position = setup_classical();
    for idx in 16..48u8 {
        assert!(position.troop_plays(Coord::from(idx)).is_empty());
    }
}

#[test]
fn trail_after_double_step_and_after_other_move() {
    let mut position = setup_classical();
    let plays = position.troop_plays(Coord::from(12));
    assert_eq!(targets(&plays), vec![20, 28]);
    position.troop_play(Coord::from(12), &plays[1]);
    assert_eq!(position.passant.iter().map(|c| c.idx).collect::<Vec<_>>(), vec![12, 28, 28]);

    let plays = position.troop_plays(Coord::from(62));
    assert_eq!(targets(&plays), vec![45, 47]);
    position.troop_play(Coord::from(62), &plays[0]);
    assert_eq!(position.passant.len(), 0);

    let plays = position.troop_plays(Coord::from(11));
    assert_eq!(targets(&plays), vec![19, 27]);
    position.troop_play(Coord::from(11), &plays[0]);
    assert_eq!(position.passant.len(), 0);
}

#[test]
fn vacated_square_has_no_plays() {
    let mut position = setup_classical();
    let plays = position.troop_plays(Coord::from(1));
    assert_eq!(targets(&plays), vec![16, 18]);
    position.troop_play(Coord::from(1), &plays[1]);
    assert!(position.tiles[1].is_none());
    assert!(position.troop_plays(Coord::from(1)).is_empty());
    assert_eq!(position.tiles[18], Some((Side::from(0), TroopId::from(4))));
}

#[test]
fn kingless_side_is_never_in_check() {
    let mut position = empty_board();
    put(&mut position, 60, 1, 0);
    put(&mut position, 4, 0, 2);
    assert!(!position.in_check(Side::from(1)));
    position.alphas[1] = Some(Coord::from(60));
    assert!(position.in_check(Side::from(1)));
    assert!(!position.in_check(Side::from(0)));
}

#[test]
fn export_of_the_starting_position() {
    let position = setup_classical();
    let s = position.fen_string_2p();
    assert_eq!(s, "rnbqkbnr/pppppppp/8/8/8/8/PPPPPPPP/RNBQKBNR");
    assert_eq!(covered(&s), 64);
}

#[test]
fn export_of_a_sparse_position_covers_the_board() {
    let mut position = empty_board();
    put(&mut position, 3, 0, 0);
    put(&mut position, 60, 1, 0);
    put(&mut position, 35, 1, 5);
    let s = position.fen_string_2p();
    assert_eq!(s, "4k3/8/8/3p4/8/8/8/3K4");
    assert_eq!(covered(&s), 64);
    assert_eq!(covered(&empty_board().fen_string_2p()), 64);
    assert_eq!(empty_board().fen_string_2p(), "8/8/8/8/8/8/8/8");
}

#[test]
fn king_on_d1_has_five_quiet_plays() {
    let mut position = empty_board();
    put(&mut position, 3, 0, 0);
    put(&mut position, 60, 1, 0);
    position.alphas[0] = Some(Coord::from(3));
    position.alphas[1] = Some(Coord::from(60));
    let plays = position.troop_plays(Coord::from(3));
    assert_eq!(plays.len(), 5);
    assert!(plays.iter().all(|p| p.threats.is_empty()));
    assert_eq!(targets(&plays), vec![2, 10, 11, 4, 12]);
}

#[test]
fn king_captures_adjacent_king_safely() {
    let mut position = empty_board();
    put(&mut position, 1, 0, 0);
    put(&mut position, 0, 1, 0);
    position.alphas[0] = Some(Coord::from(1));
    position.alphas[1] = Some(Coord::from(0));
    let plays = position.troop_plays(Coord::from(1));
    let capture = plays.iter().find(|p| p.to.idx == 0).unwrap();
    assert_eq!(threats(capture), vec![0]);
    assert!(position.is_play_safe(Coord::from(1), capture));
    assert_eq!(targets(&plays), vec![0, 8, 9, 2, 10]);
}

#[test]
fn castling_precondition_follows_the_path() {
    let mut position = empty_board();
    put(&mut position, 4, 0, 0);
    put(&mut position, 7, 0, 2);
    let rule = Castling::new(Coord::from(7), Coord::from(5), vec![Coord::from(5), Coord::from(6)], vec![TroopId::from(2)]);
    assert!(rule.can_castle(&position, Side::from(0)));
    assert!(!rule.can_castle(&position, Side::from(1)));

    put(&mut position, 6, 1, 4);
    assert!(!rule.can_castle(&position, Side::from(0)));
    position.tiles[6] = None;
    put(&mut position, 5, 0, 3);
    assert!(!rule.can_castle(&position, Side::from(0)));
    position.tiles[5] = None;
    assert!(rule.can_castle(&position, Side::from(0)));

    let queen_only = Castling::new(Coord::from(7), Coord::from(5), vec![Coord::from(5), Coord::from(6)], vec![TroopId::from(1)]);
    assert!(!queen_only.can_castle(&position, Side::from(0)));
    position.tiles[7] = None;
    assert!(!rule.can_castle(&position, Side::from(0)));
}

#[test]
fn castling_moves_king_and_partner() {
    let mut position = empty_board();
    put(&mut position, 4, 0, 0);
    put(&mut position, 7, 0, 2);
    let rule = Castling::new(
        Coord::from(7),
        Coord::from(5),
        vec![Coord::from(4), Coord::from(5), Coord::from(6)],
        vec![TroopId::from(2)],
    );
    let ply = rule.do_castle(&mut position);
    assert_eq!((ply.from.idx, ply.to.idx, ply.castle_from.idx, ply.castle_to.idx), (4, 6, 7, 5));
    assert_eq!(position.tiles[6], Some((Side::from(0), TroopId::from(0))));
    assert_eq!(position.tiles[5], Some((Side::from(0), TroopId::from(2))));
    assert!(position.tiles[4].is_none());
    assert!(position.tiles[7].is_none());
    assert_eq!(position.passant.iter().map(|c| c.idx).collect::<Vec<_>>(), vec![4, 5, 6]);
}

#[test]
fn en_passant_is_open_for_one_ply() {
    let mut position = empty_board();
    put(&mut position, 36, 0, 5);
    put(&mut position, 51, 1, 5);
    let plays = position.troop_plays(Coord::from(51));
    assert_eq!(targets(&plays), vec![43, 35]);
    position.troop_play(Coord::from(51), &plays[1]);

    let plays = position.troop_plays(Coord::from(36));
    assert_eq!(targets(&plays), vec![44, 43]);
    assert_eq!(threats(&plays[1]), vec![35]);
    position.troop_play(Coord::from(36), &plays[1]);
    assert!(position.tiles[35].is_none());
    assert!(position.tiles[36].is_none());
    assert_eq!(position.tiles[43], Some((Side::from(0), TroopId::from(5))));
    assert_eq!(position.passant.len(), 0);
}

#[test]
fn en_passant_closes_after_another_move() {
    let mut position = empty_board();
    put(&mut position, 36, 0, 5);
    put(&mut position, 51, 1, 5);
    put(&mut position, 0, 0, 2);
    let plays = position.troop_plays(Coord::from(51));
    position.troop_play(Coord::from(51), &plays[1]);
    let rook = position.troop_plays(Coord::from(0));
    position.troop_play(Coord::from(0), &rook[0]);
    assert_eq!(targets(&position.troop_plays(Coord::from(36))), vec![44]);
}

#[test]
fn pawn_capture_keeps_the_capturer() {
    let mut position = empty_board();
    put(&mut position, 28, 0, 5);
    put(&mut position, 35, 1, 5);
    let plays = position.troop_plays(Coord::from(28));
    assert_eq!(targets(&plays), vec![36, 35]);
    assert_eq!(threats(&plays[1]), vec![35]);
    position.troop_play(Coord::from(28), &plays[1]);
    assert_eq!(position.tiles[35], Some((Side::from(0), TroopId::from(5))));
    assert!(position.tiles[28].is_none());
}

#[test]
fn pawn_on_last_rank_becomes_troop_zero() {
    let mut position = empty_board();
    put(&mut position, 48, 0, 5);
    put(&mut position, 9, 1, 5);
    let plays = position.troop_plays(Coord::from(48));
    assert_eq!(targets(&plays), vec![56]);
    position.troop_play(Coord::from(48), &plays[0]);
    assert_eq!(position.tiles[56], Some((Side::from(0), TroopId::from(0))));
    let plays = position.troop_plays(Coord::from(9));
    assert_eq!(targets(&plays), vec![1]);
    position.troop_play(Coord::from(9), &plays[0]);
    assert_eq!(position.tiles[1], Some((Side::from(1), TroopId::from(0))));
}

#[test]
fn sliding_stops_at_the_first_troop() {
    let mut position = empty_board();
    put(&mut position, 0, 0, 2);
    assert_eq!(position.troop_plays(Coord::from(0)).len(), 14);
    put(&mut position, 3, 1, 4);
    put(&mut position, 16, 0, 4);
    let plays = position.troop_plays(Coord::from(0));
    assert_eq!(targets(&plays), vec![1, 2, 3, 8]);
    assert_eq!(threats(&plays[2]), vec![3]);
    assert!(plays.iter().filter(|p| p.to.idx != 3).all(|p| p.threats.is_empty()));

    let mut queen = empty_board();
    put(&mut queen, 27, 0, 1);
    assert_eq!(queen.troop_plays(Coord::from(27)).len(), 27);
    let start = setup_classical();
    assert!(start.troop_plays(Coord::from(2)).is_empty());
    assert!(start.troop_plays(Coord::from(4)).is_empty());
}

#[test]
fn attack_map_marks_the_mover_side() {
    let mut position = empty_board();
    put(&mut position, 0, 0, 2);
    put(&mut position, 32, 1, 4);
    let info = position.analyze();
    assert_eq!(info.threats.len(), 64);
    assert!(info.threats[32][0]);
    assert!(!info.threats[32][1]);
    assert!(!info.threats[8][0]);
    assert!(!info.threats[0][1]);
    put(&mut position, 17, 0, 5);
    let info = position.analyze();
    assert!(info.threats[17][1]);
    assert!(!info.threats[17][0]);
}

#[test]
fn pinned_rook_may_only_stay_on_the_file() {
    let mut position = empty_board();
    put(&mut position, 4, 0, 0);
    put(&mut position, 12, 0, 2);
    put(&mut position, 60, 1, 2);
    position.alphas[0] = Some(Coord::from(4));
    let plays = position.troop_plays(Coord::from(12));
    let sideways = plays.iter().find(|p| p.to.idx == 11).unwrap();
    let forward = plays.iter().find(|p| p.to.idx == 20).unwrap();
    let capture = plays.iter().find(|p| p.to.idx == 60).unwrap();
    assert!(!position.is_play_safe(Coord::from(12), sideways));
    assert!(position.is_play_safe(Coord::from(12), forward));
    assert!(position.is_play_safe(Coord::from(12), capture));
    assert!(position.tiles[12].is_some());
    assert!(!position.in_check(Side::from(0)));
}

#[test]
fn coordinates_and_names() {
    let game = classical_game();
    assert_eq!(Coord::from_xy(&game, 3, 2).idx, 19);
    assert_eq!(Coord::from(19).decomp(&game), (3, 2));
    assert_eq!(Coord::from(0).fmt(&game), "a1");
    assert_eq!(Coord::from(63).fmt(&game), "h8");
    assert_eq!(Coord::from(12).fmt(&game), "e2");
    assert_eq!(game.get_troop(TroopId::from(5)).char, 'P');
    assert_eq!(game.get_troop(TroopId::from(0)).char, 'K');
    assert_eq!(game.troops.len(), 6);
}

#[test]
fn duplicate_shares_no_tiles() {
    let position = setup_classical();
    let mut copy = position.duplicate();
    copy.tiles[12] = None;
    assert!(position.tiles[12].is_some());
    assert_eq!(copy.fen_string_2p(), "rnbqkbnr/pppppppp/8/8/8/8/PPPP1PPP/RNBQKBNR");
    assert_eq!(position.fen_string_2p(), "rnbqkbnr/pppppppp/8/8/8/8/PPPPPPPP/RNBQKBNR");
}

#[test]
fn recorded_ply_is_in_the_first_slot() {
    let mut position = setup_classical();
    let plays = position.troop_plays(Coord::from(12));
    position.troop_play(Coord::from(12), &plays[0]);
    match &position.recent_plys[0] {
        Ply::Move(m) => {
            assert_eq!((m.from.idx, m.to.idx, m.troop.idx), (12, 20, 5));
            assert!(m.kills.is_empty());
        },
        _ => panic!("expected a move"),
    }
    assert_eq!(position.recent_plys.len(), 24);
}

#[test]
fn rank_numbers_above_nine_are_written_in_decimal() {
    let tall = Game { width: 1, height: 16, troops: Vec::new(), multi_castle: false };
    assert_eq!(Coord::from(9u8).fmt(&tall), "a10");
    assert_eq!(Coord::from(15u8).fmt(&tall), "a16");
    assert_eq!(Coord::from(8u8).fmt(&tall), "a9");
}

#[test]
fn promotion_rank_is_seven_on_a_taller_board() {
    let classical = classical_game();
    let game = Rc::new(Game { width: 8, height: 10, troops: classical.troops.clone(), multi_castle: false });
    let mut position = Position::new(game);
    put(&mut position, 48, 0, 5);
    let plays = position.troop_plays(Coord::from(48u8));
    assert_eq!(targets(&plays), vec![56]);
    position.troop_play(Coord::from(48u8), &plays[0]);
    assert_eq!(position.tiles[56], Some((Side::from(0u8), TroopId::from(0u8))));

    put(&mut position, 54, 1, 5);
    let plays = position.troop_plays(Coord::from(54u8));
    assert_eq!(targets(&plays), vec![46, 38]);
}

#[test]
fn conversions_and_indexing_by_coord_and_side() {
    assert_eq!(Coord::from(300i32).idx, 44);
    assert_eq!(Coord::from(12usize).idx, 12);
    assert_eq!(Side::from(1i32).idx, 1);
    assert_eq!(Side::from(2usize).idx, 2);
    assert_eq!(TroopId::from(5i32).idx, 5);

    let mut position = setup_classical();
    assert_eq!(position.tiles[..][Coord::from(60u8)], Some((Side::from(1u8), TroopId::from(0u8))));
    position.alphas[..][Side::from(1u8)] = Some(Coord::from(60u8));
    assert_eq!(position.alphas[1], Some(Coord::from(60u8)));
    position.tiles[..][Coord::from(60u8)] = None;
    assert!(position.tiles[60].is_none());
}

#[test]
fn fresh_positions_have_empty_slots() {
    for position in [setup_classical(), empty_board()] {
        assert_eq!(position.recent_plys.len(), 24);
        assert!(position.recent_plys.iter().all(|p| matches!(p, Ply::Empty)));
        assert_eq!(position.castlings.len(), 8);
        assert!(position.castlings.iter().all(|c| c.is_empty()));
        assert!(position.alphas.iter().all(|a| a.is_none()));
    }
}

#[test]
fn duplicate_copies_history_and_castling_rules() {
    let mut position = empty_board();
    put(&mut position, 4, 0, 0);
    put(&mut position, 7, 0, 2);
    position.castlings[0].push(Castling::new(Coord::from(7u8), Coord::from(5u8), vec![Coord::from(5u8), Coord::from(6u8)], vec![TroopId::from(2u8)]));
    let plays = position.troop_plays(Coord::from(4u8));
    position.troop_play(Coord::from(4u8), &plays[0]);
    let mut copy = position.duplicate();
    match &copy.recent_plys[0] {
        Ply::Move(m) => assert_eq!((m.from.idx, m.to.idx, m.troop.idx), (4, 3, 0)),
        _ => panic!("expected a move"),
    }
    assert_eq!(copy.castlings[0].len(), 1);
    assert!(copy.castlings[0][0].can_castle(&copy, Side::from(0u8)));
    copy.castlings[0].clear();
    assert_eq!(position.castlings[0].len(), 1);
}
