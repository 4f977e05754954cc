use std::sync::atomic::AtomicBool;
use std::sync::Arc;
use warhorse::board::{BLACK, ROOK, WHITE};
use warhorse::book::{book_entry, opening_move, BOOK_SIZE};
use warhorse::eval::evaluate;
use warhorse::fen::{from_fen, START_FEN};
use warhorse::material::{insufficient_material, see};
use warhorse::board::piece_value;
use warhorse::movegen::{generate_legal, has_legal_move, MoveList};
use warhorse::notation::parse_uci_move;
use warhorse::position::{Position, Undo};
use warhorse::protocol::{parse_go, set_position};
use warhorse::search::{GoLimits, Searcher};
use warhorse::text::move_to_uci;
use warhorse::web::{web_position, web_snapshot};

fn play(pos: &mut Position, text: &str) -> Undo {
    let mv = parse_uci_move(pos, text).unwrap_or_else(|| panic!("expected legal move {text}"));
    pos.make_move(mv)
}

fn play_line(pos: &mut Position, moves: &[&str]) -> Vec<u64> {
    let mut history = vec![pos.hash];
    for text in moves {
        play(pos, text);
        history.push(pos.hash);
    }
    history
}

fn limits(depth: i32) -> GoLimits {
    GoLimits { depth, soft: None, hard: None, nodes: None }
}

#[test]
fn checkmate_stalemate_and_normal_play_are_distinct() {
    let mut mate = from_fen(START_FEN).unwrap();
    let history = play_line(&mut mate, &["f2f3", "e7e5", "g2g4", "d8h4"]);
    assert!(mate.in_check(WHITE));
    assert!(!has_legal_move(&mut mate));
    assert!(web_snapshot(&mut mate, &history, None).contains("\"status\":\"checkmate\""));

    let mut stale = from_fen("7k/5Q2/6K1/8/8/8/8/8 b - - 0 1").unwrap();
    let hash = stale.hash;
    assert!(!stale.in_check(BLACK));
    assert!(!has_legal_move(&mut stale));
    assert!(web_snapshot(&mut stale, &[hash], None).contains("\"status\":\"stalemate\""));

    let mut normal = from_fen(START_FEN).unwrap();
    let hash = normal.hash;
    assert!(web_snapshot(&mut normal, &[hash], None).contains("\"status\":\"playing\""));
}

#[test]
fn two_knights_are_not_automatically_dead_material() {
    let live = from_fen("7k/8/5NN1/8/8/8/8/5K2 w - - 0 1").unwrap();
    assert!(!insufficient_material(&live));
    let mut mate = from_fen("7k/5K2/5NN1/8/8/8/8/8 b - - 0 1").unwrap();
    assert!(mate.in_check(BLACK));
    assert!(!has_legal_move(&mut mate));
}

#[test]
fn web_history_rejects_moves_after_terminal_positions() {
    let repeated = "g1f3,g8f6,f3g1,f6g8,g1f3,g8f6,f3g1,f6g8";
    let (mut pos, history) = web_position(repeated).unwrap();
    assert!(web_snapshot(&mut pos, &history, None).contains("\"status\":\"draw\""));
    assert!(web_position(&format!("{repeated},e2e4")).is_err());
}

#[test]
fn null_move_and_search_restore_state_and_history() {
    let mut pos = from_fen("4k3/8/8/8/8/8/4Q3/4K3 w - - 37 1").unwrap();
    let before = pos.clone();
    let undo = pos.make_null();
    assert_eq!(pos.side, BLACK);
    assert_eq!(pos.halfmove, 38);
    assert_eq!(pos.ep, -1);
    pos.unmake_null(undo);
    assert_eq!(pos, before);

    let stop = Arc::new(AtomicBool::new(false));
    let mut searcher = Searcher::new(1, stop);
    searcher.own_book = false;
    let history = [11, 22, 33, 44, before.hash];
    let best = searcher.search(&mut pos, limits(5), &history);
    assert_ne!(best, 0);
    assert_eq!(&searcher.hashes[..history.len()], &history);
    assert_eq!(searcher.null_depth, 0);
    assert_eq!(pos, before);
}

#[test]
fn every_opening_book_entry_is_legal() {
    for i in 0..BOOK_SIZE {
        let (line, choice) = book_entry(i);
        let mut pos = from_fen(START_FEN).unwrap();
        for text in line.split_whitespace() {
            play(&mut pos, text);
        }
        let expected = parse_uci_move(&mut pos, choice)
            .unwrap_or_else(|| panic!("invalid book move {choice} after {line}"));
        assert_eq!(opening_move(&mut pos), Some(expected));
    }
}

#[test]
fn bounded_search_returns_a_legal_move() {
    let mut pos =
        from_fen("r1bqk2r/pppp1ppp/2n2n2/4p3/2B1P3/2N2N2/PPPP1PPP/R1BQK2R w KQkq - 4 4").unwrap();
    let hash = pos.hash;
    let mut legal = MoveList::new();
    generate_legal(&mut pos, &mut legal, false);
    let stop = Arc::new(AtomicBool::new(false));
    let mut searcher = Searcher::new(1, stop);
    searcher.own_book = false;
    let best = searcher.search(
        &mut pos,
        GoLimits { depth: 16, soft: None, hard: None, nodes: Some(1) },
        &[hash],
    );
    assert!(searcher.nodes <= 1);
    assert!(legal.moves.iter().any(|&mv| mv == best));
}

#[test]
fn tactical_search_finds_forcing_moves() {
    let cases = [
        ("7k/5Q2/6K1/8/8/8/8/8 w - - 0 1", 3, "f7g7"),
        ("6k1/5ppp/8/8/8/8/5PPP/3Q2K1 w - - 0 1", 4, "d1d8"),
        ("4k3/8/3q4/8/2N5/8/8/4K3 w - - 0 1", 5, "c4d6"),
    ];
    for (fen, depth, expected) in cases {
        let stop = Arc::new(AtomicBool::new(false));
        let mut searcher = Searcher::new(4, stop);
        searcher.own_book = false;
        let mut pos = from_fen(fen).unwrap();
        let hash = pos.hash;
        let best = searcher.search(&mut pos, limits(depth), &[hash]);
        assert_eq!(move_to_uci(best), expected, "{fen}");
    }
}

#[test]
fn legal_see_ignores_pinned_and_illegal_king_recaptures() {
    let mut pinned = from_fen("4k3/3pr3/8/8/8/8/8/3QR1K1 w - - 0 1").unwrap();
    let capture = parse_uci_move(&mut pinned, "d1d7").unwrap();
    assert!(see(&pinned, capture) < 0);

    let mut king = from_fen("7k/6r1/8/8/8/2B5/6Q1/K7 w - - 0 1").unwrap();
    let capture = parse_uci_move(&mut king, "g2g7").unwrap();
    assert!(see(&king, capture) >= piece_value(ROOK));

    let mut recapture_promotion = from_fen("r1b4k/1P6/8/8/8/7Q/8/7K w - - 0 1").unwrap();
    let capture = parse_uci_move(&mut recapture_promotion, "h3c8").unwrap();
    assert!(see(&recapture_promotion, capture) > 0);
}

#[test]
fn selective_search_regression_positions() {
    let cases = [
        ("rnbbk2r/pp1p2pp/2p1p2n/5Q1R/8/3P2P1/PPP1PP2/RNBK1BN1 w kq - 1 9", 4, "f5h3"),
        ("r1bk2nr/p1p2p2/1p2p1n1/3p2p1/2PP4/N2BP2P/P4PP1/2RK2R1 w - - 1 18", 4, "c4d5"),
        ("1nb1kb2/1p1p1pp1/1q2pn2/7r/rp3P2/3P2PN/PB2P2P/RN1QK2R b KQ - 1 13", 4, "b4b3"),
    ];
    for (fen, depth, expected) in cases {
        let stop = Arc::new(AtomicBool::new(false));
        let mut searcher = Searcher::new(4, stop);
        searcher.own_book = false;
        let mut pos = from_fen(fen).unwrap();
        let hash = pos.hash;
        let best = searcher.search(&mut pos, limits(depth), &[hash]);
        assert_eq!(move_to_uci(best), expected, "{fen}");
    }
}

#[test]
fn evaluation_and_time_controls_have_expected_direction() {
    let white_to_move = from_fen("4k3/8/8/8/8/8/4Q3/4K3 w - - 0 1").unwrap();
    let black_to_move = from_fen("4k3/8/8/8/8/8/4Q3/4K3 b - - 0 1").unwrap();
    assert!(evaluate(&white_to_move) > 800);
    assert!(evaluate(&black_to_move) < -800);

    let quick = parse_go("go movetime 250", WHITE);
    let deep = parse_go("go movetime 2500", WHITE);
    assert!(quick.soft < deep.soft);
    assert!(quick.hard < deep.hard);
    assert_eq!(quick.hard, Some(247));
    assert_eq!(deep.hard, Some(2497));
}

#[test]
fn draw_material_and_stalemate_are_recognized() {
    for fen in [
        "8/8/8/8/8/8/4k3/7K w - - 0 1",
        "8/8/8/8/8/8/4k3/6BK w - - 0 1",
        "8/8/8/8/8/8/4k3/6NK w - - 0 1",
    ] {
        assert!(insufficient_material(&from_fen(fen).unwrap()));
    }
    let mut stale = from_fen("7k/5Q2/6K1/8/8/8/8/8 b - - 0 1").unwrap();
    assert!(!stale.in_check(stale.side));
    assert!(!has_legal_move(&mut stale));
}

#[test]
fn mate_beats_rule_fifty_and_rook_underpromotion_wins() {
    let stop = Arc::new(AtomicBool::new(false));
    let mut searcher = Searcher::new(4, stop);
    let mut mate = from_fen("7k/5Q2/6K1/8/8/8/8/8 w - - 99 1").unwrap();
    let mate_hash = mate.hash;
    let mv = searcher.search(&mut mate, limits(2), &[mate_hash]);
    assert!(["f7g7", "f7h7", "f7e8", "f7f8"].contains(&move_to_uci(mv).as_str()));

    let mut promotion = from_fen("8/1P6/k7/8/1K6/8/8/8 w - - 0 1").unwrap();
    let promotion_hash = promotion.hash;
    let mv = searcher.search(&mut promotion, limits(3), &[promotion_hash]);
    assert_eq!(move_to_uci(mv), "b7b8r");
}

#[test]
fn repetition_requires_three_occurrences() {
    let stop = Arc::new(AtomicBool::new(false));
    let mut searcher = Searcher::new(1, stop);
    let mut pos = from_fen(START_FEN).unwrap();
    let mut history = Vec::new();
    set_position("position startpos moves g1f3 g8f6 f3g1 f6g8", &mut pos, &mut history).unwrap();
    searcher.hash_len = history.len();
    searcher.hashes[..history.len()].copy_from_slice(&history);
    assert!(!searcher.repetition(&pos));

    set_position(
        "position startpos moves g1f3 g8f6 f3g1 f6g8 g1f3 g8f6 f3g1 f6g8",
        &mut pos,
        &mut history,
    )
    .unwrap();
    searcher.hash_len = history.len();
    searcher.hashes[..history.len()].copy_from_slice(&history);
    assert!(searcher.repetition(&pos));
}
