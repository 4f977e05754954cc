use warhorse::board::{BLACK, EMPTY, KING, KNIGHT, PAWN, ROOK, WHITE};
use warhorse::fen::from_fen;
use warhorse::movegen::{generate_legal, MoveList};
use warhorse::notation::parse_uci_move;
use warhorse::position::{Position, Undo};
use warhorse::text::{move_to_uci, parse_square};

const START_FEN: &str = "rnbqkbnr/pppppppp/8/8/8/8/PPPPPPPP/RNBQKBNR w KQkq - 0 1";

fn legal_uci(pos: &mut Position) -> Vec<String> {
    let mut list = MoveList::new();
    generate_legal(pos, &mut list, false);
    list.moves.iter().map(|&mv| move_to_uci(mv)).collect()
}

fn play(pos: &mut Position, text: &str) -> Undo {
    let mv = parse_uci_move(pos, text).unwrap_or_else(|| panic!("expected legal move {text}"));
    pos.make_move(mv)
}

fn play_line(pos: &mut Position, moves: &[&str]) -> Vec<u64> {
    let mut history = vec![pos.hash];
    for text in moves {
        play(pos, text);
        history.push(pos.hash);
    }
    history
}

#[test]
fn basic_pawn_rules_and_turn_switching() {
    let mut pos = from_fen(START_FEN).unwrap();
    let legal = legal_uci(&mut pos);
    assert_eq!(legal.len(), 20);
    for expected in ["a2a3", "a2a4", "e2e3", "e2e4"] {
        assert!(legal.contains(&expected.to_string()));
    }
    for illegal in ["a2a5", "e2e1", "e2f3", "e7e5", "e2e4q", "\u{20ac}a"] {
        assert!(parse_uci_move(&mut pos, illegal).is_none(), "{illegal}");
    }
    play(&mut pos, "e2e4");
    assert_eq!(pos.side, BLACK);
    assert_eq!(pos.ep, parse_square("e3").unwrap() as i8);
    assert_eq!(pos.halfmove, 0);
    assert_eq!(pos.fullmove, 1);
    play(&mut pos, "c7c5");
    assert_eq!(pos.side, WHITE);
    assert_eq!(pos.fullmove, 2);
}

#[test]
fn piece_movement_and_sliding_obstruction() {
    let mut start = from_fen(START_FEN).unwrap();
    let legal = legal_uci(&mut start);
    assert!(legal.contains(&"b1a3".into()) && legal.contains(&"g1f3".into()));
    assert!(!legal.iter().any(|mv| mv.starts_with("c1")));
    assert!(!legal.iter().any(|mv| mv.starts_with("a1")));
    assert!(!legal.iter().any(|mv| mv.starts_with("d1")));

    let mut sliders = from_fen("4k3/8/8/3p4/3Q4/4P3/8/4K3 w - - 0 1").unwrap();
    let legal = legal_uci(&mut sliders);
    assert!(legal.contains(&"d4d5".into()));
    assert!(!legal.contains(&"d4d6".into()));
    assert!(!legal.contains(&"d4e3".into()));
    assert!(legal.contains(&"d4a4".into()));
    assert!(legal.contains(&"d4h4".into()));

    let mut bishop = from_fen("4k3/8/8/8/8/4P3/3B4/4K3 w - - 0 1").unwrap();
    let legal = legal_uci(&mut bishop);
    assert!(!legal.contains(&"d2e3".into()));
    assert!(!legal.contains(&"d2f4".into()));

    let mut rook = from_fen("4k3/8/8/8/8/8/P7/R3K3 w - - 0 1").unwrap();
    let legal = legal_uci(&mut rook);
    assert!(!legal.contains(&"a1a2".into()));
    assert!(!legal.contains(&"a1a8".into()));
}

#[test]
fn pins_checks_and_king_safety_are_enforced() {
    let mut pinned = from_fen("4r1k1/8/8/8/8/8/4N3/4K3 w - - 0 1").unwrap();
    assert!(pinned.in_check(WHITE) == false);
    assert!(!legal_uci(&mut pinned).iter().any(|mv| mv.starts_with("e2")));

    let mut checked = from_fen("4r1k1/8/8/8/8/8/4r3/4K3 w - - 0 1").unwrap();
    assert!(checked.in_check(WHITE));
    assert!(parse_uci_move(&mut checked, "e1e2").is_none());

    let mut king = from_fen("3r2k1/8/8/8/8/8/3r4/4K3 w - - 0 1").unwrap();
    assert!(parse_uci_move(&mut king, "e1d2").is_none());

    let mut safe_king = from_fen("7k/8/8/8/8/8/8/4K3 w - - 0 1").unwrap();
    assert!(parse_uci_move(&mut safe_king, "e1d1").is_some());
    assert!(parse_uci_move(&mut safe_king, "e1e2").is_some());
}

#[test]
fn castling_and_rights_transitions_are_correct() {
    let fen = "r3k2r/8/8/8/8/8/8/R3K2R w KQkq - 0 1";
    let mut pos = from_fen(fen).unwrap();
    let legal = legal_uci(&mut pos);
    assert!(legal.contains(&"e1g1".into()));
    assert!(legal.contains(&"e1c1".into()));
    play(&mut pos, "e1g1");
    assert_eq!(pos.board[parse_square("g1").unwrap() as usize], KING);
    assert_eq!(pos.board[parse_square("f1").unwrap() as usize], ROOK);
    assert_eq!(pos.castle & 3, 0);

    let mut black = from_fen("r3k2r/8/8/8/8/8/8/R3K2R b KQkq - 0 1").unwrap();
    assert!(legal_uci(&mut black).contains(&"e8c8".into()));
    play(&mut black, "e8c8");
    assert_eq!(black.board[parse_square("c8").unwrap() as usize], -KING);
    assert_eq!(black.board[parse_square("d8").unwrap() as usize], -ROOK);

    let mut through_check = from_fen("4k3/8/8/8/2b5/8/8/4K2R w K - 0 1").unwrap();
    assert!(!legal_uci(&mut through_check).contains(&"e1g1".into()));

    let mut king_moved = from_fen(fen).unwrap();
    play(&mut king_moved, "e1f1");
    assert_eq!(king_moved.castle & 3, 0);

    let mut rook_moved = from_fen(fen).unwrap();
    play(&mut rook_moved, "h1h2");
    assert_eq!(rook_moved.castle & 1, 0);
    assert_ne!(rook_moved.castle & 2, 0);

    let mut rook_captured = from_fen("4k3/8/8/8/8/8/q7/R3K3 b Q - 0 1").unwrap();
    play(&mut rook_captured, "a2a1");
    assert_eq!(rook_captured.castle & 2, 0);
}

#[test]
fn en_passant_creation_capture_expiry_and_king_safety() {
    let mut pos = from_fen(START_FEN).unwrap();
    play_line(&mut pos, &["e2e4", "a7a6", "e4e5", "d7d5"]);
    assert!(legal_uci(&mut pos).contains(&"e5d6".into()));
    let undo = play(&mut pos, "e5d6");
    assert_eq!(undo.captured, -PAWN);
    assert_eq!(pos.board[parse_square("d6").unwrap() as usize], PAWN);
    assert_eq!(pos.board[parse_square("d5").unwrap() as usize], EMPTY);

    let mut expires = from_fen(START_FEN).unwrap();
    play_line(&mut expires, &["e2e4", "a7a6", "e4e5", "d7d5", "a2a3", "a6a5"]);
    assert!(!legal_uci(&mut expires).contains(&"e5d6".into()));

    let mut pinned = from_fen("4r1k1/8/8/3pP3/8/8/8/4K3 w - d6 0 1").unwrap();
    assert!(!legal_uci(&mut pinned).contains(&"e5d6".into()));
}

#[test]
fn promotion_replaces_pawn_and_capture_state_is_reversible() {
    let mut promotion = from_fen("7k/1P6/8/8/8/8/8/7K w - - 0 1").unwrap();
    let legal = legal_uci(&mut promotion);
    for suffix in ['q', 'r', 'b', 'n'] {
        assert!(legal.contains(&format!("b7b8{suffix}")));
    }
    play(&mut promotion, "b7b8n");
    assert_eq!(promotion.board[parse_square("b8").unwrap() as usize], KNIGHT);
    assert_eq!(promotion.board[parse_square("b7").unwrap() as usize], EMPTY);

    let mut capture = from_fen("4k3/8/8/8/8/8/4p3/4R1K1 w - - 0 1").unwrap();
    let before = capture.clone();
    let mv = parse_uci_move(&mut capture, "e1e2").unwrap();
    let undo = capture.make_move(mv);
    assert_eq!(undo.captured, -PAWN);
    assert_eq!(capture.board[parse_square("e2").unwrap() as usize], ROOK);
    assert_eq!(capture.board[parse_square("e1").unwrap() as usize], EMPTY);
    capture.unmake_move(mv, undo);
    assert_eq!(capture, before);
}

#[test]
fn fen_rejects_impossible_rule_state() {
    assert!(from_fen("4k3/8/8/8/8/8/8/4K3 w - -").is_err());
    assert!(from_fen("4k3/8/8/8/8/8/8/4K3 w - - 0 1 extra").is_err());
    assert!(from_fen("4k3/8/8/8/8/8/7R/4K3 w K - 0 1").is_err());
    assert!(from_fen("4k3/4n3/8/4pP2/8/8/8/4K3 w - e6 0 1").is_err());
    assert!(from_fen("4k3/8/8/4pP2/8/8/8/4K3 w - e6 1 1").is_err());
}

#[test]
fn rejects_corrupt_en_passant_state() {
    assert!(from_fen("7k/8/8/P7/8/8/8/7K w - b6 0 1").is_err());
}

#[test]
fn repetition_hash_only_includes_legal_en_passant() {
    let no_ep =
        from_fen("rnbqkbnr/pppppppp/8/8/P7/8/1PPPPPPP/RNBQKBNR b KQkq - 0 1").unwrap();
    let uncapturable =
        from_fen("rnbqkbnr/pppppppp/8/8/P7/8/1PPPPPPP/RNBQKBNR b KQkq a3 0 1").unwrap();
    assert_eq!(no_ep.hash, uncapturable.hash);

    let legal = from_fen("7k/8/8/8/Pp6/8/8/7K b - a3 0 1").unwrap();
    let missing = from_fen("7k/8/8/8/Pp6/8/8/7K b - - 0 1").unwrap();
    assert_ne!(legal.hash, missing.hash);
}
