use std::sync::atomic::AtomicBool;
use std::sync::Arc;
use warhorse::board::{encode_move, move_from, move_promo, move_to, FLAG_PROMO, KNIGHT, WHITE};
use warhorse::eval::evaluate;
use warhorse::fen::{from_fen, START_FEN};
use warhorse::movegen::{generate_legal, MoveList};
use warhorse::perft::{perft, perft_divide};
use warhorse::notation::parse_uci_move;
use warhorse::protocol::{parse_go, set_position};
use warhorse::search::{GoLimits, SearchReport, Searcher};
use warhorse::text::{move_to_uci, parse_square, parse_unsigned, split_whitespace, square_name};
use warhorse::tt::{TransTable, TT_EXACT, TT_LOWER};
use warhorse::uci::{report_line, UciSession};
use warhorse::web::{web_answer, web_error, web_position, web_snapshot, web_threefold};
use warhorse::zobrist::{piece_square_key, side_to_move_key};

fn splitmix(state: &mut u64) -> u64 {
    *state = state.wrapping_add(0x9E3779B97F4A7C15);
    let mut z = *state;
    z = (z ^ (z >> 30)).wrapping_mul(0xBF58476D1CE4E5B9);
    z = (z ^ (z >> 27)).wrapping_mul(0x94D049BB133111EB);
    z ^ (z >> 31)
}

#[test]
fn zobrist_keys_follow_the_generator_sequence() {
    let mut state = 0xC0FFEE1234567890u64;
    let first = splitmix(&mut state);
    assert_eq!(piece_square_key(0, 0), first);
    let second = splitmix(&mut state);
    assert_eq!(piece_square_key(0, 1), second);
    let mut state = 0xC0FFEE1234567890u64;
    let mut side = 0;
    for _ in 0..(12 * 64 + 1) {
        side = splitmix(&mut state);
    }
    assert_eq!(side_to_move_key(), side);
}

#[test]
fn move_encoding_round_trips() {
    let mv = encode_move(12, 60, KNIGHT, FLAG_PROMO);
    assert_eq!(move_from(mv), 12);
    assert_eq!(move_to(mv), 60);
    assert_eq!(move_promo(mv), KNIGHT);
    assert_eq!(move_to_uci(mv), "e2e8n");
}

#[test]
fn square_names_round_trip() {
    for sq in 0..64u8 {
        assert_eq!(parse_square(&square_name(sq)), Some(sq));
    }
    assert_eq!(square_name(0), "a1");
    assert_eq!(square_name(63), "h8");
    assert_eq!(parse_square("i1"), None);
    assert_eq!(parse_square("a9"), None);
    assert_eq!(parse_square("a10"), None);
}

#[test]
fn uci_text_names_each_legal_move() {
    let mut pos = from_fen("r3k2r/Pppp1ppp/1b3nbN/nP6/BBP1P3/q4N2/Pp1P2PP/R2Q1RK1 w kq - 0 1")
        .unwrap();
    let mut list = MoveList::new();
    generate_legal(&pos, &mut list, false);
    for &mv in &list.moves {
        assert_eq!(parse_uci_move(&mut pos, &move_to_uci(mv)), Some(mv));
    }
}

#[test]
fn unsigned_numbers_parse_like_std() {
    let c = |s: &str| s.chars().collect::<Vec<char>>();
    assert_eq!(parse_unsigned(&c("42"), 65535), Some(42));
    assert_eq!(parse_unsigned(&c("+7"), 65535), Some(7));
    assert_eq!(parse_unsigned(&c("65536"), 65535), None);
    assert_eq!(parse_unsigned(&c(""), 65535), None);
    assert_eq!(parse_unsigned(&c("-1"), 65535), None);
    assert_eq!(parse_unsigned(&c("18446744073709551615"), u64::MAX), Some(u64::MAX));
}

#[test]
fn whitespace_splitting_matches_std() {
    let text = "  go\tdepth 5 \n nodes  9 ";
    let chars: Vec<char> = text.chars().collect();
    let words: Vec<String> =
        split_whitespace(&chars).iter().map(|w| w.iter().collect::<String>()).collect();
    let expected: Vec<String> = text.split_whitespace().map(String::from).collect();
    assert_eq!(words, expected);
}

#[test]
fn fen_text_round_trips() {
    for fen in [
        START_FEN,
        "r3k2r/p1ppqpb1/bn2pnp1/3PN3/1p2P3/2N2Q1p/PPPBBPPP/R3K2R w KQkq - 0 1",
        "rnbq1k1r/pp1Pbppp/2p5/8/2B5/8/PPP1NnPP/RNBQK2R w KQ - 1 8",
        "7k/8/8/8/Pp6/8/8/7K b - a3 0 1",
        "8/8/8/8/8/8/4k3/7K w - - 99 120",
    ] {
        assert_eq!(from_fen(fen).unwrap().to_fen(), fen);
    }
}

#[test]
fn evaluation_gives_the_side_to_move_a_tempo_of_eight() {
    for (white, black) in [
        ("4k3/8/8/8/8/8/4Q3/4K3 w - - 0 1", "4k3/8/8/8/8/8/4Q3/4K3 b - - 0 1"),
        (START_FEN, "rnbqkbnr/pppppppp/8/8/8/8/PPPPPPPP/RNBQKBNR b KQkq - 0 1"),
    ] {
        let w = evaluate(&from_fen(white).unwrap());
        let b = evaluate(&from_fen(black).unwrap());
        assert_eq!(w + b, 16);
    }
    assert_eq!(evaluate(&from_fen(START_FEN).unwrap()), 8);
}

#[test]
fn go_limits_follow_the_clock() {
    let quick = parse_go("go movetime 250", WHITE);
    assert_eq!(quick.soft, Some(222));
    assert_eq!(quick.depth, 64);
    let tiny = parse_go("go movetime 2", WHITE);
    assert_eq!(tiny.hard, Some(1));
    assert_eq!(tiny.soft, Some(1));
    let clock = parse_go("go wtime 10000 btime 5000 winc 100 binc 40", WHITE);
    // usable 9992, target 9992/25 + 75 = 474
    assert_eq!(clock.soft, Some(474));
    assert_eq!(clock.hard, Some(1422));
    let black = parse_go("go wtime 10000 btime 5000 winc 100 binc 40 movestogo 10", -1);
    // usable 4992, target 4992/10 + 30 = 529
    assert_eq!(black.soft, Some(529));
    assert_eq!(black.hard, Some(1587));
    let limited = parse_go("go depth 99 nodes 500", WHITE);
    assert_eq!(limited, GoLimits { depth: 64, soft: None, hard: None, nodes: Some(500) });
    let shallow = parse_go("go infinite depth 3", WHITE);
    assert_eq!(shallow.depth, 3);
    let broken = parse_go("go depth x movetime", WHITE);
    assert_eq!(broken, GoLimits { depth: 64, soft: None, hard: None, nodes: None });
}

#[test]
fn position_commands_report_their_errors() {
    let mut pos = from_fen(START_FEN).unwrap();
    let mut history = vec![pos.hash];
    let before = pos;
    assert_eq!(set_position("position", &mut pos, &mut history), Err("missing position".into()));
    assert_eq!(
        set_position("position fen 8/8/8/8 w", &mut pos, &mut history),
        Err("incomplete FEN".into())
    );
    assert_eq!(
        set_position("position kiwipete", &mut pos, &mut history),
        Err("position must use startpos or fen".into())
    );
    assert_eq!(
        set_position("position startpos moves e2e4 e2e4", &mut pos, &mut history),
        Err("illegal move e2e4".into())
    );
    assert_eq!(
        set_position("position fen 8/8/8/8/8/8/8/8 w - - 0 1", &mut pos, &mut history),
        Err("FEN must contain exactly one king per side".into())
    );
    assert_eq!(pos, before);
    assert_eq!(history, vec![before.hash]);

    set_position(
        "position fen 4k3/8/8/8/8/8/4Q3/4K3 w - - 0 1 moves e2e7",
        &mut pos,
        &mut history,
    )
    .unwrap();
    assert_eq!(history.len(), 2);
    assert_eq!(pos.to_fen(), "4k3/4Q3/8/8/8/8/8/4K3 b - - 1 1");
}

#[test]
fn web_answers_are_json() {
    assert_eq!(web_error("bad \"move\" \\ here"), "{\"ok\":false,\"error\":\"bad \\\"move\\\" \\\\ here\"}");
    assert_eq!(web_answer(&vec![]), "{\"ok\":false,\"error\":\"missing web action\"}");
    assert_eq!(
        web_answer(&vec!["fly".into()]),
        "{\"ok\":false,\"error\":\"unknown web action\"}"
    );
    assert_eq!(
        web_answer(&vec!["play".into(), "-".into(), "e2e5".into()]),
        "{\"ok\":false,\"error\":\"illegal player move\"}"
    );
    assert_eq!(
        web_answer(&vec!["play".into(), "-".into()]),
        "{\"ok\":false,\"error\":\"missing player move\"}"
    );
    assert_eq!(
        web_answer(&vec!["state".into(), "e2e4,e2e4".into()]),
        "{\"ok\":false,\"error\":\"illegal move in history: e2e4\"}"
    );
    let mated = "f2f3,e7e5,g2g4,d8h4";
    assert_eq!(
        web_answer(&vec!["play".into(), mated.into(), "a2a3".into()]),
        "{\"ok\":false,\"error\":\"game is already over\"}"
    );
    let state = web_answer(&vec!["play".into(), "e2e4".into(), "e7e5".into()]);
    assert!(state.starts_with("{\"ok\":true,\"fen\":\"rnbqkbnr/pppp1ppp/8/4p3/4P3/8/PPPP1PPP/RNBQKBNR w KQkq e6 0 2\",\"side\":\"w\",\"status\":\"playing\",\"inCheck\":false,\"legal\":["));
    assert!(state.ends_with("],\"engineMove\":null}"));
    let engine = web_answer(&vec!["engine".into(), "-".into(), "40".into()]);
    assert!(engine.contains("\"side\":\"b\""));
    assert!(!engine.contains("\"engineMove\":null"));
}

#[test]
fn threefold_counts_occurrences() {
    assert!(!web_threefold(&[1, 2, 1, 3], 1));
    assert!(web_threefold(&[1, 2, 1, 3, 1], 1));
    let (mut pos, history) = web_position("-").unwrap();
    assert_eq!(history, vec![pos.hash]);
    let snapshot = web_snapshot(&mut pos, &history, None);
    let start = snapshot.find("\"legal\":[").unwrap() + "\"legal\":[".len();
    let end = start + snapshot[start..].find(']').unwrap();
    assert_eq!(snapshot[start..end].split(',').count(), 20);
}

#[test]
fn transposition_table_keeps_deeper_results() {
    let mut tt = TransTable::new(1);
    assert_eq!(tt.entries.len(), 32768);
    tt.put(99, 5, 120, TT_EXACT, 7, 0, 0);
    let e = tt.get(99);
    assert_eq!((e.key, e.depth, e.score, e.flag, e.best), (99, 5, 120, TT_EXACT, 7));
    tt.put(99, 2, -50, TT_LOWER, 8, 0, 0);
    assert_eq!(tt.get(99).best, 7);
    tt.put(99, 3, 29_990, TT_LOWER, 9, 4, 150);
    let e = tt.get(99);
    assert_eq!((e.score, e.depth, e.best, e.rule50), (29_994, 3, 9, 100));
    tt.put(99 + 32768, 1, 10, TT_EXACT, 1, 0, 0);
    assert_eq!(tt.get(99).key, 99 + 32768);
}

#[test]
fn node_limit_bounds_the_search() {
    for limit in [1u64, 5, 50, 500] {
        let mut pos = from_fen(START_FEN).unwrap();
        let hash = pos.hash;
        let mut searcher = Searcher::new(1, Arc::new(AtomicBool::new(false)));
        searcher.own_book = false;
        let best = searcher.search(
            &mut pos,
            GoLimits { depth: 64, soft: None, hard: None, nodes: Some(limit) },
            &[hash],
        );
        assert!(searcher.nodes <= limit);
        assert_ne!(best, 0);
    }
}

#[test]
fn search_answers_zero_without_moves_and_reports_progress() {
    let mut mated = from_fen("7k/5Q2/6K1/8/8/8/8/8 b - - 0 1").unwrap();
    let hash = mated.hash;
    let mut searcher = Searcher::new(1, Arc::new(AtomicBool::new(false)));
    assert_eq!(searcher.search(&mut mated, GoLimits { depth: 3, soft: None, hard: None, nodes: None }, &[hash]), 0);

    let mut start = from_fen(START_FEN).unwrap();
    let hash = start.hash;
    let mv = searcher.search(&mut start, GoLimits { depth: 3, soft: None, hard: None, nodes: None }, &[hash]);
    assert_eq!(move_to_uci(mv), "e2e4");
    assert_eq!(searcher.reports, vec![SearchReport::Book(mv)]);
    assert_eq!(report_line(&searcher.reports[0]), "info string book e2e4");

    searcher.own_book = false;
    let mv = searcher.search(&mut start, GoLimits { depth: 2, soft: None, hard: None, nodes: None }, &[hash]);
    assert_ne!(mv, 0);
    assert_eq!(searcher.reports.len(), 2);
    assert!(report_line(&searcher.reports[1]).starts_with("info depth 2 seldepth "));
    for (i, report) in searcher.reports.iter().enumerate() {
        match report {
            SearchReport::Iteration(it) => assert_eq!(it.depth, i as i32 + 1),
            SearchReport::Book(_) => panic!("book report after leaving the book"),
        }
    }
    match searcher.reports.last() {
        Some(SearchReport::Iteration(it)) => assert_eq!(it.best, mv),
        _ => panic!("missing iteration report"),
    }

    let mut mate_in_one = from_fen("6k1/5ppp/8/8/8/8/5PPP/3R2K1 w - - 0 1").unwrap();
    let hash = mate_in_one.hash;
    let mv = searcher.search(&mut mate_in_one, GoLimits { depth: 4, soft: None, hard: None, nodes: None }, &[hash]);
    assert_eq!(move_to_uci(mv), "d1d8");
    match searcher.reports.last() {
        Some(SearchReport::Iteration(it)) => {
            assert_eq!(it.best, mv);
            assert_eq!(it.mate_in, Some(1));
        }
        _ => panic!("missing iteration report"),
    }
}

#[test]
fn uci_session_answers_commands() {
    let stop = Arc::new(AtomicBool::new(false));
    let mut session = UciSession::new(stop).unwrap();
    let (replies, quit) = session.handle("  uci ").unwrap();
    assert!(!quit);
    let texts: Vec<&str> = replies.iter().map(|r| r.text.as_str()).collect();
    assert_eq!(texts[0], "id name Warhorse 1.0");
    assert_eq!(texts[4], "uciok");
    let (replies, _) = session.handle("isready").unwrap();
    assert_eq!(replies[0].text, "readyok");
    let (replies, _) = session.handle("position startpos moves e2e4 e7e5").unwrap();
    assert!(replies.is_empty());
    assert_eq!(session.history.len(), 3);
    let (replies, _) = session.handle("position startpos moves e2e5").unwrap();
    assert_eq!(replies[0].text, "position error: illegal move e2e5");
    assert!(replies[0].diagnostic);
    let (_, _) = session.handle("setoption name Hash value 4").unwrap();
    assert_eq!(session.hash_mb, 4);
    let (_, _) = session.handle("setoption name OwnBook value false").unwrap();
    assert!(!session.searcher.own_book);
    let (replies, _) = session.handle("go depth 2").unwrap();
    assert!(replies.last().unwrap().text.starts_with("bestmove "));
    let (replies, _) = session.handle("d").unwrap();
    assert!(replies[0].text.starts_with("fen hash "));
    let parts: Vec<&str> = replies[0].text.split(' ').collect();
    assert_eq!(parts[2].len(), 16);
    assert_eq!(parts[3], "eval");
    let (_, quit) = session.handle("quit").unwrap();
    assert!(quit);
}

#[test]
fn perft_divide_sums_to_perft() {
    let mut pos = from_fen("r3k2r/p1ppqpb1/bn2pnp1/3PN3/1p2P3/2N2Q1p/PPPBBPPP/R3K2R w KQkq - 0 1")
        .unwrap();
    let (moves, counts) = perft_divide(&mut pos, 2);
    assert_eq!(moves.len(), 48);
    assert_eq!(counts.iter().sum::<u64>(), perft(&mut pos, 2));
    assert_eq!(perft(&mut pos, 0), 1);
}

#[test]
fn fen_errors_name_the_first_fault() {
    let cases: [(&str, &str); 16] = [
        ("4k3/8/8/8/8/8/8/4K3 w - - 0", "FEN requires exactly six fields"),
        ("4k3/8/8/8/8/8/8/4K3/8 w - - 0 1", "invalid FEN board"),
        ("4k3/8/8/8/8/8/8/4K4 w - - 0 1", "invalid FEN empty-square count"),
        ("4k3/8/8/8/8/8/8/4X3 w - - 0 1", "invalid FEN piece"),
        ("4k3/8/8/8/8/8/8/4K3p w - - 0 1", "invalid FEN placement"),
        ("4k3/8/8/8/8/8/8 w - - 0 1", "incomplete FEN board"),
        ("4k3/8/8/8/8/8/8/4K3 x - - 0 1", "invalid side"),
        ("4k3/8/8/8/8/8/8/4K3 w KX - 0 1", "invalid castling rights"),
        ("4k3/8/8/8/8/8/8/4K3 w KK - 0 1", "duplicate castling right"),
        ("4k3/8/8/8/8/8/8/4K3 w - e9 0 1", "invalid en passant"),
        ("4k3/8/8/8/8/8/8/4K3 w - - x 1", "invalid halfmove clock"),
        ("4k3/8/8/8/8/8/8/4K3 w - - 0 70000", "invalid fullmove number"),
        ("4k3/8/8/8/8/8/8/4K3 w - - 0 0", "fullmove number must be positive"),
        ("4k3/8/8/8/8/8/8/4KK2 w - - 0 1", "FEN must contain exactly one king per side"),
        ("4k3/8/8/8/8/8/8/4K3 w K - 0 1", "castling right requires king and rook on home squares"),
        ("4k3/8/8/8/8/8/8/4K3 w - e6 0 1", "invalid en passant state"),
    ];
    for (fen, message) in cases {
        assert_eq!(from_fen(fen).err(), Some(message.to_string()), "{fen}");
    }
}

#[test]
fn more_clock_time_never_shortens_the_budget() {
    let mut previous = (0u64, 0u64);
    for ms in [1u64, 7, 39, 40, 41, 500, 10_000, 123_456] {
        let limits = parse_go(&format!("go wtime {ms} btime 1 winc 30 movestogo 12"), WHITE);
        let now = (limits.soft.unwrap(), limits.hard.unwrap());
        assert!(now.0 >= previous.0 && now.1 >= previous.1, "{ms}");
        previous = now;
    }
}

#[test]
fn written_fen_reads_back_as_the_same_position() {
    for fen in [
        "  r3k2r/8/8/8/8/8/8/R3K2R   w   qkQK  -  +07  +9 ",
        "4k3/8/8/3pP3/8/8/8/4K3 w - d6 0 3",
        "8/2p5/3p4/KP5r/1R3p1k/8/4P1P1/8 b - - 13 40",
    ] {
        let pos = from_fen(fen).unwrap();
        let again = from_fen(&pos.to_fen()).unwrap();
        assert_eq!(again, pos, "{fen}");
    }
}

#[test]
fn legal_moves_come_grouped_by_origin_square() {
    for fen in [
        START_FEN,
        "r3k2r/p1ppqpb1/bn2pnp1/3PN3/1p2P3/2N2Q1p/PPPBBPPP/R3K2R w KQkq - 0 1",
        "8/2p5/3p4/KP5r/1R3p1k/8/4P1P1/8 b - - 0 1",
    ] {
        let pos = from_fen(fen).unwrap();
        let mut list = MoveList::new();
        generate_legal(&pos, &mut list, false);
        assert!(list.moves.windows(2).all(|w| move_from(w[0]) <= move_from(w[1])), "{fen}");
        let mut tactical = MoveList::new();
        generate_legal(&pos, &mut tactical, true);
        assert!(tactical.moves.windows(2).all(|w| move_from(w[0]) <= move_from(w[1])), "{fen}");
    }
}

#[test]
fn start_position_moves_come_in_generation_order() {
    let pos = from_fen(START_FEN).unwrap();
    let mut list = MoveList::new();
    generate_legal(&pos, &mut list, false);
    let names: Vec<String> = list.moves.iter().map(|&m| move_to_uci(m)).collect();
    assert_eq!(
        names,
        vec![
            "b1c3", "b1a3", "g1h3", "g1f3", "a2a3", "a2a4", "b2b3", "b2b4", "c2c3", "c2c4", "d2d3",
            "d2d4", "e2e3", "e2e4", "f2f3", "f2f4", "g2g3", "g2g4", "h2h3", "h2h4",
        ]
    );
}

#[test]
fn legal_moves_never_leave_the_movers_king_attacked() {
    let mut state = 0x5EED_u64;
    for fen in [
        START_FEN,
        "r3k2r/p1ppqpb1/bn2pnp1/3PN3/1p2P3/2N2Q1p/PPPBBPPP/R3K2R w KQkq - 0 1",
        "8/2p5/3p4/KP5r/1R3p1k/8/4P1P1/8 w - - 0 1",
    ] {
        let mut pos = from_fen(fen).unwrap();
        for _ in 0..60 {
            let mut list = MoveList::new();
            generate_legal(&pos, &mut list, false);
            if list.moves.is_empty() {
                break;
            }
            for &mv in &list.moves {
                let mover = pos.side;
                let undo = pos.make_move(mv);
                assert!(!pos.in_check(mover), "{fen}: {}", move_to_uci(mv));
                pos.unmake_move(mv, undo);
            }
            let mv = list.moves[(splitmix(&mut state) % list.moves.len() as u64) as usize];
            pos.make_move(mv);
        }
    }
}
