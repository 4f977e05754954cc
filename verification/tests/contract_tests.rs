use std::sync::atomic::AtomicBool;
use std::sync::Arc;
use warhorse::board::{piece_eval, FLAG_CAPTURE, FLAG_CASTLE, FLAG_EP, FLAG_PROMO, MATE};
use warhorse::fen::{from_fen, START_FEN};
use warhorse::movegen::{generate_legal, generate_pseudo, move_keeps_king_safe, MoveList};
use warhorse::notation::parse_uci_move;
use warhorse::search::{GoLimits, Searcher};
use warhorse::text::move_to_uci;
use warhorse::tt::{TransTable, TT_EXACT};

fn searcher() -> Searcher {
    Searcher::new(1, Arc::new(AtomicBool::new(false)))
}

#[test]
fn mate_on_the_fiftieth_move_scores_as_mate_in_negamax() {
    let mut s = searcher();
    let mut pos = from_fen("7k/6Q1/6K1/8/8/8/8/8 b - - 100 1").unwrap();
    let before = pos.clone();
    assert_eq!(s.negamax(&mut pos, 1, -32000, 32000, 1, true, true, 0), -MATE + 1);
    assert_eq!(pos, before);
    assert!(!s.stopped);
}

#[test]
fn quiescence_scores_mate_and_stalemate() {
    let mut s = searcher();
    let mut mated = from_fen("rnb1kbnr/pppp1ppp/8/4p3/6Pq/5P2/PPPPP2P/RNBQKBNR w KQkq - 1 3").unwrap();
    assert_eq!(s.quiescence(&mut mated, -32000, 32000, 3), -29997);
    let mut stale = from_fen("7k/5Q2/6K1/8/8/8/8/8 b - - 0 1").unwrap();
    assert_eq!(s.quiescence(&mut stale, -32000, 32000, 1), 0);
}

#[test]
fn a_stopped_searcher_answers_zero_and_stays_stopped() {
    let mut s = searcher();
    s.stopped = true;
    let mut pos = from_fen(START_FEN).unwrap();
    let before = pos.clone();
    let nodes = s.nodes;
    assert_eq!(s.negamax(&mut pos, 3, -32000, 32000, 0, true, true, 0), 0);
    assert_eq!(s.quiescence(&mut pos, -100, 100, 2), 0);
    assert!(s.stopped);
    assert_eq!(s.nodes, nodes + 2);
    assert_eq!(pos, before);
}

#[test]
fn root_search_without_legal_moves_answers_minus_infinity() {
    let mut s = searcher();
    let mut stale = from_fen("7k/5Q2/6K1/8/8/8/8/8 b - - 0 1").unwrap();
    assert_eq!(s.root_search(&mut stale, 2, -32000, 32000), (-32000, 0));
    let mut mated = from_fen("7k/6Q1/6K1/8/8/8/8/8 b - - 0 1").unwrap();
    assert_eq!(s.root_search(&mut mated, 1, -32000, 32000), (-32000, 0));
}

#[test]
fn root_search_finds_a_legal_move_with_a_wide_window() {
    let mut s = searcher();
    let mut pos = from_fen(START_FEN).unwrap();
    let (_, mv) = s.root_search(&mut pos, 2, -1_500_000_000, 1_500_000_000);
    let mut legal = MoveList::new();
    generate_legal(&pos, &mut legal, false);
    assert!(legal.moves.contains(&mv));
}

#[test]
fn a_zero_node_limit_searches_no_node() {
    let mut s = searcher();
    let mut pos = from_fen(START_FEN).unwrap();
    let hash = pos.hash;
    let limits = GoLimits { depth: 5, soft: None, hard: None, nodes: Some(0) };
    let mv = s.search(&mut pos, limits, &[hash]);
    assert_eq!(s.nodes, 0);
    let mut legal = MoveList::new();
    generate_legal(&pos, &mut legal, false);
    assert!(legal.moves.contains(&mv));
}

#[test]
fn a_small_node_limit_is_kept() {
    let mut s = searcher();
    s.own_book = false;
    let mut pos = from_fen(START_FEN).unwrap();
    let hash = pos.hash;
    let limits = GoLimits { depth: 20, soft: None, hard: None, nodes: Some(100) };
    let mv = s.search(&mut pos, limits, &[hash]);
    assert!(s.nodes <= 100);
    assert_ne!(mv, 0);
}

#[test]
fn recompute_state_accepts_any_en_passant_square() {
    let mut pos = from_fen("4k3/8/8/8/8/8/8/4K3 w - - 0 1").unwrap();
    let plain = pos.clone();
    pos.ep = 3;
    pos.recompute_state();
    assert_eq!(pos.hash, plain.hash);
    let once = pos.clone();
    pos.recompute_state();
    assert_eq!(pos, once);
    assert_eq!((pos.mg, pos.eg, pos.phase), (plain.mg, plain.eg, plain.phase));
}

#[test]
fn recompute_state_matches_incremental_state() {
    let mut pos = from_fen(START_FEN).unwrap();
    let mv = parse_uci_move(&pos, "e2e4").unwrap();
    pos.make_move(mv);
    let incremental = pos.clone();
    pos.recompute_state();
    assert_eq!(pos, incremental);
}

#[test]
fn tt_put_accepts_scores_far_from_the_mate_band() {
    let mut t = TransTable::new(1);
    t.put(42, 3, 2_000_000_000, TT_EXACT, 7, 5, 0);
    let e = t.get(42);
    assert_eq!(e.key, 42);
    assert_eq!(e.score, 32767);
    t.put(43, 3, -2_000_000_000, TT_EXACT, 7, 5, 0);
    assert_eq!(t.get(43).score, -32767);
}

#[test]
fn piece_values_mirror_between_colours() {
    for piece in 1..=6i8 {
        for sq in 0..64u8 {
            let (mg, eg, ph) = piece_eval(piece, sq);
            assert_eq!(piece_eval(-piece, sq ^ 56), (-mg, -eg, ph));
        }
    }
    assert_eq!(piece_eval(0, 17), (0, 0, 0));
    assert_eq!(piece_eval(2, 27).2, 1);
    assert_eq!(piece_eval(5, 3).2, 4);
}

#[test]
fn a_move_read_from_text_writes_back_the_same_text() {
    let pos = from_fen("4k3/1P6/8/8/8/8/8/4K3 w - - 0 1").unwrap();
    for text in ["b7b8q", "b7b8n", "e1d1", "e1f2"] {
        let mv = parse_uci_move(&pos, text).unwrap();
        assert_eq!(move_to_uci(mv), text);
    }
    for text in ["b7b8", "e1d1q", "E1d1", "b7b8Q", "e1d1 "] {
        assert!(parse_uci_move(&pos, text).is_none(), "{text}");
    }
}

#[test]
fn tactical_generation_is_the_full_list_filtered() {
    for fen in [
        START_FEN,
        "r3k2r/p1ppqpb1/bn2pnp1/3PN3/1p2P3/2N2Q1p/PPPBBPPP/R3K2R w KQkq - 0 1",
        "4k3/1P6/8/3pP3/8/8/8/4K3 w - d6 0 2",
    ] {
        let pos = from_fen(fen).unwrap();
        let mut full = MoveList::new();
        generate_pseudo(&pos, &mut full, false);
        let mut tactical = MoveList::new();
        generate_pseudo(&pos, &mut tactical, true);
        let filtered: Vec<u32> = full
            .moves
            .iter()
            .copied()
            .filter(|m| m & FLAG_CAPTURE != 0 || m & FLAG_PROMO != 0)
            .collect();
        assert_eq!(tactical.moves, filtered, "{fen}");
    }
}

#[test]
fn king_safety_agrees_with_check_after_the_move() {
    let pos = from_fen("r3k2r/p1ppqpb1/bn2pnp1/3PN3/1p2P3/2N2Q1p/PPPBBPPP/R3K2R w KQkq - 0 1").unwrap();
    let mut full = MoveList::new();
    generate_pseudo(&pos, &mut full, false);
    let mut castles = 0;
    for &mv in full.moves.iter() {
        if mv & FLAG_CASTLE != 0 {
            castles += 1;
        }
        let safe = move_keeps_king_safe(&pos, mv, pos.side);
        let mut after = pos.clone();
        after.make_move(mv);
        assert_eq!(safe, !after.in_check(pos.side), "{}", move_to_uci(mv));
    }
    assert_eq!(castles, 2);
}

#[test]
fn negamax_at_depth_zero_answers_the_quiescence_value() {
    for fen in [
        START_FEN,
        "r3k2r/p1ppqpb1/bn2pnp1/3PN3/1p2P3/2N2Q1p/PPPBBPPP/R3K2R w KQkq - 0 1",
        "4k3/8/8/3q4/4P3/8/8/4K3 w - - 0 1",
    ] {
        let mut a = searcher();
        let mut b = searcher();
        let mut p = from_fen(fen).unwrap();
        let mut q = p.clone();
        assert!(!p.in_check(p.side));
        let via_negamax = a.negamax(&mut p, 0, -32000, 32000, 1, false, true, 0);
        let via_quiescence = b.quiescence(&mut q, -32000, 32000, 1);
        assert_eq!(via_negamax, via_quiescence, "{fen}");
    }
}

#[test]
fn legal_generation_is_the_pseudo_list_filtered_by_safety() {
    for fen in [
        START_FEN,
        "r3k2r/p1ppqpb1/bn2pnp1/3PN3/1p2P3/2N2Q1p/PPPBBPPP/R3K2R w KQkq - 0 1",
        "4r1k1/8/8/8/8/8/4N3/4K3 w - - 0 1",
        "8/8/8/KPp4r/8/8/8/7k w - c6 0 2",
    ] {
        for tactical in [false, true] {
            let pos = from_fen(fen).unwrap();
            let mut pseudo = MoveList::new();
            generate_pseudo(&pos, &mut pseudo, tactical);
            let mut legal = MoveList::new();
            generate_legal(&pos, &mut legal, tactical);
            let filtered: Vec<u32> = pseudo
                .moves
                .iter()
                .copied()
                .filter(|&m| {
                    let mut after = pos.clone();
                    after.make_move(m);
                    !after.in_check(pos.side)
                })
                .collect();
            assert_eq!(legal.moves, filtered, "{fen}");
        }
    }
}

#[test]
fn en_passant_file_is_hashed_exactly_when_the_capture_is_legal() {
    let open = from_fen("4k3/8/8/3pP3/8/8/8/4K3 w - d6 0 2").unwrap();
    assert_eq!(open.ep_hash_file(), Some(3));
    let mut legal = MoveList::new();
    generate_legal(&open, &mut legal, false);
    assert!(legal.moves.iter().any(|m| m & FLAG_EP != 0));

    let pinned = from_fen("8/8/8/KPp4r/8/8/8/7k w - c6 0 2").unwrap();
    assert_eq!(pinned.ep_hash_file(), None);
    let mut legal = MoveList::new();
    generate_legal(&pinned, &mut legal, false);
    assert!(!legal.moves.iter().any(|m| m & FLAG_EP != 0));

    let none = from_fen(START_FEN).unwrap();
    assert_eq!(none.ep_hash_file(), None);
}

#[test]
fn a_fen_with_two_kings_of_one_side_is_refused() {
    assert!(from_fen("4k3/8/8/8/8/8/8/K3K3 w - - 0 1").is_err());
}

#[test]
fn depth_limited_search_is_a_function_of_the_position_and_tables() {
    let fen = "r3k2r/p1ppqpb1/bn2pnp1/3PN3/1p2P3/2N2Q1p/PPPBBPPP/R3K2R w KQkq - 0 1";
    let limits = GoLimits { depth: 3, soft: None, hard: None, nodes: None };
    let mut a = searcher();
    let mut b = searcher();
    a.own_book = false;
    b.own_book = false;
    let mut p = from_fen(fen).unwrap();
    let mut q = p.clone();
    let hash = p.hash;
    let ma = a.search(&mut p, limits, &[hash]);
    let mb = b.search(&mut q, limits, &[hash]);
    assert_eq!(ma, mb);
    assert_eq!(a.reports.len(), 3);
    let scores_a: Vec<(i32, u32)> = a
        .reports
        .iter()
        .filter_map(|r| match r {
            warhorse::search::SearchReport::Iteration(it) => Some((it.score, it.best)),
            _ => None,
        })
        .collect();
    let scores_b: Vec<(i32, u32)> = b
        .reports
        .iter()
        .filter_map(|r| match r {
            warhorse::search::SearchReport::Iteration(it) => Some((it.score, it.best)),
            _ => None,
        })
        .collect();
    assert_eq!(scores_a, scores_b);
    assert_eq!(scores_a.last().unwrap().1, ma);
}
