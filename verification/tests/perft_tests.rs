use warhorse::fen::from_fen;
use warhorse::perft::perft;

const START_FEN: &str = "rnbqkbnr/pppppppp/8/8/8/8/PPPPPPPP/RNBQKBNR w KQkq - 0 1";

#[test]
fn canonical_perft_regression() {
    let mut start = from_fen(START_FEN).unwrap();
    assert_eq!(perft(&mut start, 4), 197_281);
    let mut kiwipete =
        from_fen("r3k2r/p1ppqpb1/bn2pnp1/3PN3/1p2P3/2N2Q1p/PPPBBPPP/R3K2R w KQkq - 0 1").unwrap();
    assert_eq!(perft(&mut kiwipete, 3), 97_862);
}

#[test]
fn adversarial_move_generation() {
    let cases = [
        ("8/6bb/8/8/R1pP2k1/4P3/P7/K7 b - d3 0 1", 3, 4_135),
        ("4k3/8/8/3pP3/8/8/8/4R1K1 w - d6 0 1", 3, 1_369),
        ("2k5/8/8/8/2b5/8/8/2R1K2R w K - 0 1", 3, 2_527),
        ("4r1k1/8/8/8/8/8/4N3/4K3 w - - 0 1", 3, 651),
        ("4r1k1/8/8/8/1b6/8/8/4K3 w - - 0 1", 3, 274),
        ("1r5k/P7/8/8/8/8/8/7K w - - 0 1", 3, 1_034),
    ];
    for (fen, depth, expected) in cases {
        let mut pos = from_fen(fen).unwrap();
        assert_eq!(perft(&mut pos, depth), expected, "{fen}");
    }
}
