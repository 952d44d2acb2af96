use reversi_engine::board::{
    bit_from_coord, bits_to_list, coord_from_bit, shift_east, shift_north, shift_north_east,
    shift_north_west, shift_south, shift_south_east, shift_south_west, shift_west, Board, Cell,
    Player,
};

fn sq(coord: &str) -> u64 {
    bit_from_coord(coord).expect("valid test coordinate")
}

#[test]
fn initial_position_and_moves_are_correct() {
    let board = Board::new();
    assert_eq!(board.score(), (2, 2));

    let moves = board.legal_moves_list();
    let coords: Vec<String> = moves.into_iter().map(coord_from_bit).collect();
    assert_eq!(coords, ["d3", "c4", "f5", "e6"]);
}

#[test]
fn applying_initial_move_flips_disc_and_switches_player() {
    let board = Board::new();
    let next = board.apply_move(bit_from_coord("d3").expect("valid test coordinate"));

    assert_eq!(next.current_player(), Player::White);
    assert_eq!(
        next.get_cell(bit_from_coord("d4").expect("valid test coordinate")),
        Cell::Black
    );
    assert_eq!(next.score(), (4, 1));
}

#[test]
fn edge_shifts_do_not_wrap() {
    assert_eq!(
        shift_west(bit_from_coord("a1").expect("valid test coordinate")),
        0
    );
    assert_eq!(
        shift_east(bit_from_coord("h1").expect("valid test coordinate")),
        0
    );
    assert_eq!(
        shift_north(bit_from_coord("a1").expect("valid test coordinate")),
        0
    );
    assert_eq!(
        shift_south(bit_from_coord("h8").expect("valid test coordinate")),
        0
    );
}

#[test]
fn diagonal_shifts_stop_at_edges() {
    assert_eq!(shift_north_east(sq("h4")), 0);
    assert_eq!(shift_north_west(sq("a4")), 0);
    assert_eq!(shift_south_east(sq("h4")), 0);
    assert_eq!(shift_south_west(sq("a4")), 0);
    assert_eq!(shift_north_east(sq("d4")), sq("e3"));
    assert_eq!(shift_north_west(sq("d4")), sq("c3"));
    assert_eq!(shift_south_east(sq("d4")), sq("e5"));
    assert_eq!(shift_south_west(sq("d4")), sq("c5"));
    assert_eq!(shift_east(sq("a1")), sq("b1"));
    assert_eq!(shift_west(sq("b1")), sq("a1"));
    assert_eq!(shift_north(sq("a2")), sq("a1"));
    assert_eq!(shift_south(sq("a1")), sq("a2"));
}

#[test]
fn coordinates_parse_and_print() {
    assert_eq!(bit_from_coord("a1"), Some(1));
    assert_eq!(bit_from_coord("h8"), Some(1u64 << 63));
    assert_eq!(bit_from_coord("  D3 \n"), Some(1u64 << 19));
    assert_eq!(bit_from_coord("i1"), None);
    assert_eq!(bit_from_coord("a9"), None);
    assert_eq!(bit_from_coord("a"), None);
    assert_eq!(bit_from_coord("a10"), None);
    assert_eq!(bit_from_coord(""), None);
    assert_eq!(coord_from_bit(1u64 << 19), "d3");
    assert_eq!(coord_from_bit(1u64 << 63), "h8");
    assert_eq!(coord_from_bit(0), "a9");
}

#[test]
fn coordinates_round_trip_on_every_square() {
    for index in 0..64u64 {
        let square = 1u64 << index;
        assert_eq!(bit_from_coord(&coord_from_bit(square)), Some(square));
    }
}

#[test]
fn bits_to_list_lists_ascending_single_squares() {
    assert_eq!(bits_to_list(0), Vec::<u64>::new());
    assert_eq!(bits_to_list(0b1011), vec![1, 2, 8]);
    assert_eq!(bits_to_list(1u64 << 63 | 1), vec![1, 1u64 << 63]);
    let all = bits_to_list(u64::MAX);
    assert_eq!(all.len(), 64);
    assert_eq!(all.iter().fold(0, |acc, s| acc | s), u64::MAX);
}

#[test]
fn legal_moves_of_white_in_initial_position() {
    let board = Board::new();
    let white = board.legal_moves(board.white, board.black);
    let coords: Vec<String> = bits_to_list(white).into_iter().map(coord_from_bit).collect();
    assert_eq!(coords, ["e3", "f4", "c5", "d6"]);
}

#[test]
fn legal_move_traps_a_long_line() {
    // Black on a1, white on b1..g1: black may play h1 and turn over all six.
    let black = sq("a1");
    let white = sq("b1") | sq("c1") | sq("d1") | sq("e1") | sq("f1") | sq("g1");
    let board = Board::from_parts(black, white, Player::Black);
    let moves = board.legal_moves(black, white);
    assert_eq!(moves, sq("h1"));
    let next = board.apply_move(sq("h1"));
    assert_eq!(next.black, 0xff);
    assert_eq!(next.white, 0);
    assert_eq!(next.current_player(), Player::White);
}

#[test]
fn move_flips_in_several_directions() {
    // White d4, e5 and d5 are trapped between black c3/d6... place black on c3 and f6 and d6.
    let black = sq("c3") | sq("f6") | sq("d6");
    let white = sq("d4") | sq("e5") | sq("d5");
    let board = Board::from_parts(black, white, Player::Black);
    // Black at d3? d3 south: d4 white, d5 white, d6 black -> flips d4,d5.
    let next = board.apply_move(sq("d3"));
    assert_eq!(next.get_cell(sq("d4")), Cell::Black);
    assert_eq!(next.get_cell(sq("d5")), Cell::Black);
    assert_eq!(next.get_cell(sq("e5")), Cell::White);
    assert_eq!(next.score(), (6, 1));
}

#[test]
fn move_that_traps_nothing_only_places_a_disc() {
    let board = Board::new();
    let next = board.apply_move(sq("a1"));
    assert_eq!(next.score(), (3, 2));
    assert_eq!(next.get_cell(sq("a1")), Cell::Black);
}

#[test]
fn pass_only_switches_side() {
    let board = Board::new();
    let passed = board.pass();
    assert_eq!(passed.black, board.black);
    assert_eq!(passed.white, board.white);
    assert_eq!(passed.current_player(), Player::White);
    assert_eq!(passed.pass(), board);
    assert_eq!(passed.player_bits(), board.white);
    assert_eq!(passed.opponent_bits(), board.black);
}

#[test]
fn game_over_when_neither_side_can_move() {
    assert!(!Board::new().game_over());
    let full = Board::from_parts(u64::MAX, 0, Player::White);
    assert!(full.game_over());
    let lone = Board::from_parts(sq("a1"), sq("h8"), Player::Black);
    assert!(lone.game_over());
    // White to move has nothing but black can still move: not over.
    let black = sq("a1");
    let white = sq("b1");
    let board = Board::from_parts(black, white, Player::White);
    assert_eq!(board.legal_moves_list(), Vec::<u64>::new());
    assert!(!board.game_over());
}

#[test]
fn cells_and_counts() {
    let board = Board::new();
    assert_eq!(board.get_cell(sq("d4")), Cell::White);
    assert_eq!(board.get_cell(sq("e4")), Cell::Black);
    assert_eq!(board.get_cell(sq("a1")), Cell::Empty);
    assert_eq!(board.occupied_count(), 4);
    assert_eq!(board.bits_for(Player::Black), board.black);
    assert_eq!(board.bits_for(Player::White), board.white);
    assert_eq!(Player::Black.opponent(), Player::White);
    assert_eq!(Player::White.name(), "White");
}

#[test]
fn a_legal_move_adds_exactly_one_disc() {
    let board = Board::new();
    for square in board.legal_moves_list() {
        let next = board.apply_move(square);
        assert_eq!(next.occupied_count(), board.occupied_count() + 1);
        assert_eq!(next.black & next.white, 0);
        let (b, w) = next.score();
        assert_eq!(b + w, next.occupied_count());
    }
}

#[test]
fn legal_move_list_joins_back_into_the_mask() {
    let board = Board::new();
    let mask = board.legal_moves(board.player_bits(), board.opponent_bits());
    let list = board.legal_moves_list();
    assert_eq!(list.len() as u32, mask.count_ones());
    assert_eq!(list.iter().fold(0, |acc, mv| acc | mv), mask);
    assert!(list.windows(2).all(|pair| pair[0] < pair[1]));
    assert!(list.iter().all(|mv| mv.count_ones() == 1 && mv & mask != 0));
}

#[test]
fn a_legal_move_leaves_the_next_mover_fewer_discs() {
    let board = Board::new();
    for mv in board.legal_moves_list() {
        let next = board.apply_move(mv);
        assert!(next.player_bits().count_ones() < board.opponent_bits().count_ones());
        assert_eq!(next.black & next.white, 0);
        assert_eq!(next.occupied_count(), board.occupied_count() + 1);
    }
}
