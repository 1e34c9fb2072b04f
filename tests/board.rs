use minesweeper::board::Board;
use minesweeper::tile::{Glyph, RevealOutcome, Tile, TileColor};

fn all_tiles(b: &Board) -> Vec<Tile> {
    let mut v = Vec::new();
    for x in 0..b.width {
        for y in 0..b.height {
            v.push(b.tile(x, y));
        }
    }
    v
}

#[test]
fn first_reveal_clears_whole_small_board() {
    let mut b = Board::with_mines(3, 3, &vec![(0, 0), (2, 2)]);
    assert_eq!(b.reveal_at(1, 1), RevealOutcome::Continue);
    for t in all_tiles(&b) {
        assert_eq!(t, Tile::Revealed(0));
    }
    assert!(b.is_solved());
    assert!(!b.first_reveal);
}

#[test]
fn first_reveal_on_two_by_two_discards_mine() {
    let mut b = Board::with_mines(2, 2, &vec![(0, 0)]);
    assert_eq!(b.tile(0, 0), Tile::Mine);
    assert_eq!(b.reveal_at(1, 1), RevealOutcome::Continue);
    for t in all_tiles(&b) {
        assert_eq!(t, Tile::Revealed(0));
    }
    assert!(b.is_solved());
}

#[test]
fn flagged_tile_is_not_revealed() {
    let mut b = Board::with_mines(5, 1, &vec![(2, 0)]);
    assert_eq!(b.reveal_at(4, 0), RevealOutcome::Continue);
    assert_eq!(b.tile(4, 0), Tile::Revealed(0));
    assert_eq!(b.tile(3, 0), Tile::Revealed(1));
    assert_eq!(b.tile(2, 0), Tile::Mine);
    assert_eq!(b.tile(0, 0), Tile::Safe);
    b.flag(0, 0);
    assert_eq!(b.tile(0, 0), Tile::FlaggedSafe);
    assert_eq!(b.reveal_at(0, 0), RevealOutcome::Continue);
    assert_eq!(b.tile(0, 0), Tile::FlaggedSafe);
    assert_eq!(b.tile(1, 0), Tile::Safe);
}

#[test]
fn new_board_is_never_solved() {
    for &(w, h, m) in &[(8usize, 8usize, 10usize), (1, 1, 0), (1, 1, 5), (2, 2, 100), (3, 2, 0)] {
        let b = Board::new(w, h, m);
        assert!(!b.is_solved());
        assert!(b.first_reveal);
        assert!(!b.game_over);
        assert_eq!(b.tiles.len(), w * h);
        let mines = all_tiles(&b).iter().filter(|t| **t == Tile::Mine).count();
        assert!(mines <= m);
        assert!(m == 0 || mines >= 1);
        for t in all_tiles(&b) {
            assert!(t == Tile::Mine || t == Tile::Safe);
        }
    }
}

#[test]
fn first_reveal_never_loses() {
    for _ in 0..20 {
        let mut b = Board::new(8, 8, 64);
        assert_eq!(b.reveal_at(3, 3), RevealOutcome::Continue);
        assert_ne!(b.tile(3, 3), Tile::Mine);
        for (x, y) in b.get_adjacent(3, 3) {
            assert_ne!(b.tile(x, y), Tile::Mine);
        }
    }
}

#[test]
fn revealing_mine_explodes_and_changes_nothing() {
    let mut b = Board::with_mines(3, 3, &vec![(0, 0)]);
    b.first_reveal = false;
    let before = b.tiles.clone();
    assert_eq!(b.reveal_at(0, 0), RevealOutcome::Exploded);
    assert_eq!(b.tiles, before);
}

#[test]
fn reveal_counts_neighbouring_mines() {
    let mut b = Board::with_mines(3, 3, &vec![(0, 0), (2, 0)]);
    b.first_reveal = false;
    assert_eq!(b.reveal_at(1, 1), RevealOutcome::Continue);
    assert_eq!(b.tile(1, 1), Tile::Revealed(2));
    assert_eq!(b.tile(1, 2), Tile::Safe);
    b.flag(0, 0);
    assert_eq!(b.reveal_at(1, 0), RevealOutcome::Continue);
    assert_eq!(b.tile(1, 0), Tile::Revealed(2));
}

#[test]
fn cascade_stops_at_numbered_tiles() {
    // mine in the far corner: everything else opens from the near corner
    let mut b = Board::with_mines(4, 4, &vec![(3, 3)]);
    b.first_reveal = false;
    assert_eq!(b.reveal_at(0, 0), RevealOutcome::Continue);
    assert_eq!(b.tile(3, 3), Tile::Mine);
    assert_eq!(b.tile(2, 2), Tile::Revealed(1));
    assert_eq!(b.tile(3, 2), Tile::Revealed(1));
    assert_eq!(b.tile(2, 3), Tile::Revealed(1));
    assert_eq!(b.tile(0, 0), Tile::Revealed(0));
    assert_eq!(b.tile(1, 1), Tile::Revealed(0));
    assert!(!b.is_solved());
    b.flag(3, 3);
    assert!(b.is_solved());
}

#[test]
fn cascade_does_not_cross_a_wall_of_mines() {
    let mut b = Board::with_mines(5, 3, &vec![(2, 0), (2, 1), (2, 2)]);
    b.first_reveal = false;
    assert_eq!(b.reveal_at(0, 1), RevealOutcome::Continue);
    assert_eq!(b.tile(0, 0), Tile::Revealed(0));
    assert_eq!(b.tile(1, 1), Tile::Revealed(3));
    assert_eq!(b.tile(1, 0), Tile::Revealed(2));
    assert_eq!(b.tile(3, 1), Tile::Safe);
    assert_eq!(b.tile(4, 1), Tile::Safe);
    assert!(!b.is_solved());
}

#[test]
fn reveal_of_revealed_tile_is_no_op() {
    let mut b = Board::with_mines(3, 3, &vec![(0, 0), (2, 0)]);
    b.first_reveal = false;
    b.reveal_at(1, 1);
    let before = b.tiles.clone();
    assert_eq!(b.reveal_at(1, 1), RevealOutcome::Continue);
    assert_eq!(b.tiles, before);
}

#[test]
fn flag_twice_restores_tile() {
    let mut b = Board::with_mines(2, 2, &vec![(0, 0)]);
    b.flag(0, 0);
    assert_eq!(b.tile(0, 0), Tile::FlaggedMine);
    b.flag(0, 0);
    assert_eq!(b.tile(0, 0), Tile::Mine);
    b.flag(1, 1);
    assert_eq!(b.tile(1, 1), Tile::FlaggedSafe);
    b.flag(1, 1);
    assert_eq!(b.tile(1, 1), Tile::Safe);
}

#[test]
fn flag_on_revealed_tile_is_no_op() {
    let mut b = Board::with_mines(3, 3, &vec![(0, 0)]);
    b.first_reveal = false;
    b.reveal_at(1, 1);
    assert_eq!(b.tile(1, 1), Tile::Revealed(1));
    b.flag(1, 1);
    assert_eq!(b.tile(1, 1), Tile::Revealed(1));
}

#[test]
fn flagged_safe_tile_counts_as_solved() {
    let mut b = Board::with_mines(2, 1, &vec![(0, 0)]);
    b.first_reveal = false;
    b.flag(0, 0);
    b.flag(1, 0);
    assert_eq!(b.tile(1, 0), Tile::FlaggedSafe);
    assert!(b.is_solved());
    b.flag(0, 0);
    assert!(!b.is_solved());
}

#[test]
fn adjacency_in_corners_edges_and_middle() {
    let b = Board::with_mines(4, 3, &vec![]);
    assert_eq!(b.get_adjacent(0, 0), vec![(1, 0), (0, 1), (1, 1)]);
    assert_eq!(b.get_adjacent(3, 2).len(), 3);
    assert_eq!(b.get_adjacent(3, 0).len(), 3);
    assert_eq!(b.get_adjacent(0, 2).len(), 3);
    assert_eq!(b.get_adjacent(1, 0).len(), 5);
    assert_eq!(
        b.get_adjacent(1, 1),
        vec![(2, 1), (0, 1), (1, 2), (1, 0), (2, 2), (2, 0), (0, 2), (0, 0)]
    );
    for x in 0..4 {
        for y in 0..3 {
            for (ax, ay) in b.get_adjacent(x, y) {
                assert!(ax < 4 && ay < 3);
                assert!((ax, ay) != (x, y));
            }
        }
    }
    let one = Board::with_mines(1, 1, &vec![]);
    assert!(one.get_adjacent(0, 0).is_empty());
}

#[test]
fn duplicate_mine_positions_make_one_mine() {
    let b = Board::with_mines(2, 2, &vec![(1, 1), (1, 1)]);
    let mines = all_tiles(&b).iter().filter(|t| **t == Tile::Mine).count();
    assert_eq!(mines, 1);
}

#[test]
fn glyphs_follow_the_table() {
    assert_eq!(Tile::Mine.get_char(false), Glyph { symbol: '-', color: TileColor::White });
    assert_eq!(Tile::Mine.get_char(true), Glyph { symbol: 'X', color: TileColor::Red });
    assert_eq!(Tile::Safe.get_char(true).symbol, '-');
    assert_eq!(Tile::FlaggedSafe.get_char(true).symbol, 'F');
    assert_eq!(Tile::FlaggedMine.get_char(false).symbol, 'F');
    assert_eq!(Tile::FlaggedMine.get_char(true).symbol, '!');
    assert_eq!(Tile::Revealed(0).get_char(true).symbol, ' ');
    assert_eq!(Tile::Revealed(3).get_char(false), Glyph { symbol: '3', color: TileColor::BrightRed });
    assert_eq!(Tile::Revealed(8).get_char(false).symbol, '8');
}

#[test]
fn locate_takes_one_based_coordinates() {
    let b = Board::with_mines(8, 6, &vec![]);
    assert_eq!(b.locate(1, 1), Some((0, 0)));
    assert_eq!(b.locate(8, 6), Some((7, 5)));
    assert_eq!(b.locate(0, 3), None);
    assert_eq!(b.locate(9, 3), None);
    assert_eq!(b.locate(3, 7), None);
}
