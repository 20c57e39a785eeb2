use acquire::board::{Board, Loc, Tile};
use acquire::corp::Corp;

#[test]
fn usize_into_loc_works() {
    assert_eq!(Loc::default(), 0usize.into());
    assert_eq!(Loc { row: 0, col: 8 }, 8usize.into());
    assert_eq!(Loc { row: 2, col: 3 }, 27usize.into());
    assert_eq!(Loc { row: 1, col: 11 }, 23usize.into());
}

#[test]
fn loc_into_usize_works() {
    assert_eq!(0 as usize, Loc::default().index());
    assert_eq!(8 as usize, Loc { row: 0, col: 8 }.index());
    assert_eq!(27 as usize, Loc { row: 2, col: 3 }.index());
    assert_eq!(23 as usize, Loc { row: 1, col: 11 }.index());
}

#[test]
fn board_get_tile_works() {
    let mut b = Board::default();
    b.set_tile(5, Tile::Discarded);
    assert_eq!(Tile::Discarded, b.get_tile(5));
    assert_eq!(Tile::Empty, b.get_tile(99999));
}

#[test]
fn board_indexing_by_loc_works() {
    let b = Board::default();
    assert_eq!(Tile::Empty, b.get_tile(Loc { row: 5, col: 4 }.index()));
}

#[test]
fn board_set_tile_works() {
    let mut b = Board::default();
    b.set_tile(99999, Tile::Unincorporated);
}

#[test]
fn board_corp_size_works() {
    let mut b = Board::default();
    b.set_tile(2, Tile::Corp(Corp::American));
    b.set_tile(3, Tile::Corp(Corp::American));
    b.set_tile(4, Tile::Corp(Corp::Sackson));
    assert_eq!(0, b.corp_size(Corp::Continental));
    assert_eq!(1, b.corp_size(Corp::Sackson));
    assert_eq!(2, b.corp_size(Corp::American));
}

#[test]
fn loc_all_covers_the_grid() {
    let all = Loc::all();
    assert_eq!(108, all.len());
    assert_eq!(Loc { row: 0, col: 0 }, all[0]);
    assert_eq!(Loc { row: 8, col: 11 }, all[107]);
}

#[test]
fn loc_names_follow_the_grid() {
    assert_eq!("A1", Loc { row: 0, col: 0 }.name());
    assert_eq!("I12", Loc { row: 8, col: 11 }.name());
    assert_eq!("C10", Loc { row: 2, col: 9 }.name());
}

#[test]
fn neighbours_respect_edges() {
    let corner = Loc { row: 0, col: 0 }.neighbours();
    assert_eq!(2, corner.len());
    let middle = Loc { row: 4, col: 5 }.neighbours();
    assert_eq!(4, middle.len());
}

#[test]
fn extend_corp_absorbs_unincorporated_runs() {
    let mut b = Board::default();
    // an unincorporated pair next to the placement
    b.set_tile(Loc { row: 0, col: 1 }.index(), Tile::Unincorporated);
    b.set_tile(Loc { row: 0, col: 2 }.index(), Tile::Unincorporated);
    b.extend_corp(&Loc { row: 0, col: 0 }, Corp::Tower);
    assert_eq!(3, b.corp_size(Corp::Tower));
}

#[test]
fn merge_candidates_split_by_size() {
    let mut b = Board::default();
    // Continental of size 2 above, Sackson of size 1 below a gap at B2
    b.set_tile(Loc { row: 0, col: 1 }.index(), Tile::Corp(Corp::Continental));
    b.set_tile(Loc { row: 0, col: 2 }.index(), Tile::Corp(Corp::Continental));
    b.set_tile(Loc { row: 2, col: 1 }.index(), Tile::Corp(Corp::Sackson));
    let (from, into) = b.merge_candidates(&Loc { row: 1, col: 1 });
    assert_eq!(vec![Corp::Sackson], from);
    assert_eq!(vec![Corp::Continental], into);
}
