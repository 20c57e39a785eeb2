use acquire::board::{Loc, Tile};
use acquire::corp::Corp;
use acquire::{Game, GameError, Phase, MAX_PLAYERS, MIN_PLAYERS};

#[test]
fn it_works() {}

/// A draw order that deals the given locations first and the rest of the
/// grid afterwards.
fn order_with_front(front: &[Loc]) -> Vec<Loc> {
    let mut order: Vec<Loc> = front.to_vec();
    for l in Loc::all() {
        if !front.contains(&l) {
            order.push(l);
        }
    }
    order
}

fn fixed_two_player_game(front: &[Loc]) -> Game {
    let order = order_with_front(front);
    let (game, _logs) = Game::new_from_order(2, order, 0).unwrap();
    game
}

#[test]
fn new_rejects_bad_player_counts() {
    assert_eq!(
        Err(GameError::PlayerCount { min: MIN_PLAYERS, max: MAX_PLAYERS, given: 1 }),
        Game::new(1).map(|_| ())
    );
    assert_eq!(
        Err(GameError::PlayerCount { min: MIN_PLAYERS, max: MAX_PLAYERS, given: 7 }),
        Game::new(7).map(|_| ())
    );
}

#[test]
fn new_deals_starting_state() {
    let (g, logs) = Game::new(3).unwrap();
    assert_eq!(3, g.player_count());
    assert_eq!(1, logs.len());
    for p in &g.players {
        assert_eq!(6000, p.money);
        assert_eq!(6, p.tiles.len());
        assert!(p.shares.iter().all(|s| *s == 0));
    }
    assert!(g.shares.iter().all(|s| *s == 25));
    // 108 cells minus 3 starting tiles minus 3 hands of 6
    assert_eq!(108 - 3 - 18, g.draw_tiles.len());
    assert!(!g.is_finished());
}

#[test]
fn founding_scenario() {
    // player 0 holds A1; the starting tile A2 gives it an unincorporated
    // neighbour, so placing forces a founding
    let a1 = Loc { row: 0, col: 0 };
    let a2 = Loc { row: 0, col: 1 };
    let far = Loc { row: 8, col: 11 };
    let g0 = fixed_two_player_game(&[a2, far, a1]);
    let mut g = g0;
    let (_logs, _) = g.play(0, &a1).unwrap();
    assert_eq!(Phase::Found { player: 0, at: a1 }, g.phase);
    let (_logs, _) = g.found(0, &Corp::Worldwide).unwrap();
    // the founded corporation absorbed the placed tile and its neighbour
    assert_eq!(2, g.board.corp_size(Corp::Worldwide));
    let wi = Corp::Worldwide.index();
    assert_eq!(1, g.players[0].shares[wi]);
    assert_eq!(24, g.shares[wi]);
    assert_eq!(Phase::Buy { player: 0, remaining: 3 }, g.phase);
}

#[test]
fn isolated_tile_goes_to_buy_phase() {
    let a1 = Loc { row: 0, col: 0 };
    let g0 = fixed_two_player_game(&[Loc { row: 8, col: 11 }, Loc { row: 8, col: 10 }, a1]);
    let mut g = g0;
    let (_logs, _) = g.play(0, &a1).unwrap();
    assert_eq!(Phase::Buy { player: 0, remaining: 3 }, g.phase);
    assert_eq!(Tile::Unincorporated, g.board.get_tile(a1.index()));
}

#[test]
fn buy_scenario() {
    // Sackson at size 2: value 200 each, so two shares cost 400
    let mut g = fixed_two_player_game(&[Loc { row: 8, col: 11 }, Loc { row: 8, col: 10 }]);
    g.board.set_tile(Loc { row: 5, col: 5 }.index(), Tile::Corp(Corp::Sackson));
    g.board.set_tile(Loc { row: 5, col: 6 }.index(), Tile::Corp(Corp::Sackson));
    g.phase = Phase::Buy { player: 0, remaining: 3 };
    let (_logs, _) = g.buy(0, 2, Corp::Sackson).unwrap();
    let si = Corp::Sackson.index();
    assert_eq!(6000 - 400, g.players[0].money);
    assert_eq!(2, g.players[0].shares[si]);
    assert_eq!(25 - 2, g.shares[si]);
    assert_eq!(Phase::Buy { player: 0, remaining: 1 }, g.phase);
}

#[test]
fn buy_rejections() {
    let mut g = fixed_two_player_game(&[Loc { row: 8, col: 11 }, Loc { row: 8, col: 10 }]);
    g.board.set_tile(Loc { row: 5, col: 5 }.index(), Tile::Corp(Corp::Sackson));
    g.phase = Phase::Buy { player: 0, remaining: 2 };
    assert_eq!(Err(GameError::NotYourTurn), g.buy(1, 1, Corp::Sackson).map(|_| ()));
    assert_eq!(Err(GameError::ZeroShares), g.buy(0, 0, Corp::Sackson).map(|_| ()));
    assert_eq!(
        Err(GameError::BuyLimit { remaining: 2 }),
        g.buy(0, 3, Corp::Sackson).map(|_| ())
    );
    assert_eq!(
        Err(GameError::CorpNotOnBoard),
        g.buy(0, 1, Corp::Tower).map(|_| ())
    );
    g.players[0].money = 100;
    assert_eq!(
        Err(GameError::NotEnoughMoney { price: 200, money: 100 }),
        g.buy(0, 1, Corp::Sackson).map(|_| ())
    );
    g.finished = true;
    assert_eq!(Err(GameError::Finished), g.buy(0, 1, Corp::Sackson).map(|_| ()));
}

#[test]
fn wrong_phase_rejections() {
    let mut g = fixed_two_player_game(&[Loc { row: 8, col: 11 }, Loc { row: 8, col: 10 }]);
    // phase is Play(0)
    assert_eq!(Err(GameError::WrongPhase), g.buy(0, 1, Corp::Sackson).map(|_| ()));
    assert_eq!(Err(GameError::WrongPhase), g.done(0).map(|_| ()));
    assert_eq!(Err(GameError::WrongPhase), g.found(0, &Corp::Tower).map(|_| ()));
    assert_eq!(Err(GameError::WrongPhase), g.sell(0, 1).map(|_| ()));
    assert_eq!(Err(GameError::WrongPhase), g.keep(0).map(|_| ()));
    assert_eq!(
        Err(GameError::WrongPhase),
        g.merge(0, &Corp::Sackson, &Corp::Tower).map(|_| ())
    );
}

fn merger_setup() -> (Game, Loc) {
    // Continental of size 5 along the top row, Sackson of size 3 down a
    // column, the gap at B2 touching both; player 0 holds the gap tile
    let gap = Loc { row: 1, col: 1 };
    let mut g = fixed_two_player_game(&[Loc { row: 8, col: 11 }, Loc { row: 8, col: 10 }, gap]);
    for col in 1..6 {
        g.board.set_tile(Loc { row: 0, col }.index(), Tile::Corp(Corp::Continental));
    }
    for row in 2..5 {
        g.board.set_tile(Loc { row, col: 1 }.index(), Tile::Corp(Corp::Sackson));
    }
    let si = Corp::Sackson.index();
    g.players[0].shares[si] = 3;
    g.players[1].shares[si] = 1;
    g.shares[si] = 21;
    (g, gap)
}

#[test]
fn merge_scenario() {
    let (mut g, gap) = merger_setup();
    let (_logs, _) = g.play(0, &gap).unwrap();
    // the merge applied automatically: Sackson (3) into Continental (5),
    // bonuses at Sackson's size before absorption: value 300, so 3000
    // majority to player 0 and 1500 minority to player 1
    assert_eq!(6000 + 3000, g.players[0].money);
    assert_eq!(6000 + 1500, g.players[1].money);
    assert_eq!(0, g.board.corp_size(Corp::Sackson));
    assert_eq!(9, g.board.corp_size(Corp::Continental));
    assert_eq!(
        Phase::SellOrTrade { player: 0, corp: Corp::Sackson, at: gap, turn_player: 0 },
        g.phase
    );
    // share conservation across the merge: nothing moved
    let si = Corp::Sackson.index();
    assert_eq!(25, g.players[0].shares[si] + g.players[1].shares[si] + g.shares[si]);
}

#[test]
fn sell_and_keep_after_merge() {
    let (mut g, gap) = merger_setup();
    let _ = g.play(0, &gap).unwrap();
    let si = Corp::Sackson.index();
    // selling at the dissolved corporation's current (base) value
    let _ = g.sell(0, 2).unwrap();
    assert_eq!(6000 + 3000 + 400, g.players[0].money);
    assert_eq!(1, g.players[0].shares[si]);
    assert_eq!(23, g.shares[si]);
    assert_eq!(
        Phase::SellOrTrade { player: 1, corp: Corp::Sackson, at: gap, turn_player: 0 },
        g.phase
    );
    let _ = g.keep(1).unwrap();
    // all shareholders acted; the triggering player's turn resumes
    assert_eq!(Phase::Buy { player: 0, remaining: 3 }, g.phase);
}

#[test]
fn trade_after_merge() {
    let (mut g, gap) = merger_setup();
    let si = Corp::Sackson.index();
    let ci = Corp::Continental.index();
    g.players[1].shares[si] = 2;
    g.shares[si] = 20;
    let _ = g.play(0, &gap).unwrap();
    let _ = g.keep(0).unwrap();
    assert_eq!(
        Phase::SellOrTrade { player: 1, corp: Corp::Sackson, at: gap, turn_player: 0 },
        g.phase
    );
    assert_eq!(Err(GameError::TradeOdd), g.trade(1, 1).map(|_| ()));
    let _ = g.trade(1, 2).unwrap();
    // two dissolved shares in, one surviving share out
    assert_eq!(0, g.players[1].shares[si]);
    assert_eq!(1, g.players[1].shares[ci]);
    assert_eq!(22, g.shares[si]);
    assert_eq!(24, g.shares[ci]);
    assert_eq!(Phase::Buy { player: 0, remaining: 3 }, g.phase);
}

#[test]
fn two_safe_corps_cannot_merge() {
    let gap = Loc { row: 4, col: 5 };
    let mut g = fixed_two_player_game(&[Loc { row: 8, col: 11 }, Loc { row: 8, col: 10 }, gap]);
    // eleven cells each: both corporations are safe
    for col in 0..11 {
        g.board.set_tile(Loc { row: 3, col }.index(), Tile::Corp(Corp::Imperial));
        g.board.set_tile(Loc { row: 5, col }.index(), Tile::Corp(Corp::Festival));
    }
    assert_eq!(Err(GameError::SafeCorpsMerge), g.play(0, &gap).map(|_| ()));
    // the rejection changed nothing
    assert_eq!(Phase::Play(0), g.phase);
    assert_eq!(Tile::Empty, g.board.get_tile(gap.index()));
    assert!(g.players[0].tiles.contains(&gap));
}

#[test]
fn done_passes_the_turn() {
    let mut g = fixed_two_player_game(&[Loc { row: 8, col: 11 }, Loc { row: 8, col: 10 }]);
    g.phase = Phase::Buy { player: 0, remaining: 3 };
    let _ = g.done(0).unwrap();
    assert_eq!(Phase::Play(1), g.phase);
    // the hand was refilled to six
    assert_eq!(6, g.players[0].tiles.len());
}

#[test]
fn end_requires_the_trigger() {
    let mut g = fixed_two_player_game(&[Loc { row: 8, col: 11 }, Loc { row: 8, col: 10 }]);
    g.phase = Phase::Buy { player: 0, remaining: 3 };
    assert_eq!(Err(GameError::CannotEnd), g.end(0).map(|_| ()));
    // a corporation at the game-end size allows the trigger
    for i in 0..41 {
        let l = Loc { row: i / 12, col: i % 12 };
        g.board.set_tile(l.index(), Tile::Corp(Corp::Tower));
    }
    let _ = g.end(0).unwrap();
    assert!(g.is_finished());
    assert_eq!(Err(GameError::Finished), g.done(0).map(|_| ()));
}

#[test]
fn value_table_matches_the_schedule() {
    assert_eq!(200, Corp::Sackson.value(2));
    assert_eq!(300, Corp::Sackson.value(3));
    assert_eq!(500, Corp::Sackson.value(5));
    assert_eq!(600, Corp::Sackson.value(6));
    assert_eq!(700, Corp::Sackson.value(11));
    assert_eq!(1000, Corp::Sackson.value(41));
    assert_eq!(400, Corp::Tower.value(0));
    assert_eq!(1200, Corp::Tower.value(41));
    assert_eq!(900, Corp::American.value(21));
}

#[test]
fn value_is_a_pure_function() {
    // the same corporation and size give the same value, call after call
    for size in 0..50 {
        assert_eq!(Corp::Imperial.value(size), Corp::Imperial.value(size));
    }
}

#[test]
fn names_and_abbrevs() {
    assert_eq!("Worldwide", Corp::Worldwide.name());
    assert_eq!("Continental", Corp::Continental.name());
    assert_eq!("WO", Corp::Worldwide.abbrev());
    assert_eq!("TO", Corp::Tower.abbrev());
}

#[test]
fn command_drives_a_turn() {
    let a1 = Loc { row: 0, col: 0 };
    let mut g = fixed_two_player_game(&[Loc { row: 8, col: 11 }, Loc { row: 8, col: 10 }, a1]);
    let _ = g.command(0, "play a1").unwrap();
    assert_eq!(Phase::Buy { player: 0, remaining: 3 }, g.phase);
    let _ = g.command(0, "done").unwrap();
    assert_eq!(Phase::Play(1), g.phase);
    assert_eq!(Err(GameError::InvalidInput), g.command(1, "frolic").map(|_| ()));
}

#[test]
fn pub_state_hides_other_hands() {
    let g = fixed_two_player_game(&[Loc { row: 8, col: 11 }, Loc { row: 8, col: 10 }]);
    let anon = g.pub_state(None);
    assert!(anon.priv_state.is_none());
    let mine = g.pub_state(Some(1));
    assert_eq!(1, mine.priv_state.as_ref().unwrap().id);
    assert_eq!(g.players[1].tiles, mine.priv_state.unwrap().tiles);
    assert_eq!(2, anon.players.len());
}

#[test]
fn found_rejects_a_corp_on_the_board() {
    let a1 = Loc { row: 0, col: 0 };
    let a2 = Loc { row: 0, col: 1 };
    let mut g = fixed_two_player_game(&[a2, Loc { row: 8, col: 11 }, a1]);
    g.board.set_tile(Loc { row: 5, col: 5 }.index(), Tile::Corp(Corp::Tower));
    let _ = g.play(0, &a1).unwrap();
    assert_eq!(Err(GameError::CorpOnBoard), g.found(0, &Corp::Tower).map(|_| ()));
    let _ = g.found(0, &Corp::Festival).unwrap();
}

#[test]
fn play_rejects_a_tile_not_held() {
    let mut g = fixed_two_player_game(&[Loc { row: 8, col: 11 }, Loc { row: 8, col: 10 }]);
    let not_held = g.draw_tiles[g.draw_tiles.len() - 1];
    assert_eq!(Err(GameError::TileNotHeld), g.play(0, &not_held).map(|_| ()));
}

#[test]
fn sole_shareholder_takes_both_bonuses() {
    let (mut g, gap) = merger_setup();
    let si = Corp::Sackson.index();
    g.players[1].shares[si] = 0;
    g.shares[si] = 22;
    let _ = g.play(0, &gap).unwrap();
    // majority and minority together: (3000 + 1500) to the sole holder
    assert_eq!(6000 + 4500, g.players[0].money);
    assert_eq!(6000, g.players[1].money);
}

#[test]
fn an_exhausted_pile_ends_the_game() {
    let mut g = fixed_two_player_game(&[Loc { row: 8, col: 11 }, Loc { row: 8, col: 10 }]);
    // spend the turn with too few tiles left to refill the hand
    g.players[0].tiles.pop();
    g.draw_tiles.truncate(0);
    g.phase = Phase::Buy { player: 0, remaining: 3 };
    let _ = g.done(0).unwrap();
    assert!(g.is_finished());
}

#[test]
fn spending_the_allowance_ends_the_turn() {
    let mut g = fixed_two_player_game(&[Loc { row: 8, col: 11 }, Loc { row: 8, col: 10 }]);
    g.board.set_tile(Loc { row: 5, col: 5 }.index(), Tile::Corp(Corp::Sackson));
    g.players[0].tiles.pop();
    g.phase = Phase::Buy { player: 0, remaining: 2 };
    let (_logs, again) = g.buy(0, 2, Corp::Sackson).unwrap();
    assert!(!again);
    assert_eq!(Phase::Play(1), g.phase);
    // the hand was refilled from the front of the pile
    assert_eq!(6, g.players[0].tiles.len());
}

#[test]
fn ambiguous_merger_waits_for_the_choice() {
    // two corporations of equal size beside the gap: the player chooses
    let gap = Loc { row: 1, col: 1 };
    let mut g = fixed_two_player_game(&[Loc { row: 8, col: 11 }, Loc { row: 8, col: 10 }, gap]);
    for col in 2..5 {
        g.board.set_tile(Loc { row: 0, col }.index(), Tile::Corp(Corp::Imperial));
    }
    g.board.set_tile(Loc { row: 0, col: 1 }.index(), Tile::Corp(Corp::Imperial));
    for row in 2..6 {
        g.board.set_tile(Loc { row, col: 1 }.index(), Tile::Corp(Corp::Sackson));
    }
    assert_eq!(4, g.board.corp_size(Corp::Imperial));
    assert_eq!(4, g.board.corp_size(Corp::Sackson));
    let _ = g.play(0, &gap).unwrap();
    assert_eq!(Phase::ChooseMerger { player: 0, at: gap }, g.phase);
    // either direction is valid; merging a corporation into itself is not
    assert_eq!(
        Err(GameError::SameCorp),
        g.merge(0, &Corp::Imperial, &Corp::Imperial).map(|_| ())
    );
    assert_eq!(
        Err(GameError::InvalidMergeFrom),
        g.merge(0, &Corp::Tower, &Corp::Imperial).map(|_| ())
    );
    let _ = g.merge(0, &Corp::Sackson, &Corp::Imperial).unwrap();
    assert_eq!(0, g.board.corp_size(Corp::Sackson));
    assert_eq!(9, g.board.corp_size(Corp::Imperial));
    assert_eq!(Phase::Buy { player: 0, remaining: 3 }, g.phase);
}
