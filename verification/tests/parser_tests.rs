use acquire::board::Loc;
use acquire::corp::Corp;
use acquire::parser::{self, Command};

#[test]
fn loc_row_works() {
    assert_eq!(Some((0, 1)), parser::loc_row("a", 0));
    assert_eq!(Some((0, 1)), parser::loc_row("A", 0));
    assert_eq!(Some((8, 1)), parser::loc_row("i", 0));
}

#[test]
fn loc_col_works() {
    assert_eq!(Some((0, 1)), parser::loc_col("1", 0));
    assert_eq!(Some((11, 2)), parser::loc_col("12", 0));
}

#[test]
fn loc_works() {
    assert_eq!(Some((Loc { row: 0, col: 0 }, 2)), parser::loc("a1", 0));
    assert_eq!(Some((Loc { row: 8, col: 11 }, 3)), parser::loc("I12", 0));
}

#[test]
fn corp_works() {
    assert_eq!(Some((Corp::American, 4)), parser::corp("amer", 0));
    // consumes the word, leaving " blash" behind
    assert_eq!(Some((Corp::Sackson, 5)), parser::corp("sacks blash", 0));
}

#[test]
fn corp_rejects_unknown_names() {
    assert_eq!(None, parser::corp("zed", 0));
    assert_eq!(None, parser::corp("", 0));
}

#[test]
fn command_parses_each_action() {
    assert_eq!(
        Some((Command::Play(Loc { row: 0, col: 0 }), 7)),
        parser::command("play a1")
    );
    assert_eq!(
        Some((Command::Found(Corp::Worldwide), 11)),
        parser::command("found world")
    );
    assert_eq!(
        Some((Command::Buy(2, Corp::Sackson), 10)),
        parser::command("buy 2 sack")
    );
    assert_eq!(Some((Command::Done, 4)), parser::command("done"));
    assert_eq!(
        Some((Command::Merge(Corp::Sackson, Corp::Tower), 20)),
        parser::command("merge sack into towe")
    );
    assert_eq!(Some((Command::Sell(3), 6)), parser::command("sell 3"));
    assert_eq!(Some((Command::Trade(2), 7)), parser::command("trade 2"));
    assert_eq!(Some((Command::Keep, 4)), parser::command("keep"));
    assert_eq!(Some((Command::End, 3)), parser::command("end"));
}

#[test]
fn command_rejects_nonsense() {
    assert_eq!(None, parser::command("jump a1"));
    assert_eq!(None, parser::command("buy zero sack"));
    assert_eq!(None, parser::command(""));
}

#[test]
fn buy_rejects_zero_shares() {
    assert_eq!(None, parser::command("buy 0 sack"));
}

#[test]
fn keywords_ignore_case() {
    assert_eq!(
        Some((Command::Play(Loc { row: 0, col: 0 }), 7)),
        parser::command("PLAY A1")
    );
}
