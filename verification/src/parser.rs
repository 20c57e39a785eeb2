//! Textual command grammar: turns a player's input into a validated action
//! request. Keywords match case-insensitively; a location is a row letter
//! from `a` followed by a 1-based column number; a corporation may be named
//! by any prefix of its name, the first match in catalog order winning.
use vstd::prelude::*;

use crate::board::Loc;
use crate::corp::Corp;

verus! {

/// A validated action request, as parsed from player input.
#[derive(Copy, Clone, Debug, PartialEq, Eq, Structural)]
pub enum Command {
    Play(Loc),
    Found(Corp),
    Buy(usize, Corp),
    Done,
    Merge(Corp, Corp),
    Sell(usize),
    Trade(usize),
    Keep,
    End,
}

/// The character's code with an upper-case ASCII letter folded to lower
/// case.
pub open spec fn lower_char(c: char) -> int {
    if 65 <= c as u32 <= 90 {
        c as u32 + 32
    } else {
        c as u32 as int
    }
}

/// Whether the character is an ASCII decimal digit.
pub open spec fn is_digit_char(c: char) -> bool {
    48 <= c as u32 <= 57
}

/// The digit's numeric value.
pub open spec fn digit_val(c: char) -> int {
    c as u32 - 48
}

/// The number the digit sequence denotes, most significant first.
pub open spec fn digits_value(s: Seq<char>) -> int
    decreases s.len(),
{
    if s.len() == 0 {
        0
    } else {
        digits_value(s.drop_last()) * 10 + digit_val(s.last())
    }
}

/// Where the run of digits starting at `pos` ends.
pub open spec fn digit_run_end(s: Seq<char>, pos: int) -> int
    decreases s.len() - pos,
{
    if pos < 0 || pos >= s.len() || !is_digit_char(s[pos]) {
        pos
    } else {
        digit_run_end(s, pos + 1)
    }
}

/// Where the run of spaces starting at `pos` ends.
pub open spec fn space_run_end(s: Seq<char>, pos: int) -> int
    decreases s.len() - pos,
{
    if pos < 0 || pos >= s.len() || s[pos] as u32 != 32 {
        pos
    } else {
        space_run_end(s, pos + 1)
    }
}

/// Where the word (run of non-space characters) starting at `pos` ends.
pub open spec fn word_end(s: Seq<char>, pos: int) -> int
    decreases s.len() - pos,
{
    if pos < 0 || pos >= s.len() || s[pos] as u32 == 32 {
        pos
    } else {
        word_end(s, pos + 1)
    }
}

/// The keyword `tok` occurs at `pos`, compared letter by letter ignoring
/// ASCII case.
pub open spec fn token_at(s: Seq<char>, pos: int, tok: Seq<char>) -> bool {
    0 <= pos && pos + tok.len() <= s.len() && forall|i: int|
        0 <= i < tok.len() ==> lower_char(#[trigger] s[pos + i]) == lower_char(tok[i])
}

/// The word names a prefix of `name`, ignoring ASCII case; an empty word
/// names nothing.
pub open spec fn name_matches(word: Seq<char>, name: Seq<char>) -> bool {
    1 <= word.len() <= name.len() && forall|i: int|
        0 <= i < word.len() ==> lower_char(#[trigger] word[i]) == lower_char(name[i])
}

/// What parsing a row letter at `pos` yields: any ASCII character whose
/// lower-case code is `a` or beyond, taken as a 0-based row.
pub open spec fn spec_loc_row(s: Seq<char>, pos: int) -> Option<(usize, int)> {
    if 0 <= pos < s.len() && 97 <= lower_char(s[pos]) < 128 {
        Some((((lower_char(s[pos]) - 97) as usize), pos + 1))
    } else {
        None
    }
}

/// What parsing a column number at `pos` yields: a digit run denoting a
/// number of at least 1 that fits the machine, taken as a 0-based column.
pub open spec fn spec_loc_col(s: Seq<char>, pos: int) -> Option<(usize, int)> {
    let end = digit_run_end(s, pos);
    if 0 <= pos < s.len() && is_digit_char(s[pos]) && 1 <= digits_value(s.subrange(pos, end))
        <= usize::MAX {
        Some((((digits_value(s.subrange(pos, end)) - 1) as usize), end))
    } else {
        None
    }
}

/// What parsing a location at `pos` yields: a row letter then a column
/// number.
pub open spec fn spec_loc(s: Seq<char>, pos: int) -> Option<(Loc, int)> {
    match spec_loc_row(s, pos) {
        Some((row, p)) => match spec_loc_col(s, p) {
            Some((col, p2)) => Some((Loc { row, col }, p2)),
            None => None,
        },
        None => None,
    }
}

/// What parsing a corporation name at `pos` yields: the first corporation
/// in catalog order whose name the next word is a prefix of.
pub open spec fn spec_corp(s: Seq<char>, pos: int) -> Option<(Corp, int)> {
    let end = word_end(s, pos);
    if 0 <= pos < s.len() && end > pos {
        let w = s.subrange(pos, end);
        if name_matches(w, "Worldwide"@) {
            Some((Corp::Worldwide, end))
        } else if name_matches(w, "Sackson"@) {
            Some((Corp::Sackson, end))
        } else if name_matches(w, "Festival"@) {
            Some((Corp::Festival, end))
        } else if name_matches(w, "Imperial"@) {
            Some((Corp::Imperial, end))
        } else if name_matches(w, "American"@) {
            Some((Corp::American, end))
        } else if name_matches(w, "Continental"@) {
            Some((Corp::Continental, end))
        } else if name_matches(w, "Tower"@) {
            Some((Corp::Tower, end))
        } else {
            None
        }
    } else {
        None
    }
}

/// Whether the character at `p` is an ASCII digit.
fn is_digit_at(input: &str, p: usize) -> (r: bool)
    requires
        p < input@.len(),
    ensures
        r == is_digit_char(input@[p as int]),
{
    let c = input.get_char(p);
    48 <= c as u32 && c as u32 <= 57
}

/// Whether the character at `p` is a space.
fn is_space_at(input: &str, p: usize) -> (r: bool)
    requires
        p < input@.len(),
    ensures
        r == (input@[p as int] as u32 == 32),
{
    let c = input.get_char(p);
    c as u32 == 32
}

/// The exact number of characters this string holds.
fn str_len(input: &str) -> (r: usize)
    ensures
        r == input@.len(),
{
    input.unicode_len()
}

/// Parses a row letter; see [`spec_loc_row`].
pub fn loc_row(input: &str, pos: usize) -> (r: Option<(usize, usize)>)
    ensures
        r matches Some(t) ==> spec_loc_row(input@, pos as int) == Some((t.0, t.1 as int)),
        r is None ==> spec_loc_row(input@, pos as int) is None,
{
    let len = str_len(input);
    if pos >= len {
        return None;
    }
    let c = input.get_char(pos);
    let cu = c as u32;
    let lc = if 65 <= cu && cu <= 90 {
        cu + 32
    } else {
        cu
    };
    if 97 <= lc && lc < 128 {
        Some(((lc - 97) as usize, pos + 1))
    } else {
        None
    }
}

/// Digit values never shrink a number as the run extends.
proof fn lemma_digits_monotone(s: Seq<char>, pos: int, a: int, b: int)
    requires
        0 <= pos <= a <= b <= s.len(),
        forall|j: int| pos <= j < b ==> is_digit_char(#[trigger] s[j]),
    ensures
        digits_value(s.subrange(pos, a)) <= digits_value(s.subrange(pos, b)),
        digits_value(s.subrange(pos, a)) >= 0,
    decreases b - a,
{
    if a == b {
        lemma_digits_nonneg(s.subrange(pos, a));
    } else {
        lemma_digits_monotone(s, pos, a, b - 1);
        assert(s.subrange(pos, b).drop_last() =~= s.subrange(pos, b - 1));
        assert(s.subrange(pos, b).last() == s[b - 1]);
        lemma_digits_nonneg(s.subrange(pos, b - 1));
    }
}

/// A digit sequence denotes a number of at least zero.
proof fn lemma_digits_nonneg(s: Seq<char>)
    ensures
        (forall|j: int| 0 <= j < s.len() ==> is_digit_char(#[trigger] s[j])) ==> digits_value(s)
            >= 0,
    decreases s.len(),
{
    if s.len() > 0 {
        lemma_digits_nonneg(s.drop_last());
    }
}

/// Parses a column number; see [`spec_loc_col`].
pub fn loc_col(input: &str, pos: usize) -> (r: Option<(usize, usize)>)
    ensures
        r matches Some(t) ==> spec_loc_col(input@, pos as int) == Some((t.0, t.1 as int)) && t.1
            <= input@.len(),
        r is None ==> spec_loc_col(input@, pos as int) is None,
{
    let ghost s = input@;
    let len = str_len(input);
    if pos >= len {
        return None;
    }
    let c0 = input.get_char(pos);
    if !(48 <= c0 as u32 && c0 as u32 <= 57) {
        return None;
    }
    let mut p: usize = pos;
    let mut acc: usize = 0;
    proof {
        assert(s.subrange(pos as int, pos as int) =~= Seq::<char>::empty());
    }
    while p < len && is_digit_at(input, p)
        invariant
            s == input@,
            len == s.len(),
            pos <= p <= len,
            forall|j: int| pos <= j < p ==> is_digit_char(#[trigger] s[j]),
            acc == digits_value(s.subrange(pos as int, p as int)),
            digit_run_end(s, pos as int) == digit_run_end(s, p as int),
        decreases len - p,
    {
        let c = input.get_char(p);
        let cu = c as u32;
        let d = (cu - 48) as usize;
        proof {
            assert(s.subrange(pos as int, p + 1).drop_last() =~= s.subrange(pos as int, p as int));
            assert(s.subrange(pos as int, p + 1).last() == s[p as int]);
        }
        if acc > (usize::MAX - d) / 10 {
            // the number overflows the machine: the whole run does too
            proof {
                let end = digit_run_end(s, pos as int);
                lemma_run_end_bounds(s, p as int);
                assert(end == digit_run_end(s, p + 1));
                lemma_run_end_bounds(s, p + 1);
                lemma_run_digits(s, pos as int);
                lemma_digits_monotone(s, pos as int, p + 1, end);
                assert(digits_value(s.subrange(pos as int, p + 1)) == acc * 10 + d);
                assert(acc * 10 + d > usize::MAX) by (nonlinear_arith)
                    requires
                        acc > (usize::MAX - d) / 10,
                        d <= 9,
                        acc >= 0,
                ;
            }
            return None;
        }
        acc = acc * 10 + d;
        p = p + 1;
    }
    proof {
        assert(digit_run_end(s, p as int) == p);
        assert(digit_run_end(s, pos as int) == p);
    }
    if acc == 0 {
        return None;
    }
    Some((acc - 1, p))
}

/// A digit run ends within the sequence, at or after where it starts.
proof fn lemma_run_end_bounds(s: Seq<char>, pos: int)
    requires
        0 <= pos <= s.len(),
    ensures
        pos <= digit_run_end(s, pos) <= s.len(),
    decreases s.len() - pos,
{
    if pos < s.len() && is_digit_char(s[pos]) {
        lemma_run_end_bounds(s, pos + 1);
    }
}

/// Every character before a digit run's end is a digit.
proof fn lemma_run_digits(s: Seq<char>, pos: int)
    requires
        0 <= pos <= s.len(),
    ensures
        forall|j: int| pos <= j < digit_run_end(s, pos) ==> is_digit_char(#[trigger] s[j]),
    decreases s.len() - pos,
{
    if pos < s.len() && is_digit_char(s[pos]) {
        lemma_run_digits(s, pos + 1);
    }
}

/// Parses a location; see [`spec_loc`].
pub fn loc(input: &str, pos: usize) -> (r: Option<(Loc, usize)>)
    ensures
        r matches Some(t) ==> spec_loc(input@, pos as int) == Some((t.0, t.1 as int)) && t.1
            <= input@.len(),
        r is None ==> spec_loc(input@, pos as int) is None,
{
    match loc_row(input, pos) {
        Option::Some((row, p)) => match loc_col(input, p) {
            Option::Some((col, p2)) => Some((Loc { row, col }, p2)),
            Option::None => None,
        },
        Option::None => None,
    }
}

/// Where the next word ends, scanning from `pos`.
fn find_word_end(input: &str, pos: usize) -> (r: usize)
    requires
        pos <= input@.len(),
    ensures
        r == word_end(input@, pos as int),
        pos <= r <= input@.len(),
{
    let ghost s = input@;
    let len = str_len(input);
    let mut p: usize = pos;
    while p < len && !is_space_at(input, p)
        invariant
            s == input@,
            len == s.len(),
            pos <= p <= len,
            word_end(s, pos as int) == word_end(s, p as int),
        decreases len - p,
    {
        p = p + 1;
    }
    proof {
        assert(word_end(s, p as int) == p);
    }
    p
}

/// Skips the run of spaces from `pos`.
fn skip_spaces(input: &str, pos: usize) -> (r: usize)
    requires
        pos <= input@.len(),
    ensures
        r == space_run_end(input@, pos as int),
        pos <= r <= input@.len(),
{
    let ghost s = input@;
    let len = str_len(input);
    let mut p: usize = pos;
    while p < len && is_space_at(input, p)
        invariant
            s == input@,
            len == s.len(),
            pos <= p <= len,
            space_run_end(s, pos as int) == space_run_end(s, p as int),
        decreases len - p,
    {
        p = p + 1;
    }
    proof {
        assert(space_run_end(s, p as int) == p);
    }
    p
}

/// Whether the characters `[pos, end)` name a prefix of `name`, ignoring
/// ASCII case.
fn word_matches(input: &str, pos: usize, end: usize, name: &str) -> (r: bool)
    requires
        pos <= end <= input@.len(),
    ensures
        r == name_matches(input@.subrange(pos as int, end as int), name@),
{
    let ghost w = input@.subrange(pos as int, end as int);
    let name_len = str_len(name);
    let n = end - pos;
    if n == 0 || n > name_len {
        return false;
    }
    let mut i: usize = 0;
    while i < n
        invariant
            w == input@.subrange(pos as int, end as int),
            pos <= end <= input@.len(),
            n == end - pos,
            1 <= n <= name@.len(),
            i <= n,
            forall|j: int| 0 <= j < i ==> lower_char(#[trigger] w[j]) == lower_char(name@[j]),
        decreases n - i,
    {
        let a = input.get_char(pos + i);
        let b = name.get_char(i);
        let au = a as u32;
        let bu = b as u32;
        let la = if 65 <= au && au <= 90 {
            au + 32
        } else {
            au
        };
        let lb = if 65 <= bu && bu <= 90 {
            bu + 32
        } else {
            bu
        };
        if la != lb {
            proof {
                assert(w[i as int] == input@[pos + i]);
            }
            return false;
        }
        proof {
            assert(w[i as int] == input@[pos + i]);
        }
        i = i + 1;
    }
    true
}

/// Whether the keyword occurs at `pos`, ignoring ASCII case.
fn match_token(input: &str, pos: usize, tok: &str) -> (r: bool)
    requires
        pos <= input@.len(),
    ensures
        r == token_at(input@, pos as int, tok@),
{
    let len = str_len(input);
    let tok_len = str_len(tok);
    if tok_len > len || pos > len - tok_len {
        proof {
            if token_at(input@, pos as int, tok@) {
                assert(pos + tok@.len() <= input@.len());
            }
        }
        return false;
    }
    let mut i: usize = 0;
    while i < tok_len
        invariant
            pos + tok_len <= input@.len(),
            pos + tok_len <= usize::MAX,
            tok_len == tok@.len(),
            i <= tok_len,
            forall|j: int|
                0 <= j < i ==> lower_char(#[trigger] input@[pos + j]) == lower_char(tok@[j]),
        decreases tok_len - i,
    {
        let a = input.get_char(pos + i);
        let b = tok.get_char(i);
        let au = a as u32;
        let bu = b as u32;
        let la = if 65 <= au && au <= 90 {
            au + 32
        } else {
            au
        };
        let lb = if 65 <= bu && bu <= 90 {
            bu + 32
        } else {
            bu
        };
        if la != lb {
            return false;
        }
        i = i + 1;
    }
    true
}

/// Parses a corporation name; see [`spec_corp`].
pub fn corp(input: &str, pos: usize) -> (r: Option<(Corp, usize)>)
    requires
        pos <= input@.len(),
    ensures
        r matches Some(t) ==> spec_corp(input@, pos as int) == Some((t.0, t.1 as int)) && t.1
            <= input@.len(),
        r is None ==> spec_corp(input@, pos as int) is None,
{
    let len = str_len(input);
    if pos >= len {
        return None;
    }
    let end = find_word_end(input, pos);
    if end == pos {
        return None;
    }
    if word_matches(input, pos, end, "Worldwide") {
        return Some((Corp::Worldwide, end));
    }
    if word_matches(input, pos, end, "Sackson") {
        return Some((Corp::Sackson, end));
    }
    if word_matches(input, pos, end, "Festival") {
        return Some((Corp::Festival, end));
    }
    if word_matches(input, pos, end, "Imperial") {
        return Some((Corp::Imperial, end));
    }
    if word_matches(input, pos, end, "American") {
        return Some((Corp::American, end));
    }
    if word_matches(input, pos, end, "Continental") {
        return Some((Corp::Continental, end));
    }
    if word_matches(input, pos, end, "Tower") {
        return Some((Corp::Tower, end));
    }
    None
}

/// What parsing `play <loc>` yields.
pub open spec fn spec_play(s: Seq<char>) -> Option<(Command, int)> {
    if token_at(s, 0, "play"@) {
        match spec_loc(s, space_run_end(s, 4)) {
            Some((l, p2)) => Some((Command::Play(l), p2)),
            None => None,
        }
    } else {
        None
    }
}

/// Parses `play <loc>`; see [`spec_play`].
pub fn play(input: &str) -> (r: Option<(Command, usize)>)
    ensures
        r matches Some(t) ==> spec_play(input@) == Some((t.0, t.1 as int)),
        r is None ==> spec_play(input@) is None,
{
    let len = str_len(input);
    if len < 4 {
        proof {
            reveal_strlit("play");
            if token_at(input@, 0, "play"@) {
                assert(false);
            }
        }
        return None;
    }
    if !match_token(input, 0, "play") {
        return None;
    }
    proof {
        reveal_strlit("play");
    }
    let p = skip_spaces(input, 4);
    match loc(input, p) {
        Option::Some((l, p2)) => Some((Command::Play(l), p2)),
        Option::None => None,
    }
}

/// What parsing `done` yields.
pub open spec fn spec_done(s: Seq<char>) -> Option<(Command, int)> {
    if token_at(s, 0, "done"@) {
        Some((Command::Done, 4))
    } else {
        None
    }
}

/// Parses `done`; see [`spec_done`].
pub fn done(input: &str) -> (r: Option<(Command, usize)>)
    ensures
        r matches Some(t) ==> spec_done(input@) == Some((t.0, t.1 as int)),
        r is None ==> spec_done(input@) is None,
{
    let len = str_len(input);
    if len < 4 {
        proof {
            reveal_strlit("done");
            if token_at(input@, 0, "done"@) {
                assert(false);
            }
        }
        return None;
    }
    if match_token(input, 0, "done") {
        proof {
            reveal_strlit("done");
        }
        Some((Command::Done, 4))
    } else {
        None
    }
}

/// What parsing `buy <n> <corp>` yields.
pub open spec fn spec_buy(s: Seq<char>) -> Option<(Command, int)> {
    if token_at(s, 0, "buy"@) {
        let p = space_run_end(s, 3);
        match spec_loc_col(s, p) {
            Some((v, p2)) => {
                let p3 = space_run_end(s, p2);
                match spec_corp(s, p3) {
                    Some((c, p4)) => Some((Command::Buy((v + 1) as usize, c), p4)),
                    None => None,
                }
            },
            None => None,
        }
    } else {
        None
    }
}

/// Parses `buy <n> <corp>`, where the count must be at least 1; see
/// [`spec_buy`].
pub fn buy(input: &str) -> (r: Option<(Command, usize)>)
    ensures
        r matches Some(t) ==> spec_buy(input@) == Some((t.0, t.1 as int)),
        r is None ==> spec_buy(input@) is None,
{
    let len = str_len(input);
    if len < 3 {
        proof {
            reveal_strlit("buy");
            if token_at(input@, 0, "buy"@) {
                assert(false);
            }
        }
        return None;
    }
    if !match_token(input, 0, "buy") {
        return None;
    }
    proof {
        reveal_strlit("buy");
    }
    let p = skip_spaces(input, 3);
    match loc_col(input, p) {
        Option::Some((v, p2)) => {
            proof {
                assert(v < usize::MAX);
                lemma_run_end_bounds(input@, p as int);
            }
            let p3 = skip_spaces(input, p2);
            match corp(input, p3) {
                Option::Some((c, p4)) => Some((Command::Buy(v + 1, c), p4)),
                Option::None => None,
            }
        },
        Option::None => None,
    }
}


/// A share count: a digit run denoting a number of at least 1.
pub open spec fn spec_number(s: Seq<char>, pos: int) -> Option<(usize, int)> {
    match spec_loc_col(s, pos) {
        Some((v, p2)) => Some((((v + 1) as usize), p2)),
        None => None,
    }
}

/// Parses a share count; see [`spec_number`].
pub fn number(input: &str, pos: usize) -> (r: Option<(usize, usize)>)
    ensures
        r matches Some(t) ==> spec_number(input@, pos as int) == Some((t.0, t.1 as int)) && t.1
            <= input@.len() && t.0 >= 1,
        r is None ==> spec_number(input@, pos as int) is None,
{
    match loc_col(input, pos) {
        Option::Some((v, p2)) => {
            proof {
                assert(v < usize::MAX);
            }
            Some((v + 1, p2))
        },
        Option::None => None,
    }
}

/// What parsing `found <corp>` yields.
pub open spec fn spec_found(s: Seq<char>) -> Option<(Command, int)> {
    if token_at(s, 0, "found"@) {
        match spec_corp(s, space_run_end(s, 5)) {
            Some((c, p2)) => Some((Command::Found(c), p2)),
            None => None,
        }
    } else {
        None
    }
}

/// Parses `found <corp>`; see [`spec_found`].
pub fn found(input: &str) -> (r: Option<(Command, usize)>)
    ensures
        r matches Some(t) ==> spec_found(input@) == Some((t.0, t.1 as int)),
        r is None ==> spec_found(input@) is None,
{
    let len = str_len(input);
    if len < 5 {
        proof {
            reveal_strlit("found");
            if token_at(input@, 0, "found"@) {
                assert(false);
            }
        }
        return None;
    }
    if !match_token(input, 0, "found") {
        return None;
    }
    proof {
        reveal_strlit("found");
    }
    let p = skip_spaces(input, 5);
    match corp(input, p) {
        Option::Some((c, p2)) => Some((Command::Found(c), p2)),
        Option::None => None,
    }
}

/// What parsing `merge <corp> into <corp>` yields.
pub open spec fn spec_merge(s: Seq<char>) -> Option<(Command, int)> {
    if token_at(s, 0, "merge"@) {
        match spec_corp(s, space_run_end(s, 5)) {
            Some((from, p2)) => {
                let p3 = space_run_end(s, p2);
                if token_at(s, p3, "into"@) {
                    match spec_corp(s, space_run_end(s, p3 + 4)) {
                        Some((into, p4)) => Some((Command::Merge(from, into), p4)),
                        None => None,
                    }
                } else {
                    None
                }
            },
            None => None,
        }
    } else {
        None
    }
}

/// Parses `merge <corp> into <corp>`; see [`spec_merge`].
pub fn merge(input: &str) -> (r: Option<(Command, usize)>)
    ensures
        r matches Some(t) ==> spec_merge(input@) == Some((t.0, t.1 as int)),
        r is None ==> spec_merge(input@) is None,
{
    let len = str_len(input);
    if len < 5 {
        proof {
            reveal_strlit("merge");
            if token_at(input@, 0, "merge"@) {
                assert(false);
            }
        }
        return None;
    }
    if !match_token(input, 0, "merge") {
        return None;
    }
    proof {
        reveal_strlit("merge");
        reveal_strlit("into");
    }
    let p = skip_spaces(input, 5);
    let (from, p2) = match corp(input, p) {
        Option::Some(t) => t,
        Option::None => {
            return None;
        },
    };
    let p3 = skip_spaces(input, p2);
    if !match_token(input, p3, "into") {
        return None;
    }
    proof {
        assert(p3 + "into"@.len() <= input@.len());
    }
    let p4 = skip_spaces(input, p3 + 4);
    match corp(input, p4) {
        Option::Some((into, p5)) => Some((Command::Merge(from, into), p5)),
        Option::None => None,
    }
}

/// What parsing `sell <n>` yields.
pub open spec fn spec_sell(s: Seq<char>) -> Option<(Command, int)> {
    if token_at(s, 0, "sell"@) {
        match spec_number(s, space_run_end(s, 4)) {
            Some((n, p2)) => Some((Command::Sell(n), p2)),
            None => None,
        }
    } else {
        None
    }
}

/// Parses `sell <n>`; see [`spec_sell`].
pub fn sell(input: &str) -> (r: Option<(Command, usize)>)
    ensures
        r matches Some(t) ==> spec_sell(input@) == Some((t.0, t.1 as int)),
        r is None ==> spec_sell(input@) is None,
{
    let len = str_len(input);
    if len < 4 {
        proof {
            reveal_strlit("sell");
            if token_at(input@, 0, "sell"@) {
                assert(false);
            }
        }
        return None;
    }
    if !match_token(input, 0, "sell") {
        return None;
    }
    proof {
        reveal_strlit("sell");
    }
    let p = skip_spaces(input, 4);
    match number(input, p) {
        Option::Some((n, p2)) => Some((Command::Sell(n), p2)),
        Option::None => None,
    }
}

/// What parsing `trade <n>` yields.
pub open spec fn spec_trade(s: Seq<char>) -> Option<(Command, int)> {
    if token_at(s, 0, "trade"@) {
        match spec_number(s, space_run_end(s, 5)) {
            Some((n, p2)) => Some((Command::Trade(n), p2)),
            None => None,
        }
    } else {
        None
    }
}

/// Parses `trade <n>`; see [`spec_trade`].
pub fn trade(input: &str) -> (r: Option<(Command, usize)>)
    ensures
        r matches Some(t) ==> spec_trade(input@) == Some((t.0, t.1 as int)),
        r is None ==> spec_trade(input@) is None,
{
    let len = str_len(input);
    if len < 5 {
        proof {
            reveal_strlit("trade");
            if token_at(input@, 0, "trade"@) {
                assert(false);
            }
        }
        return None;
    }
    if !match_token(input, 0, "trade") {
        return None;
    }
    proof {
        reveal_strlit("trade");
    }
    let p = skip_spaces(input, 5);
    match number(input, p) {
        Option::Some((n, p2)) => Some((Command::Trade(n), p2)),
        Option::None => None,
    }
}

/// What parsing `keep` yields.
pub open spec fn spec_keep(s: Seq<char>) -> Option<(Command, int)> {
    if token_at(s, 0, "keep"@) {
        Some((Command::Keep, 4))
    } else {
        None
    }
}

/// Parses `keep`; see [`spec_keep`].
pub fn keep(input: &str) -> (r: Option<(Command, usize)>)
    ensures
        r matches Some(t) ==> spec_keep(input@) == Some((t.0, t.1 as int)),
        r is None ==> spec_keep(input@) is None,
{
    let len = str_len(input);
    if len < 4 {
        proof {
            reveal_strlit("keep");
            if token_at(input@, 0, "keep"@) {
                assert(false);
            }
        }
        return None;
    }
    if match_token(input, 0, "keep") {
        proof {
            reveal_strlit("keep");
        }
        Some((Command::Keep, 4))
    } else {
        None
    }
}

/// What parsing `end` yields.
pub open spec fn spec_end(s: Seq<char>) -> Option<(Command, int)> {
    if token_at(s, 0, "end"@) {
        Some((Command::End, 3))
    } else {
        None
    }
}

/// Parses `end`; see [`spec_end`].
pub fn end(input: &str) -> (r: Option<(Command, usize)>)
    ensures
        r matches Some(t) ==> spec_end(input@) == Some((t.0, t.1 as int)),
        r is None ==> spec_end(input@) is None,
{
    let len = str_len(input);
    if len < 3 {
        proof {
            reveal_strlit("end");
            if token_at(input@, 0, "end"@) {
                assert(false);
            }
        }
        return None;
    }
    if match_token(input, 0, "end") {
        proof {
            reveal_strlit("end");
        }
        Some((Command::End, 3))
    } else {
        None
    }
}

/// What parsing a whole command yields: the sub-grammars are tried in a
/// fixed order and the first that parses wins.
pub open spec fn spec_command(s: Seq<char>) -> Option<(Command, int)> {
    if spec_play(s) is Some {
        spec_play(s)
    } else if spec_found(s) is Some {
        spec_found(s)
    } else if spec_buy(s) is Some {
        spec_buy(s)
    } else if spec_done(s) is Some {
        spec_done(s)
    } else if spec_merge(s) is Some {
        spec_merge(s)
    } else if spec_sell(s) is Some {
        spec_sell(s)
    } else if spec_trade(s) is Some {
        spec_trade(s)
    } else if spec_keep(s) is Some {
        spec_keep(s)
    } else {
        spec_end(s)
    }
}

/// Parses a command; see [`spec_command`].
pub fn command(input: &str) -> (r: Option<(Command, usize)>)
    ensures
        r matches Some(t) ==> spec_command(input@) == Some((t.0, t.1 as int)),
        r is None ==> spec_command(input@) is None,
{
    if let Option::Some(t) = play(input) {
        return Some(t);
    }
    if let Option::Some(t) = found(input) {
        return Some(t);
    }
    if let Option::Some(t) = buy(input) {
        return Some(t);
    }
    if let Option::Some(t) = done(input) {
        return Some(t);
    }
    if let Option::Some(t) = merge(input) {
        return Some(t);
    }
    if let Option::Some(t) = sell(input) {
        return Some(t);
    }
    if let Option::Some(t) = trade(input) {
        return Some(t);
    }
    if let Option::Some(t) = keep(input) {
        return Some(t);
    }
    if let Option::Some(t) = end(input) {
        return Some(t);
    }
    None
}

} // verus!
