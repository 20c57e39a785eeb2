//! The 12 x 9 board: tile states, locations and adjacency, corporation
//! sizes, and the connectivity operations a placement triggers.
use vstd::prelude::*;

use crate::corp::{Corp, SAFE_SIZE};

verus! {

/// Columns of the grid.
pub const WIDTH: usize = 12;

/// Rows of the grid.
pub const HEIGHT: usize = 9;

/// Cells of the grid.
pub const SIZE: usize = WIDTH * HEIGHT;

/// State of one board cell. A cell only ever advances
/// `Empty -> {Discarded | Unincorporated} -> Corp`, except that an owned
/// cell's tag changes when its corporation is absorbed by another.
#[derive(Copy, Clone, Debug, PartialEq, Eq, Structural)]
pub enum Tile {
    Empty,
    Discarded,
    Unincorporated,
    Corp(Corp),
}

impl Default for Tile {
    /// A cell starts empty.
    fn default() -> (r: Self)
        ensures
            r == Tile::Empty,
    {
        Tile::Empty
    }
}

/// A board location, row-major on the 12 x 9 grid.
#[derive(Copy, Clone, Debug, PartialEq, Eq, Structural)]
pub struct Loc {
    pub row: usize,
    pub col: usize,
}

/// Whether a location lies on the grid.
pub open spec fn in_grid(l: Loc) -> bool {
    l.row < HEIGHT && l.col < WIDTH
}

/// Row-major cell index of a location.
pub open spec fn loc_index(l: Loc) -> int {
    l.row * WIDTH + l.col
}

/// Four-directional adjacency; diagonals do not touch.
pub open spec fn adjacent(a: Loc, b: Loc) -> bool {
    (a.row == b.row && (a.col + 1 == b.col || b.col + 1 == a.col)) || (a.col == b.col && (a.row + 1
        == b.row || b.row + 1 == a.row))
}

/// The tile at cell index `i` of board contents `s`; cells outside the
/// stored vector read as `Empty`.
pub open spec fn tile_at(s: Seq<Tile>, i: int) -> Tile {
    if 0 <= i < s.len() {
        s[i]
    } else {
        Tile::Empty
    }
}

/// How many entries of `s` equal `v`.
pub open spec fn count_val<T>(s: Seq<T>, v: T) -> nat
    decreases s.len(),
{
    if s.len() == 0 {
        0
    } else {
        count_val(s.drop_last(), v) + (if s.last() == v {
            1nat
        } else {
            0nat
        })
    }
}

/// A count never exceeds the length counted over.
pub proof fn lemma_count_le_len<T>(s: Seq<T>, v: T)
    ensures
        count_val(s, v) <= s.len(),
    decreases s.len(),
{
    if s.len() > 0 {
        lemma_count_le_len(s.drop_last(), v);
    }
}

/// Appending one entry raises exactly the count of its own value.
pub proof fn lemma_count_push<T>(s: Seq<T>, v: T, x: T)
    ensures
        count_val(s.push(x), v) == count_val(s, v) + (if x == v {
            1nat
        } else {
            0nat
        }),
{
    assert(s.push(x).drop_last() =~= s);
}

/// Overwriting one entry adjusts the counts of the old and new values only.
pub proof fn lemma_count_update<T>(s: Seq<T>, v: T, i: int, x: T)
    requires
        0 <= i < s.len(),
    ensures
        count_val(s.update(i, x), v) == count_val(s, v) + (if x == v {
            1nat
        } else {
            0nat
        }) - (if s[i] == v {
            1nat
        } else {
            0nat
        }),
    decreases s.len(),
{
    if i == s.len() - 1 {
        assert(s.update(i, x).drop_last() =~= s.drop_last());
    } else {
        assert(s.update(i, x).drop_last() =~= s.drop_last().update(i, x));
        lemma_count_update(s.drop_last(), v, i, x);
    }
}

/// Pushing an entry adds exactly it to the members, and keeps a sequence
/// free of repeats when the entry is new.
pub proof fn lemma_push_contains<T>(s: Seq<T>, x: T)
    ensures
        forall|y: T| s.push(x).contains(y) <==> s.contains(y) || y == x,
        s.no_duplicates() && !s.contains(x) ==> s.push(x).no_duplicates(),
{
    assert forall|y: T| s.push(x).contains(y) implies s.contains(y) || y == x by {
        let k = choose|k: int| 0 <= k < s.push(x).len() && s.push(x)[k] == y;
        if k < s.len() {
            assert(s[k] == y);
        }
    }
    assert forall|y: T| s.contains(y) || y == x implies s.push(x).contains(y) by {
        if s.contains(y) {
            let k = choose|k: int| 0 <= k < s.len() && s[k] == y;
            assert(s.push(x)[k] == y);
        } else {
            assert(s.push(x)[s.len() as int] == y);
        }
    }
    if s.no_duplicates() && !s.contains(x) {
        assert forall|a: int, b: int|
            0 <= a < s.push(x).len() && 0 <= b < s.push(x).len() && a != b implies s.push(x)[a]
            != s.push(x)[b] by {
            if a < s.len() && b < s.len() {
            } else if a == s.len() && 0 <= b < s.len() {
                if s[b] == s.push(x)[a] {
                    assert(s.contains(x));
                }
            } else if b == s.len() && 0 <= a < s.len() {
                if s[a] == s.push(x)[b] {
                    assert(s.contains(x));
                }
            }
        }
    }
}

/// If no entry equals `v`, its count is zero, and conversely.
pub proof fn lemma_count_zero<T>(s: Seq<T>, v: T)
    ensures
        count_val(s, v) == 0 <==> (forall|i: int| 0 <= i < s.len() ==> s[i] != v),
    decreases s.len(),
{
    if s.len() > 0 {
        lemma_count_zero(s.drop_last(), v);
        if count_val(s, v) == 0 {
            assert forall|i: int| 0 <= i < s.len() implies s[i] != v by {
                if i < s.len() - 1 {
                    assert(s.drop_last()[i] == s[i]);
                }
            }
        }
    }
}

/// A value whose cells only ever gain its tag never loses count.
pub proof fn lemma_count_monotone(o: Seq<Tile>, n: Seq<Tile>, v: Tile)
    requires
        o.len() == n.len(),
        forall|i: int| 0 <= i < n.len() ==> n[i] == o[i] || n[i] == v,
    ensures
        count_val(n, v) >= count_val(o, v),
    decreases o.len(),
{
    if o.len() > 0 {
        assert forall|i: int|
            0 <= i < n.drop_last().len() implies n.drop_last()[i] == o.drop_last()[i]
            || n.drop_last()[i] == v by {
            assert(n.drop_last()[i] == n[i]);
            assert(o.drop_last()[i] == o[i]);
        }
        lemma_count_monotone(o.drop_last(), n.drop_last(), v);
        assert(n[o.len() - 1] == n.last());
        assert(o[o.len() - 1] == o.last());
    }
}

/// Cell indexes identify grid locations: equal indexes, equal locations.
pub proof fn lemma_loc_index_injective(a: Loc, b: Loc)
    requires
        in_grid(a),
        in_grid(b),
        loc_index(a) == loc_index(b),
    ensures
        a == b,
{
    assert(a.row == b.row && a.col == b.col) by (nonlinear_arith)
        requires
            a.row < 9 && a.col < 12 && b.row < 9 && b.col < 12,
            a.row * 12 + a.col == b.row * 12 + b.col,
    ;
}

/// The board: one tile state per cell, row-major. Indexes past the stored
/// length read as `Empty`.
#[derive(Debug)]
pub struct Board(pub Vec<Tile>);

impl View for Board {
    type V = Seq<Tile>;

    open spec fn view(&self) -> Seq<Tile> {
        self.0@
    }
}

impl Clone for Board {
    /// An exact copy, cell for cell.
    fn clone(&self) -> (r: Self)
        ensures
            r@ == self@,
    {
        let r = Board(self.0.clone());
        proof {
            assert(r@ =~= self@);
        }
        r
    }
}

impl Default for Board {
    /// A fresh board: every grid cell empty.
    fn default() -> (r: Self)
        ensures
            r@.len() == SIZE,
            forall|i: int| 0 <= i < SIZE ==> r@[i] == Tile::Empty,
    {
        Board(vec![Tile::Empty; SIZE])
    }
}

impl Board {
    /// The tile at a cell index; `Empty` beyond the stored cells.
    pub fn get_tile(&self, at: usize) -> (r: Tile)
        ensures
            r == tile_at(self@, at as int),
    {
        if at < self.0.len() {
            self.0[at]
        } else {
            Tile::Empty
        }
    }

    /// Writes a tile at a cell index, padding the stored cells with `Empty`
    /// when the index lies past them. Every other cell reads as before, and
    /// each non-`Empty` tile count moves only by the one overwritten cell.
    pub fn set_tile(&mut self, at: usize, t: Tile)
        requires
            at < usize::MAX,
        ensures
            final(self)@.len() == if at < old(self)@.len() {
                old(self)@.len() as int
            } else {
                at + 1
            },
            tile_at(final(self)@, at as int) == t,
            forall|i: int| i != at ==> tile_at(final(self)@, i) == tile_at(old(self)@, i),
            forall|tt: Tile|
                tt != Tile::Empty ==> count_val(final(self)@, tt) == count_val(old(self)@, tt) + (
                if t == tt {
                    1int
                } else {
                    0int
                }) - (if tile_at(old(self)@, at as int) == tt {
                    1int
                } else {
                    0int
                }),
    {
        if self.0.len() <= at {
            while self.0.len() <= at
                invariant
                    at < usize::MAX,
                    old(self)@.len() <= self.0@.len() <= at + 1,
                    forall|i: int| tile_at(self.0@, i) == tile_at(old(self)@, i),
                    forall|tt: Tile|
                        tt != Tile::Empty ==> count_val(self.0@, tt) == count_val(old(self)@, tt),
                decreases at + 1 - self.0.len(),
            {
                let ghost pre = self.0@;
                self.0.push(Tile::Empty);
                proof {
                    assert forall|tt: Tile| tt != Tile::Empty implies count_val(self.0@, tt)
                        == count_val(old(self)@, tt) by {
                        lemma_count_push(pre, tt, Tile::Empty);
                    }
                    assert forall|i: int| tile_at(self.0@, i) == tile_at(old(self)@, i) by {
                        if 0 <= i < pre.len() {
                            assert(self.0@[i] == pre[i]);
                        } else if i == pre.len() {
                            assert(self.0@[i] == Tile::Empty);
                        }
                    }
                }
            }
        }
        let ghost pre = self.0@;
        self.0[at] = t;
        proof {
            assert forall|tt: Tile|
                tt != Tile::Empty implies count_val(self.0@, tt) as int == count_val(old(self)@, tt)
                + (if t == tt {
                1int
            } else {
                0int
            }) - (if tile_at(old(self)@, at as int) == tt {
                1int
            } else {
                0int
            }) by {
                lemma_count_update(pre, tt, at as int, t);
            }
        }
    }

    /// How many cells the corporation owns: its size on the board.
    pub fn corp_size(&self, c: Corp) -> (r: usize)
        ensures
            r == count_val(self@, Tile::Corp(c)),
    {
        let ghost s = self.0@;
        let mut i: usize = 0;
        let mut n: usize = 0;
        proof {
            assert(s.subrange(0, 0) =~= Seq::<Tile>::empty());
            lemma_count_le_len(s, Tile::Corp(c));
        }
        while i < self.0.len()
            invariant
                s == self.0@,
                i <= s.len(),
                n == count_val(s.subrange(0, i as int), Tile::Corp(c)),
                n <= i,
            decreases s.len() - i,
        {
            proof {
                assert(s.subrange(0, i + 1).drop_last() =~= s.subrange(0, i as int));
                assert(s.subrange(0, i + 1).last() == s[i as int]);
                lemma_count_le_len(s.subrange(0, i as int), Tile::Corp(c));
            }
            if self.0[i] == Tile::Corp(c) {
                n = n + 1;
            }
            i = i + 1;
        }
        proof {
            assert(s.subrange(0, s.len() as int) =~= s);
        }
        n
    }

    /// Whether the corporation is safe: its size has reached [`SAFE_SIZE`].
    pub fn corp_is_safe(&self, c: Corp) -> (r: bool)
        ensures
            r == (count_val(self@, Tile::Corp(c)) >= SAFE_SIZE),
    {
        self.corp_size(c) >= SAFE_SIZE
    }
}

/// The row indices of the grid, top to bottom.
pub fn rows() -> (r: core::ops::Range<usize>)
    ensures
        r.start == 0 && r.end == HEIGHT,
{
    0..HEIGHT
}

/// The column indices of the grid, left to right.
pub fn cols() -> (r: core::ops::Range<usize>)
    ensures
        r.start == 0 && r.end == WIDTH,
{
    0..WIDTH
}

impl Default for Loc {
    /// The top-left corner of the grid.
    fn default() -> (r: Self)
        ensures
            r == (Loc { row: 0, col: 0 }),
    {
        Loc { row: 0, col: 0 }
    }
}

impl From<usize> for Loc {
    /// The location of a row-major cell index.
    fn from(u: usize) -> (r: Loc) {
        Loc { row: u / WIDTH, col: u % WIDTH }
    }
}

impl vstd::std_specs::convert::FromSpecImpl<usize> for Loc {
    open spec fn obeys_from_spec() -> bool {
        true
    }

    open spec fn from_spec(u: usize) -> Loc {
        Loc { row: (u as int / WIDTH as int) as usize, col: (u as int % WIDTH as int) as usize }
    }
}

impl Loc {
    /// Row-major cell index of this location.
    pub fn index(&self) -> (r: usize)
        requires
            in_grid(*self),
        ensures
            r == loc_index(*self),
            r < SIZE,
    {
        self.row * WIDTH + self.col
    }

    /// Every grid location, in row-major order and without repeats.
    pub fn all() -> (r: Vec<Loc>)
        ensures
            r@.len() == SIZE,
            forall|i: int|
                0 <= i < SIZE ==> #[trigger] r@[i] == (Loc {
                    row: (i / WIDTH as int) as usize,
                    col: (i % WIDTH as int) as usize,
                }),
            forall|l: Loc| in_grid(l) ==> r@.contains(l),
            r@.no_duplicates(),
    {
        let mut v: Vec<Loc> = Vec::new();
        let mut row: usize = 0;
        while row < HEIGHT
            invariant
                row <= HEIGHT,
                v@.len() == row * WIDTH,
                forall|i: int|
                    0 <= i < v@.len() ==> #[trigger] v@[i] == (Loc {
                        row: (i / WIDTH as int) as usize,
                        col: (i % WIDTH as int) as usize,
                    }),
            decreases HEIGHT - row,
        {
            let mut col: usize = 0;
            while col < WIDTH
                invariant
                    row < HEIGHT,
                    col <= WIDTH,
                    v@.len() == row * WIDTH + col,
                    forall|i: int|
                        0 <= i < v@.len() ==> #[trigger] v@[i] == (Loc {
                            row: (i / WIDTH as int) as usize,
                            col: (i % WIDTH as int) as usize,
                        }),
                decreases WIDTH - col,
            {
                v.push(Loc { row, col });
                col = col + 1;
            }
            row = row + 1;
        }
        proof {
            assert forall|l: Loc| in_grid(l) implies v@.contains(l) by {
                let i = loc_index(l);
                assert(v@[i] == l);
            }
            assert forall|i: int, j: int|
                0 <= i < v@.len() && 0 <= j < v@.len() && i != j implies v@[i] != v@[j] by {
                assert(v@[i].row * WIDTH + v@[i].col == i);
                assert(v@[j].row * WIDTH + v@[j].col == j);
            }
        }
        v
    }

    /// The on-grid locations one step up, down, left or right of this one:
    /// exactly those grid locations adjacent to it.
    pub fn neighbours(&self) -> (r: Vec<Loc>)
        requires
            in_grid(*self),
        ensures
            forall|i: int|
                0 <= i < r@.len() ==> in_grid(#[trigger] r@[i]) && adjacent(*self, r@[i]),
            forall|l: Loc| in_grid(l) && adjacent(*self, l) ==> r@.contains(l),
            r@.no_duplicates(),
            r@.len() <= 4,
    {
        let mut n: Vec<Loc> = Vec::new();
        if self.col > 0 {
            n.push(Loc { row: self.row, col: self.col - 1 });
        }
        if self.col < WIDTH - 1 {
            n.push(Loc { row: self.row, col: self.col + 1 });
        }
        if self.row > 0 {
            n.push(Loc { row: self.row - 1, col: self.col });
        }
        if self.row < HEIGHT - 1 {
            n.push(Loc { row: self.row + 1, col: self.col });
        }
        proof {
            let li = if self.col > 0 {
                1int
            } else {
                0int
            };
            let ri = li + (if self.col < WIDTH - 1 {
                1int
            } else {
                0int
            });
            let ui = ri + (if self.row > 0 {
                1int
            } else {
                0int
            });
            assert forall|l: Loc| in_grid(l) && adjacent(*self, l) implies n@.contains(l) by {
                if l.row == self.row && l.col + 1 == self.col {
                    assert(n@[0] == l);
                } else if l.row == self.row && self.col + 1 == l.col {
                    assert(n@[li] == l);
                } else if l.col == self.col && l.row + 1 == self.row {
                    assert(n@[ri] == l);
                } else {
                    assert(n@[ui] == l);
                }
            }
        }
        n
    }

    /// Display name of the location: row letter from `A`, then 1-based
    /// column number, as in `A1`.
    pub fn name(&self) -> (r: String)
        requires
            in_grid(*self),
        ensures
            r@ == row_name(self.row as int) + col_name(self.col as int),
    {
        let row_s = match self.row {
            0 => "A",
            1 => "B",
            2 => "C",
            3 => "D",
            4 => "E",
            5 => "F",
            6 => "G",
            7 => "H",
            _ => "I",
        };
        let col_s = match self.col {
            0 => "1",
            1 => "2",
            2 => "3",
            3 => "4",
            4 => "5",
            5 => "6",
            6 => "7",
            7 => "8",
            8 => "9",
            9 => "10",
            10 => "11",
            _ => "12",
        };
        String::from_str(row_s).concat(col_s)
    }
}

/// Whether some grid cell adjacent to `l` is owned by corporation `c`.
pub open spec fn adj_corp(b: Seq<Tile>, l: Loc, c: Corp) -> bool {
    exists|l2: Loc|
        in_grid(l2) && #[trigger] adjacent(l, l2) && tile_at(b, loc_index(l2)) == Tile::Corp(c)
}

/// No corporation owns a cell adjacent to `l`.
pub open spec fn no_adj_corp(b: Seq<Tile>, l: Loc) -> bool {
    forall|c: Corp| !adj_corp(b, l, c)
}

/// `c` is the single corporation with cells adjacent to `l`.
pub open spec fn exactly_one_adj_corp(b: Seq<Tile>, l: Loc, c: Corp) -> bool {
    adj_corp(b, l, c) && forall|d: Corp| adj_corp(b, l, d) ==> d == c
}

/// At least two distinct corporations own cells adjacent to `l`.
pub open spec fn multi_adj_corp(b: Seq<Tile>, l: Loc) -> bool {
    exists|c: Corp, d: Corp| c != d && adj_corp(b, l, c) && adj_corp(b, l, d)
}

/// Some grid cell adjacent to `l` holds an unincorporated tile.
pub open spec fn has_unincorp_neighbour(b: Seq<Tile>, l: Loc) -> bool {
    exists|l2: Loc|
        in_grid(l2) && #[trigger] adjacent(l, l2) && tile_at(b, loc_index(l2))
            == Tile::Unincorporated
}

/// `c` is adjacent to `l` and no adjacent corporation is larger.
pub open spec fn is_max_adj(b: Seq<Tile>, l: Loc, c: Corp) -> bool {
    adj_corp(b, l, c) && forall|d: Corp|
        adj_corp(b, l, d) ==> count_val(b, Tile::Corp(d)) <= count_val(b, Tile::Corp(c))
}

/// `c` is adjacent to `l` and some adjacent corporation is strictly larger.
pub open spec fn is_strict_sub(b: Seq<Tile>, l: Loc, c: Corp) -> bool {
    adj_corp(b, l, c) && exists|d: Corp|
        adj_corp(b, l, d) && count_val(b, Tile::Corp(c)) < count_val(b, Tile::Corp(d))
}

/// Two distinct safe corporations both own cells adjacent to `l`: placing
/// there is illegal.
pub open spec fn two_safe_adjacent(b: Seq<Tile>, l: Loc) -> bool {
    exists|c: Corp, d: Corp|
        c != d && adj_corp(b, l, c) && adj_corp(b, l, d) && count_val(b, Tile::Corp(c)) >= SAFE_SIZE
            && count_val(b, Tile::Corp(d)) >= SAFE_SIZE
}

/// Whether `v` holds `c`, by scan.
pub(crate) fn contains_corp(v: &Vec<Corp>, c: Corp) -> (r: bool)
    ensures
        r == v@.contains(c),
{
    let mut i: usize = 0;
    while i < v.len()
        invariant
            i <= v@.len(),
            forall|j: int| 0 <= j < i ==> v@[j] != c,
        decreases v@.len() - i,
    {
        if v[i] == c {
            return true;
        }
        i = i + 1;
    }
    false
}

impl Board {
    /// The distinct corporations owning cells adjacent to `loc`, without
    /// repeats.
    pub fn neighbouring_corps(&self, loc: &Loc) -> (r: Vec<Corp>)
        requires
            in_grid(*loc),
        ensures
            forall|c: Corp| r@.contains(c) <==> adj_corp(self@, *loc, c),
            r@.no_duplicates(),
    {
        let ns = loc.neighbours();
        let mut r: Vec<Corp> = Vec::new();
        let mut i: usize = 0;
        while i < ns.len()
            invariant
                in_grid(*loc),
                i <= ns@.len(),
                forall|k: int| 0 <= k < ns@.len() ==> in_grid(#[trigger] ns@[k]) && adjacent(*loc, ns@[k]),
                forall|c: Corp| #[trigger] r@.contains(c) ==> adj_corp(self@, *loc, c),
                forall|j: int|
                    0 <= j < i ==> (tile_at(self@, loc_index(#[trigger] ns@[j])) matches Tile::Corp(
                        c,
                    ) ==> r@.contains(c)),
                r@.no_duplicates(),
            decreases ns@.len() - i,
        {
            let ghost prev = r@;
            let t = self.get_tile(ns[i].index());
            match t {
                Tile::Corp(c) => {
                    if !contains_corp(&r, c) {
                        r.push(c);
                        proof {
                            lemma_push_contains(prev, c);
                            let l2 = ns@[i as int];
                            assert(in_grid(l2) && adjacent(*loc, l2));
                            assert(tile_at(self@, loc_index(l2)) == Tile::Corp(c));
                            assert(adj_corp(self@, *loc, c));
                            assert forall|c2: Corp| r@.contains(c2) implies adj_corp(
                                self@,
                                *loc,
                                c2,
                            ) by {
                                if c2 != c {
                                    assert(prev.contains(c2));
                                }
                            }
                        }
                    }
                },
                _ => {},
            }
            i = i + 1;
        }
        proof {
            assert forall|c: Corp| adj_corp(self@, *loc, c) implies r@.contains(c) by {
                let l2 = choose|l2: Loc|
                    in_grid(l2) && #[trigger] adjacent(*loc, l2) && tile_at(self@, loc_index(l2))
                        == Tile::Corp(c);
                assert(ns@.contains(l2));
                let j = choose|j: int| 0 <= j < ns@.len() && ns@[j] == l2;
                assert(tile_at(self@, loc_index(ns@[j])) == Tile::Corp(c));
            }
        }
        r
    }

    /// Whether an unincorporated tile lies on a cell adjacent to `loc`.
    pub fn any_unincorp_neighbour(&self, loc: &Loc) -> (r: bool)
        requires
            in_grid(*loc),
        ensures
            r == has_unincorp_neighbour(self@, *loc),
    {
        let ns = loc.neighbours();
        let mut i: usize = 0;
        while i < ns.len()
            invariant
                in_grid(*loc),
                i <= ns@.len(),
                forall|k: int|
                    0 <= k < ns@.len() ==> in_grid(#[trigger] ns@[k]) && adjacent(*loc, ns@[k]),
                forall|l2: Loc| in_grid(l2) && adjacent(*loc, l2) ==> ns@.contains(l2),
                forall|j: int|
                    0 <= j < i ==> tile_at(self@, loc_index(#[trigger] ns@[j]))
                        != Tile::Unincorporated,
            decreases ns@.len() - i,
        {
            if self.get_tile(ns[i].index()) == Tile::Unincorporated {
                proof {
                    assert(adjacent(*loc, ns@[i as int]));
                }
                return true;
            }
            i = i + 1;
        }
        proof {
            if has_unincorp_neighbour(self@, *loc) {
                let l2 = choose|l2: Loc|
                    in_grid(l2) && #[trigger] adjacent(*loc, l2) && tile_at(self@, loc_index(l2))
                        == Tile::Unincorporated;
                assert(ns@.contains(l2));
                let j = choose|j: int| 0 <= j < ns@.len() && ns@[j] == l2;
                assert(tile_at(self@, loc_index(ns@[j])) == Tile::Unincorporated);
            }
        }
        false
    }

    /// The corporations not yet on the board, and so available to found,
    /// without repeats.
    pub fn available_corps(&self) -> (r: Vec<Corp>)
        ensures
            forall|c: Corp| r@.contains(c) <==> count_val(self@, Tile::Corp(c)) == 0,
            r@.no_duplicates(),
    {
        let all = Corp::iter();
        let mut r: Vec<Corp> = Vec::new();
        let mut i: usize = 0;
        while i < all.len()
            invariant
                all@.len() == 7,
                forall|k: int| 0 <= k < 7 ==> #[trigger] all@[k].index_spec() == k,
                i <= 7,
                forall|j: int|
                    0 <= j < i ==> (r@.contains(#[trigger] all@[j]) <==> count_val(
                        self@,
                        Tile::Corp(all@[j]),
                    ) == 0),
                forall|c: Corp| r@.contains(c) ==> exists|j: int| 0 <= j < i && all@[j] == c,
                r@.no_duplicates(),
            decreases 7 - i,
        {
            let ghost prev = r@;
            proof {
                if r@.contains(all@[i as int]) {
                    let j = choose|j: int| 0 <= j < i && all@[j] == all@[i as int];
                    assert(all@[j].index_spec() == j);
                    assert(false);
                }
            }
            if self.corp_size(all[i]) == 0 {
                r.push(all[i]);
                proof {
                    lemma_push_contains(prev, all@[i as int]);
                    assert forall|c: Corp| r@.contains(c) implies exists|j: int|
                        0 <= j < i + 1 && all@[j] == c by {
                        if prev.contains(c) {
                            let j = choose|j: int| 0 <= j < i && all@[j] == c;
                            assert(0 <= j < i + 1 && all@[j] == c);
                        } else {
                            assert(c == all@[i as int]);
                            assert(0 <= (i as int) < i + 1 && all@[i as int] == c);
                        }
                    }
                }
            }
            i = i + 1;
        }
        proof {
            assert forall|c: Corp| count_val(self@, Tile::Corp(c)) == 0 implies r@.contains(c) by {
                let k = c.index_spec();
                assert(all@[k].index_spec() == k);
                crate::corp::lemma_index_injective(all@[k], c);
            }
        }
        r
    }

    /// Splits the corporations adjacent to `at` into merge candidates:
    /// `into` holds those of greatest size, `from` those strictly smaller.
    /// When all adjacent corporations tie for the greatest size and at least
    /// two are distinct, either may absorb the other, so `from` equals
    /// `into` and the choice falls to the player. `from` is empty exactly
    /// when fewer than two distinct corporations are adjacent.
    pub fn merge_candidates(&self, at: &Loc) -> (r: (Vec<Corp>, Vec<Corp>))
        requires
            in_grid(*at),
        ensures
            forall|c: Corp| r.1@.contains(c) <==> is_max_adj(self@, *at, c),
            (exists|c: Corp| is_strict_sub(self@, *at, c)) ==> (forall|c: Corp|
                r.0@.contains(c) <==> is_strict_sub(self@, *at, c)),
            (!(exists|c: Corp| is_strict_sub(self@, *at, c)) && multi_adj_corp(self@, *at))
                ==> r.0@ == r.1@,
            r.0@.len() == 0 <==> !multi_adj_corp(self@, *at),
            r.1@.len() == 0 <==> !(exists|c: Corp| adj_corp(self@, *at, c)),
            r.0@.no_duplicates(),
            r.1@.no_duplicates(),
    {
        let ncs = self.neighbouring_corps(at);
        if ncs.len() == 0 {
            let from: Vec<Corp> = Vec::new();
            let into: Vec<Corp> = Vec::new();
            proof {
                assert forall|c: Corp| !is_max_adj(self@, *at, c) by {
                    if adj_corp(self@, *at, c) {
                        assert(ncs@.contains(c));
                    }
                }
                if multi_adj_corp(self@, *at) {
                    let (c, d) = choose|c: Corp, d: Corp|
                        c != d && adj_corp(self@, *at, c) && adj_corp(self@, *at, d);
                    assert(ncs@.contains(c));
                }
                if exists|c: Corp| adj_corp(self@, *at, c) {
                    let c = choose|c: Corp| adj_corp(self@, *at, c);
                    assert(ncs@.contains(c));
                }
            }
            return (from, into);
        }
        let mut max: usize = self.corp_size(ncs[0]);
        let ghost mut wit: Corp = ncs@[0];
        proof {
            assert(ncs@.contains(ncs@[0]));
        }
        let mut i: usize = 1;
        while i < ncs.len()
            invariant
                1 <= i <= ncs@.len(),
                forall|c: Corp| ncs@.contains(c) <==> adj_corp(self@, *at, c),
                ncs@.no_duplicates(),
                adj_corp(self@, *at, wit),
                max == count_val(self@, Tile::Corp(wit)),
                forall|j: int|
                    0 <= j < i ==> count_val(self@, Tile::Corp(#[trigger] ncs@[j])) <= max,
            decreases ncs@.len() - i,
        {
            let s = self.corp_size(ncs[i]);
            if s > max {
                max = s;
                proof {
                    wit = ncs@[i as int];
                    assert(ncs@.contains(ncs@[i as int]));
                }
            }
            i = i + 1;
        }
        proof {
            assert forall|c: Corp| adj_corp(self@, *at, c) implies count_val(self@, Tile::Corp(c))
                <= max by {
                assert(ncs@.contains(c));
                let j = choose|j: int| 0 <= j < ncs@.len() && ncs@[j] == c;
            }
        }
        let mut from: Vec<Corp> = Vec::new();
        let mut into: Vec<Corp> = Vec::new();
        i = 0;
        while i < ncs.len()
            invariant
                i <= ncs@.len(),
                forall|c: Corp| ncs@.contains(c) <==> adj_corp(self@, *at, c),
                ncs@.no_duplicates(),
                adj_corp(self@, *at, wit),
                max == count_val(self@, Tile::Corp(wit)),
                forall|c: Corp|
                    adj_corp(self@, *at, c) ==> count_val(self@, Tile::Corp(c)) <= max,
                forall|c: Corp| into@.contains(c) ==> exists|j: int| 0 <= j < i && ncs@[j] == c,
                forall|c: Corp| from@.contains(c) ==> exists|j: int| 0 <= j < i && ncs@[j] == c,
                forall|j: int|
                    0 <= j < i ==> (if count_val(self@, Tile::Corp(#[trigger] ncs@[j])) == max {
                        into@.contains(ncs@[j]) && !from@.contains(ncs@[j])
                    } else {
                        from@.contains(ncs@[j]) && !into@.contains(ncs@[j])
                    }),
                from@.no_duplicates(),
                into@.no_duplicates(),
            decreases ncs@.len() - i,
        {
            let ghost pf = from@;
            let ghost pi = into@;
            proof {
                assert(ncs@.contains(ncs@[i as int]));
                if pf.contains(ncs@[i as int]) {
                    let j = choose|j: int| 0 <= j < i && ncs@[j] == ncs@[i as int];
                    assert(false);
                }
                if pi.contains(ncs@[i as int]) {
                    let j = choose|j: int| 0 <= j < i && ncs@[j] == ncs@[i as int];
                    assert(false);
                }
            }
            let s = self.corp_size(ncs[i]);
            if s == max {
                into.push(ncs[i]);
                proof {
                    assert(into@.last() == ncs@[i as int]);
                    assert(into@.contains(ncs@[i as int]));
                }
            } else {
                from.push(ncs[i]);
                proof {
                    assert(from@.last() == ncs@[i as int]);
                    assert(from@.contains(ncs@[i as int]));
                }
            }
            proof {
                assert forall|d: Corp| pf.contains(d) implies from@.contains(d) by {
                    let k = choose|k: int| 0 <= k < pf.len() && pf[k] == d;
                    assert(from@[k] == d);
                }
                assert forall|d: Corp| pi.contains(d) implies into@.contains(d) by {
                    let k = choose|k: int| 0 <= k < pi.len() && pi[k] == d;
                    assert(into@[k] == d);
                }
                assert forall|d: Corp| from@.contains(d) && !pf.contains(d) implies d == ncs@[i as int] by {
                    let k = choose|k: int| 0 <= k < from@.len() && from@[k] == d;
                    if k < pf.len() {
                        assert(pf[k] == d);
                    }
                }
                assert forall|d: Corp| into@.contains(d) && !pi.contains(d) implies d == ncs@[i as int] by {
                    let k = choose|k: int| 0 <= k < into@.len() && into@[k] == d;
                    if k < pi.len() {
                        assert(pi[k] == d);
                    }
                }
                assert forall|a: int, b: int|
                    0 <= a < from@.len() && 0 <= b < from@.len() && a != b implies from@[a]
                    != from@[b] by {
                    if a < pf.len() && b < pf.len() {
                    } else if a == pf.len() && from@.len() == pf.len() + 1 && 0 <= b < pf.len() {
                        if pf[b] == from@[a] {
                            assert(pf.contains(from@[a]));
                        }
                    } else if b == pf.len() && from@.len() == pf.len() + 1 && 0 <= a < pf.len() {
                        if pf[a] == from@[b] {
                            assert(pf.contains(from@[b]));
                        }
                    }
                }
                assert forall|a: int, b: int|
                    0 <= a < into@.len() && 0 <= b < into@.len() && a != b implies into@[a]
                    != into@[b] by {
                    if a < pi.len() && b < pi.len() {
                    } else if a == pi.len() && into@.len() == pi.len() + 1 && 0 <= b < pi.len() {
                        if pi[b] == into@[a] {
                            assert(pi.contains(into@[a]));
                        }
                    } else if b == pi.len() && into@.len() == pi.len() + 1 && 0 <= a < pi.len() {
                        if pi[a] == into@[b] {
                            assert(pi.contains(into@[b]));
                        }
                    }
                }
                assert(0 <= (i as int) < i + 1 && ncs@[i as int] == ncs@[i as int]);
                assert forall|c: Corp| into@.contains(c) implies exists|j: int|
                    0 <= j < i + 1 && ncs@[j] == c by {
                    if pi.contains(c) {
                        let j = choose|j: int| 0 <= j < i && ncs@[j] == c;
                        assert(0 <= j < i + 1 && ncs@[j] == c);
                    } else {
                        assert(c == ncs@[i as int]);
                        assert(0 <= (i as int) < i + 1 && ncs@[i as int] == c);
                    }
                }
                assert forall|c: Corp| from@.contains(c) implies exists|j: int|
                    0 <= j < i + 1 && ncs@[j] == c by {
                    if pf.contains(c) {
                        let j = choose|j: int| 0 <= j < i && ncs@[j] == c;
                        assert(0 <= j < i + 1 && ncs@[j] == c);
                    } else {
                        assert(c == ncs@[i as int]);
                        assert(0 <= (i as int) < i + 1 && ncs@[i as int] == c);
                    }
                }
            }
            i = i + 1;
        }
        proof {
            // Characterize membership at the end of the partition.
            assert forall|c: Corp| into@.contains(c) implies is_max_adj(self@, *at, c) by {
                let j = choose|j: int| 0 <= j < ncs@.len() && ncs@[j] == c;
                assert(ncs@.contains(c));
            }
            assert forall|c: Corp| is_max_adj(self@, *at, c) implies into@.contains(c) by {
                assert(ncs@.contains(c));
                let j = choose|j: int| 0 <= j < ncs@.len() && ncs@[j] == c;
                assert(count_val(self@, Tile::Corp(c)) >= count_val(self@, Tile::Corp(wit)));
            }
            assert forall|c: Corp| from@.contains(c) implies is_strict_sub(self@, *at, c) by {
                let j = choose|j: int| 0 <= j < ncs@.len() && ncs@[j] == c;
                assert(ncs@.contains(c));
                assert(count_val(self@, Tile::Corp(c)) < count_val(self@, Tile::Corp(wit)));
            }
            assert forall|c: Corp| is_strict_sub(self@, *at, c) implies from@.contains(c) by {
                assert(ncs@.contains(c));
                let j = choose|j: int| 0 <= j < ncs@.len() && ncs@[j] == c;
                let d = choose|d: Corp|
                    adj_corp(self@, *at, d) && count_val(self@, Tile::Corp(c)) < count_val(
                        self@,
                        Tile::Corp(d),
                    );
                assert(count_val(self@, Tile::Corp(c)) < max);
            }
        }
        if from.len() == 0 {
            if ncs.len() >= 2 {
                proof {
                    assert(multi_adj_corp(self@, *at)) by {
                        assert(ncs@.contains(ncs@[0]));
                        assert(ncs@.contains(ncs@[1]));
                        assert(adj_corp(self@, *at, ncs@[0]));
                        assert(adj_corp(self@, *at, ncs@[1]));
                    }
                }
                let from2 = into.clone();
                proof {
                    assert(from2@ =~= into@);
                    assert(into@.contains(wit));
                    assert(into@.contains(ncs@[0]));
                    if exists|c: Corp| is_strict_sub(self@, *at, c) {
                        let c = choose|c: Corp| is_strict_sub(self@, *at, c);
                        assert(from@.contains(c));
                        let k = choose|k: int| 0 <= k < from@.len() && from@[k] == c;
                        assert(false);
                    }
                }
                return (from2, into);
            }
            proof {
                if multi_adj_corp(self@, *at) {
                    let (c, d) = choose|c: Corp, d: Corp|
                        c != d && adj_corp(self@, *at, c) && adj_corp(self@, *at, d);
                    assert(ncs@.contains(c));
                    assert(ncs@.contains(d));
                    let jc = choose|j: int| 0 <= j < ncs@.len() && ncs@[j] == c;
                    let jd = choose|j: int| 0 <= j < ncs@.len() && ncs@[j] == d;
                    assert(jc == 0 && jd == 0);
                    assert(false);
                }
                assert(into@.contains(wit));
            }
            return (from, into);
        }
        proof {
            assert(into@.contains(wit));
            assert(from@.contains(from@[0]));
            assert(is_strict_sub(self@, *at, from@[0]));
            let d = choose|d: Corp|
                adj_corp(self@, *at, d) && count_val(self@, Tile::Corp(from@[0])) < count_val(
                    self@,
                    Tile::Corp(d),
                );
            assert(multi_adj_corp(self@, *at));
        }
        (from, into)
    }
}

/// Counting over a board where some unincorporated cells turned into cells
/// of corporation `c`: `c` gains exactly what unincorporated loses, and
/// every other tile value keeps its count.
pub proof fn lemma_count_fill(o: Seq<Tile>, n: Seq<Tile>, c: Corp)
    requires
        o.len() == n.len(),
        forall|i: int|
            0 <= i < n.len() && n[i] != o[i] ==> o[i] == Tile::Unincorporated && n[i] == Tile::Corp(
                c,
            ),
    ensures
        count_val(n, Tile::Corp(c)) == count_val(o, Tile::Corp(c)) + (count_val(
            o,
            Tile::Unincorporated,
        ) - count_val(n, Tile::Unincorporated)),
        count_val(n, Tile::Unincorporated) <= count_val(o, Tile::Unincorporated),
        forall|t: Tile|
            t != Tile::Corp(c) && t != Tile::Unincorporated ==> count_val(n, t) == count_val(o, t),
    decreases o.len(),
{
    if o.len() > 0 {
        assert forall|i: int|
            0 <= i < n.drop_last().len() && n.drop_last()[i] != o.drop_last()[i] implies o.drop_last()[i]
            == Tile::Unincorporated && n.drop_last()[i] == Tile::Corp(c) by {
            assert(n.drop_last()[i] == n[i]);
            assert(o.drop_last()[i] == o[i]);
        }
        lemma_count_fill(o.drop_last(), n.drop_last(), c);
        assert(n[o.len() - 1] == n.last());
        assert(o[o.len() - 1] == o.last());
        assert forall|t: Tile|
            t != Tile::Corp(c) && t != Tile::Unincorporated implies count_val(n, t) == count_val(
            o,
            t,
        ) by {
            assert(count_val(n.drop_last(), t) == count_val(o.drop_last(), t));
        }
    }
}

/// Counting over a board where every cell of `from` turned into a cell of
/// `into`: `into` absorbs `from`'s count, `from` drops to zero, and every
/// other tile value keeps its count.
pub proof fn lemma_count_convert(o: Seq<Tile>, n: Seq<Tile>, from: Corp, into: Corp)
    requires
        o.len() == n.len(),
        from != into,
        forall|i: int|
            0 <= i < n.len() ==> n[i] == (if o[i] == Tile::Corp(from) {
                Tile::Corp(into)
            } else {
                o[i]
            }),
    ensures
        count_val(n, Tile::Corp(into)) == count_val(o, Tile::Corp(into)) + count_val(
            o,
            Tile::Corp(from),
        ),
        count_val(n, Tile::Corp(from)) == 0,
        forall|t: Tile|
            t != Tile::Corp(from) && t != Tile::Corp(into) ==> count_val(n, t) == count_val(o, t),
    decreases o.len(),
{
    if o.len() > 0 {
        assert forall|i: int|
            0 <= i < n.drop_last().len() implies n.drop_last()[i] == (if o.drop_last()[i]
            == Tile::Corp(from) {
            Tile::Corp(into)
        } else {
            o.drop_last()[i]
        }) by {
            assert(n.drop_last()[i] == n[i]);
            assert(o.drop_last()[i] == o[i]);
        }
        lemma_count_convert(o.drop_last(), n.drop_last(), from, into);
        assert(n[o.len() - 1] == n.last());
        assert(o[o.len() - 1] == o.last());
        assert forall|t: Tile|
            t != Tile::Corp(from) && t != Tile::Corp(into) implies count_val(n, t) == count_val(
            o,
            t,
        ) by {
            assert(count_val(n.drop_last(), t) == count_val(o.drop_last(), t));
        }
    }
}

impl Board {
    /// Reassigns every cell of `from` to `into`, the board-wide rewrite a
    /// merger performs; cell positions and all other tiles stay as they are.
    pub(crate) fn convert_corp(&mut self, from: Corp, into: Corp)
        requires
            old(self)@.len() == SIZE,
            from != into,
        ensures
            final(self)@.len() == SIZE,
            forall|i: int|
                0 <= i < SIZE ==> final(self)@[i] == (if old(self)@[i] == Tile::Corp(from) {
                    Tile::Corp(into)
                } else {
                    old(self)@[i]
                }),
            count_val(final(self)@, Tile::Corp(into)) == count_val(old(self)@, Tile::Corp(into))
                + count_val(old(self)@, Tile::Corp(from)),
            count_val(final(self)@, Tile::Corp(from)) == 0,
            forall|t: Tile|
                t != Tile::Corp(from) && t != Tile::Corp(into) ==> count_val(final(self)@, t)
                    == count_val(old(self)@, t),
    {
        let mut i: usize = 0;
        while i < SIZE
            invariant
                i <= SIZE,
                self.0@.len() == SIZE,
                forall|j: int|
                    0 <= j < i ==> self.0@[j] == (if old(self)@[j] == Tile::Corp(from) {
                        Tile::Corp(into)
                    } else {
                        old(self)@[j]
                    }),
                forall|j: int| i <= j < SIZE ==> self.0@[j] == old(self)@[j],
            decreases SIZE - i,
        {
            if self.0[i] == Tile::Corp(from) {
                self.0[i] = Tile::Corp(into);
            }
            i = i + 1;
        }
        proof {
            lemma_count_convert(old(self)@, self.0@, from, into);
        }
    }

    /// Sets `at` to a cell of `c`, then flood-fills: every cell reachable
    /// from `at` through unincorporated or same-corporation cells becomes a
    /// cell of `c`, absorbing unincorporated runs and joining regions. Cells
    /// change only from unincorporated (or `at` itself) to `c`; afterwards
    /// no unincorporated cell borders `at` or any changed cell.
    pub fn extend_corp(&mut self, at: &Loc, c: Corp)
        requires
            old(self)@.len() == SIZE,
            in_grid(*at),
            old(self)@[loc_index(*at)] == Tile::Empty || old(self)@[loc_index(*at)]
                == Tile::Unincorporated || old(self)@[loc_index(*at)] == Tile::Corp(c),
        ensures
            final(self)@.len() == SIZE,
            final(self)@[loc_index(*at)] == Tile::Corp(c),
            forall|i: int|
                0 <= i < SIZE && final(self)@[i] != old(self)@[i] ==> final(self)@[i] == Tile::Corp(
                    c,
                ) && (old(self)@[i] == Tile::Unincorporated || i == loc_index(*at)),
            forall|d: Corp|
                d != c ==> count_val(final(self)@, Tile::Corp(d)) == count_val(
                    old(self)@,
                    Tile::Corp(d),
                ),
            count_val(final(self)@, Tile::Discarded) == count_val(old(self)@, Tile::Discarded),
            count_val(final(self)@, Tile::Unincorporated) <= count_val(
                old(self)@,
                Tile::Unincorporated,
            ),
            count_val(final(self)@, Tile::Corp(c)) == count_val(old(self)@, Tile::Corp(c)) + (
            count_val(old(self)@, Tile::Unincorporated) - count_val(
                final(self)@,
                Tile::Unincorporated,
            )) + (if old(self)@[loc_index(*at)] == Tile::Empty {
                1int
            } else {
                0int
            }),
            forall|l1: Loc, l2: Loc|
                in_grid(l1) && in_grid(l2) && #[trigger] adjacent(l1, l2) && (final(self)@[loc_index(
                    l1,
                )] != old(self)@[loc_index(l1)] || l1 == *at) ==> final(self)@[loc_index(l2)]
                    != Tile::Unincorporated,
    {
        let ghost orig = self.0@;
        let ai = at.index();
        self.0[ai] = Tile::Corp(c);
        let mut marked: Vec<bool> = vec![false; SIZE];
        marked[ai] = true;
        let mut queue: Vec<Loc> = Vec::new();
        queue.push(*at);
        proof {
            lemma_count_le_len(marked@, true);
            assert(queue@[0] == *at);
            assert(queue@.contains(*at));
            assert forall|l1: Loc|
                in_grid(l1) && marked@[loc_index(l1)] implies queue@.contains(l1) by {
                lemma_loc_index_injective(l1, *at);
            }
        }
        while queue.len() > 0
            invariant
                in_grid(*at),
                self.0@.len() == SIZE,
                marked@.len() == SIZE,
                orig.len() == SIZE,
                orig[loc_index(*at)] == Tile::Empty || orig[loc_index(*at)]
                    == Tile::Unincorporated || orig[loc_index(*at)] == Tile::Corp(c),
                marked@[loc_index(*at)],
                forall|i: int| 0 <= i < SIZE && #[trigger] marked@[i] ==> self.0@[i] == Tile::Corp(c),
                forall|i: int|
                    0 <= i < SIZE && self.0@[i] != orig[i] ==> marked@[i] && (orig[i]
                        == Tile::Unincorporated || i == loc_index(*at)),
                forall|k: int|
                    0 <= k < queue@.len() ==> in_grid(#[trigger] queue@[k]) && marked@[loc_index(
                        queue@[k],
                    )],
                forall|l1: Loc, l2: Loc|
                    in_grid(l1) && in_grid(l2) && #[trigger] adjacent(l1, l2) && marked@[loc_index(
                        l1,
                    )] && !queue@.contains(l1) ==> (marked@[loc_index(l2)] || (self.0@[loc_index(l2)]
                        != Tile::Unincorporated && self.0@[loc_index(l2)] != Tile::Corp(c))),
                count_val(marked@, true) <= SIZE,
            decreases SIZE - count_val(marked@, true), queue@.len(),
        {
            let ghost pre_queue = queue@;
            let popped = queue.pop();
            match popped {
                Option::Some(l) => {
                    proof {
                        assert(queue@ =~= pre_queue.drop_last());
                        assert forall|l1: Loc|
                            !queue@.contains(l1) && l1 != l implies !pre_queue.contains(l1) by {
                            if pre_queue.contains(l1) {
                                let idx = choose|idx: int|
                                    0 <= idx < pre_queue.len() && pre_queue[idx] == l1;
                                if idx < pre_queue.len() - 1 {
                                    assert(queue@[idx] == l1);
                                }
                            }
                        }
                    }
                    let ghost m0 = marked@;
                    let ghost q0 = queue@;
                    let ns = l.neighbours();
                    let mut k: usize = 0;
                    while k < ns.len()
                        invariant
                            in_grid(*at),
                            in_grid(l),
                            self.0@.len() == SIZE,
                            marked@.len() == SIZE,
                            orig.len() == SIZE,
                            orig[loc_index(*at)] == Tile::Empty || orig[loc_index(*at)]
                                == Tile::Unincorporated || orig[loc_index(*at)] == Tile::Corp(
                                c,
                            ),
                            marked@[loc_index(*at)],
                            marked@[loc_index(l)],
                            k <= ns@.len(),
                            forall|m: int|
                                0 <= m < ns@.len() ==> in_grid(#[trigger] ns@[m]) && adjacent(
                                    l,
                                    ns@[m],
                                ),
                            forall|l2: Loc| in_grid(l2) && adjacent(l, l2) ==> ns@.contains(l2),
                            forall|i: int|
                                0 <= i < SIZE && #[trigger] marked@[i] ==> self.0@[i] == Tile::Corp(
                                    c,
                                ),
                            forall|i: int|
                                0 <= i < SIZE && self.0@[i] != orig[i] ==> marked@[i]
                                    && (orig[i] == Tile::Unincorporated || i == loc_index(*at)),
                            forall|m: int|
                                0 <= m < queue@.len() ==> in_grid(#[trigger] queue@[m]) && marked@[
                                    loc_index(queue@[m])],
                            forall|l1: Loc, l2: Loc|
                                in_grid(l1) && in_grid(l2) && #[trigger] adjacent(l1, l2)
                                    && marked@[loc_index(l1)] && !queue@.contains(l1) && l1 != l
                                    ==> (marked@[loc_index(l2)] || (self.0@[loc_index(l2)]
                                    != Tile::Unincorporated && self.0@[loc_index(l2)] != Tile::Corp(
                                    c,
                                ))),
                            forall|m: int|
                                0 <= m < k ==> (marked@[loc_index(#[trigger] ns@[m])] || (self.0@[
                                    loc_index(ns@[m])] != Tile::Unincorporated && self.0@[loc_index(
                                    ns@[m],
                                )] != Tile::Corp(c))),
                            count_val(marked@, true) >= count_val(m0, true),
                            count_val(marked@, true) > count_val(m0, true) || queue@ == q0,
                            count_val(marked@, true) <= SIZE,
                        decreases ns@.len() - k,
                    {
                        let nl = ns[k];
                        let ni = nl.index();
                        if !marked[ni] {
                            let t = self.0[ni];
                            if t == Tile::Unincorporated || t == Tile::Corp(c) {
                                let ghost pre_b = self.0@;
                                let ghost pre_m = marked@;
                                let ghost pre_q = queue@;
                                self.0[ni] = Tile::Corp(c);
                                marked[ni] = true;
                                queue.push(nl);
                                proof {
                                    lemma_count_update(pre_m, true, ni as int, true);
                                    lemma_count_le_len(marked@, true);
                                    lemma_push_contains(pre_q, nl);
                                    // the converted cell was untouched before now
                                    if pre_b[ni as int] != orig[ni as int] {
                                        assert(pre_m[ni as int]);
                                        assert(false);
                                    }
                                    assert forall|i: int|
                                        0 <= i < SIZE && self.0@[i] != orig[i] implies marked@[i]
                                        && (orig[i] == Tile::Unincorporated || i == loc_index(
                                        *at,
                                    )) by {
                                        if i != ni as int {
                                            assert(self.0@[i] == pre_b[i]);
                                            assert(marked@[i] == pre_m[i]);
                                        }
                                    }
                                    assert forall|i: int|
                                        0 <= i < SIZE && #[trigger] marked@[i] implies self.0@[i]
                                        == Tile::Corp(c) by {
                                        if i != ni as int {
                                            assert(marked@[i] == pre_m[i]);
                                            assert(self.0@[i] == pre_b[i]);
                                        }
                                    }
                                    assert(queue@[queue@.len() - 1] == nl);
                                    assert(queue@.contains(nl));
                                    assert forall|l1: Loc, l2: Loc|
                                        in_grid(l1) && in_grid(l2) && #[trigger] adjacent(l1, l2)
                                            && marked@[loc_index(l1)] && !queue@.contains(l1) && l1
                                            != l implies (marked@[loc_index(l2)] || (self.0@[
                                        loc_index(l2)] != Tile::Unincorporated && self.0@[loc_index(
                                        l2,
                                    )] != Tile::Corp(c))) by {
                                        if pre_q.contains(l1) {
                                            let idx = choose|idx: int|
                                                0 <= idx < pre_q.len() && pre_q[idx] == l1;
                                            assert(queue@[idx] == l1);
                                            assert(queue@.contains(l1));
                                        }
                                        if l1 == nl {
                                            assert(queue@.contains(l1));
                                        }
                                        assert(!pre_q.contains(l1) && l1 != nl);
                                        if pre_m[loc_index(l1)] {
                                            if loc_index(l2) == ni as int {
                                                assert(marked@[loc_index(l2)]);
                                            } else {
                                                assert(self.0@[loc_index(l2)] == pre_b[loc_index(
                                                    l2,
                                                )]);
                                                if pre_m[loc_index(l2)] {
                                                    assert(marked@[loc_index(l2)]);
                                                }
                                            }
                                        } else {
                                            assert(loc_index(l1) == ni as int);
                                            lemma_loc_index_injective(l1, nl);
                                            assert(false);
                                        }
                                    }
                                }
                            }
                        }
                        k = k + 1;
                    }
                    proof {
                        assert forall|l2: Loc|
                            in_grid(l2) && adjacent(l, l2) implies (marked@[loc_index(l2)] || (
                        self.0@[loc_index(l2)] != Tile::Unincorporated && self.0@[loc_index(l2)]
                            != Tile::Corp(c))) by {
                            assert(ns@.contains(l2));
                            let m = choose|m: int| 0 <= m < ns@.len() && ns@[m] == l2;
                        }
                    }
                },
                Option::None => {
                    proof {
                        assert(false);
                    }
                },
            }
        }
        proof {
            let o = old(self)@;
            assert(o == orig);
            let n = self.0@;
            let m = n.update(loc_index(*at), o[loc_index(*at)]);
            assert forall|i: int| 0 <= i < m.len() && m[i] != o[i] implies o[i]
                == Tile::Unincorporated && m[i] == Tile::Corp(c) by {
                assert(i != loc_index(*at));
                assert(m[i] == n[i]);
                assert(n[i] != o[i]);
                assert(marked@[i]);
                assert(n[i] == Tile::Corp(c));
            }
            lemma_count_fill(o, m, c);
            assert(m.update(loc_index(*at), Tile::Corp(c)) =~= n);
            lemma_count_update(m, Tile::Corp(c), loc_index(*at), Tile::Corp(c));
            lemma_count_update(m, Tile::Unincorporated, loc_index(*at), Tile::Corp(c));
            lemma_count_update(m, Tile::Discarded, loc_index(*at), Tile::Corp(c));
            assert forall|d: Corp|
                d != c implies count_val(n, Tile::Corp(d)) == count_val(o, Tile::Corp(d)) by {
                lemma_count_update(m, Tile::Corp(d), loc_index(*at), Tile::Corp(c));
            }
        }
    }
}


/// How many of the first `k` catalog corporations own at least one cell.
pub open spec fn n_active(b: Seq<Tile>, k: int) -> nat
    decreases k,
{
    if k <= 0 {
        0
    } else {
        n_active(b, k - 1) + (if count_val(b, Tile::Corp(crate::corp::corp_from_index_spec(k - 1)))
            >= 1 {
            1nat
        } else {
            0nat
        })
    }
}

/// A board with no newly active corporations has no more active ones.
pub proof fn lemma_n_active_le(b1: Seq<Tile>, b2: Seq<Tile>, k: int)
    requires
        forall|c: Corp|
            count_val(b2, Tile::Corp(c)) >= 1 ==> #[trigger] count_val(b1, Tile::Corp(c)) >= 1,
    ensures
        n_active(b2, k) <= n_active(b1, k),
    decreases k,
{
    if k > 0 {
        lemma_n_active_le(b1, b2, k - 1);
    }
}

/// Dissolving an active corporation strictly lowers the number of active
/// corporations, as long as none becomes active.
pub proof fn lemma_n_active_lt(b1: Seq<Tile>, b2: Seq<Tile>, w: Corp, k: int)
    requires
        forall|c: Corp|
            count_val(b2, Tile::Corp(c)) >= 1 ==> #[trigger] count_val(b1, Tile::Corp(c)) >= 1,
        count_val(b1, Tile::Corp(w)) >= 1,
        count_val(b2, Tile::Corp(w)) == 0,
        w.index_spec() < k,
    ensures
        n_active(b2, k) < n_active(b1, k),
    decreases k,
{
    crate::corp::lemma_corp_index_roundtrip(w);
    if k - 1 == w.index_spec() {
        lemma_n_active_le(b1, b2, k - 1);
    } else {
        lemma_n_active_lt(b1, b2, w, k - 1);
    }
}

/// The safe-corporation invariant for placements: on a board where
/// distinct corporations own no adjacent cells and no unincorporated cell
/// borders a corporation, a placement that extends a single corporation
/// `c` (each changed cell was unincorporated or is the placed cell, and
/// every changed cell becomes `c`) leaves distinct corporations without
/// adjacent cells. In particular, no two distinct safe corporations can
/// become adjacently connected by growing a corporation; a placement that
/// would connect two safe corporations directly is rejected before any
/// cell changes.
pub proof fn lemma_extension_keeps_corps_separated(b0: Seq<Tile>, b1: Seq<Tile>, loc: Loc, c: Corp)
    requires
        b0.len() == SIZE,
        b1.len() == SIZE,
        in_grid(loc),
        forall|l1: Loc, l2: Loc|
            in_grid(l1) && in_grid(l2) && #[trigger] adjacent(l1, l2) && b0[loc_index(l1)] is Corp
                && b0[loc_index(l2)] is Corp ==> b0[loc_index(l1)] == b0[loc_index(l2)],
        forall|l1: Loc, l2: Loc|
            in_grid(l1) && in_grid(l2) && #[trigger] adjacent(l1, l2) && b0[loc_index(l1)]
                == Tile::Unincorporated ==> !(b0[loc_index(l2)] is Corp),
        forall|d: Corp| adj_corp(b0, loc, d) ==> d == c,
        forall|i: int|
            0 <= i < SIZE && b1[i] != b0[i] ==> b1[i] == Tile::Corp(c) && (b0[i]
                == Tile::Unincorporated || i == loc_index(loc)),
    ensures
        forall|l1: Loc, l2: Loc|
            in_grid(l1) && in_grid(l2) && #[trigger] adjacent(l1, l2) && b1[loc_index(l1)] is Corp
                && b1[loc_index(l2)] is Corp ==> b1[loc_index(l1)] == b1[loc_index(l2)],
{
    assert forall|l1: Loc, l2: Loc|
        in_grid(l1) && in_grid(l2) && #[trigger] adjacent(l1, l2) && b1[loc_index(l1)] is Corp
            && b1[loc_index(l2)] is Corp implies b1[loc_index(l1)] == b1[loc_index(l2)] by {
        let i1 = loc_index(l1);
        let i2 = loc_index(l2);
        if b1[i1] == b0[i1] && b1[i2] == b0[i2] {
        } else if b1[i1] != b0[i1] && b1[i2] != b0[i2] {
        } else if b1[i1] != b0[i1] {
            // the changed side became c; the other side was already a corp
            let d = b1[i2]->Corp_0;
            assert(b0[i2] == Tile::Corp(d));
            if b0[i1] == Tile::Unincorporated {
                assert(!(b0[loc_index(l2)] is Corp));
                assert(false);
            } else {
                assert(i1 == loc_index(loc));
                lemma_loc_index_injective(l1, loc);
                assert(adjacent(loc, l2));
                assert(adj_corp(b0, loc, d));
                assert(d == c);
            }
        } else {
            let d = b1[i1]->Corp_0;
            assert(b0[i1] == Tile::Corp(d));
            if b0[i2] == Tile::Unincorporated {
                assert(adjacent(l2, l1));
                assert(!(b0[loc_index(l1)] is Corp));
                assert(false);
            } else {
                assert(i2 == loc_index(loc));
                lemma_loc_index_injective(l2, loc);
                assert(adjacent(loc, l1));
                assert(adj_corp(b0, loc, d));
                assert(d == c);
            }
        }
    }
}

/// The safe-corporation invariant for absorptions: during merger
/// resolution the only adjacencies between distinct corporations meet at
/// the merging tile, every corporation beside the survivor there is below
/// the safe size, and an unincorporated cell bordering a corporation can
/// only be the merging tile itself. An absorption step (each changed cell
/// was the dissolved corporation's or unincorporated, and becomes the
/// survivor's, with no corporation but the survivor gaining cells) then
/// leaves no two distinct safe corporations with adjacent cells.
pub proof fn lemma_merge_keeps_safe_corps_apart(
    b0: Seq<Tile>,
    b1: Seq<Tile>,
    at: Loc,
    from: Corp,
    into: Corp,
)
    requires
        b0.len() == SIZE,
        b1.len() == SIZE,
        in_grid(at),
        from != into,
        count_val(b0, Tile::Corp(from)) < SAFE_SIZE,
        b0[loc_index(at)] == Tile::Unincorporated || b0[loc_index(at)] == Tile::Corp(into) || b0[
            loc_index(at)] == Tile::Corp(from),
        forall|l1: Loc, l2: Loc|
            in_grid(l1) && in_grid(l2) && #[trigger] adjacent(l1, l2) && b0[loc_index(l1)] is Corp
                && b0[loc_index(l2)] is Corp && b0[loc_index(l1)] != b0[loc_index(l2)] ==> l1 == at
                || l2 == at,
        forall|d: Corp|
            d != into && #[trigger] adj_corp(b0, at, d) ==> count_val(b0, Tile::Corp(d))
                < SAFE_SIZE,
        forall|l1: Loc, l2: Loc|
            in_grid(l1) && in_grid(l2) && #[trigger] adjacent(l1, l2) && b0[loc_index(l1)]
                == Tile::Unincorporated && b0[loc_index(l2)] is Corp ==> l1 == at,
        forall|i: int|
            0 <= i < SIZE && b1[i] != b0[i] ==> b1[i] == Tile::Corp(into) && (b0[i] == Tile::Corp(
                from,
            ) || b0[i] == Tile::Unincorporated),
        forall|d: Corp|
            d != into ==> #[trigger] count_val(b1, Tile::Corp(d)) <= count_val(b0, Tile::Corp(d)),
    ensures
        forall|l1: Loc, l2: Loc|
            in_grid(l1) && in_grid(l2) && #[trigger] adjacent(l1, l2) && b1[loc_index(l1)] is Corp
                && b1[loc_index(l2)] is Corp && b1[loc_index(l1)] != b1[loc_index(l2)] ==> !(
            count_val(b1, Tile::Corp(b1[loc_index(l1)]->Corp_0)) >= SAFE_SIZE && count_val(
                b1,
                Tile::Corp(b1[loc_index(l2)]->Corp_0),
            ) >= SAFE_SIZE),
{
    assert forall|l1: Loc, l2: Loc|
        in_grid(l1) && in_grid(l2) && #[trigger] adjacent(l1, l2) && b1[loc_index(l1)] is Corp
            && b1[loc_index(l2)] is Corp && b1[loc_index(l1)] != b1[loc_index(l2)] implies !(
    count_val(b1, Tile::Corp(b1[loc_index(l1)]->Corp_0)) >= SAFE_SIZE && count_val(
        b1,
        Tile::Corp(b1[loc_index(l2)]->Corp_0),
    ) >= SAFE_SIZE) by {
        let i1 = loc_index(l1);
        let i2 = loc_index(l2);
        let d1 = b1[i1]->Corp_0;
        let d2 = b1[i2]->Corp_0;
        if count_val(b1, Tile::Corp(d1)) >= SAFE_SIZE && count_val(b1, Tile::Corp(d2))
            >= SAFE_SIZE {
            if b1[i1] != b0[i1] && b1[i2] != b0[i2] {
                // both changed cells belong to the survivor: not distinct
                assert(false);
            } else if b1[i1] == b0[i1] && b1[i2] == b0[i2] {
                // an old pair of distinct corporations meets at the tile
                if l1 == at {
                    assert(b0[i1] == Tile::Corp(d1));
                    if d2 != into {
                        assert(adjacent(at, l2));
                        assert(adj_corp(b0, at, d2));
                        assert(count_val(b1, Tile::Corp(d2)) < SAFE_SIZE);
                    } else {
                        // the tile's own corporation is the survivor or the
                        // dissolved one; distinct from the survivor it is
                        // the dissolved one, which is not safe
                        assert(d1 == from);
                        assert(count_val(b1, Tile::Corp(d1)) < SAFE_SIZE);
                    }
                } else if l2 == at {
                    assert(b0[i2] == Tile::Corp(d2));
                    if d1 != into {
                        assert(adjacent(at, l1));
                        assert(adj_corp(b0, at, d1));
                        assert(count_val(b1, Tile::Corp(d1)) < SAFE_SIZE);
                    } else {
                        assert(d2 == from);
                        assert(count_val(b1, Tile::Corp(d2)) < SAFE_SIZE);
                    }
                }
            } else if b1[i1] != b0[i1] {
                // d1 is the survivor; the unchanged side is below the safe
                // size, whether it meets the tile as a corporation or
                // bordered the dissolved one
                assert(d1 == into);
                assert(b0[i2] == Tile::Corp(d2));
                if b0[i1] == Tile::Unincorporated {
                    assert(l1 == at);
                    assert(adjacent(at, l2));
                    assert(adj_corp(b0, at, d2));
                    assert(count_val(b1, Tile::Corp(d2)) < SAFE_SIZE);
                } else {
                    assert(b0[i1] == Tile::Corp(from));
                    if d2 == from {
                        assert(count_val(b1, Tile::Corp(d2)) < SAFE_SIZE);
                    } else {
                        assert(b0[i1] != b0[i2]);
                        if l1 == at {
                            assert(adjacent(at, l2));
                            assert(adj_corp(b0, at, d2));
                            assert(count_val(b1, Tile::Corp(d2)) < SAFE_SIZE);
                        } else {
                            assert(l2 == at);
                            assert(b0[loc_index(at)] == Tile::Corp(d2));
                            assert(false);
                        }
                    }
                }
            } else {
                assert(d2 == into);
                assert(b0[i1] == Tile::Corp(d1));
                if b0[i2] == Tile::Unincorporated {
                    assert(adjacent(l2, l1));
                    assert(l2 == at);
                    assert(adjacent(at, l1));
                    assert(adj_corp(b0, at, d1));
                    assert(count_val(b1, Tile::Corp(d1)) < SAFE_SIZE);
                } else {
                    assert(b0[i2] == Tile::Corp(from));
                    if d1 == from {
                        assert(count_val(b1, Tile::Corp(d1)) < SAFE_SIZE);
                    } else {
                        assert(b0[i1] != b0[i2]);
                        if l2 == at {
                            assert(adjacent(at, l1));
                            assert(adj_corp(b0, at, d1));
                            assert(count_val(b1, Tile::Corp(d1)) < SAFE_SIZE);
                        } else {
                            assert(l1 == at);
                            assert(b0[loc_index(at)] == Tile::Corp(d1));
                            assert(false);
                        }
                    }
                }
            }
        }
    }
}

/// A location is never adjacent to itself.
pub proof fn lemma_adjacent_irreflexive(a: Loc, b: Loc)
    requires
        adjacent(a, b),
    ensures
        a != b,
{
}

/// Placing an unincorporated tile on an empty cell changes no
/// corporation's size and no corporation's adjacency to that very cell:
/// the merge-candidate predicates there read only the neighbouring cells.
pub proof fn lemma_center_tile_irrelevant(b: Seq<Tile>, loc: Loc)
    requires
        b.len() == SIZE,
        in_grid(loc),
        b[loc_index(loc)] == Tile::Empty,
    ensures
        forall|c: Corp|
            #[trigger] adj_corp(b.update(loc_index(loc), Tile::Unincorporated), loc, c)
                == adj_corp(b, loc, c),
        forall|c: Corp|
            #[trigger] count_val(
                b.update(loc_index(loc), Tile::Unincorporated),
                Tile::Corp(c),
            ) == count_val(b, Tile::Corp(c)),
        forall|c: Corp|
            #[trigger] is_strict_sub(b.update(loc_index(loc), Tile::Unincorporated), loc, c)
                == is_strict_sub(b, loc, c),
        forall|c: Corp|
            #[trigger] is_max_adj(b.update(loc_index(loc), Tile::Unincorporated), loc, c)
                == is_max_adj(b, loc, c),
        multi_adj_corp(b.update(loc_index(loc), Tile::Unincorporated), loc) == multi_adj_corp(
            b,
            loc,
        ),
{
    let b2 = b.update(loc_index(loc), Tile::Unincorporated);
    assert forall|c: Corp| #[trigger] adj_corp(b2, loc, c) == adj_corp(b, loc, c) by {
        if adj_corp(b2, loc, c) {
            let l2 = choose|l2: Loc|
                in_grid(l2) && #[trigger] adjacent(loc, l2) && tile_at(b2, loc_index(l2))
                    == Tile::Corp(c);
            lemma_adjacent_irreflexive(loc, l2);
            if loc_index(l2) == loc_index(loc) {
                lemma_loc_index_injective(l2, loc);
            }
            assert(tile_at(b, loc_index(l2)) == Tile::Corp(c));
        }
        if adj_corp(b, loc, c) {
            let l2 = choose|l2: Loc|
                in_grid(l2) && #[trigger] adjacent(loc, l2) && tile_at(b, loc_index(l2))
                    == Tile::Corp(c);
            lemma_adjacent_irreflexive(loc, l2);
            if loc_index(l2) == loc_index(loc) {
                lemma_loc_index_injective(l2, loc);
            }
            assert(tile_at(b2, loc_index(l2)) == Tile::Corp(c));
        }
    }
    assert forall|c: Corp| #[trigger] count_val(b2, Tile::Corp(c)) == count_val(
        b,
        Tile::Corp(c),
    ) by {
        lemma_count_update(b, Tile::Corp(c), loc_index(loc), Tile::Unincorporated);
    }
    assert forall|c: Corp| #[trigger] is_strict_sub(b2, loc, c) == is_strict_sub(b, loc, c) by {
        if is_strict_sub(b2, loc, c) {
            let d = choose|d: Corp|
                adj_corp(b2, loc, d) && count_val(b2, Tile::Corp(c)) < count_val(
                    b2,
                    Tile::Corp(d),
                );
            assert(adj_corp(b, loc, d));
            assert(is_strict_sub(b, loc, c));
        }
        if is_strict_sub(b, loc, c) {
            let d = choose|d: Corp|
                adj_corp(b, loc, d) && count_val(b, Tile::Corp(c)) < count_val(b, Tile::Corp(d));
            assert(adj_corp(b2, loc, d));
            assert(is_strict_sub(b2, loc, c));
        }
    }
    assert forall|c: Corp| #[trigger] is_max_adj(b2, loc, c) == is_max_adj(b, loc, c) by {
        if is_max_adj(b2, loc, c) {
            assert forall|d: Corp| adj_corp(b, loc, d) implies count_val(b, Tile::Corp(d))
                <= count_val(b, Tile::Corp(c)) by {
                assert(adj_corp(b2, loc, d));
            }
        }
        if is_max_adj(b, loc, c) {
            assert forall|d: Corp| adj_corp(b2, loc, d) implies count_val(b2, Tile::Corp(d))
                <= count_val(b2, Tile::Corp(c)) by {
                assert(adj_corp(b, loc, d));
            }
        }
    }
    if multi_adj_corp(b2, loc) {
        let (c, d) = choose|c: Corp, d: Corp| c != d && adj_corp(b2, loc, c) && adj_corp(b2, loc, d);
        assert(adj_corp(b, loc, c) && adj_corp(b, loc, d));
    }
    if multi_adj_corp(b, loc) {
        let (c, d) = choose|c: Corp, d: Corp| c != d && adj_corp(b, loc, c) && adj_corp(b, loc, d);
        assert(adj_corp(b2, loc, c) && adj_corp(b2, loc, d));
    }
}

/// Display letter of a grid row.
pub open spec fn row_name(row: int) -> Seq<char> {
    if row == 0 {
        "A"@
    } else if row == 1 {
        "B"@
    } else if row == 2 {
        "C"@
    } else if row == 3 {
        "D"@
    } else if row == 4 {
        "E"@
    } else if row == 5 {
        "F"@
    } else if row == 6 {
        "G"@
    } else if row == 7 {
        "H"@
    } else {
        "I"@
    }
}

/// Display number of a grid column, 1-based.
pub open spec fn col_name(col: int) -> Seq<char> {
    if col == 0 {
        "1"@
    } else if col == 1 {
        "2"@
    } else if col == 2 {
        "3"@
    } else if col == 3 {
        "4"@
    } else if col == 4 {
        "5"@
    } else if col == 5 {
        "6"@
    } else if col == 6 {
        "7"@
    } else if col == 7 {
        "8"@
    } else if col == 8 {
        "9"@
    } else if col == 9 {
        "10"@
    } else if col == 10 {
        "11"@
    } else {
        "12"@
    }
}

} // verus!
