//! The fixed catalog of the seven corporations: identity, valuation
//! schedule, and display labels.
use vstd::prelude::*;

verus! {

/// A corporation of this size or larger is safe: it can no longer be
/// absorbed in a merger.
pub const SAFE_SIZE: usize = 11;

/// A corporation of this size or larger lets the turn player trigger the
/// end of the game.
pub const GAME_END_SIZE: usize = 41;

/// Number of corporations in the catalog.
pub const NUM_CORPS: usize = 7;

/// One of the seven fixed corporation identities.
#[derive(Copy, Clone, Debug, PartialEq, Eq, Structural)]
pub enum Corp {
    Worldwide,
    Sackson,
    Festival,
    Imperial,
    American,
    Continental,
    Tower,
}

/// The additional per-share value a corporation earns from its size: a step
/// function with thresholds at sizes 3, 4, 5, 6, 11, 21, 31 and 41.
pub open spec fn additional_value_spec(size: nat) -> nat {
    if size >= 41 {
        800
    } else if size >= 31 {
        700
    } else if size >= 21 {
        600
    } else if size >= 11 {
        500
    } else if size >= 6 {
        400
    } else if size == 5 {
        300
    } else if size == 4 {
        200
    } else if size == 3 {
        100
    } else {
        0
    }
}

/// Step function on corporation size; see [`additional_value_spec`].
pub fn additional_value(size: usize) -> (r: usize)
    ensures
        r == additional_value_spec(size as nat),
{
    if size >= 41 {
        800
    } else if size >= 31 {
        700
    } else if size >= 21 {
        600
    } else if size >= 11 {
        500
    } else if size >= 6 {
        400
    } else if size == 5 {
        300
    } else if size == 4 {
        200
    } else if size == 3 {
        100
    } else {
        0
    }
}

impl Corp {
    /// Position of this corporation in the fixed catalog order; share pools
    /// and per-player holdings are indexed by it.
    pub open spec fn index_spec(self) -> int {
        match self {
            Corp::Worldwide => 0,
            Corp::Sackson => 1,
            Corp::Festival => 2,
            Corp::Imperial => 3,
            Corp::American => 4,
            Corp::Continental => 5,
            Corp::Tower => 6,
        }
    }

    /// Catalog position, the inverse of [`Corp::from_index`].
    pub fn index(self) -> (r: usize)
        ensures
            r == self.index_spec(),
            r < NUM_CORPS,
    {
        match self {
            Corp::Worldwide => 0,
            Corp::Sackson => 1,
            Corp::Festival => 2,
            Corp::Imperial => 3,
            Corp::American => 4,
            Corp::Continental => 5,
            Corp::Tower => 6,
        }
    }

    /// The corporation at a catalog position.
    pub fn from_index(i: usize) -> (r: Corp)
        requires
            i < NUM_CORPS,
        ensures
            r.index_spec() == i,
    {
        if i == 0 {
            Corp::Worldwide
        } else if i == 1 {
            Corp::Sackson
        } else if i == 2 {
            Corp::Festival
        } else if i == 3 {
            Corp::Imperial
        } else if i == 4 {
            Corp::American
        } else if i == 5 {
            Corp::Continental
        } else {
            Corp::Tower
        }
    }

    /// All seven corporations, in catalog order.
    pub fn iter() -> (r: Vec<Corp>)
        ensures
            r@.len() == NUM_CORPS,
            forall|i: int| 0 <= i < NUM_CORPS ==> #[trigger] r@[i].index_spec() == i,
    {
        let mut v: Vec<Corp> = Vec::new();
        v.push(Corp::Worldwide);
        v.push(Corp::Sackson);
        v.push(Corp::Festival);
        v.push(Corp::Imperial);
        v.push(Corp::American);
        v.push(Corp::Continental);
        v.push(Corp::Tower);
        v
    }

    /// Base value tier of the corporation: 200, 300 or 400.
    pub open spec fn base_value_spec(self) -> nat {
        match self {
            Corp::Worldwide | Corp::Sackson => 200,
            Corp::Festival | Corp::Imperial | Corp::American => 300,
            Corp::Continental | Corp::Tower => 400,
        }
    }

    /// Base value tier of the corporation: 200, 300 or 400.
    pub fn base_value(self) -> (r: usize)
        ensures
            r == self.base_value_spec(),
    {
        match self {
            Corp::Worldwide | Corp::Sackson => 200,
            Corp::Festival | Corp::Imperial | Corp::American => 300,
            Corp::Continental | Corp::Tower => 400,
        }
    }

    /// Per-share value of the corporation at the given size: base tier plus
    /// the size step. A pure total function of its two arguments.
    pub open spec fn value_spec(self, size: nat) -> nat {
        self.base_value_spec() + additional_value_spec(size)
    }

    /// Per-share value at the given size; always between 200 and 1200.
    pub fn value(self, size: usize) -> (r: usize)
        ensures
            r == self.value_spec(size as nat),
            200 <= r <= 1200,
    {
        self.base_value() + additional_value(size)
    }

    /// Full display name, in catalog spelling.
    pub open spec fn name_spec(self) -> Seq<char> {
        match self {
            Corp::Worldwide => "Worldwide"@,
            Corp::Sackson => "Sackson"@,
            Corp::Festival => "Festival"@,
            Corp::Imperial => "Imperial"@,
            Corp::American => "American"@,
            Corp::Continental => "Continental"@,
            Corp::Tower => "Tower"@,
        }
    }

    /// Full display name of the corporation.
    pub fn name(self) -> (r: String)
        ensures
            r@ == self.name_spec(),
    {
        match self {
            Corp::Worldwide => String::from_str("Worldwide"),
            Corp::Sackson => String::from_str("Sackson"),
            Corp::Festival => String::from_str("Festival"),
            Corp::Imperial => String::from_str("Imperial"),
            Corp::American => String::from_str("American"),
            Corp::Continental => String::from_str("Continental"),
            Corp::Tower => String::from_str("Tower"),
        }
    }

    /// Deterministic two-letter label: the first two letters of the name,
    /// upper-cased.
    pub open spec fn abbrev_spec(self) -> Seq<char> {
        match self {
            Corp::Worldwide => "WO"@,
            Corp::Sackson => "SA"@,
            Corp::Festival => "FE"@,
            Corp::Imperial => "IM"@,
            Corp::American => "AM"@,
            Corp::Continental => "CO"@,
            Corp::Tower => "TO"@,
        }
    }

    /// Deterministic two-letter label for board and table display.
    pub fn abbrev(self) -> (r: String)
        ensures
            r@ == self.abbrev_spec(),
    {
        match self {
            Corp::Worldwide => String::from_str("WO"),
            Corp::Sackson => String::from_str("SA"),
            Corp::Festival => String::from_str("FE"),
            Corp::Imperial => String::from_str("IM"),
            Corp::American => String::from_str("AM"),
            Corp::Continental => String::from_str("CO"),
            Corp::Tower => String::from_str("TO"),
        }
    }
}

/// The corporation at a catalog position, as a specification function.
pub open spec fn corp_from_index_spec(i: int) -> Corp {
    if i == 0 {
        Corp::Worldwide
    } else if i == 1 {
        Corp::Sackson
    } else if i == 2 {
        Corp::Festival
    } else if i == 3 {
        Corp::Imperial
    } else if i == 4 {
        Corp::American
    } else if i == 5 {
        Corp::Continental
    } else {
        Corp::Tower
    }
}

/// Catalog position and corporation determine each other.
pub proof fn lemma_corp_index_roundtrip(c: Corp)
    ensures
        corp_from_index_spec(c.index_spec()) == c,
{
}

/// Catalog positions identify corporations: equal positions, equal
/// corporations.
pub proof fn lemma_index_injective(a: Corp, b: Corp)
    requires
        a.index_spec() == b.index_spec(),
    ensures
        a == b,
{
}

/// The per-share value is a pure total function of the corporation and the
/// size alone: it is fully determined by the base tier and the size step,
/// so repeated evaluations of [`Corp::value`] on the same inputs agree, and
/// it always lies between 200 and 1200.
pub proof fn lemma_value_pure(c: Corp, size: nat)
    ensures
        c.value_spec(size) == c.base_value_spec() + additional_value_spec(size),
        200 <= c.value_spec(size) <= 1200,
{
}

} // verus!
