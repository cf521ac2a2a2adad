//! The data model: grid locations, directions, movement cards, terrain,
//! tiles, and the board, a finite map from locations to tiles.

use vstd::prelude::*;

verus! {

/// Largest number of tiles a board may carry into the simulator; together
/// with [`MAX_CARD_DISTANCE`] it keeps the cost counter of a move within
/// `i32` (see [`MOVE_COST_LIMIT`]).
pub const MAX_BOARD_TILES: usize = 10_000;

/// Largest rolling or airborne distance of a card the simulator accepts;
/// keeps the cost counter of a move within `i32`.
pub const MAX_CARD_DISTANCE: i32 = 10_000;

/// Every successful move of a card within the limits above costs at most
/// this much (the simulator's contract proves it).
pub const MOVE_COST_LIMIT: i32 = 200_000;

/// A grid coordinate on the unbounded square lattice the board lives on.
/// A location that the board holds no tile for is off the board.
#[derive(PartialEq, Eq, Structural, Hash, Clone, Copy, Debug)]
pub struct Location {
    pub x: i32,
    pub y: i32,
}

/// A facing or travel direction; each has a well-defined opposite.
#[derive(PartialEq, Eq, Structural, Hash, Clone, Copy, Debug)]
pub enum Direction {
    North,
    South,
    West,
    East,
}

/// A movement card: a rolling (ground) distance and an airborne (flight)
/// distance, both non-negative. Airborne distance is always spent first.
#[derive(PartialEq, Eq, Structural, Hash, Clone, Copy, Debug)]
pub struct Card {
    pub rolling: i32,
    pub airborne: i32,
}

/// A corner deflector on a tile: a diagonal wall segment named after the
/// quadrant its concave face opens toward.
#[derive(PartialEq, Eq, Structural, Clone, Copy, Debug)]
pub enum Corner {
    Northeast,
    Southeast,
    Southwest,
    Northwest,
}

/// The terrain of a tile. Slopes and conveyors carry their flow direction;
/// a portal carries the location of its paired exit (portals are one-way
/// links and need not be symmetric).
#[derive(PartialEq, Eq, Structural, Clone, Copy, Debug)]
pub enum Terrain {
    Hole,
    Ground,
    Slope(Direction),
    Trap,
    Quicksand,
    Water,
    Spring,
    Portal(Location),
    Conveyor(Direction),
    Ice,
}

/// One tile of the board: terrain, an elevation level, and an optional
/// corner deflector.
#[derive(PartialEq, Clone, Copy, Debug)]
pub struct Tile {
    pub terrain: Terrain,
    pub elevation: i32,
    pub corner: Option<Corner>,
}

/// The opposite of a direction, as a spec-level function.
pub open spec fn dir_opposite(d: Direction) -> Direction {
    match d {
        Direction::North => Direction::South,
        Direction::East => Direction::West,
        Direction::South => Direction::North,
        Direction::West => Direction::East,
    }
}

/// The opposite of a direction.
pub fn opposite_direction_of(direction: &Direction) -> (r: Direction)
    ensures
        r == dir_opposite(*direction),
{
    match direction {
        Direction::North => Direction::South,
        Direction::East => Direction::West,
        Direction::South => Direction::North,
        Direction::West => Direction::East,
    }
}

/// Do the entries of an association list carry pairwise distinct keys?
pub(crate) open spec fn distinct_keys(s: Seq<(Location, Tile)>) -> bool {
    forall|i: int, j: int|
        0 <= i < j < s.len() ==> (#[trigger] s[i]).0 != (#[trigger] s[j]).0
}

/// The map held by an association list; later entries override earlier ones.
pub(crate) open spec fn assoc_map(s: Seq<(Location, Tile)>) -> Map<Location, Tile>
    decreases s.len(),
{
    if s.len() == 0 {
        Map::empty()
    } else {
        assoc_map(s.drop_last()).insert(s.last().0, s.last().1)
    }
}

proof fn lemma_assoc_map_contains(s: Seq<(Location, Tile)>, l: Location)
    ensures
        assoc_map(s).contains_key(l) <==> exists|i: int| 0 <= i < s.len() && (#[trigger] s[i]).0 == l,
    decreases s.len(),
{
    if s.len() > 0 {
        lemma_assoc_map_contains(s.drop_last(), l);
        if s.last().0 == l {
            assert((s[s.len() - 1]).0 == l);
        } else if assoc_map(s).contains_key(l) {
            let i = choose|i: int| 0 <= i < s.drop_last().len() && (#[trigger] s.drop_last()[i]).0 == l;
            assert((s[i]).0 == l);
        } else {
            assert forall|i: int| 0 <= i < s.len() implies (#[trigger] s[i]).0 != l by {
                if i < s.len() - 1 {
                    assert(s.drop_last()[i] == s[i]);
                }
            }
        }
    }
}

proof fn lemma_assoc_map_index(s: Seq<(Location, Tile)>, i: int)
    requires
        distinct_keys(s),
        0 <= i < s.len(),
    ensures
        assoc_map(s).contains_key(s[i].0),
        assoc_map(s)[s[i].0] == s[i].1,
    decreases s.len(),
{
    if i == s.len() - 1 {
        assert(s[i] == s.last());
    } else {
        lemma_assoc_map_index(s.drop_last(), i);
        assert(s.drop_last()[i] == s[i]);
    }
}

proof fn lemma_assoc_map_len(s: Seq<(Location, Tile)>)
    requires
        distinct_keys(s),
    ensures
        assoc_map(s).dom().finite(),
        assoc_map(s).dom().len() == s.len(),
    decreases s.len(),
{
    if s.len() > 0 {
        lemma_assoc_map_len(s.drop_last());
        lemma_assoc_map_contains(s.drop_last(), s.last().0);
        assert forall|i: int| 0 <= i < s.drop_last().len() implies (#[trigger] s.drop_last()[i]).0
            != s.last().0 by {
            assert(s.drop_last()[i] == s[i]);
            assert(s[i].0 != s[s.len() - 1].0);
        }
        assert(!assoc_map(s.drop_last()).contains_key(s.last().0));
        assert(assoc_map(s).dom() =~= assoc_map(s.drop_last()).dom().insert(s.last().0));
    } else {
        assert(assoc_map(s).dom() =~= Set::<Location>::empty());
    }
}

/// An immutable sparse board: a finite map from locations to tiles, built
/// once and then only read. A location without an entry is off the board.
pub struct Board {
    entries: Vec<(Location, Tile)>,
}

impl View for Board {
    type V = Map<Location, Tile>;

    closed spec fn view(&self) -> Map<Location, Tile> {
        assoc_map(self.entries@)
    }
}

impl Board {
    /// Well-formedness: the underlying entries carry pairwise distinct
    /// keys, so the board is an exact finite map. Constructors establish
    /// it and every method preserves it.
    pub closed spec fn wf(&self) -> bool {
        distinct_keys(self.entries@)
    }

    /// An empty board.
    pub fn new() -> (b: Board)
        ensures
            b.wf(),
            b@ == Map::<Location, Tile>::empty(),
    {
        let b = Board { entries: Vec::new() };
        proof {
            assert(b@ =~= Map::<Location, Tile>::empty());
        }
        b
    }

    /// The view of a well-formed board is a finite map.
    pub proof fn lemma_finite(&self)
        requires
            self.wf(),
        ensures
            self@.dom().finite(),
    {
        lemma_assoc_map_len(self.entries@);
    }

    /// Put a tile at a location, replacing whatever was there.
    pub fn insert(&mut self, l: Location, t: Tile)
        requires
            old(self).wf(),
        ensures
            final(self).wf(),
            final(self)@ == old(self)@.insert(l, t),
    {
        let ghost s0 = self.entries@;
        let mut i: usize = 0;
        while i < self.entries.len()
            invariant
                self == old(self),
                self.wf(),
                s0 == self.entries@,
                0 <= i <= self.entries@.len(),
                forall|k: int| 0 <= k < i ==> (#[trigger] self.entries@[k]).0 != l,
            decreases self.entries@.len() - i,
        {
            if self.entries[i].0 == l {
                self.entries[i] = (l, t);
                proof {
                    lemma_replace_entry(s0, i as int, l, t);
                }
                return ;
            }
            i += 1;
        }
        self.entries.push((l, t));
        proof {
            assert(self.entries@.drop_last() =~= s0);
            assert(self@ == assoc_map(s0).insert(l, t));
        }
    }

    /// The tile at a location, if the board holds one.
    pub fn get(&self, l: &Location) -> (r: Option<Tile>)
        requires
            self.wf(),
        ensures
            match r {
                Some(t) => self@.contains_key(*l) && t == self@[*l],
                None => !self@.contains_key(*l),
            },
    {
        let mut i: usize = 0;
        while i < self.entries.len()
            invariant
                self.wf(),
                0 <= i <= self.entries@.len(),
                forall|k: int| 0 <= k < i ==> (#[trigger] self.entries@[k]).0 != *l,
            decreases self.entries@.len() - i,
        {
            if self.entries[i].0 == *l {
                proof {
                    lemma_assoc_map_index(self.entries@, i as int);
                }
                return Some(self.entries[i].1);
            }
            i += 1;
        }
        proof {
            lemma_assoc_map_contains(self.entries@, *l);
        }
        None
    }

    /// The tile at a location known to be on the board.
    pub fn tile_at(&self, l: &Location) -> (t: Tile)
        requires
            self.wf(),
            self@.contains_key(*l),
        ensures
            t == self@[*l],
    {
        match self.get(l) {
            Some(t) => t,
            None => vstd::pervasive::unreached(),
        }
    }

    /// The locations of every tile on the board.
    pub fn keys(&self) -> (r: Vec<Location>)
        requires
            self.wf(),
        ensures
            forall|l: Location| r@.contains(l) <==> self@.contains_key(l),
    {
        let mut r: Vec<Location> = Vec::new();
        let mut i: usize = 0;
        while i < self.entries.len()
            invariant
                self.wf(),
                0 <= i <= self.entries@.len(),
                r@.len() == i,
                forall|k: int| 0 <= k < i ==> #[trigger] r@[k] == self.entries@[k].0,
            decreases self.entries@.len() - i,
        {
            r.push(self.entries[i].0);
            i += 1;
        }
        proof {
            assert forall|l: Location| r@.contains(l) <==> self@.contains_key(l) by {
                lemma_assoc_map_contains(self.entries@, l);
                if r@.contains(l) {
                    let k = choose|k: int| 0 <= k < r@.len() && r@[k] == l;
                    assert(self.entries@[k].0 == l);
                }
                if self@.contains_key(l) {
                    let k = choose|k: int| 0 <= k < self.entries@.len() && (#[trigger] self.entries@[k]).0 == l;
                    assert(r@[k] == l);
                }
            }
        }
        r
    }

    /// How many tiles the board holds.
    pub fn len(&self) -> (n: usize)
        requires
            self.wf(),
        ensures
            n as nat == self@.dom().len(),
    {
        proof {
            lemma_assoc_map_len(self.entries@);
        }
        self.entries.len()
    }
}

proof fn lemma_replace_entry(s: Seq<(Location, Tile)>, i: int, l: Location, t: Tile)
    requires
        distinct_keys(s),
        0 <= i < s.len(),
        s[i].0 == l,
    ensures
        distinct_keys(s.update(i, (l, t))),
        assoc_map(s.update(i, (l, t))) == assoc_map(s).insert(l, t),
{
    let s2 = s.update(i, (l, t));
    assert forall|a: int, b: int| 0 <= a < b < s2.len() implies (#[trigger] s2[a]).0
        != (#[trigger] s2[b]).0 by {
        assert(s[a].0 != s[b].0);
    }
    lemma_assoc_map_contains(s, l);
    lemma_assoc_map_contains(s2, l);
    assert forall|k: Location| true implies assoc_map(s2).contains_key(k) == assoc_map(
        s,
    ).insert(l, t).contains_key(k) by {
        lemma_assoc_map_contains(s, k);
        lemma_assoc_map_contains(s2, k);
        if k != l {
            if exists|a: int| 0 <= a < s.len() && (#[trigger] s[a]).0 == k {
                let a = choose|a: int| 0 <= a < s.len() && (#[trigger] s[a]).0 == k;
                assert((s2[a]).0 == k);
            }
            if exists|a: int| 0 <= a < s2.len() && (#[trigger] s2[a]).0 == k {
                let a = choose|a: int| 0 <= a < s2.len() && (#[trigger] s2[a]).0 == k;
                assert((s[a]).0 == k);
            }
        } else {
            assert(s2[i].0 == k);
        }
    }
    assert forall|k: Location| assoc_map(s2).contains_key(k) implies assoc_map(s2)[k] == assoc_map(
        s,
    ).insert(l, t)[k] by {
        lemma_assoc_map_contains(s2, k);
        let a = choose|a: int| 0 <= a < s2.len() && (#[trigger] s2[a]).0 == k;
        lemma_assoc_map_index(s2, a);
        if k == l {
            assert(a == i) by {
                if a != i {
                    assert(s2[a] == s[a]);
                    assert(s[a].0 != s[i].0);
                }
            }
            assert(assoc_map(s2)[k] == t);
        } else {
            assert(a != i);
            assert(s2[a] == s[a]);
            lemma_assoc_map_index(s, a);
        }
    }
    assert(assoc_map(s2) =~= assoc_map(s).insert(l, t));
}

} // verus!
