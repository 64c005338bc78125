//! Turfs, directions and the neighbours of a turf.
use vstd::prelude::*;

verus! {

/// The index of a turf on the map: `x` runs fastest, then `y`, then `z`.
pub type TurfID = u32;

/// For each direction the one that leads back. Direction 6 is the turf itself.
pub const OPP_DIR_INDEX: [usize; 7] = [1, 0, 3, 2, 5, 4, 6];

/// The direction that leads back from `dir`.
pub open spec fn opposite(dir: int) -> int {
    if dir == 6 {
        6
    } else if dir % 2 == 0 {
        dir + 1
    } else {
        dir - 1
    }
}

/// How far the index of a turf moves in direction `dir`.
pub open spec fn dir_offset(dir: int, max_x: int, max_y: int) -> int {
    if dir == 0 {
        max_x
    } else if dir == 1 {
        -max_x
    } else if dir == 2 {
        1
    } else if dir == 3 {
        -1
    } else if dir == 4 {
        max_x * max_y
    } else if dir == 5 {
        -(max_x * max_y)
    } else {
        0
    }
}

/// The turf next to `i` in direction `dir`; indices wrap around at `2^32`.
pub open spec fn adjacent(dir: int, i: TurfID, max_x: int, max_y: int) -> TurfID {
    ((i + dir_offset(dir, max_x, max_y)) % 0x1_0000_0000) as u32
}

/// The directions from `from` up to (and without) `end` that are set in `adj`,
/// each with the turf that lies there, in ascending order.
pub open spec fn neighbours(
    adj: u8,
    i: TurfID,
    max_x: int,
    max_y: int,
    from: int,
    end: int,
) -> Seq<(u8, TurfID)>
    decreases end - from,
{
    if from >= end {
        Seq::empty()
    } else if adj & (1u8 << (from as u8)) == 1u8 << (from as u8) {
        seq![(from as u8, adjacent(from, i, max_x, max_y))] + neighbours(
            adj,
            i,
            max_x,
            max_y,
            from + 1,
            end,
        )
    } else {
        neighbours(adj, i, max_x, max_y, from + 1, end)
    }
}

/// The opposite of `dir`.
pub fn opposite_dir(dir: usize) -> (opp: usize)
    requires
        dir <= 6,
    ensures
        opp == opposite(dir as int),
        opp <= 6,
{
    OPP_DIR_INDEX[dir]
}

/// The turf next to `i` in direction `id`; any `id` past 5 is the turf itself.
#[verifier::spinoff_prover]
pub fn adjacent_tile_id(id: u8, i: TurfID, max_x: i32, max_y: i32) -> (loc: TurfID)
    ensures
        loc == adjacent(id as int, i, max_x as int, max_y as int),
{
    assert(-0x4000_0000_0000_0000 <= max_x * max_y <= 0x4000_0000_0000_0000) by (nonlinear_arith)
        requires
            -0x8000_0000 <= max_x < 0x8000_0000,
            -0x8000_0000 <= max_y < 0x8000_0000,
    ;
    let z_size: i128 = (max_x as i128) * (max_y as i128);
    let offset: i128 = if id == 0 {
        max_x as i128
    } else if id == 1 {
        -(max_x as i128)
    } else if id == 2 {
        1
    } else if id == 3 {
        -1
    } else if id == 4 {
        z_size
    } else if id == 5 {
        -z_size
    } else {
        0
    };
    assert(offset == dir_offset(id as int, max_x as int, max_y as int));
    assert(-0x4000_0000_0000_0000 <= offset <= 0x4000_0000_0000_0000);
    let sum: i128 = (i as i128) + offset + 0x1_0000_0000_0000_0000;
    let loc: i128 = sum % 0x1_0000_0000;
    proof {
        vstd::arithmetic::div_mod::lemma_mod_multiples_vanish(
            0x1_0000_0000,
            i + offset,
            0x1_0000_0000,
        );
        assert(0x1_0000_0000 * 0x1_0000_0000 + (i + offset) == sum);
    }
    loc as u32
}

/// Whether direction `dir` is set in `adj`.
pub(crate) fn has_dir(adj: u8, dir: u8) -> (set: bool)
    requires
        dir < 8,
    ensures
        set == (adj & (1u8 << dir) == 1u8 << dir),
{
    let bit: u8 = 1u8 << dir;
    adj & bit == bit
}

/// How many of the lowest `n` bits of `adj` are set.
pub open spec fn bits_set(adj: u8, n: int) -> int
    decreases n,
{
    if n <= 0 {
        0
    } else if adj & (1u8 << ((n - 1) as u8)) == 1u8 << ((n - 1) as u8) {
        bits_set(adj, n - 1) + 1
    } else {
        bits_set(adj, n - 1)
    }
}

/// Steps through the turfs next to a turf. The turf itself is never among them.
#[derive(Clone, Copy)]
pub struct AdjacentTileIDsNoorig {
    pub adj: u8,
    pub i: TurfID,
    pub max_x: i32,
    pub max_y: i32,
    pub count: u8,
}

impl AdjacentTileIDsNoorig {
    /// What is still to come.
    pub open spec fn remaining(self) -> Seq<(u8, TurfID)> {
        neighbours(self.adj, self.i, self.max_x as int, self.max_y as int, self.count as int, 6)
    }

    /// The next direction that is set, and the turf that lies there.
    pub fn next(&mut self) -> (item: Option<(u8, TurfID)>)
        ensures
            item is None <==> old(self).remaining().len() == 0,
            match item {
                Some(pair) => {
                    &&& pair == old(self).remaining()[0] && pair.0 < 6
                    &&& final(self).count == pair.0 + 1
                },
                None => final(self).count == if old(self).count < 6 {
                    6
                } else {
                    old(self).count
                },
            },
            final(self).remaining() == if item is None {
                old(self).remaining()
            } else {
                old(self).remaining().drop_first()
            },
            final(self).adj == old(self).adj && final(self).i == old(self).i,
            final(self).max_x == old(self).max_x && final(self).max_y == old(self).max_y,
    {
        let ghost start = self.remaining();
        loop
            invariant
                self.remaining() == start,
                start == old(self).remaining(),
                self.adj == old(self).adj && self.i == old(self).i,
                self.max_x == old(self).max_x && self.max_y == old(self).max_y,
                old(self).count <= self.count,
                self.count <= 6 || self.count == old(self).count,
            decreases 6 - self.count,
        {
            if self.count > 5 {
                return None;
            }
            self.count = self.count + 1;
            let dir: u8 = self.count - 1;
            if has_dir(self.adj, dir) {
                proof {
                    let rest = self.remaining();
                    let head = (dir, adjacent(dir as int, self.i, self.max_x as int, self.max_y as int));
                    assert(start == seq![head] + rest);
                    assert(start.drop_first() =~= rest);
                }
                return Some((dir, adjacent_tile_id(dir, self.i, self.max_x, self.max_y)));
            }
        }
    }

    /// Bounds on how many neighbours come: none at least, and at most one for
    /// each bit of the adjacency.
    pub fn size_hint(&self) -> (hint: (usize, Option<usize>))
        ensures
            hint.0 == 0,
            hint.1 matches Some(most) && most == bits_set(self.adj, 8) && self.remaining().len()
                <= most,
    {
        let mut most: usize = 0;
        let mut dir: u8 = 0;
        while dir < 8
            invariant
                dir <= 8,
                most == bits_set(self.adj, dir as int),
                most <= dir,
            decreases 8 - dir,
        {
            if has_dir(self.adj, dir) {
                most = most + 1;
            }
            dir = dir + 1;
        }
        proof {
            if self.count <= 6 {
                lemma_neighbours_len(
                    self.adj,
                    self.i,
                    self.max_x as int,
                    self.max_y as int,
                    self.count as int,
                    6,
                );
                lemma_bits_set(self.adj, self.count as int);
            }
            assert(bits_set(self.adj, 6) <= bits_set(self.adj, 7) <= bits_set(self.adj, 8));
            lemma_bits_set(self.adj, 6);
        }
        (0, Some(most))
    }
}

/// The turfs next to `i`, without `i` itself.
pub fn adjacent_tile_ids_no_orig(adj: u8, i: TurfID, max_x: i32, max_y: i32) -> (tiles:
    AdjacentTileIDsNoorig)
    ensures
        tiles == (AdjacentTileIDsNoorig { adj, i, max_x, max_y, count: 0 }),
        tiles.remaining() == neighbours(adj, i, max_x as int, max_y as int, 0, 6),
{
    AdjacentTileIDsNoorig { adj, i, max_x, max_y, count: 0 }
}

/// Steps through the turfs next to a turf, and through the turf itself where
/// its adjacency names it.
#[derive(Clone, Copy)]
pub struct AdjacentTileIDs {
    pub adj: u8,
    pub i: TurfID,
    pub max_x: i32,
    pub max_y: i32,
    pub count: u8,
}

impl AdjacentTileIDs {
    /// What is still to come.
    pub open spec fn remaining(self) -> Seq<(u8, TurfID)> {
        neighbours(self.adj, self.i, self.max_x as int, self.max_y as int, self.count as int, 7)
    }

    /// The next direction that is set, and the turf that lies there.
    pub fn next(&mut self) -> (item: Option<(u8, TurfID)>)
        ensures
            item is None <==> old(self).remaining().len() == 0,
            match item {
                Some(pair) => {
                    &&& pair == old(self).remaining()[0] && pair.0 < 7
                    &&& final(self).count == pair.0 + 1
                },
                None => final(self).count == if old(self).count < 7 {
                    7
                } else {
                    old(self).count
                },
            },
            final(self).remaining() == if item is None {
                old(self).remaining()
            } else {
                old(self).remaining().drop_first()
            },
            final(self).adj == old(self).adj && final(self).i == old(self).i,
            final(self).max_x == old(self).max_x && final(self).max_y == old(self).max_y,
    {
        let ghost start = self.remaining();
        loop
            invariant
                self.remaining() == start,
                start == old(self).remaining(),
                self.adj == old(self).adj && self.i == old(self).i,
                self.max_x == old(self).max_x && self.max_y == old(self).max_y,
                old(self).count <= self.count,
                self.count <= 7 || self.count == old(self).count,
            decreases 7 - self.count,
        {
            if self.count > 6 {
                return None;
            }
            self.count = self.count + 1;
            let dir: u8 = self.count - 1;
            if has_dir(self.adj, dir) {
                proof {
                    let rest = self.remaining();
                    let head = (dir, adjacent(dir as int, self.i, self.max_x as int, self.max_y as int));
                    assert(start == seq![head] + rest);
                    assert(start.drop_first() =~= rest);
                }
                return Some((dir, adjacent_tile_id(dir, self.i, self.max_x, self.max_y)));
            }
        }
    }
}

/// The turfs next to `i`, and `i` itself where `adj` names it.
pub fn adjacent_tile_ids(adj: u8, i: TurfID, max_x: i32, max_y: i32) -> (tiles: AdjacentTileIDs)
    ensures
        tiles == (AdjacentTileIDs { adj, i, max_x, max_y, count: 0 }),
        tiles.remaining() == neighbours(adj, i, max_x as int, max_y as int, 0, 7),
{
    AdjacentTileIDs { adj, i, max_x, max_y, count: 0 }
}

/// The number of bits that are set is not negative.
proof fn lemma_bits_set(adj: u8, n: int)
    ensures
        bits_set(adj, n) >= 0,
    decreases n,
{
    if n > 0 {
        lemma_bits_set(adj, n - 1);
    }
}

/// There are as many neighbours as directions that are set.
pub proof fn lemma_neighbours_len(
    adj: u8,
    i: TurfID,
    max_x: int,
    max_y: int,
    from: int,
    end: int,
)
    requires
        0 <= from <= end,
    ensures
        neighbours(adj, i, max_x, max_y, from, end).len() == bits_set(adj, end) - bits_set(
            adj,
            from,
        ),
    decreases end - from,
{
    if from < end {
        lemma_neighbours_len(adj, i, max_x, max_y, from + 1, end);
    }
}

/// What holds of each pair in a list of neighbours.
pub proof fn lemma_neighbours(
    adj: u8,
    i: TurfID,
    max_x: int,
    max_y: int,
    from: int,
    end: int,
)
    requires
        0 <= from <= end <= 7,
    ensures
        neighbours(adj, i, max_x, max_y, from, end).len() <= end - from,
        forall|k: int|
            #![trigger neighbours(adj, i, max_x, max_y, from, end)[k]]
            0 <= k < neighbours(adj, i, max_x, max_y, from, end).len() ==> {
                let pair = neighbours(adj, i, max_x, max_y, from, end)[k];
                from <= pair.0 < end && pair.1 == adjacent(pair.0 as int, i, max_x, max_y)
            },
        forall|k: int, l: int|
            #![trigger neighbours(adj, i, max_x, max_y, from, end)[k], neighbours(adj, i, max_x, max_y, from, end)[l]]
            0 <= k < l < neighbours(adj, i, max_x, max_y, from, end).len() ==> neighbours(
                adj, i, max_x, max_y, from, end)[k].0 < neighbours(adj, i, max_x, max_y, from, end)[l].0,
    decreases end - from,
{
    if from < end {
        lemma_neighbours(adj, i, max_x, max_y, from + 1, end);
        let rest = neighbours(adj, i, max_x, max_y, from + 1, end);
        let all = neighbours(adj, i, max_x, max_y, from, end);
        if all.len() != rest.len() {
            assert(forall|k: int| 1 <= k < all.len() ==> all[k] == rest[k - 1]);
        }
    }
}

/// A step in any direction and a step in the opposite one lead back.
pub proof fn opposite_step_returns(dir: int, i: TurfID, max_x: int, max_y: int)
    requires
        0 <= dir <= 6,
    ensures
        adjacent(opposite(dir), adjacent(dir, i, max_x, max_y), max_x, max_y) == i,
        opposite(opposite(dir)) == dir,
        0 <= opposite(dir) <= 6,
{
    let d = dir_offset(dir, max_x, max_y);
    assert(dir_offset(opposite(dir), max_x, max_y) == -d);
    assert(((i + d) % 0x1_0000_0000 - d) % 0x1_0000_0000 == i) by {
        vstd::arithmetic::div_mod::lemma_sub_mod_noop(i + d, d, 0x1_0000_0000);
        vstd::arithmetic::div_mod::lemma_mod_twice(i + d, 0x1_0000_0000);
        vstd::arithmetic::div_mod::lemma_sub_mod_noop((i + d) % 0x1_0000_0000, d, 0x1_0000_0000);
    }
}

} // verus!
