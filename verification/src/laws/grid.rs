//! What holds of turfs and their neighbours.
use vstd::prelude::*;
use crate::grid::{adjacent, bits_set, lemma_neighbours, neighbours, TurfID};

verus! {

/// No turf is its own neighbour.
pub open spec fn apart(max_x: int, max_y: int) -> bool {
    forall|dir: int, i: TurfID|
        0 <= dir < 6 ==> #[trigger] adjacent(dir, i, max_x, max_y) != i
}

/// On every map that has room for a turf, no turf is its own neighbour.
pub proof fn maps_keep_turfs_apart(max_x: int, max_y: int)
    requires
        0 < max_x,
        0 < max_y,
        max_x * max_y < 0x1_0000_0000,
    ensures
        apart(max_x, max_y),
{
    assert(max_x <= max_x * max_y) by (nonlinear_arith)
        requires
            0 < max_x,
            0 < max_y,
    ;
    assert(0 < max_x * max_y) by (nonlinear_arith)
        requires
            0 < max_x,
            0 < max_y,
    ;
}

/// The neighbours of a turf are exactly those in the directions that are set.
pub proof fn neighbours_lie_where_set(
    adj: u8,
    i: TurfID,
    max_x: int,
    max_y: int,
    from: int,
    end: int,
    j: u8,
)
    requires
        0 <= from <= end <= 7,
    ensures
        neighbours(adj, i, max_x, max_y, from, end).contains(
            (j, adjacent(j as int, i, max_x, max_y)),
        ) <==> from <= j < end && adj & (1u8 << j) == 1u8 << j,
    decreases end - from,
{
    let pair = (j, adjacent(j as int, i, max_x, max_y));
    let all = neighbours(adj, i, max_x, max_y, from, end);
    if from < end {
        let rest = neighbours(adj, i, max_x, max_y, from + 1, end);
        neighbours_lie_where_set(adj, i, max_x, max_y, from + 1, end, j);
        if all.len() != rest.len() {
            assert(all[0] == (from as u8, adjacent(from, i, max_x, max_y)));
            if rest.contains(pair) {
                let k = choose|k: int| 0 <= k < rest.len() && rest[k] == pair;
                assert(all[k + 1] == pair);
            }
            if all.contains(pair) && from != j {
                let k = choose|k: int| 0 <= k < all.len() && all[k] == pair;
                assert(rest[k - 1] == pair);
            }
        }
    }
}

/// A turf is never among its neighbours in the six directions.
pub proof fn neighbours_leave_out_the_turf(adj: u8, i: TurfID, max_x: int, max_y: int)
    requires
        apart(max_x, max_y),
    ensures
        forall|k: int|
            #![trigger neighbours(adj, i, max_x, max_y, 0, 6)[k]]
            0 <= k < neighbours(adj, i, max_x, max_y, 0, 6).len() ==> neighbours(
                adj,
                i,
                max_x,
                max_y,
                0,
                6,
            )[k].1 != i,
{
    lemma_neighbours(adj, i, max_x, max_y, 0, 6);
}

/// The index of the turf at column `x`, row `y` and level `z`.
pub open spec fn index_of(x: int, y: int, z: int, max_x: int, max_y: int) -> int {
    x + y * max_x + z * (max_x * max_y)
}

/// Each of the six directions leads to the next row, the next column or the next level, there or
/// back, and the seventh nowhere, wherever a turf lies and however large the map is.
pub proof fn steps_move_by_one(x: int, y: int, z: int, max_x: int, max_y: int, dir: int)
    requires
        0 <= index_of(x, y, z, max_x, max_y) < 0x1_0000_0000,
    ensures
        ({
            let i = index_of(x, y, z, max_x, max_y) as u32;
            let to = if dir == 0 {
                index_of(x, y + 1, z, max_x, max_y)
            } else if dir == 1 {
                index_of(x, y - 1, z, max_x, max_y)
            } else if dir == 2 {
                index_of(x + 1, y, z, max_x, max_y)
            } else if dir == 3 {
                index_of(x - 1, y, z, max_x, max_y)
            } else if dir == 4 {
                index_of(x, y, z + 1, max_x, max_y)
            } else if dir == 5 {
                index_of(x, y, z - 1, max_x, max_y)
            } else {
                i as int
            };
            &&& 0 <= to < 0x1_0000_0000 ==> adjacent(dir, i, max_x, max_y) == to
            &&& adjacent(dir, i, max_x, max_y) == to % 0x1_0000_0000
        }),
{
    let m = max_x * max_y;
    assert((y + 1) * max_x == y * max_x + max_x) by (nonlinear_arith);
    assert((y - 1) * max_x == y * max_x - max_x) by (nonlinear_arith);
    assert((z + 1) * m == z * m + m) by (nonlinear_arith);
    assert((z - 1) * m == z * m - m) by (nonlinear_arith);
}

/// Whatever is set in an adjacency is counted once: none if none is set, and one more for a
/// direction more.
pub proof fn bits_are_counted_once(adj: u8, dir: u8, n: int)
    requires
        dir < 8,
        adj & (1u8 << dir) == 0,
        0 <= n <= 8,
    ensures
        bits_set(0, n) == 0,
        bits_set(adj | (1u8 << dir), n) == bits_set(adj, n) + if dir < n {
            1int
        } else {
            0
        },
    decreases n,
{
    if n > 0 {
        bits_are_counted_once(adj, dir, n - 1);
        let b = (n - 1) as u8;
        assert(0u8 & (1u8 << b) != 1u8 << b) by (bit_vector)
            requires
                b < 8,
        ;
        assert((adj | (1u8 << dir)) & (1u8 << b) == 1u8 << b <==> b == dir || adj & (1u8 << b)
            == 1u8 << b) by (bit_vector)
            requires
                b < 8,
                dir < 8,
        ;
        assert(adj & (1u8 << dir) != 1u8 << dir) by (bit_vector)
            requires
                dir < 8,
                adj & (1u8 << dir) == 0,
        ;
    }
}

} // verus!
