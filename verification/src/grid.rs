//! The cells of the spatial grid of stops: which stops lie in which cell,
//! the stops around a cell, and the flat arrays that the GPU reads the grid
//! from.

use std::collections::HashMap;
use vstd::prelude::*;

use crate::structs::{GpuGridCellKey, GpuGridCellVal};

verus! {

broadcast use vstd::std_specs::hash::group_hash_axioms;

/// The map key of cell `(lat_index, lon_index)`.
pub open spec fn cell_key(cell: (i32, i32)) -> u64 {
    ((cell.0 + 0x8000_0000) * 0x1_0000_0000 + (cell.1 + 0x8000_0000)) as u64
}

fn compute_cell_key(lat_index: i32, lon_index: i32) -> (k: u64)
    ensures
        k == cell_key((lat_index, lon_index)),
{
    let a = (lat_index as i64 + 0x8000_0000) as u64;
    let b = (lon_index as i64 + 0x8000_0000) as u64;
    a * 0x1_0000_0000 + b
}

/// Different cells never share a map key, so the stops of every cell are
/// kept apart.
pub proof fn cell_key_injective(c1: (i32, i32), c2: (i32, i32))
    requires
        cell_key(c1) == cell_key(c2),
    ensures
        c1 == c2,
{
    let a1 = c1.0 + 0x8000_0000;
    let b1 = c1.1 + 0x8000_0000;
    let a2 = c2.0 + 0x8000_0000;
    let b2 = c2.1 + 0x8000_0000;
    assert(a1 * 0x1_0000_0000 + b1 == a2 * 0x1_0000_0000 + b2);
    if a1 < a2 {
        assert(a1 * 0x1_0000_0000 + b1 < a2 * 0x1_0000_0000);
    } else if a1 > a2 {
        assert(a2 * 0x1_0000_0000 + b2 < a1 * 0x1_0000_0000);
    }
}

/// The stops of cell `c` in `cells`, or none.
pub open spec fn ids_in(cells: Map<(i32, i32), Seq<u32>>, c: (i32, i32)) -> Seq<u32> {
    if cells.contains_key(c) {
        cells[c]
    } else {
        Seq::empty()
    }
}

/// The stops of the `count` cells of row `lat` from column `lon_from` on,
/// cell after cell.
pub open spec fn row_ids(cells: Map<(i32, i32), Seq<u32>>, lat: int, lon_from: int, count: nat) -> Seq<u32>
    decreases count,
{
    if count == 0 {
        Seq::empty()
    } else {
        row_ids(cells, lat, lon_from, (count - 1) as nat) + ids_in(
            cells,
            (lat as i32, (lon_from + count - 1) as i32),
        )
    }
}

/// The stops of the cells around `(lat, lon)`: the rows `lat - 1`, `lat`
/// and `lat + 1`, each from column `lon - lon_range` to `lon + lon_range`.
pub open spec fn nearby_ids(cells: Map<(i32, i32), Seq<u32>>, lat: int, lon: int, lon_range: int) -> Seq<u32> {
    let width: nat = if lon_range >= 0 {
        (2 * lon_range + 1) as nat
    } else {
        0
    };
    row_ids(cells, lat - 1, lon - lon_range, width) + row_ids(cells, lat, lon - lon_range, width)
        + row_ids(cells, lat + 1, lon - lon_range, width)
}

/// The stops of the cells `order`, cell after cell.
pub open spec fn cells_stops(cells: Map<(i32, i32), Seq<u32>>, order: Seq<(i32, i32)>) -> Seq<u32>
    decreases order.len(),
{
    if order.len() == 0 {
        Seq::empty()
    } else {
        cells_stops(cells, order.drop_last()) + ids_in(cells, order.last())
    }
}

/// The arrival time recorded for `id`, or the latest time when none is.
pub open spec fn arrival_or_max(arrival_times: Map<u32, u32>, id: u32) -> u32 {
    if arrival_times.contains_key(id) {
        arrival_times[id]
    } else {
        u32::MAX
    }
}

/// Appends `ids` to `out`.
fn append_ids(out: &mut Vec<u32>, ids: &Vec<u32>)
    ensures
        final(out)@ == old(out)@ + ids@,
{
    let n = ids.len();
    for i in 0..n
        invariant
            n == ids@.len(),
            out@ == old(out)@ + ids@.take(i as int),
    {
        out.push(ids[i]);
        proof {
            assert(ids@.take(i + 1) =~= ids@.take(i as int).push(ids@[i as int]));
        }
    }
    proof {
        assert(ids@.take(n as int) =~= ids@);
    }
}

/// The cells of a spatial grid of stops: the stops in each cell, and the
/// order in which cells were first filled.
pub struct GridCells {
    inner: (HashMap<u64, Vec<u32>>, Vec<(i32, i32)>),
}

impl GridCells {
    /// The map holds exactly the keys of the listed cells, each listed once.
    #[verifier::type_invariant]
    closed spec fn wf(&self) -> bool {
        let (map, order) = self.inner;
        &&& order@.no_duplicates()
        &&& forall|k: u64| #[trigger]
            map@.contains_key(k) <==> exists|i: int|
                0 <= i < order@.len() && cell_key(#[trigger] order@[i]) == k
    }

    /// The stops in each filled cell.
    pub closed spec fn cells(&self) -> Map<(i32, i32), Seq<u32>> {
        Map::new(
            |c: (i32, i32)| self.inner.0@.contains_key(cell_key(c)),
            |c: (i32, i32)| self.inner.0@[cell_key(c)]@,
        )
    }

    /// The filled cells, in the order they were first filled.
    pub closed spec fn order(&self) -> Seq<(i32, i32)> {
        self.inner.1@
    }

    /// The order lists each filled cell once.
    fn order_lists_cells(&self)
        ensures
            self.order().no_duplicates(),
            forall|c: (i32, i32)| #[trigger]
                self.cells().contains_key(c) <==> self.order().contains(c),
    {
        proof {
            use_type_invariant(self);
        }
        assert forall|c: (i32, i32)| #[trigger]
            self.cells().contains_key(c) <==> self.order().contains(c) by {
            if self.cells().contains_key(c) {
                let i = choose|i: int|
                    0 <= i < self.inner.1@.len() && cell_key(#[trigger] self.inner.1@[i]) == cell_key(c);
                cell_key_injective(self.inner.1@[i], c);
            }
            if self.order().contains(c) {
                let i = choose|i: int| 0 <= i < self.order().len() && self.order()[i] == c;
                assert(cell_key(self.inner.1@[i]) == cell_key(c));
            }
        }
    }


    /// The stops of cell `(lat_index, lon_index)`, or none.
    fn ids_at(&self, lat_index: i32, lon_index: i32) -> (ids: Option<&Vec<u32>>)
        ensures
            match ids {
                Some(v) => self.cells().contains_key((lat_index, lon_index)) && v@ == self.cells()[(
                    lat_index,
                    lon_index,
                )],
                None => !self.cells().contains_key((lat_index, lon_index)),
            },
    {
        let key = compute_cell_key(lat_index, lon_index);
        self.inner.0.get(&key)
    }

    /// The stops in the cells around cell `(lat_index, lon_index)`: the row
    /// above, the row itself and the row below, each from `lon_range`
    /// columns to the left to `lon_range` columns to the right.
    pub fn get_nearby(&self, lat_index: i32, lon_index: i32, lon_range: i32) -> (nearby: Vec<u32>)
        requires
            i32::MIN < lat_index < i32::MAX,
            lon_range >= 0 ==> i32::MIN <= lon_index - lon_range && lon_index + lon_range <= i32::MAX,
        ensures
            nearby@ == nearby_ids(self.cells(), lat_index as int, lon_index as int, lon_range as int),
    {
        let ghost cells = self.cells();
        let ghost width: nat = if lon_range >= 0 {
            (2 * lon_range + 1) as nat
        } else {
            0
        };
        let mut nearby: Vec<u32> = Vec::new();
        let mut d_lat: i64 = -1;
        while d_lat <= 1
            invariant
                -1 <= d_lat <= 2,
                cells == self.cells(),
                i32::MIN < lat_index < i32::MAX,
                lon_range >= 0 ==> i32::MIN <= lon_index - lon_range && lon_index + lon_range <= i32::MAX,
                width == (if lon_range >= 0 {
                    (2 * lon_range + 1) as nat
                } else {
                    0nat
                }),
                nearby@ == (if d_lat == -1 {
                    Seq::<u32>::empty()
                } else if d_lat == 0 {
                    row_ids(cells, lat_index - 1, lon_index - lon_range, width)
                } else if d_lat == 1 {
                    row_ids(cells, lat_index - 1, lon_index - lon_range, width) + row_ids(
                        cells,
                        lat_index as int,
                        lon_index - lon_range,
                        width,
                    )
                } else {
                    nearby_ids(cells, lat_index as int, lon_index as int, lon_range as int)
                }),
            decreases 2 - d_lat,
        {
            let lat = (lat_index as i64 + d_lat) as i32;
            let ghost row_start = nearby@;
            let mut d_lon: i64 = -(lon_range as i64);
            while d_lon <= lon_range as i64
                invariant
                    lon_range >= 0 ==> -(lon_range as int) <= d_lon <= lon_range + 1,
                    lon_range < 0 ==> d_lon == -(lon_range as int),
                    cells == self.cells(),
                    lon_range >= 0 ==> i32::MIN <= lon_index - lon_range && lon_index + lon_range <= i32::MAX,
                    nearby@ == row_start + row_ids(
                        cells,
                        lat as int,
                        lon_index - lon_range,
                        (d_lon + lon_range) as nat,
                    ),
                decreases lon_range + 1 - d_lon,
            {
                let lon = (lon_index as i64 + d_lon) as i32;
                let ghost before = nearby@;
                match self.ids_at(lat, lon) {
                    Some(ids) => append_ids(&mut nearby, ids),
                    None => {},
                }
                proof {
                    let c = (d_lon + lon_range + 1) as nat;
                    assert(lon_index - lon_range + c - 1 == lon as int);
                    assert(row_ids(cells, lat as int, lon_index - lon_range, c) == row_ids(
                        cells,
                        lat as int,
                        lon_index - lon_range,
                        (c - 1) as nat,
                    ) + ids_in(cells, (lat, lon)));
                    assert(nearby@ =~= row_start + row_ids(cells, lat as int, lon_index - lon_range, c));
                }
                d_lon = d_lon + 1;
            }
            proof {
                if lon_range < 0 {
                    assert(row_ids(cells, lat as int, lon_index - lon_range, 0) =~= Seq::<u32>::empty());
                }
                assert(nearby@ =~= row_start + row_ids(cells, lat as int, lon_index - lon_range, width));
                if d_lat == 1 {
                    assert(nearby@ =~= nearby_ids(cells, lat_index as int, lon_index as int, lon_range as int));
                }
            }
            d_lat = d_lat + 1;
        }
        nearby
    }

    /// An empty grid.
    pub fn new() -> (g: GridCells)
        ensures
            g.cells() == Map::<(i32, i32), Seq<u32>>::empty(),
            g.order() == Seq::<(i32, i32)>::empty(),
    {
        let g = GridCells { inner: (HashMap::new(), Vec::new()) };
        assert(g.cells() =~= Map::<(i32, i32), Seq<u32>>::empty());
        g
    }

    /// Adds `stop_id` to the stops of cell `(lat_index, lon_index)`.
    pub fn insert(&mut self, lat_index: i32, lon_index: i32, stop_id: u32)
        ensures
            final(self).cells() == old(self).cells().insert(
                (lat_index, lon_index),
                ids_in(old(self).cells(), (lat_index, lon_index)).push(stop_id),
            ),
            final(self).order() == if old(self).cells().contains_key((lat_index, lon_index)) {
                old(self).order()
            } else {
                old(self).order().push((lat_index, lon_index))
            },
            final(self).order().no_duplicates(),
            forall|c: (i32, i32)| #[trigger] final(self).order().contains(c) <==> final(self).cells().contains_key(c),
    {
        proof {
            use_type_invariant(&*self);
        }
        let ghost old_cells = self.cells();
        let mut inner: (HashMap<u64, Vec<u32>>, Vec<(i32, i32)>) = (HashMap::new(), Vec::new());
        std::mem::swap(&mut inner, &mut self.inner);
        let (mut map, mut order) = inner;
        let ghost map0 = map@;
        let ghost order0 = order@;
        let key = compute_cell_key(lat_index, lon_index);
        let cell = (lat_index, lon_index);
        let had = map.contains_key(&key);
        let mut list = match map.remove(&key) {
            Some(l) => l,
            None => Vec::new(),
        };
        list.push(stop_id);
        map.insert(key, list);
        if !had {
            order.push(cell);
        }
        proof {
            assert(old_cells.contains_key(cell) == had);
            if !had {
                assert forall|i: int| 0 <= i < order0.len() implies order0[i] != cell by {
                    if order0[i] == cell {
                        assert(map0.contains_key(cell_key(order0[i])));
                    }
                }
                assert(order@.no_duplicates()) by {
                    assert forall|a: int, b: int| 0 <= a < order@.len() && 0 <= b < order@.len() && a != b implies order@[a] != order@[b] by {
                        if a < order0.len() && b < order0.len() {
                            assert(order@[a] == order0[a] && order@[b] == order0[b]);
                        }
                    }
                }
            }
            assert forall|k: u64| #[trigger] map@.contains_key(k) <==> exists|i: int|
                0 <= i < order@.len() && cell_key(#[trigger] order@[i]) == k by {
                if map@.contains_key(k) && k != key {
                    assert(map0.contains_key(k));
                    let i = choose|i: int| 0 <= i < order0.len() && cell_key(#[trigger] order0[i]) == k;
                    assert(order@[i] == order0[i]);
                }
                if map@.contains_key(k) && k == key {
                    if had {
                        let i = choose|i: int| 0 <= i < order0.len() && cell_key(#[trigger] order0[i]) == k;
                        assert(order@[i] == order0[i]);
                    } else {
                        assert(order@[order@.len() - 1] == cell);
                    }
                }
                if exists|i: int| 0 <= i < order@.len() && cell_key(#[trigger] order@[i]) == k {
                    let i = choose|i: int| 0 <= i < order@.len() && cell_key(#[trigger] order@[i]) == k;
                    if i < order0.len() {
                        assert(order0[i] == order@[i]);
                    }
                }
            }
        }
        self.inner = (map, order);
        proof {
            let new_cells = self.cells();
            let expected = old_cells.insert(cell, ids_in(old_cells, cell).push(stop_id));
            assert forall|c: (i32, i32)| #[trigger] new_cells.contains_key(c) == expected.contains_key(c) by {
                if c != cell && new_cells.contains_key(c) {
                    if cell_key(c) == key {
                        cell_key_injective(c, cell);
                    }
                }
                if c != cell && expected.contains_key(c) {
                    if cell_key(c) == key {
                        cell_key_injective(c, cell);
                    }
                }
            }
            assert forall|c: (i32, i32)| new_cells.contains_key(c) implies #[trigger] new_cells[c] == expected[c] by {
                if c != cell && cell_key(c) == key {
                    cell_key_injective(c, cell);
                }
            }
            assert(new_cells =~= expected);
        }
        self.order_lists_cells();
    }
}

/// Half of `n + 1`, rounded toward zero (as integer division does).
pub open spec fn half_of_next(n: int) -> int {
    if n + 1 >= 0 {
        (n + 1) / 2
    } else {
        -((-(n + 1)) / 2)
    }
}

/// How many columns to each side the nearby search reads: one more than
/// the longitude cells that span one latitude cell (`lon_cells_per_cell`,
/// rounded up), but never more than half the `total_lon_cells` of a full
/// circle, past which the search would wrap around.
pub fn nearby_lon_range(lon_cells_per_cell: i32, total_lon_cells: i32) -> (r: i32)
    requires
        lon_cells_per_cell < i32::MAX,
        total_lon_cells < i32::MAX,
    ensures
        r == if lon_cells_per_cell + 1 <= half_of_next(total_lon_cells as int) {
            lon_cells_per_cell + 1
        } else {
            half_of_next(total_lon_cells as int)
        },
{
    let wanted = lon_cells_per_cell + 1;
    let half_circle = (total_lon_cells + 1) / 2;
    if wanted <= half_circle {
        wanted
    } else {
        half_circle
    }
}

proof fn lemma_row_holds_cell(
    cells: Map<(i32, i32), Seq<u32>>,
    lat: int,
    from: int,
    count: nat,
    col: int,
    id: u32,
)
    requires
        from <= col < from + count,
        ids_in(cells, (lat as i32, col as i32)).contains(id),
    ensures
        row_ids(cells, lat, from, count).contains(id),
    decreases count,
{
    let prev = row_ids(cells, lat, from, (count - 1) as nat);
    let last = ids_in(cells, (lat as i32, (from + count - 1) as i32));
    assert(row_ids(cells, lat, from, count) == prev + last);
    if col == from + count - 1 {
        let k = choose|k: int| 0 <= k < last.len() && last[k] == id;
        assert((prev + last)[prev.len() + k] == id);
    } else {
        lemma_row_holds_cell(cells, lat, from, (count - 1) as nat, col, id);
        let k = choose|k: int| 0 <= k < prev.len() && prev[k] == id;
        assert((prev + last)[k] == id);
    }
}

/// The nearby search misses no stop: every stop of a cell in the rows
/// `lat - 1` to `lat + 1` and the columns `lon - lon_range` to
/// `lon + lon_range` is among the stops around `(lat, lon)`.
pub proof fn nearby_holds_window_stops(
    cells: Map<(i32, i32), Seq<u32>>,
    cell: (i32, i32),
    id: u32,
    lat: int,
    lon: int,
    lon_range: int,
)
    requires
        ids_in(cells, cell).contains(id),
        lat - 1 <= cell.0 <= lat + 1,
        lon - lon_range <= cell.1 <= lon + lon_range,
    ensures
        nearby_ids(cells, lat, lon, lon_range).contains(id),
{
    let width = (2 * lon_range + 1) as nat;
    let r0 = row_ids(cells, lat - 1, lon - lon_range, width);
    let r1 = row_ids(cells, lat, lon - lon_range, width);
    let r2 = row_ids(cells, lat + 1, lon - lon_range, width);
    assert(nearby_ids(cells, lat, lon, lon_range) == r0 + r1 + r2);
    if cell.0 == lat - 1 {
        lemma_row_holds_cell(cells, lat - 1, lon - lon_range, width, cell.1 as int, id);
        let k = choose|k: int| 0 <= k < r0.len() && r0[k] == id;
        assert((r0 + r1 + r2)[k] == id);
    } else if cell.0 == lat {
        lemma_row_holds_cell(cells, lat, lon - lon_range, width, cell.1 as int, id);
        let k = choose|k: int| 0 <= k < r1.len() && r1[k] == id;
        assert((r0 + r1 + r2)[r0.len() + k] == id);
    } else {
        lemma_row_holds_cell(cells, lat + 1, lon - lon_range, width, cell.1 as int, id);
        let k = choose|k: int| 0 <= k < r2.len() && r2[k] == id;
        assert((r0 + r1 + r2)[r0.len() + r1.len() + k] == id);
    }
}

proof fn lemma_row_stop_in_cell(
    cells: Map<(i32, i32), Seq<u32>>,
    lat: int,
    from: int,
    count: nat,
    id: u32,
)
    requires
        row_ids(cells, lat, from, count).contains(id),
    ensures
        exists|col: int| from <= col < from + count && #[trigger] ids_in(cells, (lat as i32, col as i32)).contains(id),
    decreases count,
{
    let prev = row_ids(cells, lat, from, (count - 1) as nat);
    let col = from + count - 1;
    let last = ids_in(cells, (lat as i32, col as i32));
    assert(row_ids(cells, lat, from, count) == prev + last);
    let k = choose|k: int| 0 <= k < (prev + last).len() && (prev + last)[k] == id;
    if k < prev.len() {
        assert(prev[k] == id);
        lemma_row_stop_in_cell(cells, lat, from, (count - 1) as nat, id);
    } else {
        assert(last[k - prev.len()] == id);
        assert(ids_in(cells, (lat as i32, col as i32)).contains(id));
    }
}

/// The nearby search returns only stops of its window: every stop around
/// `(lat, lon)` lies in a cell of the rows `lat - 1` to `lat + 1` and the
/// columns `lon - lon_range` to `lon + lon_range`.
pub proof fn nearby_stops_lie_in_window(
    cells: Map<(i32, i32), Seq<u32>>,
    lat: int,
    lon: int,
    lon_range: int,
    id: u32,
)
    requires
        i32::MIN < lat < i32::MAX,
        lon_range >= 0 ==> i32::MIN <= lon - lon_range && lon + lon_range <= i32::MAX,
        nearby_ids(cells, lat, lon, lon_range).contains(id),
    ensures
        exists|c: (i32, i32)|
            lat - 1 <= c.0 <= lat + 1 && lon - lon_range <= c.1 <= lon + lon_range && #[trigger] ids_in(
                cells,
                c,
            ).contains(id),
{
    let width: nat = if lon_range >= 0 {
        (2 * lon_range + 1) as nat
    } else {
        0
    };
    let r0 = row_ids(cells, lat - 1, lon - lon_range, width);
    let r1 = row_ids(cells, lat, lon - lon_range, width);
    let r2 = row_ids(cells, lat + 1, lon - lon_range, width);
    assert(nearby_ids(cells, lat, lon, lon_range) == r0 + r1 + r2);
    let all = r0 + r1 + r2;
    let k = choose|k: int| 0 <= k < all.len() && all[k] == id;
    let row = if k < r0.len() {
        assert(r0[k] == id);
        lat - 1
    } else if k < r0.len() + r1.len() {
        assert(r1[k - r0.len()] == id);
        lat
    } else {
        assert(r2[k - r0.len() - r1.len()] == id);
        lat + 1
    };
    assert(row_ids(cells, row, lon - lon_range, width).contains(id));
    lemma_row_stop_in_cell(cells, row, lon - lon_range, width, id);
    let col = choose|col: int|
        lon - lon_range <= col < lon - lon_range + width && #[trigger] ids_in(cells, (row as i32, col as i32)).contains(id);
    let c = (row as i32, col as i32);
    assert(c.0 == row && c.1 == col);
    assert(ids_in(cells, c).contains(id));
}

/// A stop that `insert` puts into a cell is found by `get_nearby` from every
/// cell whose window covers that cell.
pub proof fn inserted_stop_is_nearby(
    cells: Map<(i32, i32), Seq<u32>>,
    cell: (i32, i32),
    id: u32,
    lat: int,
    lon: int,
    lon_range: int,
)
    requires
        lat - 1 <= cell.0 <= lat + 1,
        lon - lon_range <= cell.1 <= lon + lon_range,
    ensures
        nearby_ids(cells.insert(cell, ids_in(cells, cell).push(id)), lat, lon, lon_range).contains(id),
{
    let after = cells.insert(cell, ids_in(cells, cell).push(id));
    let ids = ids_in(after, cell);
    assert(ids[ids.len() - 1] == id);
    nearby_holds_window_stops(after, cell, id, lat, lon, lon_range);
}

proof fn lemma_cells_stops_concat(cells: Map<(i32, i32), Seq<u32>>, a: Seq<(i32, i32)>, b: Seq<(i32, i32)>)
    ensures
        cells_stops(cells, a + b) == cells_stops(cells, a) + cells_stops(cells, b),
    decreases b.len(),
{
    if b.len() == 0 {
        assert(a + b =~= a);
        assert(cells_stops(cells, a) + cells_stops(cells, b) =~= cells_stops(cells, a));
    } else {
        lemma_cells_stops_concat(cells, a, b.drop_last());
        assert((a + b).drop_last() =~= a + b.drop_last());
        assert((a + b).last() == b.last());
        assert(cells_stops(cells, a + b) =~= cells_stops(cells, a) + cells_stops(cells, b));
    }
}

/// The value of a cell locates exactly that cell's stops: in the stops of
/// the cells `order`, the `count` stops from `start` on are those of cell
/// `order[i]`, where `start` is the number of stops of the cells before it.
pub proof fn cell_val_locates_cell_stops(cells: Map<(i32, i32), Seq<u32>>, order: Seq<(i32, i32)>, i: int)
    requires
        0 <= i < order.len(),
    ensures
        ({
            let start = cells_stops(cells, order.take(i)).len();
            let count = ids_in(cells, order[i]).len();
            &&& start + count <= cells_stops(cells, order).len()
            &&& cells_stops(cells, order).subrange(start as int, (start + count) as int) == ids_in(cells, order[i])
        }),
{
    let before = order.take(i);
    let rest = order.skip(i + 1);
    assert(order =~= before.push(order[i]) + rest);
    lemma_cells_stops_concat(cells, before.push(order[i]), rest);
    assert(before.push(order[i]).drop_last() =~= before);
    let all = cells_stops(cells, order);
    let head = cells_stops(cells, before);
    let mine = ids_in(cells, order[i]);
    assert(cells_stops(cells, before.push(order[i])) == head + mine);
    assert(all == head + mine + cells_stops(cells, rest));
    assert(all.subrange(head.len() as int, (head.len() + mine.len()) as int) =~= mine);
}

/// The stops of the cells `order` hold every stop of every cell listed in
/// `order`, so with an order that lists each cell of the grid, the stop
/// array holds every stop of the grid.
pub proof fn cells_stops_hold_listed_cells(
    cells: Map<(i32, i32), Seq<u32>>,
    order: Seq<(i32, i32)>,
    c: (i32, i32),
    id: u32,
)
    requires
        order.contains(c),
        ids_in(cells, c).contains(id),
    ensures
        cells_stops(cells, order).contains(id),
{
    let i = choose|i: int| 0 <= i < order.len() && order[i] == c;
    cell_val_locates_cell_stops(cells, order, i);
    let start = cells_stops(cells, order.take(i)).len();
    let ids = ids_in(cells, c);
    let k = choose|k: int| 0 <= k < ids.len() && ids[k] == id;
    let all = cells_stops(cells, order);
    assert(all.subrange(start as int, (start + ids.len()) as int)[k] == id);
    assert(all[start + k] == id);
}

/// Constructs the arrays that the shaders read the grid from, cell by cell
/// in `grid.order()`:
///
/// keys: the `(lat_index, lon_index)` of each cell;
/// vals: where in the stop array each cell's stops begin, and how many
/// there are;
/// stops: the stops of every cell, each with its arrival time (the latest
/// time when the search did not reach it).
pub fn build_gpu_hash(grid: &GridCells, arrival_times: &HashMap<u32, u32>) -> (r: (
    Vec<GpuGridCellKey>,
    Vec<GpuGridCellVal>,
    Vec<(u32, u32)>,
))
    ensures
        grid.order().no_duplicates(),
        forall|c: (i32, i32)| #[trigger] grid.order().contains(c) <==> grid.cells().contains_key(c),
        r.0@.len() == grid.order().len(),
        r.1@.len() == grid.order().len(),
        forall|i: int|
            0 <= i < grid.order().len() ==> #[trigger] r.0@[i] == (GpuGridCellKey {
                lat_index: grid.order()[i].0,
                lon_index: grid.order()[i].1,
            }),
        forall|i: int|
            0 <= i < grid.order().len() ==> #[trigger] r.1@[i] == (GpuGridCellVal {
                start: cells_stops(grid.cells(), grid.order().take(i)).len() as u32,
                count: ids_in(grid.cells(), grid.order()[i]).len() as u32,
            }),
        r.2@ == cells_stops(grid.cells(), grid.order()).map_values(
            |id: u32| (id, arrival_or_max(arrival_times@, id)),
        ),
{
    grid.order_lists_cells();
    let ghost cells = grid.cells();
    let ghost order = grid.order();
    let ghost f = |id: u32| (id, arrival_or_max(arrival_times@, id));
    let mut keys: Vec<GpuGridCellKey> = Vec::new();
    let mut vals: Vec<GpuGridCellVal> = Vec::new();
    let mut stops: Vec<(u32, u32)> = Vec::new();
    let cell_list = &grid.inner.1;
    let n = cell_list.len();
    for i in 0..n
        invariant
            n == order.len(),
            cell_list@ == order,
            cells == grid.cells(),
            order == grid.order(),
            f == (|id: u32| (id, arrival_or_max(arrival_times@, id))),
            keys@.len() == i,
            vals@.len() == i,
            forall|k: int|
                0 <= k < i ==> #[trigger] keys@[k] == (GpuGridCellKey {
                    lat_index: order[k].0,
                    lon_index: order[k].1,
                }),
            forall|k: int|
                0 <= k < i ==> #[trigger] vals@[k] == (GpuGridCellVal {
                    start: cells_stops(cells, order.take(k)).len() as u32,
                    count: ids_in(cells, order[k]).len() as u32,
                }),
            stops@ == cells_stops(cells, order.take(i as int)).map_values(f),
    {
        let (lat_index, lon_index) = cell_list[i];
        // add key
        keys.push(GpuGridCellKey { lat_index, lon_index });
        let ghost before = stops@;
        let start = stops.len();
        let count: usize = match grid.ids_at(lat_index, lon_index) {
            Some(ids) => {
                // add stops
                let m = ids.len();
                for j in 0..m
                    invariant
                        m == ids@.len(),
                        f == (|id: u32| (id, arrival_or_max(arrival_times@, id))),
                        stops@ == before + ids@.take(j as int).map_values(f),
                {
                    let stop_id = ids[j];
                    // default to the latest arrival_time in case the stop was not reached
                    let arrival_time = match arrival_times.get(&stop_id) {
                        Some(t) => *t,
                        None => u32::MAX,
                    };
                    stops.push((stop_id, arrival_time));
                    proof {
                        assert(ids@.take(j + 1).map_values(f) =~= ids@.take(j as int).map_values(f).push(
                            f(ids@[j as int]),
                        ));
                    }
                }
                proof {
                    assert(ids@.take(m as int) =~= ids@);
                }
                m
            },
            None => 0,
        };
        // add value
        vals.push(GpuGridCellVal { start: start as u32, count: count as u32 });
        proof {
            let t1 = order.take(i as int);
            let t2 = order.take(i + 1);
            assert(t2.drop_last() =~= t1);
            assert(before.len() == cells_stops(cells, t1).len());
            assert(cells_stops(cells, t2) == cells_stops(cells, t1) + ids_in(cells, order[i as int]));
            assert(count == ids_in(cells, order[i as int]).len());
            assert(cells_stops(cells, t2).map_values(f) =~= cells_stops(cells, t1).map_values(f)
                + ids_in(cells, order[i as int]).map_values(f));
        }
    }
    proof {
        assert(order.take(n as int) =~= order);
    }
    (keys, vals, stops)
}

} // verus!
