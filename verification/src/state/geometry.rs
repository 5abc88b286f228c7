use vstd::prelude::*;
use std::collections::HashMap;
use std::collections::HashSet;

verus! {

/// How the eraser tool removes ink.
#[derive(Clone, Copy, PartialEq, Eq, Debug, Structural)]
pub enum EraseMode {
    /// Whole strokes touched by the eraser are removed.
    Vector,
    /// The eraser paints over ink like a brush.
    Pixel,
}

/// An inclusive rectangle of grid cells: every cell `(x, y)` with
/// `min_x <= x <= max_x` and `min_y <= y <= max_y`.
/// The range is empty when a minimum exceeds its maximum.
#[derive(Clone, Copy, PartialEq, Eq, Debug, Structural)]
pub struct CellRange {
    pub min_x: i32,
    pub max_x: i32,
    pub min_y: i32,
    pub max_y: i32,
}

impl CellRange {
    /// The cell `c` lies in the range.
    pub open spec fn holds(self, c: (i32, i32)) -> bool {
        self.min_x <= c.0 <= self.max_x && self.min_y <= c.1 <= self.max_y
    }

    /// Whether the cell `(x, y)` lies in the range.
    pub fn contains_cell(&self, x: i32, y: i32) -> (r: bool)
        ensures
            r == self.holds((x, y)),
    {
        self.min_x <= x && x <= self.max_x && self.min_y <= y && y <= self.max_y
    }
}

/// The integer that keys cell `c` in the index: the two coordinates packed
/// into one 64-bit value, `x` in the high half and `y` (shifted to be
/// non-negative) in the low half.
pub open spec fn spec_cell_key(c: (i32, i32)) -> int {
    c.0 * 0x1_0000_0000int + c.1 + 0x8000_0000int
}

/// Distinct cells have distinct keys, and every key fits in an `i64`.
pub proof fn lemma_cell_key(c1: (i32, i32), c2: (i32, i32))
    ensures
        i64::MIN <= spec_cell_key(c1) <= i64::MAX,
        (spec_cell_key(c1) as i64) as int == spec_cell_key(c1),
        spec_cell_key(c1) == spec_cell_key(c2) ==> c1 == c2,
        (spec_cell_key(c1) as i64 == spec_cell_key(c2) as i64) == (c1 == c2),
{
}

/// Packs a cell into its index key.
pub fn cell_key(x: i32, y: i32) -> (k: i64)
    ensures
        k as int == spec_cell_key((x, y)),
{
    (x as i64) * 0x1_0000_0000i64 + ((y as i64) + 0x8000_0000i64)
}


/// The set of all cells in range `r`.
pub open spec fn range_cells(r: CellRange) -> Set<(i32, i32)> {
    Set::new(|c: (i32, i32)| r.holds(c))
}

/// The ids recorded at cell `c` of an abstract index (none if the cell is absent).
pub open spec fn ids_in(m: Map<(i32, i32), Set<u64>>, c: (i32, i32)) -> Set<u64> {
    if m.contains_key(c) {
        m[c]
    } else {
        Set::empty()
    }
}

/// The abstract index `m` after recording `id` at every cell of `cs`.
pub open spec fn add_to_cells(m: Map<(i32, i32), Set<u64>>, id: u64, cs: Set<(i32, i32)>) -> Map<
    (i32, i32),
    Set<u64>,
> {
    Map::new(
        |c: (i32, i32)| m.contains_key(c) || cs.contains(c),
        |c: (i32, i32)|
            if cs.contains(c) {
                ids_in(m, c).insert(id)
            } else {
                m[c]
            },
    )
}

/// The abstract index `m` after forgetting `id` at every cell of `cs`; a cell
/// whose set becomes empty leaves the index.
pub open spec fn remove_from_cells(
    m: Map<(i32, i32), Set<u64>>,
    id: u64,
    cs: Set<(i32, i32)>,
) -> Map<(i32, i32), Set<u64>> {
    Map::new(
        |c: (i32, i32)| m.contains_key(c) && !(cs.contains(c) && m[c].remove(id).is_empty()),
        |c: (i32, i32)|
            if cs.contains(c) {
                m[c].remove(id)
            } else {
                m[c]
            },
    )
}

/// Every id recorded at some cell of range `r`.
pub open spec fn ids_in_range(m: Map<(i32, i32), Set<u64>>, r: CellRange) -> Set<u64> {
    Set::new(|id: u64| exists|c: (i32, i32)| r.holds(c) && #[trigger] ids_in(m, c).contains(id))
}

/// Every id recorded at some cell of `cs`.
pub open spec fn ids_in_cells(m: Map<(i32, i32), Set<u64>>, cs: Set<(i32, i32)>) -> Set<u64> {
    Set::new(|id: u64| exists|c: (i32, i32)| cs.contains(c) && #[trigger] ids_in(m, c).contains(id))
}

/// No cell of the abstract index holds an empty set.
pub open spec fn no_empty_cells(m: Map<(i32, i32), Set<u64>>) -> bool {
    forall|c: (i32, i32)| #[trigger] m.contains_key(c) ==> !m[c].is_empty()
}

/// The cells among the first `n` entries of `cells`.
pub open spec fn prefix_cells(cells: Seq<(i32, i32)>, n: int) -> Set<(i32, i32)> {
    Set::new(|c: (i32, i32)| exists|j: int| 0 <= j < n && cells[j] == c)
}

proof fn lemma_prefix_cells_step(cells: Seq<(i32, i32)>, n: int)
    requires
        0 <= n < cells.len(),
    ensures
        prefix_cells(cells, n + 1) == prefix_cells(cells, n).insert(cells[n]),
{
    assert forall|c: (i32, i32)| #[trigger] prefix_cells(cells, n + 1).contains(c) implies prefix_cells(cells, n).insert(cells[n]).contains(c) by {
        let j = choose|j: int| 0 <= j < n + 1 && cells[j] == c;
        if j < n {
            assert(prefix_cells(cells, n).contains(c));
        }
    }
    assert forall|c: (i32, i32)| #[trigger] prefix_cells(cells, n).insert(cells[n]).contains(c) implies prefix_cells(cells, n + 1).contains(c) by {
        if c == cells[n] {
            assert(0 <= n < n + 1 && cells[n] == c);
        } else {
            let j = choose|j: int| 0 <= j < n && cells[j] == c;
            assert(0 <= j < n + 1 && cells[j] == c);
        }
    }
    assert(prefix_cells(cells, n + 1) =~= prefix_cells(cells, n).insert(cells[n]));
}

proof fn lemma_prefix_cells_all(cells: Seq<(i32, i32)>, r: CellRange)
    requires
        forall|c: (i32, i32)| #[trigger] cells.contains(c) <==> r.holds(c),
    ensures
        prefix_cells(cells, cells.len() as int) == range_cells(r),
{
    assert forall|c: (i32, i32)| #[trigger] prefix_cells(cells, cells.len() as int).contains(c) <==> range_cells(r).contains(c) by {
        if r.holds(c) {
            assert(cells.contains(c));
            let j = choose|j: int| 0 <= j < cells.len() && cells[j] == c;
        }
        if prefix_cells(cells, cells.len() as int).contains(c) {
            let j = choose|j: int| 0 <= j < cells.len() && cells[j] == c;
            assert(cells.contains(c));
        }
    }
    assert(prefix_cells(cells, cells.len() as int) =~= range_cells(r));
}

proof fn lemma_add_keeps_nonempty(m: Map<(i32, i32), Set<u64>>, id: u64, cs: Set<(i32, i32)>)
    ensures
        no_empty_cells(m) ==> no_empty_cells(add_to_cells(m, id, cs)),
{
    let m2 = add_to_cells(m, id, cs);
    if no_empty_cells(m) {
        assert forall|c: (i32, i32)| #[trigger] m2.contains_key(c) implies !m2[c].is_empty() by {
            if cs.contains(c) {
                assert(m2[c].contains(id));
            } else {
                assert(m.contains_key(c));
            }
        }
    }
}

/// Cell `a` comes before cell `b` column by column: by column, then by row.
pub open spec fn cell_before(a: (i32, i32), b: (i32, i32)) -> bool {
    a.0 < b.0 || (a.0 == b.0 && a.1 < b.1)
}

/// Lists every cell of `range`, column by column, each once.
pub(crate) fn get_cells(range: &CellRange) -> (cells: Vec<(i32, i32)>)
    ensures
        forall|c: (i32, i32)| #[trigger] cells@.contains(c) <==> range.holds(c),
        forall|i: int, j: int| 0 <= i < j < cells@.len() ==> cell_before(#[trigger] cells@[i], #[trigger] cells@[j]),
        cells@.no_duplicates(),
{
    let mut cells: Vec<(i32, i32)> = Vec::new();
    let mut x: i64 = range.min_x as i64;
    let max_x: i64 = range.max_x as i64;
    let max_y: i64 = range.max_y as i64;
    while x <= max_x
        invariant
            range.min_x <= x,
            x <= max_x + 1 || x == range.min_x,
            max_x == range.max_x,
            max_y == range.max_y,
            forall|c: (i32, i32)|
                #[trigger] cells@.contains(c) <==> (range.min_x <= c.0 < x && range.min_y <= c.1
                    <= range.max_y),
            forall|i: int, j: int| 0 <= i < j < cells@.len() ==> cell_before(#[trigger] cells@[i], #[trigger] cells@[j]),
        decreases max_x + 1 - x,
    {
        let mut y: i64 = range.min_y as i64;
        while y <= max_y
            invariant
                range.min_x <= x <= max_x,
                range.min_y <= y,
                y <= max_y + 1 || y == range.min_y,
                max_x == range.max_x,
                max_y == range.max_y,
                forall|c: (i32, i32)|
                    #[trigger] cells@.contains(c) <==> ((range.min_x <= c.0 < x && range.min_y
                        <= c.1 <= range.max_y) || (c.0 == x && range.min_y <= c.1 < y)),
                forall|i: int, j: int| 0 <= i < j < cells@.len() ==> cell_before(#[trigger] cells@[i], #[trigger] cells@[j]),
            decreases max_y + 1 - y,
        {
            let ghost before = cells@;
            cells.push((x as i32, y as i32));
            assert forall|i: int, j: int| 0 <= i < j < cells@.len() implies cell_before(#[trigger] cells@[i], #[trigger] cells@[j]) by {
                if j == before.len() {
                    assert(before.contains(before[i]));
                } else {
                    assert(cells@[i] == before[i] && cells@[j] == before[j]);
                }
            }
            assert forall|c: (i32, i32)|
                #[trigger] cells@.contains(c) <==> ((range.min_x <= c.0 < x && range.min_y <= c.1
                    <= range.max_y) || (c.0 == x && range.min_y <= c.1 < y + 1)) by {
                if cells@.contains(c) {
                    let j = choose|j: int| 0 <= j < cells@.len() && cells@[j] == c;
                    if j < before.len() {
                        assert(before.contains(c));
                    }
                }
                if c.0 == x && c.1 == y {
                    assert(cells@[before.len() as int] == c);
                } else if before.contains(c) {
                    let j = choose|j: int| 0 <= j < before.len() && before[j] == c;
                    assert(cells@[j] == c);
                }
            }
            y = y + 1;
        }
        x = x + 1;
    }
    assert forall|i: int, j: int| 0 <= i < cells@.len() && 0 <= j < cells@.len() && i != j implies cells@[i] != cells@[j] by {
        if i < j {
            assert(cell_before(cells@[i], cells@[j]));
        } else {
            assert(cell_before(cells@[j], cells@[i]));
        }
    }
    cells
}

/// A uniform-grid index: for each grid cell, the ids of the strokes whose
/// bounding boxes reach into it. Cells that hold no id are absent.
pub struct SpatialIndex {
    cells: HashMap<i64, HashSet<u64>>,
}

impl View for SpatialIndex {
    type V = Map<(i32, i32), Set<u64>>;

    closed spec fn view(&self) -> Map<(i32, i32), Set<u64>> {
        view_of(self.cells@)
    }
}

/// Reads a key-packed cell table as a map from cells to id sets.
spec fn view_of(raw: Map<i64, HashSet<u64>>) -> Map<(i32, i32), Set<u64>> {
    Map::new(
        |c: (i32, i32)| raw.contains_key(spec_cell_key(c) as i64),
        |c: (i32, i32)| raw[spec_cell_key(c) as i64]@,
    )
}

proof fn lemma_view_insert(raw: Map<i64, HashSet<u64>>, c0: (i32, i32), v: HashSet<u64>)
    ensures
        view_of(raw.insert(spec_cell_key(c0) as i64, v)) == view_of(raw).insert(c0, v@),
{
    let key = spec_cell_key(c0) as i64;
    assert forall|c: (i32, i32)| true implies (#[trigger] view_of(raw.insert(key, v)).contains_key(c)
        == view_of(raw).insert(c0, v@).contains_key(c)) && (view_of(raw.insert(key, v)).contains_key(c)
        ==> view_of(raw.insert(key, v))[c] == view_of(raw).insert(c0, v@)[c]) by {
        lemma_cell_key(c, c0);
    }
    assert(view_of(raw.insert(key, v)) =~= view_of(raw).insert(c0, v@));
}

proof fn lemma_view_remove(raw: Map<i64, HashSet<u64>>, c0: (i32, i32))
    ensures
        view_of(raw.remove(spec_cell_key(c0) as i64)) == view_of(raw).remove(c0),
        view_of(raw).contains_key(c0) == raw.contains_key(spec_cell_key(c0) as i64),
        raw.contains_key(spec_cell_key(c0) as i64) ==> view_of(raw)[c0] == raw[spec_cell_key(c0) as i64]@,
{
    let key = spec_cell_key(c0) as i64;
    assert forall|c: (i32, i32)| true implies (#[trigger] view_of(raw.remove(key)).contains_key(c)
        == view_of(raw).remove(c0).contains_key(c)) && (view_of(raw.remove(key)).contains_key(c)
        ==> view_of(raw.remove(key))[c] == view_of(raw).remove(c0)[c]) by {
        lemma_cell_key(c, c0);
    }
    assert(view_of(raw.remove(key)) =~= view_of(raw).remove(c0));
}

proof fn lemma_add_step(m0: Map<(i32, i32), Set<u64>>, id: u64, p: Set<(i32, i32)>, c0: (i32, i32))
    ensures
        add_to_cells(m0, id, p).insert(c0, ids_in(add_to_cells(m0, id, p), c0).insert(id))
            == add_to_cells(m0, id, p.insert(c0)),
{
    let before = add_to_cells(m0, id, p);
    assert(ids_in(before, c0).insert(id) =~= ids_in(m0, c0).insert(id));
    assert(before.insert(c0, ids_in(before, c0).insert(id)) =~= add_to_cells(m0, id, p.insert(c0)));
}

proof fn lemma_remove_step(m0: Map<(i32, i32), Set<u64>>, id: u64, p: Set<(i32, i32)>, c0: (i32, i32))
    ensures
        ({
            let before = remove_from_cells(m0, id, p);
            let after = if before.contains_key(c0) && !before[c0].remove(id).is_empty() {
                before.insert(c0, before[c0].remove(id))
            } else {
                before.remove(c0)
            };
            after == remove_from_cells(m0, id, p.insert(c0))
        }),
{
    let before = remove_from_cells(m0, id, p);
    if before.contains_key(c0) {
        assert(m0.contains_key(c0));
        assert(before[c0].remove(id) =~= m0[c0].remove(id));
    }
    let after = if before.contains_key(c0) && !before[c0].remove(id).is_empty() {
        before.insert(c0, before[c0].remove(id))
    } else {
        before.remove(c0)
    };
    assert(after =~= remove_from_cells(m0, id, p.insert(c0)));
}

impl SpatialIndex {
    /// An index with no cells.
    pub fn new() -> (s: Self)
        ensures
            s@ == Map::<(i32, i32), Set<u64>>::empty(),
            no_empty_cells(s@),
    {
        let s = SpatialIndex { cells: HashMap::new() };
        assert(s@ =~= Map::<(i32, i32), Set<u64>>::empty());
        s
    }

    /// Records `id` at every cell of `range`.
    pub fn insert(&mut self, id: u64, range: &CellRange)
        ensures
            final(self)@ == add_to_cells(old(self)@, id, range_cells(*range)),
            no_empty_cells(old(self)@) ==> no_empty_cells(final(self)@),
    {
        proof {
            lemma_add_keeps_nonempty(self@, id, range_cells(*range));
        }
        let cells = get_cells(range);
        let ghost m0 = self@;
        let mut i: usize = 0;
        assert(prefix_cells(cells@, 0) =~= Set::empty());
        assert(self@ =~= add_to_cells(m0, id, Set::empty()));
        while i < cells.len()
            invariant
                0 <= i <= cells@.len(),
                self@ == add_to_cells(m0, id, prefix_cells(cells@, i as int)),
            decreases cells@.len() - i,
        {
            let (x, y) = cells[i];
            let key = cell_key(x, y);
            let ghost raw0 = self.cells@;
            let ghost c0 = (x, y);
            proof {
                lemma_cell_key(c0, c0);
                assert(spec_cell_key(c0) as i64 == key);
                lemma_view_remove(raw0, c0);
            }
            let set = match self.cells.remove(&key) {
                Some(mut set) => {
                    set.insert(id);
                    set
                },
                None => {
                    let mut set: HashSet<u64> = HashSet::new();
                    set.insert(id);
                    set
                },
            };
            self.cells.insert(key, set);
            proof {
                lemma_prefix_cells_step(cells@, i as int);
                assert(self.cells@ == raw0.insert(key, set));
                lemma_view_insert(raw0, c0, set);
                assert(set@ =~= ids_in(view_of(raw0), c0).insert(id));
                lemma_add_step(m0, id, prefix_cells(cells@, i as int), c0);
            }
            i = i + 1;
        }
        proof {
            lemma_prefix_cells_all(cells@, *range);
        }
    }

    /// Forgets `id` at every cell of `range`, dropping cells left empty.
    pub fn remove(&mut self, id: u64, range: &CellRange)
        ensures
            final(self)@ == remove_from_cells(old(self)@, id, range_cells(*range)),
            no_empty_cells(old(self)@) ==> no_empty_cells(final(self)@),
    {
        let cells = get_cells(range);
        let ghost m0 = self@;
        let mut i: usize = 0;
        assert(prefix_cells(cells@, 0) =~= Set::empty());
        assert(self@ =~= remove_from_cells(m0, id, Set::empty()));
        while i < cells.len()
            invariant
                0 <= i <= cells@.len(),
                self@ == remove_from_cells(m0, id, prefix_cells(cells@, i as int)),
            decreases cells@.len() - i,
        {
            let (x, y) = cells[i];
            let key = cell_key(x, y);
            let ghost raw0 = self.cells@;
            let ghost c0 = (x, y);
            proof {
                lemma_cell_key(c0, c0);
                assert(spec_cell_key(c0) as i64 == key);
                lemma_view_remove(raw0, c0);
                lemma_prefix_cells_step(cells@, i as int);
                lemma_remove_step(m0, id, prefix_cells(cells@, i as int), c0);
            }
            match self.cells.remove(&key) {
                Some(mut set) => {
                    set.remove(&id);
                    if !set.is_empty() {
                        self.cells.insert(key, set);
                        proof {
                            lemma_view_insert(raw0.remove(key), c0, set);
                            assert(raw0.remove(key).insert(key, set) == raw0.insert(key, set));
                            lemma_view_insert(raw0, c0, set);
                        }
                    }
                },
                None => {},
            }
            i = i + 1;
        }
        proof {
            lemma_prefix_cells_all(cells@, *range);
        }
    }

    /// The ids recorded at any cell of `range`.
    pub fn query(&self, range: &CellRange) -> (result: HashSet<u64>)
        ensures
            result@ == ids_in_range(self@, *range),
    {
        let cells = get_cells(range);
        let mut result: HashSet<u64> = HashSet::new();
        let mut i: usize = 0;
        assert(prefix_cells(cells@, 0) =~= Set::empty());
        assert(result@ =~= ids_in_cells(self@, Set::empty()));
        while i < cells.len()
            invariant
                0 <= i <= cells@.len(),
                result@ == ids_in_cells(self@, prefix_cells(cells@, i as int)),
            decreases cells@.len() - i,
        {
            let (x, y) = cells[i];
            let key = cell_key(x, y);
            let ghost c0 = (x, y);
            let ghost before = result@;
            proof {
                lemma_cell_key(c0, c0);
                assert(spec_cell_key(c0) as i64 == key);
                lemma_view_remove(self.cells@, c0);
                lemma_prefix_cells_step(cells@, i as int);
            }
            match self.cells.get(&key) {
                Some(set) => {
                    assert(ids_in(self@, c0) == set@);
                    for id in it: set.iter()
                        invariant
                            it.seq().unref().to_set() == set@,
                            result@ == before + Set::new(|v: u64| exists|j: int| 0 <= j < it.index() && *it.seq()[j] == v),
                            it.index() == it.seq().len() ==> result@ == before + set@,
                    {
                        let ghost r0 = result@;
                        result.insert(*id);
                        assert(result@ =~= before + Set::new(|v: u64| exists|j: int| 0 <= j < it.index() + 1 && *it.seq()[j] == v)) by {
                            assert(*it.seq()[it.index()] == *id);
                        }
                        assert forall|v: u64| it.index() + 1 == it.seq().len() && #[trigger] set@.contains(v) implies result@.contains(v) by {
                            assert(it.seq().unref().to_set().contains(v));
                            let j = choose|j: int| 0 <= j < it.seq().unref().len() && it.seq().unref()[j] == v;
                            assert(*it.seq()[j] == v);
                        }
                        assert forall|v: u64| #[trigger] result@.contains(v) && !before.contains(v) implies set@.contains(v) by {
                            let j = choose|j: int| 0 <= j < it.index() + 1 && *it.seq()[j] == v;
                            assert(it.seq().unref()[j] == v);
                            assert(it.seq().unref().contains(v));
                        }
                        assert(it.index() + 1 == it.seq().len() ==> result@ =~= before + set@);
                    }
                    assert(result@ =~= before + set@);
                    assert(result@ =~= ids_in_cells(self@, prefix_cells(cells@, i + 1)));
                },
                None => {
                    assert(ids_in(self@, c0) == Set::<u64>::empty());
                    assert(result@ =~= ids_in_cells(self@, prefix_cells(cells@, i + 1)));
                },
            }
            i = i + 1;
        }
        proof {
            lemma_prefix_cells_all(cells@, *range);
            assert(result@ =~= ids_in_range(self@, *range));
        }
        result
    }

    /// Forgets every cell.
    pub fn clear(&mut self)
        ensures
            final(self)@ == Map::<(i32, i32), Set<u64>>::empty(),
            no_empty_cells(final(self)@),
    {
        self.cells.clear();
        assert(self@ =~= Map::<(i32, i32), Set<u64>>::empty());
    }
}

} // verus!
