use vstd::prelude::*;
use std::collections::HashSet;
use crate::state::geometry::{CellRange, cell_key, get_cells, spec_cell_key, lemma_cell_key};

verus! {

/// Some range of `ranges` holds cell `c`.
pub open spec fn in_some_range(ranges: Seq<CellRange>, c: (i32, i32)) -> bool {
    exists|i: int| 0 <= i < ranges.len() && #[trigger] ranges[i].holds(c)
}

/// The grid cells that hold any ink, each once: every cell of every stroke's
/// (padded) cell range. Each such cell is saved as a file of its own.
pub fn grid_cells_to_save(ranges: &Vec<CellRange>) -> (cells: Vec<(i32, i32)>)
    ensures
        cells@.no_duplicates(),
        forall|c: (i32, i32)| #[trigger] cells@.contains(c) <==> in_some_range(ranges@, c),
{
    let mut seen: HashSet<i64> = HashSet::new();
    let mut out: Vec<(i32, i32)> = Vec::new();
    let mut i: usize = 0;
    while i < ranges.len()
        invariant
            0 <= i <= ranges@.len(),
            out@.no_duplicates(),
            forall|c: (i32, i32)| #[trigger] out@.contains(c) <==> in_some_range(ranges@.take(i as int), c),
            forall|c: (i32, i32)| #[trigger] out@.contains(c) <==> seen@.contains(spec_cell_key(c) as i64),
        decreases ranges@.len() - i,
    {
        let cs = get_cells(&ranges[i]);
        let mut j: usize = 0;
        while j < cs.len()
            invariant
                0 <= i < ranges@.len(),
                0 <= j <= cs@.len(),
                forall|c: (i32, i32)| #[trigger] cs@.contains(c) <==> ranges@[i as int].holds(c),
                out@.no_duplicates(),
                forall|c: (i32, i32)| #[trigger] out@.contains(c) <==> (in_some_range(ranges@.take(i as int), c)
                    || exists|m: int| 0 <= m < j && cs@[m] == c),
                forall|c: (i32, i32)| #[trigger] out@.contains(c) <==> seen@.contains(spec_cell_key(c) as i64),
            decreases cs@.len() - j,
        {
            let (x, y) = cs[j];
            let key = cell_key(x, y);
            let ghost c0 = (x, y);
            proof {
                lemma_cell_key(c0, c0);
                assert(spec_cell_key(c0) as i64 == key);
            }
            let ghost before = out@;
            if !seen.contains(&key) {
                seen.insert(key);
                out.push((x, y));
                proof {
                    assert(!before.contains(c0)) by {
                        if before.contains(c0) {
                            assert(seen@.contains(key));
                        }
                    }
                    assert forall|a: int, b: int| 0 <= a < b < out@.len() implies out@[a] != out@[b] by {
                        if b == out@.len() - 1 {
                            assert(before[a] == out@[a]);
                            assert(before.contains(out@[a]));
                        }
                    }
                    assert forall|c: (i32, i32)| #[trigger] out@.contains(c) <==> seen@.contains(spec_cell_key(c) as i64) by {
                        lemma_cell_key(c, c0);
                        if out@.contains(c) && c != c0 {
                            let m = choose|m: int| 0 <= m < out@.len() && out@[m] == c;
                            assert(before[m] == c);
                            assert(before.contains(c));
                        }
                        if before.contains(c) {
                            let m = choose|m: int| 0 <= m < before.len() && before[m] == c;
                            assert(out@[m] == c);
                        }
                        if c == c0 {
                            assert(out@[out@.len() - 1] == c0);
                        }
                    }
                }
            } else {
                proof {
                    assert(out@.contains(c0));
                }
            }
            proof {
                assert forall|c: (i32, i32)| #[trigger] out@.contains(c) <==> (in_some_range(ranges@.take(i as int), c)
                    || exists|m: int| 0 <= m < j + 1 && cs@[m] == c) by {
                    if out@.contains(c) && !before.contains(c) {
                        assert(c == c0);
                        assert(cs@[j as int] == c);
                    }
                    if before.contains(c) {
                        let m = choose|m: int| 0 <= m < before.len() && before[m] == c;
                        assert(out@[m] == c);
                    }
                    if exists|m: int| 0 <= m < j + 1 && cs@[m] == c {
                        let m = choose|m: int| 0 <= m < j + 1 && cs@[m] == c;
                        if m == j {
                            assert(c == c0);
                            if !before.contains(c) {
                                assert(out@[out@.len() - 1] == c);
                            }
                        }
                    }
                }
            }
            j = j + 1;
        }
        proof {
            assert forall|c: (i32, i32)| #[trigger] out@.contains(c) <==> in_some_range(ranges@.take(i + 1), c) by {
                if in_some_range(ranges@.take(i + 1), c) {
                    let r = choose|r: int| 0 <= r < ranges@.take(i + 1).len() && #[trigger] ranges@.take(i + 1)[r].holds(c);
                    if r < i {
                        assert(ranges@.take(i as int)[r].holds(c));
                    } else {
                        assert(cs@.contains(c));
                        let m = choose|m: int| 0 <= m < cs@.len() && cs@[m] == c;
                    }
                }
                if in_some_range(ranges@.take(i as int), c) {
                    let r = choose|r: int| 0 <= r < ranges@.take(i as int).len() && #[trigger] ranges@.take(i as int)[r].holds(c);
                    assert(ranges@.take(i + 1)[r].holds(c));
                }
                if exists|m: int| 0 <= m < cs@.len() && cs@[m] == c {
                    let m = choose|m: int| 0 <= m < cs@.len() && cs@[m] == c;
                    assert(cs@.contains(c));
                    assert(ranges@.take(i + 1)[i as int].holds(c));
                }
            }
        }
        i = i + 1;
    }
    proof {
        assert(ranges@.take(ranges@.len() as int) =~= ranges@);
    }
    out
}

} // verus!
