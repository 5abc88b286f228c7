use sketchlayer::state::index_laws::IndexOp;
use std::collections::HashMap;
use sketchlayer::state::geometry::{CellRange, SpatialIndex, cell_key};
use sketchlayer::render::export::grid_cells_to_save;

fn range(min_x: i32, max_x: i32, min_y: i32, max_y: i32) -> CellRange {
    CellRange { min_x, max_x, min_y, max_y }
}

fn sorted(v: std::collections::HashSet<u64>) -> Vec<u64> {
    let mut v: Vec<u64> = v.into_iter().collect();
    v.sort();
    v
}

#[test]
fn query_finds_inserted_ids() {
    let mut index = SpatialIndex::new();
    index.insert(7, &range(0, 1, 0, 1));
    index.insert(9, &range(5, 5, 5, 5));
    assert_eq!(sorted(index.query(&range(1, 1, 1, 1))), vec![7]);
    assert_eq!(sorted(index.query(&range(0, 5, 0, 5))), vec![7, 9]);
    assert!(index.query(&range(2, 4, 2, 4)).is_empty());
}

#[test]
fn remove_forgets_id_only_in_its_cells() {
    let mut index = SpatialIndex::new();
    index.insert(1, &range(0, 2, 0, 0));
    index.insert(2, &range(2, 3, 0, 0));
    index.remove(1, &range(0, 2, 0, 0));
    assert!(index.query(&range(0, 1, 0, 0)).is_empty());
    assert_eq!(sorted(index.query(&range(2, 2, 0, 0))), vec![2]);
    assert_eq!(sorted(index.query(&range(0, 3, 0, 0))), vec![2]);
}

#[test]
fn clear_empties_index() {
    let mut index = SpatialIndex::new();
    index.insert(4, &range(-3, 3, -3, 3));
    index.clear();
    assert!(index.query(&range(-3, 3, -3, 3)).is_empty());
}

#[test]
fn negative_and_extreme_cells_are_distinct() {
    let mut index = SpatialIndex::new();
    index.insert(1, &range(-1, -1, 0, 0));
    index.insert(2, &range(0, 0, -1, -1));
    index.insert(3, &range(i32::MIN, i32::MIN, i32::MAX, i32::MAX));
    assert_eq!(sorted(index.query(&range(-1, -1, 0, 0))), vec![1]);
    assert_eq!(sorted(index.query(&range(0, 0, -1, -1))), vec![2]);
    assert_eq!(sorted(index.query(&range(i32::MIN, i32::MIN, i32::MAX, i32::MAX))), vec![3]);
    assert_ne!(cell_key(-1, 0), cell_key(0, -1));
    assert_eq!(cell_key(0, 0), 0x8000_0000);
    assert_eq!(cell_key(1, -2147483648), 0x1_0000_0000);
}

#[test]
fn empty_range_covers_nothing() {
    let mut index = SpatialIndex::new();
    index.insert(1, &range(3, 2, 0, 0));
    assert!(index.query(&range(-100, 100, -100, 100)).is_empty());
    assert!(!range(3, 2, 0, 0).contains_cell(2, 0));
    assert!(range(0, 2, 0, 0).contains_cell(2, 0));
}

#[test]
fn grid_cells_are_the_union_without_repeats() {
    let ranges = vec![range(0, 1, 0, 0), range(1, 2, 0, 0), range(5, 5, 5, 4)];
    let mut cells = grid_cells_to_save(&ranges);
    cells.sort();
    assert_eq!(cells, vec![(0, 0), (1, 0), (2, 0)]);
    assert!(grid_cells_to_save(&vec![]).is_empty());
}

#[test]
fn remove_after_insert_gives_index_back() {
    let mut index = SpatialIndex::new();
    index.insert(1, &range(0, 3, 0, 3));
    index.insert(2, &range(2, 5, 2, 5));
    let whole = range(-1, 6, -1, 6);
    let cells: Vec<(i32, i32)> = (-1..=6).flat_map(|x| (-1..=6).map(move |y| (x, y))).collect();
    let before: Vec<Vec<u64>> = cells.iter().map(|&(x, y)| sorted(index.query(&range(x, x, y, y)))).collect();
    index.insert(3, &range(1, 4, 1, 4));
    assert_eq!(sorted(index.query(&range(4, 6, 4, 6))), vec![2, 3]);
    index.remove(3, &range(1, 4, 1, 4));
    let after: Vec<Vec<u64>> = cells.iter().map(|&(x, y)| sorted(index.query(&range(x, x, y, y)))).collect();
    assert_eq!(before, after);
    assert_eq!(sorted(index.query(&whole)), vec![1, 2]);
}

#[test]
fn queries_after_operations_find_exactly_live_ids() {
    let ops = vec![
        IndexOp::Insert(1, range(0, 2, 0, 2)),
        IndexOp::Insert(2, range(2, 4, 2, 4)),
        IndexOp::Remove(1, range(0, 2, 0, 2)),
        IndexOp::Remove(1, range(0, 2, 0, 2)),
        IndexOp::Remove(7, range(-5, 5, -5, 5)),
        IndexOp::Insert(3, range(-2, 0, -2, 0)),
        IndexOp::Clear,
        IndexOp::Remove(2, range(2, 4, 2, 4)),
        IndexOp::Insert(4, range(1, 1, 1, 1)),
        IndexOp::Insert(1, range(3, 3, 3, 3)),
        IndexOp::Remove(4, range(1, 1, 1, 1)),
    ];
    let mut index = SpatialIndex::new();
    let mut live: HashMap<u64, CellRange> = HashMap::new();
    let queries = [range(0, 0, 0, 0), range(1, 1, 1, 1), range(2, 3, 2, 3), range(-5, 5, -5, 5), range(-2, -1, -2, -1)];
    for op in ops {
        match op {
            IndexOp::Insert(id, r) => {
                index.insert(id, &r);
                live.insert(id, r);
            }
            IndexOp::Remove(id, r) => {
                index.remove(id, &r);
                live.remove(&id);
            }
            IndexOp::Clear => {
                index.clear();
                live.clear();
            }
        }
        for q in queries.iter() {
            let mut expected: Vec<u64> = live
                .iter()
                .filter(|(_, r)| r.min_x.max(q.min_x) <= r.max_x.min(q.max_x) && r.min_y.max(q.min_y) <= r.max_y.min(q.max_y))
                .map(|(id, _)| *id)
                .collect();
            expected.sort();
            assert_eq!(sorted(index.query(q)), expected);
        }
    }
    assert_eq!(sorted(index.query(&range(-5, 5, -5, 5))), vec![1]);
}
