//! The containers that the searches and indexes are built on.
use everly::flood::TileSet;
use everly::heap::{MinHeap, OpenNode};
use everly::table::Table;

fn node(rank: u128, steps: usize, x: i32, y: i32) -> OpenNode {
    OpenNode { rank, steps, x, y }
}

#[test]
fn the_heap_hands_out_the_first_node() {
    let mut heap = MinHeap::new();
    for n in [node(5, 0, 0, 0), node(1, 9, 0, 0), node(1, 2, 7, 0), node(1, 2, 3, 4), node(9, 0, 0, 0)] {
        heap.push(n);
    }
    let mut order: Vec<(u128, usize, i32)> = vec![];
    while let Some(n) = heap.pop() {
        order.push((n.rank, n.steps, n.x));
    }
    assert_eq!(order, vec![(1, 2, 3), (1, 2, 7), (1, 9, 0), (5, 0, 0), (9, 0, 0)]);
    assert!(heap.pop().is_none());
}

#[test]
fn a_table_keeps_the_order_of_its_keys() {
    let mut table: Table<u64, &str> = Table::new();
    *table.slot(7, "blank") = "seven";
    table.slot(3, "three");
    *table.slot(7, "other") = "sieben";
    assert_eq!(table.keys(), &vec![7, 3]);
    assert_eq!(table.get(7), Some(&"sieben"));
    assert_eq!(table.get(3), Some(&"three"));
    assert_eq!(table.remove(7), Some("sieben"));
    assert_eq!(table.remove(7), None);
    assert!(!table.contains(7));
    assert_eq!(table.keys(), &vec![3]);
}

#[test]
fn a_tile_set_tells_tiles_apart() {
    let mut set = TileSet::new();
    set.insert((-1, 0));
    assert!(set.contains((-1, 0)));
    assert!(!set.contains((0, -1)));
    assert!(!set.contains((i32::MAX, 0)));
}
