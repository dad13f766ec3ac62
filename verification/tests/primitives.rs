use cearaafis::primitives::block_grid::BlockGrid;
use cearaafis::primitives::block_map::BlockMap;
use cearaafis::primitives::bool_matrix::BooleanMatrix;
use cearaafis::primitives::circular_array::CircularArray;
use cearaafis::primitives::circular_list::CircularList;
use cearaafis::primitives::histogram_cube::HistogramCube;
use cearaafis::primitives::int_matrix::IntMatrix;
use cearaafis::primitives::int_point::IntPoint;
use cearaafis::primitives::int_range::IntRange;
use cearaafis::primitives::int_rect::IntRect;
use cearaafis::primitives::integers::Integers;
use cearaafis::primitives::priority_queue::PriorityQueue;
use cearaafis::primitives::reversed_list::ReversedList;
use cearaafis::primitives::short_point::ShortPoint;

// ---- BlockGrid ----

#[test]
fn block_grid_test_new() {
    let grid = BlockGrid::new(&IntPoint::new(5, 3));
    assert_eq!(grid.blocks.x(), 5);
    assert_eq!(grid.blocks.y(), 3);
    assert_eq!(grid.corners.x(), 6);
    assert_eq!(grid.corners.y(), 4);
}

#[test]
fn test_from_width_height() {
    let grid = BlockGrid::from_width_height(10, 5);
    assert_eq!(grid.blocks.x(), 10);
    assert_eq!(grid.blocks.y(), 5);
}

#[test]
fn test_corner() {
    let mut grid = BlockGrid::new(&IntPoint::new(1, 1));
    grid.x[0] = 0;
    grid.x[1] = 100;
    grid.y[0] = 0;
    grid.y[1] = 200;
    assert_eq!(grid.corner(0, 0), IntPoint::new(0, 0));
    assert_eq!(grid.corner(1, 1), IntPoint::new(100, 200));
}

#[test]
fn test_block() {
    let mut grid = BlockGrid::new(&IntPoint::new(1, 1));
    grid.x[0] = 0;
    grid.x[1] = 100;
    grid.y[0] = 0;
    grid.y[1] = 100;
    let block = grid.block(0, 0);
    assert_eq!(block.left(), 0);
    assert_eq!(block.top(), 0);
    assert_eq!(block.width(), 100);
    assert_eq!(block.height(), 100);
}

// ---- BlockMap ----

#[test]
fn block_map_test_new() {
    let bm = BlockMap::new(100, 100, 15);
    assert_eq!(bm.pixels.x(), 100);
    assert_eq!(bm.pixels.y(), 100);
    assert_eq!(bm.primary_blocks().x(), 7);
    assert_eq!(bm.primary_blocks().y(), 7);
}

#[test]
fn test_pixels() {
    let bm = BlockMap::new(50, 30, 10);
    assert_eq!(bm.pixels.x(), 50);
    assert_eq!(bm.pixels.y(), 30);
}

#[test]
fn block_map_primary_lines_split_evenly() {
    let bm = BlockMap::new(100, 100, 15);
    assert_eq!(bm.primary.x, vec![0, 14, 28, 42, 57, 71, 85, 100]);
    let block = bm.primary_block(6, 6);
    assert_eq!(block, IntRect::new(85, 85, 15, 15));
}

// ---- BooleanMatrix ----

#[test]
fn bool_matrix_test_new() {
    let m = BooleanMatrix::new(3, 4);
    assert_eq!(m.width(), 3);
    assert_eq!(m.height(), 4);
}

#[test]
fn bool_matrix_test_set_get() {
    let mut m = BooleanMatrix::new(3, 3);
    m.set(1, 2, true);
    assert!(m.get(1, 2));
    assert!(!m.get(0, 0));
}

#[test]
fn test_invert() {
    let mut m = BooleanMatrix::new(2, 2);
    m.set(0, 0, true);
    m.set(1, 0, false);
    m.invert();
    assert!(!m.get(0, 0));
    assert!(m.get(1, 0));
}

#[test]
fn test_merge() {
    let mut m1 = BooleanMatrix::new(2, 2);
    m1.set(0, 0, true);
    let mut m2 = BooleanMatrix::new(2, 2);
    m2.set(1, 0, true);
    m1.merge(&m2);
    assert!(m1.get(0, 0));
    assert!(m1.get(1, 0));
}

#[test]
fn bool_matrix_fallback_outside() {
    let mut m = BooleanMatrix::new(2, 2);
    m.set(1, 1, true);
    assert!(m.get_with_fallback(1, 1, false));
    assert!(m.get_with_fallback(-1, 0, true));
    assert!(!m.get_with_fallback(2, 0, false));
}

#[test]
fn bool_matrix_invert_twice_restores() {
    let mut m = BooleanMatrix::new(3, 2);
    m.set(2, 1, true);
    m.invert();
    m.invert();
    assert!(m.get(2, 1));
    assert!(!m.get(0, 0));
}

// ---- CircularArray ----

#[test]
fn circular_array_test_new() {
    let arr = CircularArray::<i32>::new(10);
    assert_eq!(arr.size(), 0);
    assert!(arr.is_empty());
    assert!(!arr.is_full());
}

#[test]
fn circular_array_test_set_get() {
    let mut arr = CircularArray::<i32>::new(10);
    arr.set(0, 5);
    arr.set(1, 10);
    arr.len = 2;
    assert_eq!(*arr.get(0), 5);
    assert_eq!(*arr.get(1), 10);
}

#[test]
fn circular_array_test_insert() {
    let mut arr = CircularArray::<i32>::new(4);
    arr.set(0, 1);
    arr.len = 1;
    arr.insert(0, 2);
    assert_eq!(arr.size(), 3);
}

#[test]
fn circular_array_insert_opens_default_slots() {
    let mut arr = CircularArray::<i32>::new(2);
    arr.set(0, 7);
    arr.set(1, 9);
    arr.len = 2;
    arr.insert(1, 3);
    assert_eq!(arr.size(), 5);
    let items: Vec<i32> = (0..5).map(|i| *arr.get(i)).collect();
    assert_eq!(items, vec![7, 0, 0, 0, 9]);
}

#[test]
fn circular_array_test_remove() {
    let mut arr = CircularArray::<i32>::new(4);
    arr.set(0, 1);
    arr.len = 1;
    arr.remove(0, 1);
    assert_eq!(arr.size(), 0);
    assert!(arr.is_empty());
}

#[test]
fn circular_array_insert_grows_and_keeps_order() {
    let mut arr = CircularArray::<i32>::new(2);
    arr.insert(0, 2);
    arr.set(0, 1);
    arr.set(1, 3);
    arr.insert(1, 1);
    arr.set(1, 2);
    assert_eq!(arr.size(), 3);
    assert_eq!(*arr.get(0), 1);
    assert_eq!(*arr.get(1), 2);
    assert_eq!(*arr.get(2), 3);
    arr.remove(0, 2);
    assert_eq!(arr.size(), 1);
    assert_eq!(*arr.get(0), 3);
}

// ---- CircularList ----

#[test]
fn circular_list_test_new() {
    let list = CircularList::<i32>::new();
    assert!(list.is_empty());
    assert_eq!(list.len(), 0);
}

#[test]
fn circular_list_test_add() {
    let mut list = CircularList::<i32>::new();
    list.add(1);
    list.add(2);
    list.add(3);
    assert_eq!(list.len(), 3);
    assert_eq!(*list.get(0), 1);
    assert_eq!(*list.get(1), 2);
    assert_eq!(*list.get(2), 3);
}

#[test]
fn circular_list_test_get() {
    let mut list = CircularList::<i32>::new();
    list.add(42);
    assert_eq!(*list.get(0), 42);
}

#[test]
fn circular_list_test_set() {
    let mut list = CircularList::<i32>::new();
    list.add(1);
    list.set(0, 2);
    assert_eq!(*list.get(0), 2);
}

#[test]
fn circular_list_test_insert() {
    let mut list = CircularList::<i32>::new();
    list.add(1);
    list.add(3);
    list.insert(1, 2);
    assert_eq!(list.len(), 3);
    assert_eq!(*list.get(0), 1);
    assert_eq!(*list.get(1), 2);
    assert_eq!(*list.get(2), 3);
}

#[test]
fn circular_list_test_remove_at() {
    let mut list = CircularList::<i32>::new();
    list.add(1);
    list.add(2);
    list.add(3);
    list.remove_at(1);
    assert_eq!(list.len(), 2);
    assert_eq!(*list.get(0), 1);
    assert_eq!(*list.get(1), 3);
}

#[test]
fn circular_list_test_remove() {
    let mut list = CircularList::<i32>::new();
    list.add(1);
    list.add(2);
    list.add(3);
    assert!(list.remove(&2));
    assert_eq!(list.len(), 2);
    assert!(!list.remove(&2));
}

#[test]
fn circular_list_test_clear() {
    let mut list = CircularList::<i32>::new();
    list.add(1);
    list.add(2);
    list.clear();
    assert!(list.is_empty());
}

#[test]
fn circular_list_test_contains() {
    let mut list = CircularList::<i32>::new();
    list.add(1);
    assert!(list.contains(&1));
    assert!(!list.contains(&2));
}

#[test]
fn circular_list_test_index_of() {
    let mut list = CircularList::<i32>::new();
    list.add(1);
    list.add(2);
    list.add(3);
    assert_eq!(list.index_of(&2), Some(1));
    assert_eq!(list.index_of(&5), None);
}

#[test]
fn circular_list_deque_ends() {
    let mut list = CircularList::<i32>::new();
    list.push_back(2);
    list.push_front(1);
    list.push_back(3);
    assert_eq!(list.pop_front(), Some(1));
    assert_eq!(list.pop_back(), Some(3));
    assert_eq!(list.pop_back(), Some(2));
    assert_eq!(list.pop_front(), None);
}

#[test]
fn circular_list_insert_then_remove_at_restores() {
    let mut list = CircularList::<i32>::new();
    for i in 0..20 {
        list.add(i);
    }
    list.insert(7, 100);
    assert_eq!(*list.get(7), 100);
    list.remove_at(7);
    assert_eq!(list.len(), 20);
    for i in 0..20 {
        assert_eq!(*list.get(i), i as i32);
    }
}

// ---- HistogramCube ----

#[test]
fn histogram_cube_test_new() {
    let c = HistogramCube::new(3, 4, 10);
    assert_eq!(c.width, 3);
    assert_eq!(c.height, 4);
    assert_eq!(c.bins, 10);
}

#[test]
fn histogram_cube_test_set_get() {
    let mut c = HistogramCube::new(3, 4, 10);
    c.set(1, 2, 5, 42);
    assert_eq!(c.get(1, 2, 5), 42);
}

#[test]
fn histogram_cube_test_add() {
    let mut c = HistogramCube::new(3, 4, 10);
    c.add(1, 2, 5, 10);
    c.add(1, 2, 5, 5);
    assert_eq!(c.get(1, 2, 5), 15);
}

#[test]
fn test_increment() {
    let mut c = HistogramCube::new(3, 4, 10);
    c.increment(1, 2, 5);
    assert_eq!(c.get(1, 2, 5), 1);
}

#[test]
fn test_constrain_z() {
    let c = HistogramCube::new(3, 4, 10);
    assert_eq!(c.constrain_z(-5), 0);
    assert_eq!(c.constrain_z(0), 0);
    assert_eq!(c.constrain_z(5), 5);
    assert_eq!(c.constrain_z(100), 9);
}

#[test]
fn test_constrain_alias() {
    let c = HistogramCube::new(3, 4, 10);
    assert_eq!(c.constrain(-5), 0);
    assert_eq!(c.constrain(100), 9);
}

#[test]
fn histogram_cube_sum_over_bins() {
    let mut c = HistogramCube::new(2, 2, 4);
    c.add(1, 0, 0, 3);
    c.add(1, 0, 3, 4);
    c.increment(0, 1, 2);
    assert_eq!(c.sum(1, 0), 7);
    assert_eq!(c.sum(0, 1), 1);
    assert_eq!(c.sum(0, 0), 0);
}

// ---- IntMatrix ----

#[test]
fn int_matrix_test_new() {
    let m = IntMatrix::new(3, 4);
    assert_eq!(m.width(), 3);
    assert_eq!(m.height(), 4);
}

#[test]
fn int_matrix_test_set_get() {
    let mut m = IntMatrix::new(3, 3);
    m.set(1, 2, 42);
    assert_eq!(m.get(1, 2), 42);
}

#[test]
fn int_matrix_test_size() {
    let m = IntMatrix::new(5, 10);
    assert_eq!(m.size().x(), 5);
    assert_eq!(m.size().y(), 10);
}

// ---- IntPoint ----

#[test]
fn int_point_test_new() {
    let p = IntPoint::new(5, 10);
    assert_eq!(p.x(), 5);
    assert_eq!(p.y(), 10);
}

#[test]
fn int_point_test_zero() {
    assert_eq!(IntPoint::zero().x(), 0);
    assert_eq!(IntPoint::zero().y(), 0);
}

#[test]
fn test_area() {
    assert_eq!(IntPoint::new(3, 4).area(), 12);
    assert_eq!(IntPoint::new(0, 5).area(), 0);
}

#[test]
fn int_point_test_length_sq() {
    assert_eq!(IntPoint::new(3, 4).length_sq(), 25);
}

#[test]
fn int_point_test_add() {
    assert_eq!(IntPoint::new(1, 2) + IntPoint::new(3, 4), IntPoint::new(4, 6));
}

#[test]
fn int_point_test_sub() {
    assert_eq!(IntPoint::new(5, 3) - IntPoint::new(2, 1), IntPoint::new(3, 2));
}

#[test]
fn int_point_test_neg() {
    assert_eq!(-IntPoint::new(1, -2), IntPoint::new(-1, 2));
}

#[test]
fn int_point_test_eq() {
    assert_eq!(IntPoint::new(1, 2), IntPoint::new(1, 2));
    assert_ne!(IntPoint::new(1, 2), IntPoint::new(2, 1));
}

#[test]
fn test_to_short() {
    let p = IntPoint::new(100, 200);
    let sp = p.to_short();
    assert_eq!(sp.x, 100);
    assert_eq!(sp.y, 200);
}

#[test]
fn int_point_test_contains() {
    let p = IntPoint::new(5, 5);
    assert!(p.contains(&IntPoint::new(0, 0)));
    assert!(p.contains(&IntPoint::new(4, 4)));
    assert!(!p.contains(&IntPoint::new(5, 0)));
    assert!(!p.contains(&IntPoint::new(0, 5)));
}

#[test]
fn test_line_to() {
    let from = IntPoint::new(0, 0);
    let to = IntPoint::new(4, 4);
    let line = from.line_to(&to);
    assert_eq!(line.len(), 5);
    assert_eq!(line[0], IntPoint::new(0, 0));
    assert_eq!(line[4], IntPoint::new(4, 4));
}

#[test]
fn int_point_test_iterate() {
    let p = IntPoint::new(2, 2);
    let points = p.iterate();
    assert_eq!(points.len(), 4);
    assert!(points.contains(&IntPoint::new(0, 0)));
    assert!(points.contains(&IntPoint::new(1, 0)));
    assert!(points.contains(&IntPoint::new(0, 1)));
    assert!(points.contains(&IntPoint::new(1, 1)));
}

#[test]
fn test_edge_neighbors() {
    assert_eq!(IntPoint::edge_neighbors().len(), 4);
}

#[test]
fn test_corner_neighbors() {
    assert_eq!(IntPoint::corner_neighbors().len(), 8);
}

#[test]
fn int_point_line_to_shallow_slope() {
    let line = IntPoint::new(0, 0).line_to(&IntPoint::new(4, 2));
    assert_eq!(
        line,
        vec![
            IntPoint::new(0, 0),
            IntPoint::new(1, 1),
            IntPoint::new(2, 1),
            IntPoint::new(3, 2),
            IntPoint::new(4, 2),
        ]
    );
}

#[test]
fn int_point_line_to_backward_reaches_target() {
    let line = IntPoint::new(3, 1).line_to(&IntPoint::new(0, 0));
    assert_eq!(
        line,
        vec![IntPoint::new(3, 1), IntPoint::new(2, 1), IntPoint::new(1, 0), IntPoint::new(0, 0)]
    );
    let down = IntPoint::new(0, 0).line_to(&IntPoint::new(3, -1));
    assert_eq!(*down.last().unwrap(), IntPoint::new(3, -1));
    let steep = IntPoint::new(0, 0).line_to(&IntPoint::new(-2, -5));
    assert_eq!(steep.len(), 6);
    assert_eq!(*steep.last().unwrap(), IntPoint::new(-2, -5));
}

#[test]
fn int_point_line_to_single_point() {
    let line = IntPoint::new(3, -7).line_to(&IntPoint::new(3, -7));
    assert_eq!(line, vec![IntPoint::new(3, -7)]);
}

#[test]
fn int_point_iterate_row_major() {
    let points = IntPoint::new(2, 3).iterate();
    assert_eq!(points[0], IntPoint::new(0, 0));
    assert_eq!(points[1], IntPoint::new(1, 0));
    assert_eq!(points[2], IntPoint::new(0, 1));
    assert_eq!(points[5], IntPoint::new(1, 2));
}

// ---- IntRange ----

#[test]
fn int_range_test_new() {
    let r = IntRange::new(0, 10);
    assert_eq!(r.start, 0);
    assert_eq!(r.end, 10);
}

#[test]
fn test_length() {
    assert_eq!(IntRange::new(0, 10).length(), 10);
    assert_eq!(IntRange::new(5, 5).length(), 0);
    assert_eq!(IntRange::new(0, 0).length(), 0);
}

#[test]
fn test_display() {
    assert_eq!(IntRange::new(0, 10).to_string(), "0..10");
}

#[test]
fn int_range_negative_display() {
    assert_eq!(IntRange::new(-2147483648, -5).to_string(), "-2147483648..-5");
}

#[test]
fn int_range_test_zero() {
    assert_eq!(IntRange::zero().start, 0);
    assert_eq!(IntRange::zero().end, 0);
}

// ---- IntRect ----

#[test]
fn int_rect_test_new() {
    let r = IntRect::new(10, 20, 5, 8);
    assert_eq!(r.left(), 10);
    assert_eq!(r.top(), 20);
    assert_eq!(r.right(), 15);
    assert_eq!(r.bottom(), 28);
    assert_eq!(r.area(), 40);
}

#[test]
fn test_from_size() {
    let size = IntPoint::new(5, 10);
    let r = IntRect::from_size(&size);
    assert_eq!(r.x(), 0);
    assert_eq!(r.y(), 0);
    assert_eq!(r.width(), 5);
    assert_eq!(r.height(), 10);
}

#[test]
fn test_center() {
    let r = IntRect::new(0, 0, 10, 10);
    assert_eq!(r.center(), IntPoint::new(5, 5));
}

#[test]
fn test_between() {
    let r = IntRect::between(&IntPoint::new(0, 0), &IntPoint::new(10, 10));
    assert_eq!(r.width(), 10);
    assert_eq!(r.height(), 10);
}

#[test]
fn test_around() {
    let r = IntRect::around(5, 5, 2);
    assert_eq!(r.left(), 3);
    assert_eq!(r.top(), 3);
    assert_eq!(r.right(), 8);
    assert_eq!(r.bottom(), 8);
}

#[test]
fn test_intersect() {
    let r1 = IntRect::new(0, 0, 10, 10);
    let r2 = IntRect::new(5, 5, 10, 10);
    let intersected = r1.intersect(&r2);
    assert_eq!(intersected.left(), 5);
    assert_eq!(intersected.top(), 5);
    assert_eq!(intersected.width(), 5);
    assert_eq!(intersected.height(), 5);
}

#[test]
fn int_rect_intersect_commutes() {
    let r1 = IntRect::new(-3, 4, 10, 2);
    let r2 = IntRect::new(1, 0, 4, 9);
    assert_eq!(r1.intersect(&r2), r2.intersect(&r1));
    assert_eq!(r1.intersect(&r2), IntRect::new(1, 4, 4, 2));
}

#[test]
fn test_move() {
    let r = IntRect::new(0, 0, 10, 10);
    let moved = r.move_rect(&IntPoint::new(5, 5));
    assert_eq!(moved.left(), 5);
    assert_eq!(moved.top(), 5);
}

#[test]
fn int_rect_test_iterate() {
    let r = IntRect::new(0, 0, 2, 2);
    let points = r.iterate();
    assert_eq!(points.len(), 4);
    assert!(points.contains(&IntPoint::new(0, 0)));
    assert!(points.contains(&IntPoint::new(1, 0)));
    assert!(points.contains(&IntPoint::new(0, 1)));
    assert!(points.contains(&IntPoint::new(1, 1)));
}

#[test]
fn int_rect_test_eq() {
    assert_eq!(IntRect::new(0, 0, 10, 10), IntRect::new(0, 0, 10, 10));
    assert_ne!(IntRect::new(0, 0, 10, 10), IntRect::new(1, 0, 10, 10));
}

// ---- Integers ----

#[test]
fn integers_test_sq() {
    assert_eq!(Integers::sq(0), 0);
    assert_eq!(Integers::sq(5), 25);
    assert_eq!(Integers::sq(-3), 9);
    assert_eq!(Integers::sq(100), 10_000);
}

#[test]
fn test_round_up_div() {
    assert_eq!(Integers::round_up_div(10, 3), 4);
    assert_eq!(Integers::round_up_div(9, 3), 3);
    assert_eq!(Integers::round_up_div(1, 10), 1);
    assert_eq!(Integers::round_up_div(10, 10), 1);
    assert_eq!(Integers::round_up_div(11, 10), 2);
}

#[test]
fn test_population_count() {
    assert_eq!(Integers::population_count(0), 0);
    assert_eq!(Integers::population_count(1), 1);
    assert_eq!(Integers::population_count(0xFFFF_FFFF), 32);
    assert_eq!(Integers::population_count(0x00FF_00FF), 16);
    assert_eq!(Integers::population_count(0xD0F3), 9);
}

#[test]
fn test_leading_zeros() {
    assert_eq!(Integers::leading_zeros(0), 32);
    assert_eq!(Integers::leading_zeros(1), 31);
    assert_eq!(Integers::leading_zeros(0x8000_0000), 0);
    assert_eq!(Integers::leading_zeros(0xFFFF_0000), 0);
}

#[test]
fn integers_leading_zeros_middle() {
    assert_eq!(Integers::leading_zeros(0x0001_0000), 15);
    assert_eq!(Integers::leading_zeros(0x00F0_0000), 8);
}

// ---- PriorityQueue ----

#[test]
fn priority_queue_test_new() {
    let pq = PriorityQueue::<i32>::new();
    assert!(pq.is_empty());
    assert_eq!(pq.len(), 0);
}

#[test]
fn test_add_peek() {
    let mut pq = PriorityQueue::new();
    pq.add(5);
    pq.add(3);
    pq.add(7);
    assert_eq!(*pq.peek(), 3);
}

#[test]
fn test_remove_order() {
    let mut pq = PriorityQueue::new();
    pq.add(7);
    pq.add(3);
    pq.add(5);
    assert_eq!(pq.remove(), 3);
    assert_eq!(pq.remove(), 5);
    assert_eq!(pq.remove(), 7);
}

#[test]
fn priority_queue_test_clear() {
    let mut pq = PriorityQueue::new();
    pq.add(1);
    pq.add(2);
    pq.clear();
    assert!(pq.is_empty());
}

#[test]
fn test_single_element() {
    let mut pq = PriorityQueue::new();
    pq.add(42);
    assert_eq!(*pq.peek(), 42);
    assert_eq!(pq.remove(), 42);
    assert!(pq.is_empty());
}

#[test]
fn priority_queue_sorts_many() {
    let mut pq = PriorityQueue::<i64>::new();
    let values = [9i64, -4, 17, 0, 3, 3, -20, 8, 11, 2];
    for v in values.iter() {
        pq.push(*v);
    }
    let mut out = Vec::new();
    while !pq.is_empty() {
        out.push(pq.pop());
    }
    assert_eq!(out, vec![-20, -4, 0, 2, 3, 3, 8, 9, 11, 17]);
}

// ---- ReversedList ----

#[test]
fn test_len() {
    let list = ReversedList::<i32>::new();
    assert_eq!(list.len(), 0);
    assert!(list.is_empty());
}

#[test]
fn reversed_list_test_add() {
    let mut list = ReversedList::<i32>::new();
    list.add(1);
    list.add(2);
    list.add(3);
    assert_eq!(list.len(), 3);
    assert_eq!(*list.get(0), 1);
    assert_eq!(*list.get(1), 2);
    assert_eq!(*list.get(2), 3);
}

#[test]
fn reversed_list_test_get() {
    let mut list = ReversedList::<i32>::new();
    list.add(42);
    assert_eq!(*list.get(0), 42);
}

#[test]
fn reversed_list_test_set() {
    let mut list = ReversedList::<i32>::new();
    list.add(1);
    list.add(2);
    list.set(0, 42);
    assert_eq!(*list.get(0), 42);
}

#[test]
fn reversed_list_test_index_of() {
    let mut list = ReversedList::<i32>::new();
    list.add(1);
    list.add(2);
    list.add(3);
    assert_eq!(list.index_of(&3), Some(2));
    assert_eq!(list.index_of(&2), Some(1));
    assert_eq!(list.index_of(&1), Some(0));
    assert_eq!(list.index_of(&99), None);
}

#[test]
fn test_is_empty() {
    let mut list = ReversedList::<i32>::new();
    assert!(list.is_empty());
    list.add(1);
    assert!(!list.is_empty());
}

#[test]
fn reversed_list_test_insert() {
    let mut list = ReversedList::<i32>::new();
    list.add(1);
    list.add(3);
    list.insert(1, 2);
    assert_eq!(list.len(), 3);
    assert_eq!(*list.get(0), 1);
    assert_eq!(*list.get(1), 2);
    assert_eq!(*list.get(2), 3);
}

#[test]
fn reversed_list_test_remove_at() {
    let mut list = ReversedList::<i32>::new();
    list.add(1);
    list.add(2);
    list.add(3);
    list.remove_at(0);
    assert_eq!(list.len(), 2);
    assert_eq!(*list.get(0), 2);
    assert_eq!(*list.get(1), 3);
}

#[test]
fn reversed_list_test_clear() {
    let mut list = ReversedList::<i32>::new();
    list.add(1);
    list.add(2);
    list.clear();
    assert!(list.is_empty());
}

#[test]
fn reversed_list_test_contains() {
    let mut list = ReversedList::<i32>::new();
    list.add(1);
    assert!(list.contains(&1));
    assert!(!list.contains(&2));
}

#[test]
fn reversed_list_test_remove() {
    let mut list = ReversedList::<i32>::new();
    list.add(1);
    list.add(2);
    list.add(3);
    assert!(list.remove(&1));
    assert_eq!(list.len(), 2);
    assert!(!list.remove(&99));
}

// ---- ShortPoint ----

#[test]
fn short_point_test_new() {
    let pt = ShortPoint::new(10, 20);
    assert_eq!(pt.x, 10);
    assert_eq!(pt.y, 20);
}

#[test]
fn test_from_i32() {
    let pt = ShortPoint::from_i32(100, 200);
    assert_eq!(pt.x, 100);
    assert_eq!(pt.y, 200);
}

#[test]
fn short_point_test_length_sq() {
    let pt = ShortPoint::new(3, 4);
    assert_eq!(pt.length_sq(), 25);
}

#[test]
fn test_to_int() {
    let sp = ShortPoint::new(100, 200);
    let ip = sp.to_int();
    assert_eq!(ip.x(), 100);
    assert_eq!(ip.y(), 200);
}

#[test]
fn test_default() {
    let pt = ShortPoint::default();
    assert_eq!(pt.x, 0);
    assert_eq!(pt.y, 0);
}

#[test]
fn test_order() {
    let a = ShortPoint::new(1, 2);
    let b = ShortPoint::new(1, 3);
    assert!(a < b);
    let c = ShortPoint::new(2, 2);
    assert!(a < c);
}
