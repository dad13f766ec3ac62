pub mod integers;
pub mod int_range;
pub mod short_point;
pub mod int_point;
pub mod int_rect;
pub mod grid;
pub mod bool_matrix;
pub mod int_matrix;
pub mod histogram_cube;
pub mod block_grid;
pub mod block_map;
pub mod circular_array;
pub mod circular_list;
pub mod reversed_list;
pub mod priority_queue;
pub mod decimal;
