//! Sliding-window reductions over dense arrays of rank 1 to 5, and the splitting
//! scheme that lets the work be spread over workers without changing the result.
pub mod shape;
pub mod nd_array;
pub mod integer_conversion_traits;
pub mod window_functions;
pub mod array_threading;
pub mod array_shape_traits;
