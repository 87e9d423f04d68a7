pub mod bits;
