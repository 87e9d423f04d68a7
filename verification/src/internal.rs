pub mod allocator;
pub mod chunk;
pub mod layout;
