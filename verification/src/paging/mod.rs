//! Page tables: page types, the x86-64 entry encoding and address layout.

pub mod generic;
pub mod tree;
pub mod x86_64;

pub use generic::{Page, PageType};
pub use x86_64::{Error, PAGE_SIZE};
