//! Aggregate data storage containers (i.e., collections).

pub mod treemap;

pub use self::treemap::TreeMap;
