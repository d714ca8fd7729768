//! An associative container built on open addressing with linear probing.
//!
//! The table keeps every entry directly in one backing array of slots and
//! resolves collisions by walking forward from a key's hash-derived home
//! slot.  Deletion leaves a tombstone so that probe chains through the
//! vacated slot stay intact; an insertion reuses the first tombstone on
//! its probe path.  When occupied and tombstoned slots together reach
//! three quarters of the capacity, the array is rebuilt at double the
//! size, which drops all tombstones.
//!
//! Every operation carries a contract stated over a mathematical `Map`
//! view of the table.  Together the contracts pin down, machine-checked:
//! that `insert`, `get`, `get_mut`, `remove` and `contains_key` behave
//! exactly like the corresponding operations on the abstract map, growth
//! rebuilds included; that `len` equals the number of distinct keys
//! currently present, rising and falling by one exactly when a fresh key
//! is inserted or a present key removed; that a removed key stays absent
//! until reinserted; and that the table never fills up — insertion never
//! pushes the occupied-plus-tombstone count to capacity, and never
//! resizes below the occupancy threshold.

pub mod key;
pub mod table;

pub use key::HashKey;
pub use table::HashMap;
