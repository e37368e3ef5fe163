//! Process-unique thread identifiers and a table of per-thread slots.
//!
//! Identifiers come from one counter that only ever moves forward, and every
//! thread caches its identifier in a cell of its own.  A [`SlotTable`] stores
//! one value per identifier in fixed-size segments that are allocated as higher
//! identifiers appear.
//!
//! All state is passed in explicitly: the counter, a thread's cell and the
//! table are ordinary values, and every operation is one atomic step on them.
//! A program with real threads keeps the counter and the tables behind a lock
//! and each cell in thread-local storage.
//!
//! ```
//! use thid::IdCounter;
//! use thid::SlotTable;
//! use thid::ThreadId;
//!
//! let mut counter = IdCounter::new();
//! let mut first = ThreadId::uninitialized();
//! let mut second = ThreadId::uninitialized();
//! let mut table: SlotTable<String> = SlotTable::new();
//!
//! table.get_or(&mut first, &mut counter, || String::from("foo")).push_str("bar");
//! table.get_or(&mut second, &mut counter, || String::from("baz")).push_str("bip");
//! assert_eq!(first.as_u32(), 0);
//! assert_eq!(second.as_u32(), 1);
//!
//! let mut seen: Vec<String> = Vec::new();
//! for value in table.iter_mut() {
//!     value.push_str("new");
//!     seen.push(value.clone());
//! }
//! assert_eq!(seen, vec![String::from("foobarnew"), String::from("bazbipnew")]);
//! ```

pub mod process;
pub mod slot_table;
pub mod table_model;
pub mod thread_id;

pub use slot_table::SlotTable;
pub use slot_table::SEGMENT_SIZE;
pub use thread_id::IdCounter;
pub use thread_id::ThreadId;
