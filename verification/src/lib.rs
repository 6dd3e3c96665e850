//! An append-only todo-item store with soft completion and a dual search
//! strategy: a linear scan over the item log, and an index-assisted lookup
//! over two auxiliary indices (by tag and by description word) that are kept
//! consistent with completion state. Fuzzy word search uses a
//! character-subsequence matching predicate.

pub mod index_map;
pub mod matcher;
pub mod runner;
pub mod todo_list;
pub mod types;

pub use matcher::contains_word;
pub use matcher::matches_word;
pub use runner::run_query;
pub use runner::Query;
pub use runner::QueryError;
pub use runner::QueryResult;
pub use todo_list::SearchParams;
pub use todo_list::SearchWord;
pub use todo_list::TodoList;
pub use types::Description;
pub use types::Index;
pub use types::Tag;
pub use types::TodoItem;
