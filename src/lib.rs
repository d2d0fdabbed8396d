//! A personal task tracker: tasks with their subtasks, and a cached tree of
//! the pending ones that is kept in step with the store.
//!
//! The library holds the records, their mathematical views, and the cache
//! manager. Every store statement is issued by the caller; the manager tells
//! it which records a request touches and patches its tree once the store has
//! accepted the write.
pub mod date;
pub mod manager;
pub mod model;
pub mod seq_facts;
pub mod store;
