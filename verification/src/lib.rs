//! Core of a terminal-driven issue tracker: an epics-and-stories data store
//! that preserves referential integrity, and a page-stack navigator that
//! turns user actions into store mutations and stack transitions.
//!
//! The store owns a [`models::DBState`] and guarantees that every story id
//! listed by an epic exists and is listed by exactly one epic; the navigator
//! owns the store and a stack of pages whose bottom is always the board.
pub mod laws;
pub mod model;
pub mod models;
pub mod navigator;
pub mod pages;
pub mod store;
