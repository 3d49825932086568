//! Declarative HTTP route tables and the routes of the book resource.
//!
//! A [`router::Router`] is an ordered table of routes, each binding a method
//! and a path pattern to a handler reference. Tables are plain data: they can
//! be enumerated, nested under a prefix, merged, and asked which route a
//! request selects. [`book::build_book_routers`] builds the table of the book
//! resource, mounted under `/books`.

pub mod book;
pub mod method;
pub mod path;
pub mod pattern;
pub mod router;
