//! Structured JSONL log viewing: the event schema, the in-memory event store
//! with its facet indexes and query language, and the rules of the viewer, the
//! follower, the logger and the updater built on top of them.
pub mod answers;
pub mod bookmark;
pub mod changes;
pub mod conditions;
pub mod decisions;
pub mod describe;
pub mod event;
pub mod facet;
pub mod follow;
pub mod follower;
pub mod grouping;
pub mod hash;
pub mod health;
pub mod highlight;
pub mod index;
pub mod json;
pub mod keys;
pub mod launch;
pub mod layout;
pub mod level;
pub mod list;
pub mod logger;
pub mod members;
pub mod natural;
pub mod number;
pub mod numeral;
pub mod ordered;
pub mod outcomes;
pub mod pin;
pub mod project;
pub mod query;
pub mod record;
pub mod rows;
pub mod schema;
pub mod scope;
pub mod search;
pub mod session;
pub mod settings;
pub mod sorting;
pub mod store;
pub mod text;
pub mod time;
pub mod update;
pub mod viewer;
