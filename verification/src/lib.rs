//! The citymap's build stage, verified: reading a codebase into a tree of
//! counted files, resolving which files lean on which, the integer rules
//! that decide how each holding and ward looks, and the cheapest route a
//! road can take across blocked ground.

pub mod text;
pub mod model;
pub mod paths;
pub mod classify;
pub mod facts;
pub mod scan;
pub mod imports;
pub mod aliases;
pub mod references;
pub mod tree;
pub mod layout;
pub mod manifest;
pub mod scene;
pub mod scenery;
pub mod wayfinding;
pub mod routes;
pub mod viewer;
pub mod traffic;
pub mod captions;
