//! A context-aware configuration center: rules over a WhoAmI, resources of
//! key/value items, and prioritised (possibly negative) links between them,
//! compiled into an index per namespace and queried in two views.

pub mod cfg_center;
pub mod cfgindex;
pub mod error;
pub mod model;
pub mod parser;
pub mod path_spliter;
pub mod querier;
pub mod rule_engine;
pub mod storage;
pub mod text;
