//! Evidence-carrying decision kernels: four-valued evidence gates, scoped
//! admission, hash-linked receipt chains (agent kernel, confidence ladder,
//! escalation router), closed citations, schema repair, an id-ordered
//! accounting register, a recall benchmark and source findings with
//! replayable evidence.

pub mod belnap;
pub mod collections;
pub mod digest;
pub mod eidos;
pub mod kernel;
pub mod ladder;
pub mod ledger;
pub mod order;
pub mod router;
pub mod schema;
pub mod scope;
pub mod security;
pub mod text;
pub mod tokens;
pub mod vault;
