//! Deterministic game-master engine: the authoritative game state, the
//! scenario spine that constrains it, and the adjudicator that accepts or
//! rejects proposed state changes.
pub mod strmap;
pub mod state;
pub mod gate;
pub mod spine;
pub mod reason;
pub mod engine;
pub mod expr;
pub mod text;
pub mod facts;
pub mod turn;
pub mod synopsis;
pub mod memoria;
pub mod prompt;
pub mod brief;
pub mod turnloop;
pub mod asset;
pub mod campaign;
pub mod package;
pub mod site;
pub mod session;
pub mod view;
pub mod status;
pub mod envfile;
