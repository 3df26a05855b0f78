//! The state of a pegged sidechain, and what blocks, the events of mainchain
//! blocks and swaps with other chains do to it.
pub mod accumulator;
pub mod block;
pub mod block_check;
pub mod block_laws;
pub mod block_model;
pub mod bundle;
pub mod bundle_laws;
pub mod check_laws;
pub mod coin_laws;
pub mod coinshift;
pub mod coinshift_laws;
pub mod draft_laws;
pub mod error;
pub mod event_laws;
pub mod forest_laws;
pub mod ids;
pub mod leaf_laws;
pub mod mainchain;
pub mod missing_laws;
pub mod move_laws;
pub mod name_laws;
pub mod order;
pub mod payment_laws;
pub mod peg_events;
pub mod peg_laws;
pub mod peg_model;
pub mod pending_laws;
pub mod rollback;
pub mod run_laws;
pub mod state;
pub mod swap;
pub mod swap_laws;
pub mod table;
pub mod two_way_peg_data;
pub mod types;
pub mod undo_laws;
pub mod withdrawal;
