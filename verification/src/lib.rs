//! The core of a Babel-style distance-vector router for an encrypted IPv6 overlay:
//! the route and source tables, feasibility and route selection, and the state
//! machine that turns protocol events into state changes and outgoing packets.
//!
//! The library is sequential and free of I/O. Time is a number of milliseconds
//! handed in by the caller, addresses are 128-bit numbers, and every outgoing
//! packet or timer request is a returned value.
//!
//! The modules, from the leaves up:
//!
//! - [`metric`], [`sequence_number`], [`subnet`], [`crypto`], [`router_id`],
//!   [`peer`], [`babel`]: the values that the protocol speaks of.
//! - [`timers`], [`source_table`], [`routing_table`] with its model
//!   [`route_lists`], [`ip_pubkey`], [`filters`]: the tables and the filters.
//! - [`router_state`], [`propagation`], [`reactions`]: the state of the router
//!   as a mathematical value, and what the router does on each event as a
//!   function of it.
//! - [`router_inner`], [`router`]: the state and the engine themselves.
//! - [`route_laws`], [`invariants`], [`soundness`], [`soundness_laws`],
//!   [`laws`], [`idempotence`], [`situations`]: what holds of the tables and of
//!   the engine on every state.
//! - [`admin`]: the addresses of the administration interface.

pub mod metric;
pub mod sequence_number;
pub mod subnet;
pub mod crypto;
pub mod router_id;
pub mod peer;
pub mod babel;
pub mod timers;
pub mod source_table;
pub mod route_lists;
pub mod routing_table;
pub mod ip_pubkey;
pub mod filters;
pub mod router_state;
pub mod propagation;
pub mod reactions;
pub mod router_inner;
pub mod router;
pub mod route_laws;
pub mod invariants;
pub mod soundness;
pub mod soundness_laws;
pub mod laws;
pub mod idempotence;
pub mod situations;
pub mod admin;
