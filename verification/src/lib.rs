//! Triangular arbitrage search over currency-exchange quote snapshots.
//!
//! A batch of quotes relates pairs of tradable items; three of the items
//! (Divine, Chaos, Exalt) are *hub* currencies, everything else is a
//! potential *bridge*. The library classifies quotes, extracts the direct
//! hub-to-hub base rates, indexes hub/bridge rates together with their
//! reciprocals, synthesizes two-hop implied cross-rates, filters them
//! against a relative profitability threshold, and ranks the survivors.
//!
//! All prices are fixed-point integers (millionths of a unit), and all
//! derived rates are exact rational numbers, so every stage of the
//! pipeline carries a precise contract.

pub mod api;
pub mod commands;
pub mod index;
pub mod logic;
pub mod models;
pub mod ranking;
pub mod rational;
