//! Fluvial: the stop-ordering core of a transit patronage visualiser.
//!
//! A route is observed as many shape variants, each an ordered run of stops
//! that may overlap, diverge or loop relative to the others. This crate
//! picks a starting stop ([`oracle`]), orders the variants' starting points
//! by nearness ([`order`]), lays the variants out in that order ([`shapes`])
//! and folds them into one left-to-right list of stops ([`merge`]);
//! [`gtfs`] runs the four in turn.
//!
//! Around that core it counts what a diagram of the passenger flows shows
//! ([`patronage`], [`visualise`]), estimates the services of a month
//! ([`service`], [`calendar`]) and writes the index page and the names of
//! the output directories ([`page`], [`outfile`]).
//!
//! Every function here is verified with Verus against the contract in its
//! header; what is taken on trust is marked `external_body`.

pub mod records;
pub mod stops;
pub mod merge;
pub mod oracle;
pub mod order;
pub mod shapes;
pub mod gtfs;
pub mod patronage;
pub mod visualise;
pub mod numerals;
pub mod calendar;
pub mod direction;
pub mod service;
pub mod page;
pub mod outfile;
