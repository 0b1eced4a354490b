//! A compressed static map from keys to a small alphabet of values.
//!
//! The map does not store its keys. Every key is turned, phase by phase,
//! into a 32-bit locator, and a sorted response table turns the locator into
//! a value. Values that many keys carry own wide intervals of locators and
//! are settled by few bits; values that few keys carry own narrow ones.
//!
//! The retrieval structure of a phase (a static function from keys to a few
//! bits) is supplied by the caller: a build hands it the keys of each phase
//! with their target locators, and a query asks it for the bits of a key.
//! Keys are known to the library by their number only.
//!
//! - `bits`, `phases`: the bits of a plan word and the phases they stand for
//! - `order`, `sort`, `widths`, `growth`, `plan`: the plan formulator
//! - `stage`, `builder`: staging of the keys and the phase-by-phase build
//! - `map`, `blocks`: the map, its response table and the query
//! - `wire`, `value`, `codec`: the byte form
//! - `stage_laws`, `lookup_laws`, `codec_laws`: what holds of all of it

pub mod bits;
pub mod blocks;
pub mod builder;
pub mod codec;
pub mod codec_laws;
pub mod growth;
pub mod lookup_laws;
pub mod map;
pub mod order;
pub mod phases;
pub mod plan;
pub mod sort;
pub mod stage;
pub mod stage_laws;
pub mod value;
pub mod widths;
pub mod wire;
