//! Framing, stream description, object metadata and output assembly of a TrueHD / Atmos
//! decoder, as plain functions and state machines over plain values.

pub mod api;
pub mod chain;
pub mod chunking_laws;
pub mod clean_laws;
pub mod configuration_laws;
pub mod decode_laws;
pub mod delivery_laws;
pub mod element_laws;
pub mod engine;
pub mod engine_laws;
pub mod engine_view;
pub mod estimate;
pub mod events;
pub mod framer;
pub mod framer_laws;
pub mod header;
pub mod input_laws;
pub mod naming_laws;
pub mod object_laws;
pub mod objects;
pub mod pushes;
pub mod recovery_laws;
pub mod replay_laws;
pub mod selection_laws;
pub mod stream;
pub mod text;
pub mod timeline_laws;
pub mod types;
pub mod unit_laws;
