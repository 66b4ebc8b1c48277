//! Verified core of a UCI chess-engine adapter: reading what an engine
//! prints, building what is sent to it, and the bookkeeping of an
//! engine-versus-engine series.

pub mod text;
pub mod events;
pub mod commands;
pub mod series;
