//! Verified bookkeeping and decision logic of a multi-target aircraft tracker
//! (IMM motion models, JPDA association, M/N track confirmation).

pub mod conflict;
pub mod gating;
pub mod history;
pub mod initiation;
pub mod motion_model;
pub mod playback;
pub mod track_status;
pub mod track_table;
pub mod track_update;
