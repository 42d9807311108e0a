//! Context tabs: a client-side grouping of workspaces by one metadata token.

pub mod contexts;
pub mod effects;
pub mod laws;
pub mod model;
pub mod name_set;
pub mod order;
pub mod preferences;
pub mod preferences_laws;
pub mod protocol;
pub mod row_laws;
pub mod row_steps;
pub mod snapshot_laws;
pub mod tab_row;
pub mod table;
pub mod text;
pub mod width;
