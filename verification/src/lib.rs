//! Text-level editing of KiCad boards and schematics, with proofs.

pub mod anchor_laws;
pub mod annotation;
pub mod board;
pub mod board_laws;
pub mod component_edit;
pub mod components;
pub mod connected;
pub mod edit_laws;
pub mod field_laws;
pub mod group_laws;
pub mod live_view;
pub mod names;
pub mod netlist;
pub mod netlist_laws;
pub mod pcb_laws;
pub mod pcb_sync;
pub mod pins;
pub mod placement;
pub mod rename_laws;
pub mod replace;
pub mod report_laws;
pub mod scan;
pub mod scan_laws;
pub mod sexp;
pub mod sexp_laws;
pub mod structure;
pub mod swap_laws;
pub mod symbol_laws;
pub mod symbols;
pub mod text;
pub mod tools;
pub mod view_laws;
