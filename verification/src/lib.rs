//! Service supervision core: dependency ordering, start gating, restart
//! policy and launch planning for a small process manager.
pub mod text;
pub mod names;
pub mod name_map;
pub mod ordering;
pub mod process_manager;
