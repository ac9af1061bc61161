//! The decision core of a scene compositor: pixel regions, the visibility walk
//! over the window tree, structural damage, repaint planning and the per-output
//! frame lifecycle.

pub mod geometry;
pub mod region;
pub mod scene_diff;
pub mod draw;
pub mod repaint;
pub mod region_set;
pub mod damage_log;
pub mod ids;
pub mod store;
pub mod windows;
pub mod walk;
pub mod emit;
pub mod cursor;
pub mod visit;
pub mod scene_build;
pub mod cursor_laws;
pub mod visibility_law;
pub mod scene_laws;
pub mod overlay_laws;
pub mod damage_laws;
pub mod stats_laws;
pub mod walk_laws;
pub mod claim_laws;
pub mod present;
pub mod deferred;
pub mod buffer_age;
pub mod settings;
pub mod tick;
pub mod scanout_damage;
pub mod ledger;
pub mod audit;
pub mod output;
pub mod drain;
pub mod root_overlay;
pub mod geometry_laws;
pub mod root_overlay_laws;
pub mod compositor;
pub mod frame;
pub mod output_laws;
pub mod draft_laws;
pub mod compositor_laws;
pub mod tick_laws;
pub mod frame_laws;
pub mod upkeep_laws;
pub mod recording;
pub mod acquisition;
pub mod submission;
pub mod audit_target;
pub mod recording_law;
pub mod area_laws;
pub mod audit_laws;
pub mod settings_laws;
pub mod submission_laws;
