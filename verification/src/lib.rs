//! A widget blueprint editor core: the widget registry, the blueprint
//! document and its commands, the asset form of a document, the walk that
//! spawns a document's widgets, and what the widgets and the editor's
//! gestures decide.
pub mod tables;
pub mod registry;
pub mod document;
pub mod style;
pub mod text;
pub mod seqs;
pub mod laws;
pub mod asset;
pub mod asset_laws;
pub mod ui;
pub mod widgets;
pub mod inputs;
pub mod editor_state;
pub mod viewport;
pub mod tree;
pub mod kinds;
pub mod metadata;
pub mod props;
pub mod property_plan;
pub mod editor_actions;
pub mod spawn;
pub mod build_laws;
pub mod icons;
pub mod messages;
pub mod toolbar;
pub mod ui_laws;
pub mod wellformed;
