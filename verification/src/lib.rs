//! Editing logic of a website theme editor, verified: widget layout editing on
//! template XML (cards, fields, titles, structural parts and the field tree),
//! line diffs, preset URL normalisation, preview viewport rules, static page
//! injection, rich-text image naming, typography overrides, cursor packs,
//! release asset choice and export bundle contents.
pub mod bundle;
pub mod controls;
pub mod cursors;
pub mod line_diff;
pub mod plugins;
pub mod presets;
pub mod rich_edit;
pub mod static_pages;
pub mod text;
pub mod typography;
pub mod unicode;
pub mod viewport;
pub mod widget_body;
pub mod widget_layout;
pub mod workbench;
