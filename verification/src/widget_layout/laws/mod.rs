//! What a reparse of an edited buffer shows: the laws that tie the edits
//! (`reorder`, `remove`, `set_visible`, `set_widget_title`) to `parse_slots`,
//! and `set_field` to `parse_fields`; and what `group_fields` keeps.
pub mod field_edit;
pub mod field_rest;
pub mod grouping;
pub mod parts_slots;
pub mod reading;
pub mod remove;
pub mod reorder;
pub mod scan;
pub mod set_visible;
pub mod title;
pub mod title_card;
pub mod visible;
pub mod visible_card;
pub mod visible_tag;
