//! The glitch editor behind the window: the loaded document and its indices,
//! the edits that can be made to it, undo, the pixel list and the selection.
//!
//! Everything here works on plain values. The window, the file dialogs and the
//! loader thread live in the application around the library.

pub mod core_data;
pub mod document;
pub mod edit;
pub mod edit_law;
pub mod edit_options;
pub mod filter_law;
pub mod filter_spec;
pub mod frame;
pub mod history;
pub mod list;
pub mod list_filter;
pub mod list_law;
pub mod load;
pub mod offer_law;
pub mod options_law;
pub mod overlay_cache;
pub mod propagate;
pub mod render;
pub mod row_text;
pub mod save_law;
pub mod select;
pub mod selection;
pub mod status;
pub mod workload;
