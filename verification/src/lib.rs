pub mod direction;
pub mod hidden;
pub mod layout;
pub mod pane_data;
pub mod tree;
pub mod text;
pub mod tab_settings;
pub mod color_labels;
pub mod slash_commands;
pub mod about;
pub mod settings_group;
pub mod directory_colors;
pub mod laws;
pub mod label_laws;
pub mod render_plan;
pub mod adjacency_laws;
pub mod slot_laws;
pub mod divider_laws;
pub mod resize_laws;
