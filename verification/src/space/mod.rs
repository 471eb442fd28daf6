pub mod pack;
pub mod render_list;
