//! Page layout for a terminal browser.

pub mod align_laws;
pub mod basis_laws;
pub mod batch;
pub mod blocks;
pub mod border_laws;
pub mod borders;
pub mod boxes;
pub mod boxmodel;
pub mod breaker;
pub mod cells;
pub mod clip;
pub mod clip_laws;
pub mod column_laws;
pub mod columns;
pub mod context;
pub mod depth;
pub mod dimensions;
pub mod document;
pub mod dom;
pub mod engine;
pub mod field;
pub mod field_laws;
pub mod flex;
pub mod flex_laws;
pub mod flexbox;
pub mod flexing_laws;
pub mod frame_laws;
pub mod grid;
pub mod grid_laws;
pub mod headless;
pub mod hit;
pub mod hit_laws;
pub mod image;
pub mod inline;
pub mod intrinsic;
pub mod line_laws;
pub mod linebox;
pub mod lines;
pub mod msg;
pub mod net;
pub mod order;
pub mod page;
pub mod page_laws;
pub mod painted;
pub mod plot_laws;
pub mod position_laws;
pub mod render_laws;
pub mod reverse_laws;
pub mod row_laws;
pub mod run_laws;
pub mod size_laws;
pub mod stack_laws;
pub mod style;
pub mod sums;
pub mod table;
pub mod table_laws;
pub mod term;
pub mod text;
pub mod text_laws;
pub mod views;
