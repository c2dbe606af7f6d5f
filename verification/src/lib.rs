use vstd::prelude::*;

pub mod text;
pub mod tokens;
pub mod unified_spec;
pub mod unified;
pub mod line_diff_spec;
pub mod line_diff;
pub mod guard;
pub mod render;
pub mod render_laws;
pub mod classic_laws;
pub mod ansi;
pub mod stdin;
pub mod stream_laws;
pub mod compare;
pub mod compare_laws;
pub mod format_laws;
pub mod line_diff_laws;
pub mod line_diff_counts;
pub mod line_diff_sides;
pub mod unified_laws;
pub mod unified_lines;
