use vstd::prelude::*;

pub mod dtrange;
pub mod rle;
pub mod rev_span;
pub mod append_rle;
pub mod op_metrics;
pub mod textinfo;
pub mod marker_tree;
