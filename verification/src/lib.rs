//! Bookkeeping for isolated drawing layers.
#![allow(unused_imports)]

pub mod batch;
pub mod blur;
pub mod capture;
pub mod commands;
pub mod composition;
pub mod content;
pub mod context;
pub mod diagnostics;
pub mod drawing;
pub mod effect;
pub mod effect_plan;
pub mod evidence;
pub mod filters;
pub mod float_bits;
pub mod format;
pub mod frame;
pub mod free_pool;
pub mod geometry;
pub mod kernel_cache;
pub mod layer;
pub mod ordered;
pub mod output_key;
pub mod pool;
pub mod recording;
pub mod region;
pub mod renderer;
pub mod request;
pub mod retained;
pub mod retention_laws;
pub mod root_target;
pub mod rounding;
pub mod scratch;
pub mod screenshot;
pub mod state;
pub mod traversal;
pub mod widget;
