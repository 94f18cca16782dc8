use vstd::prelude::*;

pub mod component_class_loader;
pub mod composite_operation;
pub mod heartbeat;
pub mod history;
pub mod id_generator;
pub mod hot_reload;
pub mod invalidate_range;
pub mod multimedia;
pub mod project_editor;
pub mod project_format;
pub mod project_serialize;
pub mod renderer_error;
pub mod rendering_controller;
pub mod services;
pub mod signal_queue;
pub mod thread_cancel;
pub mod union_find;

verus! {
}
