//! Staging of render work for an XR compositor server: client handlers stage
//! mutations of models and surfaces from any thread, and the render thread
//! applies them once per frame, builds each GPU resource at most once, and
//! tears resources down only when it drains the destroy queue.

pub mod delta;
pub mod destroy_queue;
pub mod model;
pub mod registry;
pub mod staging;
pub mod surface;
