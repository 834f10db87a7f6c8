//! Sampling plans, request parsing and response framing for a point-cloud
//! generator of Calabi–Yau surface slices.
//!
//! The numeric work on real numbers is left to the caller. This crate holds
//! what surrounds it: the text of a request and of a response, the order in
//! which the samples of a surface are emitted, and the reduction of the
//! emitted heights to their range.

pub mod grid;
pub mod number;
pub mod range;
pub mod request;
pub mod response;
pub mod text;
pub mod unicode;

pub use grid::{checked_buffer_len, generate_all_meshes, generate_branch_mesh, step_count, GridSample};
pub use range::{z_range, ZRange};
pub use request::{parse_request, Request, RequestError};
pub use response::encode_response;
