//! A gauge for the load of two hosts: what it scrapes, and what it shows.
//!
//! - `http`, `response` and `session` scrape a host: the request, the response as it arrives, and
//!   the connection that is kept between two scrapes; `resolver` finds the host's address.
//! - `metrics` reads a Prometheus body, from node-exporter or mon64.
//! - `render` draws the face of the gauge band by band, with `canvas`, `shapes` and `label`;
//!   `display` enforces the rotation of a panel.
//! - `config` reads the settings, and `wifi` keeps the network up.
//! - `text`, `bounded` and `binary32` are what the others are written with: texts, buffers of a
//!   fixed capacity, and single-precision numbers by their encoding.
//!
//! Nothing here reads, writes or waits. Where that is needed, a state machine says what to do
//! next and is told what came of it.

pub mod text;
pub mod bounded;
pub mod binary32;
pub mod metrics;
pub mod http;
pub mod response;
pub mod resolver;
pub mod session;
pub mod config;
pub mod canvas;
pub mod shapes;
pub mod label;
pub mod render;
pub mod display;
pub mod wifi;

pub use metrics::{parse_prometheus_chunk, CpuHistory, GaugeStats};
pub use render::{render_gauge_bands, BandBuffer, GaugeBands, SIZE};
