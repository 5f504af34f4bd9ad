//! A local telemetry collector: registry, ledger, report and wiring logic.

pub mod accumulator;
pub mod accumulator_laws;
pub mod active;
pub mod assoc;
pub mod claude_settings;
pub mod clock;
pub mod config;
pub mod cost;
pub mod decimal;
pub mod decode;
pub mod decode_laws;
pub mod doctor;
pub mod doctor_laws;
pub mod emit;
pub mod error;
pub mod export;
pub mod export_laws;
pub mod exporter;
pub mod headers;
pub mod hook;
pub mod init;
pub mod json;
pub mod model;
pub mod order;
pub mod pattern;
pub mod pii;
pub mod place_laws;
pub mod project;
pub mod query;
pub mod receiver;
pub mod record_laws;
pub mod registry;
pub mod render;
pub mod render_laws;
pub mod report;
pub mod report_laws;
pub mod rolling;
pub mod schema;
pub mod schema_laws;
pub mod scopes;
pub mod seqs;
pub mod serve;
pub mod serve_laws;
pub mod service;
pub mod session;
pub mod settings;
pub mod setup_laws;
pub mod shape;
pub mod sink;
pub mod sorted;
pub mod table;
pub mod text;
pub mod text_laws;
pub mod throttle;
pub mod transform;
pub mod transform_laws;
pub mod wiring_laws;
