//! Command-driven sampling for a networked sensor node.
//!
//! A node receives text commands over a subscribed topic, and answers a
//! `measure` command with a countdown of telemetry lines. This crate holds the
//! rules of that exchange: the command grammar, the calibration that turns a
//! raw reading into a quantity, the telemetry line format, the filter on
//! inbound transport events, and the dispatcher that serialises commands and
//! drives one measurement at a time. It performs no input or output: the
//! program around it reads the sensor, keeps the time and talks to the broker.

pub mod calibration;
pub mod command;
pub mod decimal;
pub mod dispatcher;
pub mod ingest;
pub mod telemetry;
pub mod text;
pub mod trace;
