//! Sensor pipeline: buffering, windowed aggregation and dashboard queries.
pub mod aggregation;
pub mod benchmark;
pub mod cache;
pub mod dashboard;
pub mod frames;
pub mod gateway;
pub mod id_map;
pub mod lex;
pub mod models;
pub mod order;
pub mod pages;
pub mod rates;
pub mod ring;
pub mod rounds;
pub mod sensor;
pub mod sensor_buffer;
pub mod storage;
pub mod telemetry;
pub mod text;
