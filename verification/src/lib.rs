//! Decoding of telemetry and the query languages over it.
use vstd::prelude::*;

pub mod answers;
pub mod civil;
pub mod compression;
pub mod config;
pub mod decoded;
pub mod double;
pub mod error;
pub mod evaluation;
pub mod grouping;
pub mod json;
pub mod jsonback;
pub mod labels;
pub mod lexer;
pub mod loading;
pub mod logql;
pub mod logs;
pub mod loki;
pub mod matcher;
pub mod meta;
pub mod nearest;
pub mod otlp;
pub mod otlp_encode;
pub mod otlp_metrics;
pub mod otlp_protobuf;
pub mod parser;
pub mod pb;
pub mod pool;
pub mod precedence;
pub mod promeval;
pub mod prometheus;
pub mod promql;
pub mod protobuf;
pub mod querylaws;
pub mod readback;
pub mod reading;
pub mod record;
pub mod remote_write;
pub mod roundtrip;
pub mod seconds;
pub mod storing;
pub mod streams;
pub mod tempo;
pub mod text;
pub mod textset;
pub mod traceql;
pub mod traces;
pub mod wire;
pub mod written;

verus! {

} // verus!
