//! The settings that decoding reads.
use vstd::prelude::*;

use crate::text::views;

verus! {

/// Limits on what a request may hold.
#[derive(Debug, Clone, Copy)]
pub struct LimitsConfig {
    /// Bytes of a log body.
    pub max_log_line_bytes: u64,
    /// Attributes of a log record or a span.
    pub max_attrs_per_record: u32,
    /// Labels of a stream or a series.
    pub max_labels_per_series: u32,
    pub max_label_name_bytes: u32,
    pub max_label_value_bytes: u32,
    /// What one request may expand to.
    pub max_decoded_bytes: u64,
}

impl Default for LimitsConfig {
    fn default() -> (limits: LimitsConfig)
        ensures
            limits == (LimitsConfig {
                max_log_line_bytes: 262_144,
                max_attrs_per_record: 128,
                max_labels_per_series: 32,
                max_label_name_bytes: 256,
                max_label_value_bytes: 2_048,
                max_decoded_bytes: 268_435_456,
            }),
    {
        LimitsConfig {
            max_log_line_bytes: 262_144,
            max_attrs_per_record: 128,
            max_labels_per_series: 32,
            max_label_name_bytes: 256,
            max_label_value_bytes: 2_048,
            max_decoded_bytes: 268_435_456,
        }
    }
}

/// How records are taken in.
#[derive(Debug)]
pub struct IngestConfig {
    /// Resource attributes that become stream labels.
    pub stream_labels: Vec<String>,
    /// Whether a log body that is too large is cut instead of refused.
    pub truncate_oversized_bodies: bool,
}

pub struct IngestView {
    pub stream_labels: Seq<Seq<char>>,
    pub truncate_oversized_bodies: bool,
}

impl View for IngestConfig {
    type V = IngestView;

    open spec fn view(&self) -> IngestView {
        IngestView {
            stream_labels: views(self.stream_labels@),
            truncate_oversized_bodies: self.truncate_oversized_bodies,
        }
    }
}

impl Default for IngestConfig {
    fn default() -> (ingest: IngestConfig)
        ensures
            ingest@ == (IngestView {
                stream_labels: seq![
                    "service.name"@,
                    "service.namespace"@,
                    "service.version"@,
                    "deployment.environment"@,
                    "deployment.environment.name"@,
                ],
                truncate_oversized_bodies: true,
            }),
    {
        let mut stream_labels: Vec<String> = Vec::new();
        stream_labels.push("service.name".to_owned());
        stream_labels.push("service.namespace".to_owned());
        stream_labels.push("service.version".to_owned());
        stream_labels.push("deployment.environment".to_owned());
        stream_labels.push("deployment.environment.name".to_owned());
        assert(views(stream_labels@) =~= seq![
            "service.name"@,
            "service.namespace"@,
            "service.version"@,
            "deployment.environment"@,
            "deployment.environment.name"@,
        ]);
        IngestConfig { stream_labels, truncate_oversized_bodies: true }
    }
}

} // verus!
