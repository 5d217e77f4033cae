//! Printer queue data, URI normalization and physical-device grouping for a printer
//! settings service.
//!
//! Everything here is verified with Verus: strings are modelled as `Seq<char>`, option maps
//! as `Map<Seq<char>, Seq<char>>`, and every public function states its result over those
//! models.

pub mod text;
pub mod uri;
pub mod options;
pub mod types;
pub mod grouping;
pub mod queues;
pub mod service;
pub mod reported;

pub use grouping::{group_printers, DeviceIdentity};
pub use options::OptionMap;
pub use types::{
    Error, GetJobsReply, GroupedDevice, JobInfo, JobState, ListPrintersReply, PrintTestPageReply,
    PrinterEntry, PrinterStatus, SupplyLevel,
};
pub use uri::{parse_uri_endpoint, uri_prefix};
