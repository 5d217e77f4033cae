//! The data that the printer service hands out.

use vstd::prelude::*;

use crate::options::OptionMap;

verus! {

/// Errors that the printer service replies with.
#[derive(Debug, Clone, Copy, PartialEq, Eq, Structural)]
pub enum Error {
    FailedToGetPrinters,
    CupsFailed,
    PrinterNotFound,
    NoDefaultPrinter,
}

/// Fill level of one supply (toner, ink) of a printer.
#[derive(Debug, Clone)]
pub struct SupplyLevel {
    pub name: String,
    pub level_percent: u8,
}

/// Coarse state of a printer queue.
#[derive(Clone, Copy, Debug, PartialEq, Eq, Structural)]
pub enum PrinterStatus {
    Ready,
    Offline,
    LowToner,
}

/// The IPP-style keyword of a printer status.
pub open spec fn status_label(s: PrinterStatus) -> Seq<char> {
    match s {
        PrinterStatus::Ready => "printer-ready"@,
        PrinterStatus::Offline => "printer-offline"@,
        PrinterStatus::LowToner => "printer-low-toner"@,
    }
}

fn from_literal(s: &str) -> (r: String)
    ensures
        r@ == s@,
{
    s.to_owned()
}

impl PrinterStatus {
    /// The IPP-style keyword of this status.
    pub fn label(&self) -> (r: String)
        ensures
            r@ == status_label(*self),
    {
        match self {
            PrinterStatus::Ready => from_literal("printer-ready"),
            PrinterStatus::Offline => from_literal("printer-offline"),
            PrinterStatus::LowToner => from_literal("printer-low-toner"),
        }
    }
}

/// One configured printer queue.
#[derive(Debug, Clone)]
pub struct PrinterEntry {
    pub id: String,
    pub name: String,
    pub is_default: bool,
    pub printer_uri: String,
    pub status: PrinterStatus,
    pub queue_status: String,
    pub location: String,
    pub model: String,
    pub device_name: String,
    pub web_page: Option<String>,
    pub driver_version: String,
    pub paper_size_idx: usize,
    pub print_sides_idx: usize,
    pub options: OptionMap,
    pub supplies: Vec<SupplyLevel>,
    pub paper_sizes: Vec<String>,
    pub print_sides: Vec<String>,
}

/// The queues that belong to one physical device, with the identity they share.
#[derive(Debug, Clone)]
pub struct GroupedDevice {
    pub(crate) uuid: Option<String>,
    pub(crate) hostname: Option<String>,
    pub(crate) port: Option<u16>,
    pub(crate) device_uri_prefix: Option<String>,
    pub(crate) queues: Vec<PrinterEntry>,
}

/// View of an optional string.
pub open spec fn opt_view(o: Option<String>) -> Option<Seq<char>> {
    match o {
        Some(s) => Some(s@),
        None => None,
    }
}

/// View of an optional string slice.
pub open spec fn opt_str_view(o: Option<&str>) -> Option<Seq<char>> {
    match o {
        Some(s) => Some(s@),
        None => None,
    }
}

fn opt_as_str(o: &Option<String>) -> (r: Option<&str>)
    ensures
        opt_str_view(r) == opt_view(*o),
{
    match o {
        Some(s) => Some(s.as_str()),
        None => None,
    }
}

impl GroupedDevice {
    /// The queues of this device, in the order of their ids.
    pub closed spec fn queue_seq(&self) -> Seq<PrinterEntry> {
        self.queues@
    }

    /// The normalized UUID of this device.
    pub closed spec fn uuid_view(&self) -> Option<Seq<char>> {
        opt_view(self.uuid)
    }

    /// The lower-case hostname of this device.
    pub closed spec fn hostname_view(&self) -> Option<Seq<char>> {
        opt_view(self.hostname)
    }

    /// The port of this device.
    pub closed spec fn port_view(&self) -> Option<u16> {
        self.port
    }

    /// The normalized device URI of this device.
    pub closed spec fn uri_view(&self) -> Option<Seq<char>> {
        opt_view(self.device_uri_prefix)
    }

    /// What the views of a device are made of.
    pub(crate) proof fn lemma_views(&self)
        ensures
            self.queue_seq() == self.queues@,
            self.uuid_view() == opt_view(self.uuid),
            self.hostname_view() == opt_view(self.hostname),
            self.port_view() == self.port,
            self.uri_view() == opt_view(self.device_uri_prefix),
    {
    }

    /// Returns every configured queue associated with this physical device.
    pub fn queues(&self) -> (r: &[PrinterEntry])
        ensures
            r@ == self.queue_seq(),
    {
        self.queues.as_slice()
    }

    /// Returns the normalized printer UUID used for strongest matching.
    pub fn uuid(&self) -> (r: Option<&str>)
        ensures
            opt_str_view(r) == self.uuid_view(),
    {
        opt_as_str(&self.uuid)
    }

    /// Returns the normalized hostname used when no UUID is available.
    pub fn hostname(&self) -> (r: Option<&str>)
        ensures
            opt_str_view(r) == self.hostname_view(),
    {
        opt_as_str(&self.hostname)
    }

    /// Returns the URI port used for host-and-port matching.
    pub fn port(&self) -> (r: Option<u16>)
        ensures
            r == self.port_view(),
    {
        self.port
    }

    /// Returns the normalized URI used as the final matching fallback.
    pub fn device_uri_prefix(&self) -> (r: Option<&str>)
        ensures
            opt_str_view(r) == self.uri_view(),
    {
        opt_as_str(&self.device_uri_prefix)
    }
}

/// Reply to a request for the configured printers.
#[derive(Debug, Clone)]
pub struct ListPrintersReply {
    pub printers: Vec<PrinterEntry>,
}

/// Reply to a request for print jobs.
#[derive(Debug, Clone)]
pub struct GetJobsReply {
    pub jobs: Vec<JobInfo>,
}

/// Reply to a request to print a test page.
#[derive(Debug, Clone, Copy)]
pub struct PrintTestPageReply {
    pub job_id: i32,
}

/// One print job.
#[derive(Clone, Debug)]
pub struct JobInfo {
    pub id: i32,
    pub printer_id: String,
    pub title: String,
    pub state: JobState,
    pub user: String,
    pub size: i32,
    pub priority: i32,
    pub creation_time: i64,
    pub processing_time: i64,
    pub completed_time: i64,
}

/// State of a print job.
#[derive(Clone, Copy, Debug, PartialEq, Eq, Structural)]
pub enum JobState {
    Pending,
    Processing,
    Completed,
    Canceled,
    Aborted,
    Held,
    Stopped,
    Failed,
    Unknown,
}

} // verus!
