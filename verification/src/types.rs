//! The report entity and the values that travel with it.

use vstd::prelude::*;

verus! {

/// What a report accuses the target of.
#[derive(Clone, Copy, PartialEq, Eq, Structural, Debug)]
pub enum ReportType {
    Harassment,
    Abuse,
    Illegal,
    Harmful,
    Other,
}

impl Default for ReportType {
    fn default() -> (r: Self)
        ensures
            r == ReportType::Other,
    {
        Self::Other
    }
}

/// Where a report stands in its lifecycle.
#[derive(Clone, Copy, PartialEq, Eq, Structural, Debug)]
pub enum ReportStatus {
    /// Report is active and needs to be handled
    Active,
    /// Report has been handled
    Archived,
    /// Report has been flagged as spam
    Spam,
}

impl Default for ReportStatus {
    fn default() -> (r: Self)
        ensures
            r == ReportStatus::Active,
    {
        Self::Active
    }
}

/// A user-filed moderation record.
#[derive(Clone, Debug)]
pub struct Report {
    /// The type of the report
    pub report_type: ReportType,
    /// The status of the report
    pub status: ReportStatus,
    /// The username of the user creating the report (can be empty)
    pub author: String,
    /// The report body content (written by user)
    pub content: String,
    /// The URL address that is getting reported
    pub address: String,
    /// When it was reported, in epoch milliseconds
    pub timestamp: u128,
}

/// The mathematical value of a report: every text field as its
/// character sequence. Contracts compare reports through this view, so
/// two reports are the same exactly when all their fields read the same.
pub struct ReportView {
    pub report_type: ReportType,
    pub status: ReportStatus,
    pub author: Seq<char>,
    pub content: Seq<char>,
    pub address: Seq<char>,
    pub timestamp: u128,
}

impl View for Report {
    type V = ReportView;

    open spec fn view(&self) -> ReportView {
        ReportView {
            report_type: self.report_type,
            status: self.status,
            author: self.author@,
            content: self.content@,
            address: self.address@,
            timestamp: self.timestamp,
        }
    }
}

impl DeepView for Report {
    type V = ReportView;

    open spec fn deep_view(&self) -> ReportView {
        self.view()
    }
}

/// Request body for filing a report: everything the reporter chooses.
pub struct PCreateReport {
    pub report_type: ReportType,
    pub content: String,
    pub address: String,
}

/// Request body for re-classifying a report.
pub struct PEditStatus {
    pub status: ReportStatus,
}

/// Query parameters of the listing page.
#[derive(Default, PartialEq)]
pub struct OffsetQueryProps {
    pub offset: Option<i32>,
}

/// The uniform tagged result every operation returns: a success flag, a
/// human-readable message, and the payload when there is one. No
/// operation panics or raises; every failure comes back through this.
pub struct DefaultReturn<T> {
    pub success: bool,
    pub message: String,
    pub payload: Option<T>,
}

} // verus!
