//! The report lifecycle service: the operation surface the request
//! layer calls, as thin orchestration over the repository and the
//! authorization gate. Every call returns the uniform tagged result;
//! nothing here panics or raises.

use crate::auth::spec_is_authorized;
use crate::auth::FullUser;
use crate::db::create_success;
use crate::db::edit_success;
use crate::db::find_report;
use crate::db::norm_offset;
use crate::db::spec_list_key;
use crate::db::spec_lookup;
use crate::db::spec_parse_id;
use crate::db::spec_report_key;
use crate::db::spec_window;
use crate::db::tsorted;
use crate::db::Database;
use crate::types::DefaultReturn;
use crate::types::OffsetQueryProps;
use crate::types::PCreateReport;
use crate::types::PEditStatus;
use crate::types::Report;
use crate::types::ReportStatus;
use crate::types::ReportView;
use vstd::prelude::*;

verus! {

/// The report a submission asks for, once the service has forced the
/// status to Active and stamped the clock.
pub open spec fn spec_requested(props: PCreateReport, author: Seq<char>, now: u128) -> ReportView {
    ReportView {
        report_type: props.report_type,
        status: ReportStatus::Active,
        author: author,
        content: props.content@,
        address: props.address@,
        timestamp: now,
    }
}

impl Database {
    /// File a submission at a known instant: the reporter's chosen
    /// type, content and address, the author the authentication layer
    /// resolved (empty for an unauthenticated reporter), status forced
    /// to Active whatever was asked.
    pub fn submit_report_at(
        &mut self,
        props: PCreateReport,
        author: String,
        now: u128,
    ) -> (r: DefaultReturn<Report>)
        requires
            old(self).wf(),
        ensures
            final(self).wf(),
            !(1 <= props.content@.len() <= 2000) ==> (!r.success && r.message@
                == "Content is invalid"@ && r.payload is None && *final(self) == *old(self)),
            (1 <= props.content@.len() <= 2000 && old(self).spec_next_id() == u128::MAX) ==> (
            !r.success && r.message@ == "Storage error"@ && r.payload is None && *final(self)
                == *old(self)),
            (1 <= props.content@.len() <= 2000 && old(self).spec_next_id() < u128::MAX)
                ==> create_success(
                *old(self),
                *final(self),
                spec_requested(props, author@, now),
                now,
                r,
            ),
    {
        let report = Report {
            report_type: props.report_type,
            status: ReportStatus::Active,
            author: author,
            content: props.content,
            address: props.address,
            timestamp: now,
        };
        let r = self.create_report_at(&report, now);
        proof {
            if 1 <= report@.content.len() <= 2000 && old(self).spec_next_id() < u128::MAX {
                assert(ReportView {
                    status: ReportStatus::Active,
                    timestamp: now,
                    ..report@
                } == ReportView {
                    status: ReportStatus::Active,
                    timestamp: now,
                    ..spec_requested(props, report@.author, now)
                });
            }
        }
        r
    }

    /// File a submission stamped with the clock as it reads now.
    pub fn submit_report(&mut self, props: PCreateReport, author: String) -> (r: DefaultReturn<
        Report,
    >)
        requires
            old(self).wf(),
        ensures
            final(self).wf(),
            !(1 <= props.content@.len() <= 2000) ==> (!r.success && r.message@
                == "Content is invalid"@ && r.payload is None && *final(self) == *old(self)),
            (1 <= props.content@.len() <= 2000 && old(self).spec_next_id() == u128::MAX) ==> (
            !r.success && r.message@ == "Storage error"@ && r.payload is None && *final(self)
                == *old(self)),
            (1 <= props.content@.len() <= 2000 && old(self).spec_next_id() < u128::MAX)
                ==> exists|now: u128|
                #[trigger] create_success(
                    *old(self),
                    *final(self),
                    spec_requested(props, author@, now),
                    now,
                    r,
                ),
    {
        let now = crate::db::epoch_now();
        let r = self.submit_report_at(props, author, now);
        r
    }

    /// One page of the active reports, most recent first.
    pub fn list_active_reports(&mut self, info: &OffsetQueryProps) -> (r: DefaultReturn<
        Vec<Report>,
    >)
        requires
            old(self).wf(),
        ensures
            final(self).wf(),
            final(self).storage() == old(self).storage(),
            final(self).spec_next_id() == old(self).spec_next_id(),
            r.success,
            r.message@ == "Found reports"@,
            r.payload matches Some(v) && v.deep_view() == spec_window(
                old(self).storage(),
                norm_offset(info.offset),
            ),
            r.payload matches Some(v) && tsorted(v.deep_view()),
            old(self).cache_map().contains_key(spec_list_key(norm_offset(info.offset)))
                ==> *final(self) == *old(self),
            !old(self).cache_map().contains_key(spec_list_key(norm_offset(info.offset)))
                ==> final(self).cache_map() == old(self).cache_map().insert(
                spec_list_key(norm_offset(info.offset)),
                spec_encode_list_of(old(self).storage(), norm_offset(info.offset)),
            ),
    {
        self.get_all_reports(info.offset)
    }

    /// One report by its id.
    pub fn get_report(&mut self, id: String) -> (r: DefaultReturn<Report>)
        requires
            old(self).wf(),
        ensures
            final(self).wf(),
            final(self).storage() == old(self).storage(),
            final(self).spec_next_id() == old(self).spec_next_id(),
            r.success == (spec_lookup(old(self).storage(), id@) is Some),
            match spec_lookup(old(self).storage(), id@) {
                Some(rv) => r.payload matches Some(rep) && rep@ == rv,
                None => r.payload is None,
            },
    {
        self.get_report_by_id(id)
    }

    /// Move a report to a new status, for an authorized caller. A
    /// missing report fails before authorization is considered; a
    /// refused caller leaves every row as it was.
    pub fn set_report_status(
        &mut self,
        id: String,
        props: PEditStatus,
        edit_as: Option<FullUser>,
    ) -> (r: DefaultReturn<String>)
        requires
            old(self).wf(),
        ensures
            final(self).wf(),
            spec_lookup(old(self).storage(), id@) is None ==> (!r.success && r.message@
                == "Report does not exist!"@ && r.payload is None && *final(self) == *old(self)),
            (spec_lookup(old(self).storage(), id@) is Some && !spec_is_authorized(edit_as)) ==> (
            !r.success && r.message@ == "You are not allowed to do this."@ && r.payload is None
                && final(self).storage() == old(self).storage() && final(self).spec_next_id()
                == old(self).spec_next_id()),
            (spec_lookup(old(self).storage(), id@) is Some && spec_is_authorized(edit_as)) ==> {
                &&& r.success
                &&& r.message@ == "Report updated!"@
                &&& (r.payload matches Some(p) && p@ == id@)
                &&& forall|n: u128|
                    spec_parse_id(id@) == Some(n) ==> edit_success(
                        *old(self),
                        *final(self),
                        n,
                        props.status,
                    )
            },
    {
        self.edit_report_status_by_id(id, props.status, edit_as)
    }
}

/// The text a warmed listing window holds for these rows and offset.
pub open spec fn spec_encode_list_of(s: Seq<crate::db::StoredView>, off: nat) -> Seq<char> {
    crate::codec::spec_encode_list(spec_window(s, off))
}

} // verus!
