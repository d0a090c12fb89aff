//! Text form of reports: stable tags for the enums, and a
//! length-prefixed record format for cache values.
//!
//! Enums are persisted as their textual tags and read back closed:
//! an unrecognized tag decodes to nothing rather than to a default.
//! A report is encoded as six length-prefixed fields (type tag, status
//! tag, author, content, address, decimal timestamp); a listing window
//! as a record count followed by that many records. Decoding is proved
//! to reproduce exactly what was encoded, so a cache hit returns the
//! same value the miss path stored.

use crate::digits::dec_rep;
use crate::digits::lemma_dec_rep_canonical;
use crate::digits::parse_u128_dec;
use crate::digits::spec_is_digit;
use crate::digits::u128_to_dec;
use crate::types::Report;
use crate::types::ReportStatus;
use crate::types::ReportType;
use crate::types::ReportView;
use vstd::prelude::*;
use vstd::string::StrSliceExecFns;
use vstd::string::StringExecFns;

verus! {

// ---------------------------------------------------------------------
// enum tags
// ---------------------------------------------------------------------
/// The stable textual tag of a report type.
pub open spec fn spec_type_tag(t: ReportType) -> Seq<char> {
    match t {
        ReportType::Harassment => "Harassment"@,
        ReportType::Abuse => "Abuse"@,
        ReportType::Illegal => "Illegal"@,
        ReportType::Harmful => "Harmful"@,
        ReportType::Other => "Other"@,
    }
}

/// The stable textual tag of a report status.
pub open spec fn spec_status_tag(st: ReportStatus) -> Seq<char> {
    match st {
        ReportStatus::Active => "Active"@,
        ReportStatus::Archived => "Archived"@,
        ReportStatus::Spam => "Spam"@,
    }
}

/// No two report types share a tag.
pub proof fn lemma_type_tags_distinct()
    ensures
        forall|a: ReportType, b: ReportType|
            spec_type_tag(a) == spec_type_tag(b) ==> a == b,
        forall|t: ReportType| #![auto]
            spec_type_tag(t) == "Harassment"@ || spec_type_tag(t) == "Abuse"@ || spec_type_tag(t)
                == "Illegal"@ || spec_type_tag(t) == "Harmful"@ || spec_type_tag(t) == "Other"@,
{
    assert forall|t: ReportType| #![auto]
        spec_type_tag(t) == "Harassment"@ || spec_type_tag(t) == "Abuse"@ || spec_type_tag(t)
            == "Illegal"@ || spec_type_tag(t) == "Harmful"@ || spec_type_tag(t)
            == "Other"@ by {
        match t {
            ReportType::Harassment => {},
            ReportType::Abuse => {},
            ReportType::Illegal => {},
            ReportType::Harmful => {},
            ReportType::Other => {},
        }
    }
    reveal_strlit("Harassment");
    reveal_strlit("Abuse");
    reveal_strlit("Illegal");
    reveal_strlit("Harmful");
    reveal_strlit("Other");
    assert forall|a: ReportType, b: ReportType|
        spec_type_tag(a) == spec_type_tag(b) implies a == b by {
        assert("Harassment"@.len() == 10);
        assert("Abuse"@.len() == 5);
        assert("Illegal"@.len() == 7);
        assert("Harmful"@.len() == 7);
        assert("Other"@.len() == 5);
        assert("Illegal"@[0] == 'I');
        assert("Harmful"@[0] == 'H');
        assert("Abuse"@[0] == 'A');
        assert("Other"@[0] == 'O');
    }
}

/// No two statuses share a tag.
pub proof fn lemma_status_tags_distinct()
    ensures
        forall|a: ReportStatus, b: ReportStatus|
            spec_status_tag(a) == spec_status_tag(b) ==> a == b,
        forall|st: ReportStatus| #![auto]
            spec_status_tag(st) == "Active"@ || spec_status_tag(st) == "Archived"@
                || spec_status_tag(st) == "Spam"@,
{
    assert forall|st: ReportStatus| #![auto]
        spec_status_tag(st) == "Active"@ || spec_status_tag(st) == "Archived"@ || spec_status_tag(
            st,
        ) == "Spam"@ by {
        match st {
            ReportStatus::Active => {},
            ReportStatus::Archived => {},
            ReportStatus::Spam => {},
        }
    }
    reveal_strlit("Active");
    reveal_strlit("Archived");
    reveal_strlit("Spam");
    assert forall|a: ReportStatus, b: ReportStatus|
        spec_status_tag(a) == spec_status_tag(b) implies a == b by {
        assert("Active"@.len() == 6);
        assert("Archived"@.len() == 8);
        assert("Spam"@.len() == 4);
    }
}

/// Encode a report type as its tag.
pub fn type_tag(t: ReportType) -> (r: String)
    ensures
        r@ == spec_type_tag(t),
{
    match t {
        ReportType::Harassment => String::from_str("Harassment"),
        ReportType::Abuse => String::from_str("Abuse"),
        ReportType::Illegal => String::from_str("Illegal"),
        ReportType::Harmful => String::from_str("Harmful"),
        ReportType::Other => String::from_str("Other"),
    }
}

/// Encode a status as its tag.
pub fn status_tag(st: ReportStatus) -> (r: String)
    ensures
        r@ == spec_status_tag(st),
{
    match st {
        ReportStatus::Active => String::from_str("Active"),
        ReportStatus::Archived => String::from_str("Archived"),
        ReportStatus::Spam => String::from_str("Spam"),
    }
}

pub fn str_eq(a: &str, b: &str) -> (r: bool)
    ensures
        r == (a@ == b@),
{
    let sa = a.to_owned();
    let sb = b.to_owned();
    sa.eq(&sb)
}

/// Decode a report-type tag, failing closed on anything unrecognized.
pub fn type_of_tag(s: &str) -> (r: Option<ReportType>)
    ensures
        r matches Some(t) ==> s@ == spec_type_tag(t),
        forall|t: ReportType| s@ == spec_type_tag(t) ==> r == Some(t),
{
    proof {
        lemma_type_tags_distinct();
        assert(spec_type_tag(ReportType::Harassment) == "Harassment"@);
        assert(spec_type_tag(ReportType::Abuse) == "Abuse"@);
        assert(spec_type_tag(ReportType::Illegal) == "Illegal"@);
        assert(spec_type_tag(ReportType::Harmful) == "Harmful"@);
        assert(spec_type_tag(ReportType::Other) == "Other"@);
    }
    if str_eq(s, "Harassment") {
        Some(ReportType::Harassment)
    } else if str_eq(s, "Abuse") {
        Some(ReportType::Abuse)
    } else if str_eq(s, "Illegal") {
        Some(ReportType::Illegal)
    } else if str_eq(s, "Harmful") {
        Some(ReportType::Harmful)
    } else if str_eq(s, "Other") {
        Some(ReportType::Other)
    } else {
        None
    }
}

/// Decode a status tag, failing closed on anything unrecognized.
pub fn status_of_tag(s: &str) -> (r: Option<ReportStatus>)
    ensures
        r matches Some(st) ==> s@ == spec_status_tag(st),
        forall|st: ReportStatus| s@ == spec_status_tag(st) ==> r == Some(st),
{
    proof {
        lemma_status_tags_distinct();
        assert(spec_status_tag(ReportStatus::Active) == "Active"@);
        assert(spec_status_tag(ReportStatus::Archived) == "Archived"@);
        assert(spec_status_tag(ReportStatus::Spam) == "Spam"@);
    }
    if str_eq(s, "Active") {
        Some(ReportStatus::Active)
    } else if str_eq(s, "Archived") {
        Some(ReportStatus::Archived)
    } else if str_eq(s, "Spam") {
        Some(ReportStatus::Spam)
    } else {
        None
    }
}

// ---------------------------------------------------------------------
// length-prefixed fields
// ---------------------------------------------------------------------
/// `p` stands at position `pos` of `s`.
pub open spec fn prefix_at(s: Seq<char>, pos: int, p: Seq<char>) -> bool {
    0 <= pos && pos + p.len() <= s.len() && s.subrange(pos, pos + p.len()) == p
}

/// A field: the character count in decimal, a colon, the characters.
pub open spec fn enc_str(f: Seq<char>) -> Seq<char> {
    dec_rep(f.len() as nat) + seq![':'] + f
}

pub proof fn lemma_prefix_split(s: Seq<char>, pos: int, x: Seq<char>, y: Seq<char>)
    requires
        prefix_at(s, pos, x + y),
    ensures
        prefix_at(s, pos, x),
        prefix_at(s, pos + x.len(), y),
{
    assert(s.subrange(pos, pos + x.len()) =~= (x + y).subrange(0, x.len() as int));
    assert((x + y).subrange(0, x.len() as int) =~= x);
    assert(s.subrange(pos + x.len(), pos + x.len() + y.len()) =~= (x + y).subrange(
        x.len() as int,
        (x + y).len() as int,
    ));
    assert((x + y).subrange(x.len() as int, (x + y).len() as int) =~= y);
}

pub proof fn lemma_prefix_join(s: Seq<char>, pos: int, x: Seq<char>, y: Seq<char>)
    requires
        prefix_at(s, pos, x),
        prefix_at(s, pos + x.len(), y),
    ensures
        prefix_at(s, pos, x + y),
{
    assert(s.subrange(pos, pos + (x + y).len()) =~= x + y);
}

/// Two decimal-then-colon prefixes at one position spell one number.
proof fn lemma_count_prefix_unique(s: Seq<char>, pos: int, n: nat, m: nat)
    requires
        prefix_at(s, pos, dec_rep(n) + seq![':']),
        prefix_at(s, pos, dec_rep(m) + seq![':']),
    ensures
        n == m,
{
    let a = dec_rep(n);
    let b = dec_rep(m);
    lemma_dec_rep_canonical(n);
    lemma_dec_rep_canonical(m);
    assert(!spec_is_digit(':'));
    if a.len() < b.len() {
        assert(s[pos + a.len()] == (a + seq![':'])[a.len() as int]);
        assert(s[pos + a.len()] == ':');
        assert(s[pos + a.len()] == (b + seq![':'])[a.len() as int]);
        assert(s[pos + a.len()] == b[a.len() as int]);
        assert(spec_is_digit(b[a.len() as int]));
        assert(false);
    } else if b.len() < a.len() {
        assert(s[pos + b.len()] == (b + seq![':'])[b.len() as int]);
        assert(s[pos + b.len()] == ':');
        assert(s[pos + b.len()] == (a + seq![':'])[b.len() as int]);
        assert(s[pos + b.len()] == a[b.len() as int]);
        assert(spec_is_digit(a[b.len() as int]));
        assert(false);
    } else {
        assert(a =~= b) by {
            assert forall|i: int| 0 <= i < a.len() implies a[i] == b[i] by {
                assert(a[i] == (a + seq![':'])[i]);
                assert(a[i] == s[pos + i]);
                assert(b[i] == (b + seq![':'])[i]);
                assert(b[i] == s[pos + i]);
            }
        }
        assert(crate::digits::dec_val(a) == n);
        assert(crate::digits::dec_val(b) == m);
    }
}

/// Two fields that start at one position are the same field.
pub proof fn lemma_enc_str_prefix_unique(s: Seq<char>, pos: int, f: Seq<char>, g: Seq<char>)
    requires
        prefix_at(s, pos, enc_str(f)),
        prefix_at(s, pos, enc_str(g)),
    ensures
        f == g,
{
    let a = dec_rep(f.len() as nat);
    let b = dec_rep(g.len() as nat);
    assert(enc_str(f) =~= (a + seq![':']) + f);
    assert(enc_str(g) =~= (b + seq![':']) + g);
    lemma_prefix_split(s, pos, a + seq![':'], f);
    lemma_prefix_split(s, pos, b + seq![':'], g);
    lemma_count_prefix_unique(s, pos, f.len() as nat, g.len() as nat);
    assert(f.len() == g.len());
    assert(f =~= g) by {
        assert forall|i: int| 0 <= i < f.len() implies f[i] == g[i] by {
            assert(f[i] == s[pos + (a + seq![':']).len() + i]);
            assert(g[i] == s[pos + (b + seq![':']).len() + i]);
        }
    }
}

/// Append one field to the output.
fn push_field(out: &mut String, s: &str)
    ensures
        final(out)@ == old(out)@ + enc_str(s@),
{
    let n = s.unicode_len();
    let num = u128_to_dec(n as u128);
    out.append(num.as_str());
    proof {
        reveal_strlit(":");
    }
    out.append(":");
    out.append(s);
    proof {
        assert(":"@ =~= seq![':']);
        assert(out@ =~= old(out)@ + enc_str(s@));
    }
}

fn scan_digits(s: &str, pos: usize, len: usize) -> (j: usize)
    requires
        pos <= len,
        len == s@.len(),
    ensures
        pos <= j <= len,
        forall|k: int| pos <= k < j ==> spec_is_digit(#[trigger] s@[k]),
        j < len ==> !spec_is_digit(s@[j as int]),
{
    let mut j = pos;
    loop
        invariant
            pos <= j <= len,
            len == s@.len(),
            forall|k: int| pos <= k < j ==> spec_is_digit(#[trigger] s@[k]),
        decreases len - j,
    {
        if j >= len {
            return j;
        }
        let c = s.get_char(j);
        if !is_digit_exec(c) {
            return j;
        }
        j = j + 1;
    }
}

fn is_digit_exec(c: char) -> (r: bool)
    ensures
        r == spec_is_digit(c),
{
    c == '0' || c == '1' || c == '2' || c == '3' || c == '4' || c == '5' || c == '6' || c == '7'
        || c == '8' || c == '9'
}

/// Read one field at `pos`. Exactly the positions where a field stands
/// yield one, and what is read is the field that stands there.
pub fn parse_field(s: &str, pos: usize) -> (r: Option<(String, usize)>)
    requires
        pos <= s@.len(),
    ensures
        r matches Some(fp) ==> {
            &&& pos < fp.1 <= s@.len()
            &&& prefix_at(s@, pos as int, enc_str(fp.0@))
            &&& fp.1 as int == pos + enc_str(fp.0@).len()
        },
        (exists|f: Seq<char>| #[trigger] prefix_at(s@, pos as int, enc_str(f))) ==> r is Some,
{
    let ghost haspre = exists|f: Seq<char>| #[trigger] prefix_at(s@, pos as int, enc_str(f));
    let ghost gf: Seq<char> = if haspre {
        choose|f: Seq<char>| #[trigger] prefix_at(s@, pos as int, enc_str(f))
    } else {
        Seq::empty()
    };
    proof {
        if haspre {
            lemma_dec_rep_canonical(gf.len() as nat);
            assert(enc_str(gf) =~= (dec_rep(gf.len() as nat) + seq![':']) + gf);
            lemma_prefix_split(s@, pos as int, dec_rep(gf.len() as nat) + seq![':'], gf);
            assert(enc_str(gf) =~= dec_rep(gf.len() as nat) + (seq![':'] + gf));
            lemma_prefix_split(
                s@,
                pos as int,
                dec_rep(gf.len() as nat),
                seq![':'] + gf,
            );
        }
    }
    let ghost gda: int = dec_rep(gf.len() as nat).len() as int;
    let len = s.unicode_len();
    let j = scan_digits(s, pos, len);
    proof {
        if haspre {
            // the digit scan stops exactly at the colon after the count
            assert(s@[pos + gda] == ((dec_rep(gf.len() as nat) + seq![':']))[gda]);
            assert(s@[pos + gda] == ':');
            assert(!spec_is_digit(':'));
            assert forall|k: int| pos <= k < pos + gda implies spec_is_digit(#[trigger] s@[k]) by {
                assert(s@[k] == dec_rep(gf.len() as nat)[k - pos]);
            }
            assert(j as int == pos + gda) by {
                if (j as int) < pos + gda {
                    assert(spec_is_digit(s@[j as int]));
                    assert(j < len);
                    assert(false);
                }
                if (j as int) > pos + gda {
                    assert(spec_is_digit(s@[pos + gda]));
                    assert(false);
                }
            }
        }
    }
    if j >= len {
        proof {
            if haspre {
                assert(pos + gda < s@.len());
                assert(false);
            }
        }
        return None;
    }
    if j == pos {
        proof {
            if haspre {
                assert(gda >= 1);
                assert(false);
            }
        }
        return None;
    }
    let c = s.get_char(j);
    if c != ':' {
        proof {
            if haspre {
                assert(s@[j as int] == ':');
                assert(false);
            }
        }
        return None;
    }
    let num = s.substring_char(pos, j);
    let lopt = parse_u128_dec(num);
    let l128 = match lopt {
        Some(v) => v,
        None => {
            proof {
                if haspre {
                    assert(num@ =~= dec_rep(gf.len() as nat));
                    assert(gf.len() <= s@.len());
                    assert(num@ == dec_rep((gf.len() as u128) as nat));
                    assert(false);
                }
            }
            return None;
        },
    };
    let pos2 = j + 1;
    let rem = len - pos2;
    if l128 > rem as u128 {
        proof {
            if haspre {
                assert(num@ =~= dec_rep(gf.len() as nat));
                assert(num@ == dec_rep((gf.len() as u128) as nat));
                assert(l128 == gf.len() as u128);
                assert(pos + enc_str(gf).len() <= s@.len());
                assert(enc_str(gf).len() == gda + 1 + gf.len());
                assert(false);
            }
        }
        return None;
    }
    let l = l128 as usize;
    let fstr = s.substring_char(pos2, pos2 + l);
    let f = fstr.to_owned();
    proof {
        assert(num@ =~= s@.subrange(pos as int, j as int));
        assert(num@ == dec_rep(l128 as nat));
        assert(f@ =~= s@.subrange(pos2 as int, pos2 as int + l as int));
        assert(f@.len() == l as nat);
        assert(enc_str(f@) =~= s@.subrange(pos as int, pos2 as int + l as int)) by {
            assert(s@.subrange(j as int, j as int + 1) =~= seq![s@[j as int]]);
            assert(s@[j as int] == ':');
            assert(enc_str(f@) =~= dec_rep(l128 as nat) + seq![':'] + f@);
            assert(s@.subrange(pos as int, pos2 as int + l as int) =~= s@.subrange(
                pos as int,
                j as int,
            ) + s@.subrange(j as int, j as int + 1) + s@.subrange(
                pos2 as int,
                pos2 as int + l as int,
            ));
        }
        assert(prefix_at(s@, pos as int, enc_str(f@)));
    }
    Some((f, pos2 + l))
}

// ---------------------------------------------------------------------
// whole reports
// ---------------------------------------------------------------------
/// A report as one record: six length-prefixed fields.
pub open spec fn spec_encode_report(rv: ReportView) -> Seq<char> {
    enc_str(spec_type_tag(rv.report_type)) + enc_str(spec_status_tag(rv.status)) + enc_str(
        rv.author,
    ) + enc_str(rv.content) + enc_str(rv.address) + enc_str(dec_rep(rv.timestamp as nat))
}

/// Encode one report.
pub fn encode_report(r: &Report) -> (out: String)
    ensures
        out@ == spec_encode_report(r@),
{
    let mut out = String::new();
    let tt = type_tag(r.report_type);
    push_field(&mut out, tt.as_str());
    let st = status_tag(r.status);
    push_field(&mut out, st.as_str());
    push_field(&mut out, r.author.as_str());
    push_field(&mut out, r.content.as_str());
    push_field(&mut out, r.address.as_str());
    let ts = u128_to_dec(r.timestamp);
    push_field(&mut out, ts.as_str());
    proof {
        assert(out@ =~= spec_encode_report(r@));
    }
    out
}

/// Two report records that start at one position are the same record.
pub proof fn lemma_report_prefix_unique(s: Seq<char>, pos: int, a: ReportView, b: ReportView)
    requires
        prefix_at(s, pos, spec_encode_report(a)),
        prefix_at(s, pos, spec_encode_report(b)),
    ensures
        a == b,
        spec_encode_report(a) == spec_encode_report(b),
{
    let a1 = enc_str(spec_type_tag(a.report_type));
    let a2 = enc_str(spec_status_tag(a.status));
    let a3 = enc_str(a.author);
    let a4 = enc_str(a.content);
    let a5 = enc_str(a.address);
    let a6 = enc_str(dec_rep(a.timestamp as nat));
    let b1 = enc_str(spec_type_tag(b.report_type));
    let b2 = enc_str(spec_status_tag(b.status));
    let b3 = enc_str(b.author);
    let b4 = enc_str(b.content);
    let b5 = enc_str(b.address);
    let b6 = enc_str(dec_rep(b.timestamp as nat));
    lemma_prefix_split(s, pos, a1 + a2 + a3 + a4 + a5, a6);
    lemma_prefix_split(s, pos, a1 + a2 + a3 + a4, a5);
    lemma_prefix_split(s, pos, a1 + a2 + a3, a4);
    lemma_prefix_split(s, pos, a1 + a2, a3);
    lemma_prefix_split(s, pos, a1, a2);
    lemma_prefix_split(s, pos, b1 + b2 + b3 + b4 + b5, b6);
    lemma_prefix_split(s, pos, b1 + b2 + b3 + b4, b5);
    lemma_prefix_split(s, pos, b1 + b2 + b3, b4);
    lemma_prefix_split(s, pos, b1 + b2, b3);
    lemma_prefix_split(s, pos, b1, b2);
    lemma_enc_str_prefix_unique(s, pos, spec_type_tag(a.report_type), spec_type_tag(b.report_type));
    lemma_type_tags_distinct();
    assert(a.report_type == b.report_type);
    assert(a1 == b1);
    lemma_enc_str_prefix_unique(
        s,
        pos + a1.len(),
        spec_status_tag(a.status),
        spec_status_tag(b.status),
    );
    lemma_status_tags_distinct();
    assert(a.status == b.status);
    assert(a2 == b2);
    lemma_enc_str_prefix_unique(s, pos + (a1 + a2).len(), a.author, b.author);
    assert(a3 == b3);
    lemma_enc_str_prefix_unique(s, pos + (a1 + a2 + a3).len(), a.content, b.content);
    assert(a4 == b4);
    lemma_enc_str_prefix_unique(s, pos + (a1 + a2 + a3 + a4).len(), a.address, b.address);
    assert(a5 == b5);
    lemma_enc_str_prefix_unique(
        s,
        pos + (a1 + a2 + a3 + a4 + a5).len(),
        dec_rep(a.timestamp as nat),
        dec_rep(b.timestamp as nat),
    );
    lemma_dec_rep_canonical(a.timestamp as nat);
    lemma_dec_rep_canonical(b.timestamp as nat);
    assert(a.timestamp == b.timestamp);
}

/// Read one report record at `pos`.
pub fn parse_report(s: &str, pos: usize) -> (r: Option<(Report, usize)>)
    requires
        pos <= s@.len(),
    ensures
        r matches Some(rp) ==> {
            &&& pos < rp.1 <= s@.len()
            &&& prefix_at(s@, pos as int, spec_encode_report(rp.0@))
            &&& rp.1 as int == pos + spec_encode_report(rp.0@).len()
        },
        (exists|rv: ReportView| #[trigger] prefix_at(s@, pos as int, spec_encode_report(rv)))
            ==> r is Some,
{
    let ghost haspre = exists|rv: ReportView|
        #[trigger] prefix_at(s@, pos as int, spec_encode_report(rv));
    let ghost grv: ReportView = if haspre {
        choose|rv: ReportView| #[trigger] prefix_at(s@, pos as int, spec_encode_report(rv))
    } else {
        arbitrary()
    };
    let ghost g1 = enc_str(spec_type_tag(grv.report_type));
    let ghost g2 = enc_str(spec_status_tag(grv.status));
    let ghost g3 = enc_str(grv.author);
    let ghost g4 = enc_str(grv.content);
    let ghost g5 = enc_str(grv.address);
    let ghost g6 = enc_str(dec_rep(grv.timestamp as nat));
    proof {
        if haspre {
            lemma_prefix_split(s@, pos as int, g1 + g2 + g3 + g4 + g5, g6);
            lemma_prefix_split(s@, pos as int, g1 + g2 + g3 + g4, g5);
            lemma_prefix_split(s@, pos as int, g1 + g2 + g3, g4);
            lemma_prefix_split(s@, pos as int, g1 + g2, g3);
            lemma_prefix_split(s@, pos as int, g1, g2);
        }
    }
    let f1 = match parse_field(s, pos) {
        Some(fp) => fp,
        None => {
            proof {
                if haspre {
                    assert(prefix_at(s@, pos as int, enc_str(spec_type_tag(grv.report_type))));
                    assert(false);
                }
            }
            return None;
        },
    };
    proof {
        if haspre {
            lemma_enc_str_prefix_unique(
                s@,
                pos as int,
                f1.0@,
                spec_type_tag(grv.report_type),
            );
        }
    }
    let rt = match type_of_tag(f1.0.as_str()) {
        Some(t) => t,
        None => {
            proof {
                if haspre {
                    assert(f1.0@ == spec_type_tag(grv.report_type));
                    assert(false);
                }
            }
            return None;
        },
    };
    let f2 = match parse_field(s, f1.1) {
        Some(fp) => fp,
        None => {
            proof {
                if haspre {
                    assert(f1.1 as int == pos + g1.len());
                    assert(prefix_at(s@, f1.1 as int, enc_str(spec_status_tag(grv.status))));
                    assert(false);
                }
            }
            return None;
        },
    };
    proof {
        if haspre {
            lemma_enc_str_prefix_unique(
                s@,
                f1.1 as int,
                f2.0@,
                spec_status_tag(grv.status),
            );
        }
    }
    let st = match status_of_tag(f2.0.as_str()) {
        Some(t) => t,
        None => {
            proof {
                if haspre {
                    assert(f2.0@ == spec_status_tag(grv.status));
                    assert(false);
                }
            }
            return None;
        },
    };
    let f3 = match parse_field(s, f2.1) {
        Some(fp) => fp,
        None => {
            proof {
                if haspre {
                    assert(f2.1 as int == pos + (g1 + g2).len());
                    assert(prefix_at(s@, f2.1 as int, enc_str(grv.author)));
                    assert(false);
                }
            }
            return None;
        },
    };
    proof {
        if haspre {
            lemma_enc_str_prefix_unique(s@, f2.1 as int, f3.0@, grv.author);
        }
    }
    let f4 = match parse_field(s, f3.1) {
        Some(fp) => fp,
        None => {
            proof {
                if haspre {
                    assert(f3.1 as int == pos + (g1 + g2 + g3).len());
                    assert(prefix_at(s@, f3.1 as int, enc_str(grv.content)));
                    assert(false);
                }
            }
            return None;
        },
    };
    proof {
        if haspre {
            lemma_enc_str_prefix_unique(s@, f3.1 as int, f4.0@, grv.content);
        }
    }
    let f5 = match parse_field(s, f4.1) {
        Some(fp) => fp,
        None => {
            proof {
                if haspre {
                    assert(f4.1 as int == pos + (g1 + g2 + g3 + g4).len());
                    assert(prefix_at(s@, f4.1 as int, enc_str(grv.address)));
                    assert(false);
                }
            }
            return None;
        },
    };
    proof {
        if haspre {
            lemma_enc_str_prefix_unique(s@, f4.1 as int, f5.0@, grv.address);
        }
    }
    let f6 = match parse_field(s, f5.1) {
        Some(fp) => fp,
        None => {
            proof {
                if haspre {
                    assert(f5.1 as int == pos + (g1 + g2 + g3 + g4 + g5).len());
                    assert(prefix_at(s@, f5.1 as int, enc_str(dec_rep(grv.timestamp as nat))));
                    assert(false);
                }
            }
            return None;
        },
    };
    proof {
        if haspre {
            lemma_enc_str_prefix_unique(s@, f5.1 as int, f6.0@, dec_rep(grv.timestamp as nat));
        }
    }
    let ts = match parse_u128_dec(f6.0.as_str()) {
        Some(v) => v,
        None => {
            proof {
                if haspre {
                    assert(f6.0@ == dec_rep((grv.timestamp as u128) as nat));
                    assert(false);
                }
            }
            return None;
        },
    };
    let rep = Report {
        report_type: rt,
        status: st,
        author: f3.0,
        content: f4.0,
        address: f5.0,
        timestamp: ts,
    };
    proof {
        assert(spec_encode_report(rep@) == enc_str(spec_type_tag(rt)) + enc_str(spec_status_tag(st))
            + enc_str(rep@.author) + enc_str(rep@.content) + enc_str(rep@.address) + enc_str(
            dec_rep(ts as nat),
        ));
        assert(enc_str(spec_type_tag(rt)) == enc_str(f1.0@));
        assert(enc_str(spec_status_tag(st)) == enc_str(f2.0@));
        assert(enc_str(dec_rep(ts as nat)) == enc_str(f6.0@));
        lemma_prefix_join(s@, pos as int, enc_str(f1.0@), enc_str(f2.0@));
        lemma_prefix_join(s@, pos as int, enc_str(f1.0@) + enc_str(f2.0@), enc_str(f3.0@));
        lemma_prefix_join(
            s@,
            pos as int,
            enc_str(f1.0@) + enc_str(f2.0@) + enc_str(f3.0@),
            enc_str(f4.0@),
        );
        lemma_prefix_join(
            s@,
            pos as int,
            enc_str(f1.0@) + enc_str(f2.0@) + enc_str(f3.0@) + enc_str(f4.0@),
            enc_str(f5.0@),
        );
        lemma_prefix_join(
            s@,
            pos as int,
            enc_str(f1.0@) + enc_str(f2.0@) + enc_str(f3.0@) + enc_str(f4.0@) + enc_str(f5.0@),
            enc_str(f6.0@),
        );
        assert(prefix_at(s@, pos as int, spec_encode_report(rep@)));
    }
    Some((rep, f6.1))
}

// ---------------------------------------------------------------------
// listing windows
// ---------------------------------------------------------------------
/// The records of a listing window, one after the other.
pub open spec fn spec_encode_reports(rs: Seq<ReportView>) -> Seq<char>
    decreases rs.len(),
{
    if rs.len() == 0 {
        Seq::empty()
    } else {
        spec_encode_report(rs[0]) + spec_encode_reports(rs.drop_first())
    }
}

/// A listing window: the record count in decimal, a colon, the records.
pub open spec fn spec_encode_list(rs: Seq<ReportView>) -> Seq<char> {
    dec_rep(rs.len() as nat) + seq![':'] + spec_encode_reports(rs)
}

proof fn lemma_encode_reports_snoc(rs: Seq<ReportView>, rv: ReportView)
    ensures
        spec_encode_reports(rs.push(rv)) == spec_encode_reports(rs) + spec_encode_report(rv),
    decreases rs.len(),
{
    if rs.len() == 0 {
        assert(rs.push(rv)[0] == rv);
        assert(rs.push(rv).drop_first() =~= Seq::<ReportView>::empty());
        assert(spec_encode_reports(Seq::<ReportView>::empty()) == Seq::<char>::empty());
        assert(spec_encode_reports(rs.push(rv)) =~= spec_encode_reports(rs) + spec_encode_report(
            rv,
        ));
    } else {
        assert(rs.push(rv)[0] == rs[0]);
        assert(rs.push(rv).drop_first() =~= rs.drop_first().push(rv));
        lemma_encode_reports_snoc(rs.drop_first(), rv);
        assert(spec_encode_reports(rs.push(rv)) =~= spec_encode_reports(rs) + spec_encode_report(
            rv,
        ));
    }
}

/// Encode a listing window.
pub fn encode_report_list(v: &Vec<Report>) -> (out: String)
    ensures
        out@ == spec_encode_list(v.deep_view()),
{
    let mut out = u128_to_dec(v.len() as u128);
    proof {
        reveal_strlit(":");
    }
    out.append(":");
    proof {
        assert(":"@ =~= seq![':']);
        assert(v.deep_view().len() == v@.len());
        assert(v.deep_view().subrange(0, 0) =~= Seq::<ReportView>::empty());
        assert(out@ =~= dec_rep(v.deep_view().len() as nat) + seq![':'] + spec_encode_reports(
            v.deep_view().subrange(0, 0),
        ));
    }
    let mut i: usize = 0;
    while i < v.len()
        invariant
            0 <= i <= v.len(),
            v.deep_view().len() == v@.len(),
            out@ == dec_rep(v.deep_view().len() as nat) + seq![':'] + spec_encode_reports(
                v.deep_view().subrange(0, i as int),
            ),
        decreases v.len() - i,
    {
        let er = encode_report(&v[i]);
        out.append(er.as_str());
        proof {
            let dv = v.deep_view();
            assert(dv[i as int] == v@[i as int]@);
            assert(dv.subrange(0, i as int + 1) =~= dv.subrange(0, i as int).push(dv[i as int]));
            lemma_encode_reports_snoc(dv.subrange(0, i as int), dv[i as int]);
            assert(out@ =~= dec_rep(dv.len() as nat) + seq![':'] + spec_encode_reports(
                dv.subrange(0, i as int + 1),
            ));
        }
        i = i + 1;
    }
    proof {
        assert(v.deep_view().subrange(0, v@.len() as int) =~= v.deep_view());
    }
    out
}

/// One record fixes the whole: equal encodings mean equal reports.
pub proof fn lemma_encode_report_injective(a: ReportView, b: ReportView)
    requires
        spec_encode_report(a) == spec_encode_report(b),
    ensures
        a == b,
{
    let s = spec_encode_report(a);
    assert(s.subrange(0, s.len() as int) =~= s);
    assert(prefix_at(s, 0, spec_encode_report(a)));
    assert(prefix_at(s, 0, spec_encode_report(b)));
    lemma_report_prefix_unique(s, 0, a, b);
}

proof fn lemma_encode_reports_prefix_unique(
    s: Seq<char>,
    pos: int,
    a: Seq<ReportView>,
    b: Seq<ReportView>,
)
    requires
        a.len() == b.len(),
        prefix_at(s, pos, spec_encode_reports(a)),
        prefix_at(s, pos, spec_encode_reports(b)),
    ensures
        a == b,
    decreases a.len(),
{
    if a.len() == 0 {
        assert(a =~= b);
    } else {
        assert(spec_encode_reports(a) == spec_encode_report(a[0]) + spec_encode_reports(
            a.drop_first(),
        ));
        assert(spec_encode_reports(b) == spec_encode_report(b[0]) + spec_encode_reports(
            b.drop_first(),
        ));
        lemma_prefix_split(s, pos, spec_encode_report(a[0]), spec_encode_reports(a.drop_first()));
        lemma_prefix_split(s, pos, spec_encode_report(b[0]), spec_encode_reports(b.drop_first()));
        lemma_report_prefix_unique(s, pos, a[0], b[0]);
        lemma_encode_reports_prefix_unique(
            s,
            pos + spec_encode_report(a[0]).len(),
            a.drop_first(),
            b.drop_first(),
        );
        assert(a =~= b) by {
            assert forall|i: int| 0 <= i < a.len() implies a[i] == b[i] by {
                if i > 0 {
                    assert(a[i] == a.drop_first()[i - 1]);
                    assert(b[i] == b.drop_first()[i - 1]);
                }
            }
        }
    }
}

/// One window text fixes the whole: equal encodings mean equal windows.
pub proof fn lemma_encode_list_injective(a: Seq<ReportView>, b: Seq<ReportView>)
    requires
        spec_encode_list(a) == spec_encode_list(b),
    ensures
        a == b,
{
    let s = spec_encode_list(a);
    assert(s.subrange(0, s.len() as int) =~= s);
    assert(prefix_at(s, 0, spec_encode_list(a)));
    assert(prefix_at(s, 0, spec_encode_list(b)));
    assert(spec_encode_list(a) =~= (dec_rep(a.len() as nat) + seq![':']) + spec_encode_reports(a));
    assert(spec_encode_list(b) =~= (dec_rep(b.len() as nat) + seq![':']) + spec_encode_reports(b));
    lemma_prefix_split(s, 0, dec_rep(a.len() as nat) + seq![':'], spec_encode_reports(a));
    lemma_prefix_split(s, 0, dec_rep(b.len() as nat) + seq![':'], spec_encode_reports(b));
    lemma_count_prefix_unique(s, 0, a.len() as nat, b.len() as nat);
    lemma_encode_reports_prefix_unique(s, (dec_rep(a.len() as nat) + seq![':']).len() as int, a, b);
}

/// Decode a single-report cache value. Whatever was encoded is read
/// back in full; text that encodes no report is rejected.
pub fn decode_report(s: &str) -> (r: Option<Report>)
    ensures
        (exists|rv: ReportView| s@ == spec_encode_report(rv)) ==> (r matches Some(rep) && s@
            == spec_encode_report(rep@)),
{
    let ghost has = exists|rv: ReportView| s@ == spec_encode_report(rv);
    let ghost grv: ReportView = if has {
        choose|rv: ReportView| s@ == spec_encode_report(rv)
    } else {
        arbitrary()
    };
    proof {
        if has {
            assert(s@.subrange(0, s@.len() as int) =~= s@);
            assert(prefix_at(s@, 0, spec_encode_report(grv)));
        }
    }
    let len = s.unicode_len();
    match parse_report(s, 0) {
        Some(rp) => {
            if rp.1 == len {
                Some(rp.0)
            } else {
                proof {
                    if has {
                        lemma_report_prefix_unique(s@, 0, rp.0@, grv);
                        assert(false);
                    }
                }
                None
            }
        },
        None => {
            None
        },
    }
}

/// Decode a listing-window cache value. Whatever was encoded is read
/// back in full; text that encodes no window is rejected.
pub fn decode_report_list(s: &str) -> (r: Option<Vec<Report>>)
    ensures
        (exists|rs: Seq<ReportView>| s@ == spec_encode_list(rs)) ==> (r matches Some(v) && s@
            == spec_encode_list(v.deep_view())),
{
    let ghost has = exists|rs: Seq<ReportView>| s@ == spec_encode_list(rs);
    let ghost grs: Seq<ReportView> = if has {
        choose|rs: Seq<ReportView>| s@ == spec_encode_list(rs)
    } else {
        Seq::empty()
    };
    let ghost gda: int = dec_rep(grs.len() as nat).len() as int;
    proof {
        if has {
            lemma_dec_rep_canonical(grs.len() as nat);
            assert(s@.subrange(0, s@.len() as int) =~= s@);
            assert(prefix_at(s@, 0, spec_encode_list(grs)));
            assert(spec_encode_list(grs) =~= (dec_rep(grs.len() as nat) + seq![':'])
                + spec_encode_reports(grs));
            lemma_prefix_split(s@, 0, dec_rep(grs.len() as nat) + seq![':'], spec_encode_reports(
                grs,
            ));
            assert(s@[gda] == (dec_rep(grs.len() as nat) + seq![':'])[gda]);
            assert(s@[gda] == ':');
            assert(!spec_is_digit(':'));
            assert forall|k: int| 0 <= k < gda implies spec_is_digit(#[trigger] s@[k]) by {
                assert(s@[k] == dec_rep(grs.len() as nat)[k]);
            }
        }
    }
    let len = s.unicode_len();
    let j = scan_digits(s, 0, len);
    proof {
        if has {
            assert(j as int == gda) by {
                if (j as int) < gda {
                    assert(spec_is_digit(s@[j as int]));
                    assert(false);
                }
                if (j as int) > gda {
                    assert(spec_is_digit(s@[gda]));
                    assert(false);
                }
            }
        }
    }
    if j >= len {
        proof {
            if has {
                assert(false);
            }
        }
        return None;
    }
    if j == 0 {
        proof {
            if has {
                assert(gda >= 1);
                assert(false);
            }
        }
        return None;
    }
    let c = s.get_char(j);
    if c != ':' {
        proof {
            if has {
                assert(s@[j as int] == ':');
                assert(false);
            }
        }
        return None;
    }
    let num = s.substring_char(0, j);
    let n = match parse_u128_dec(num) {
        Some(v) => v,
        None => {
            proof {
                if has {
                    assert(num@ =~= dec_rep(grs.len() as nat));
                    assert(grs.len() <= s@.len()) by {
                        lemma_encode_reports_len(grs);
                    }
                    assert(num@ == dec_rep((grs.len() as u128) as nat));
                    assert(false);
                }
            }
            return None;
        },
    };
    proof {
        if has {
            assert(num@ =~= dec_rep(grs.len() as nat));
            assert(grs.len() <= s@.len()) by {
                lemma_encode_reports_len(grs);
            }
            assert(num@ == dec_rep((grs.len() as u128) as nat));
            assert(n == grs.len() as u128);
        }
    }
    let mut pos = j + 1;
    let mut out: Vec<Report> = Vec::new();
    let mut k: u128 = 0;
    proof {
        if has {
            assert(out.deep_view() =~= grs.subrange(0, 0));
            assert(spec_encode_reports(grs.subrange(0, 0)) =~= Seq::<char>::empty());
            assert(grs.skip(0) =~= grs);
        }
    }
    while k < n
        invariant
            len == s@.len(),
            0 <= pos <= len,
            out.len() as u128 == k,
            k <= n,
            has == (exists|rs: Seq<ReportView>| s@ == spec_encode_list(rs)),
            has ==> s@ == spec_encode_list(grs),
            gda == dec_rep(grs.len() as nat).len() as int,
            has ==> {
                &&& n == grs.len() as u128
                &&& k <= grs.len()
                &&& out.deep_view() == grs.subrange(0, k as int)
                &&& prefix_at(s@, pos as int, spec_encode_reports(grs.skip(k as int)))
                &&& pos as int == gda + 1 + spec_encode_reports(grs.subrange(0, k as int)).len()
            },
        decreases n - k,
    {
        proof {
            if has {
                let tail = grs.skip(k as int);
                assert(tail.len() > 0);
                assert(spec_encode_reports(tail) == spec_encode_report(tail[0])
                    + spec_encode_reports(tail.drop_first()));
                assert(tail[0] == grs[k as int]);
                assert(tail.drop_first() =~= grs.skip(k as int + 1));
                lemma_prefix_split(
                    s@,
                    pos as int,
                    spec_encode_report(grs[k as int]),
                    spec_encode_reports(grs.skip(k as int + 1)),
                );
            }
        }
        match parse_report(s, pos) {
            Some(rp) => {
                proof {
                    if has {
                        lemma_report_prefix_unique(s@, pos as int, rp.0@, grs[k as int]);
                        assert(out.deep_view().push(rp.0@) =~= grs.subrange(0, k as int + 1));
                        lemma_encode_reports_snoc(grs.subrange(0, k as int), grs[k as int]);
                        assert(grs.subrange(0, k as int).push(grs[k as int]) =~= grs.subrange(
                            0,
                            k as int + 1,
                        ));
                    }
                }
                let rep = rp.0;
                pos = rp.1;
                out.push(rep);
                k = k + 1;
            },
            None => {
                proof {
                    if has {
                        assert(prefix_at(
                            s@,
                            pos as int,
                            spec_encode_report(grs[k as int]),
                        ));
                        assert(false);
                    }
                }
                return None;
            },
        }
    }
    if pos != len {
        proof {
            if has {
                assert(grs.subrange(0, grs.len() as int) =~= grs);
                assert(false);
            }
        }
        return None;
    }
    proof {
        if has {
            assert(grs.subrange(0, grs.len() as int) =~= grs);
            assert(out.deep_view() == grs);
        }
    }
    Some(out)
}

/// A window never holds more records than its text has characters.
proof fn lemma_encode_reports_len(rs: Seq<ReportView>)
    ensures
        spec_encode_reports(rs).len() >= rs.len(),
    decreases rs.len(),
{
    if rs.len() > 0 {
        lemma_encode_reports_len(rs.drop_first());
        lemma_dec_rep_canonical(spec_type_tag(rs[0].report_type).len() as nat);
    }
}

} // verus!
