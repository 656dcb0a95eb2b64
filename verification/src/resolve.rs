//! Template resolution: substituting variables into record templates and
//! parsing the results into typed record values, and the desired-state
//! builder that turns a template list into the desired record set plus the
//! optional zone configuration.

use vstd::prelude::*;

use crate::parse::{parse_ipv4, parse_ipv4_spec, parse_ipv6, parse_ipv6_spec, parse_u16, parse_u16_spec};
use crate::record::{
    records_view, Ipv4, Record, RecordValue, RecordView, ValueView, ZoneValue, ZoneView,
};
use crate::store::{chars_of_str, pass_bound, replace, subst_rounds, VarStore};

verus! {

/// The typed target a template resolves into.
#[derive(Debug, Clone, Copy, PartialEq, Eq, Structural)]
pub enum TargetKind {
    V4,
    V6,
    Port,
    Text,
}

/// A resolution failure: the substituted text could not be parsed as the
/// target type.
#[derive(Debug, Clone, PartialEq, Eq)]
pub struct ResolveError {
    /// The fully substituted text that failed to parse.
    pub text: String,
    /// The target it failed to parse into.
    pub target: TargetKind,
}

/// The text a template resolves to: the fixed number of substitution
/// passes applied to its expression.
pub open spec fn resolved_text(expr: Seq<char>, vars: Seq<(Seq<char>, Seq<char>)>) -> Seq<char> {
    subst_rounds(expr, vars, pass_bound())
}

/// A template string holding zero or more `${name}` placeholders.
#[derive(Debug, Clone, PartialEq, Eq)]
pub struct Precursor {
    expr: String,
}

impl View for Precursor {
    type V = Seq<char>;

    closed spec fn view(&self) -> Seq<char> {
        self.expr@
    }
}

impl Precursor {
    /// A template from its expression text.
    pub fn new(expr: String) -> (p: Precursor)
        ensures
            p@ == expr@,
    {
        Precursor { expr }
    }

    /// Substitute and keep the text as-is; a string target never fails.
    pub fn resolve_text(self, variables: &VarStore) -> (r: String)
        ensures
            r@ == resolved_text(self@, variables@),
    {
        replace(self.expr, variables)
    }

    /// Substitute and parse as an IPv4 address.
    pub fn resolve_v4(self, variables: &VarStore) -> (r: Result<Ipv4, ResolveError>)
        ensures
            match r {
                Ok(v) => parse_ipv4_spec(resolved_text(self@, variables@)) == Some(v),
                Err(e) => parse_ipv4_spec(resolved_text(self@, variables@)) is None && e.text@
                    == resolved_text(self@, variables@) && e.target == TargetKind::V4,
            },
    {
        let txt = replace(self.expr, variables);
        let cs = chars_of_str(txt.as_str());
        match parse_ipv4(&cs) {
            Some(v) => Ok(v),
            None => Err(ResolveError { text: txt, target: TargetKind::V4 }),
        }
    }

    /// Substitute and parse as an IPv6 address.
    pub fn resolve_v6(self, variables: &VarStore) -> (r: Result<crate::record::Ipv6, ResolveError>)
        ensures
            match r {
                Ok(v) => parse_ipv6_spec(resolved_text(self@, variables@)) == Some(v),
                Err(e) => parse_ipv6_spec(resolved_text(self@, variables@)) is None && e.text@
                    == resolved_text(self@, variables@) && e.target == TargetKind::V6,
            },
    {
        let txt = replace(self.expr, variables);
        let cs = chars_of_str(txt.as_str());
        match parse_ipv6(&cs) {
            Some(v) => Ok(v),
            None => Err(ResolveError { text: txt, target: TargetKind::V6 }),
        }
    }

    /// Substitute and parse as a sixteen-bit number.
    pub fn resolve_port(self, variables: &VarStore) -> (r: Result<u16, ResolveError>)
        ensures
            match r {
                Ok(v) => parse_u16_spec(resolved_text(self@, variables@)) == Some(v),
                Err(e) => parse_u16_spec(resolved_text(self@, variables@)) is None && e.text@
                    == resolved_text(self@, variables@) && e.target == TargetKind::Port,
            },
    {
        let txt = replace(self.expr, variables);
        let cs = chars_of_str(txt.as_str());
        match parse_u16(&cs) {
            Some(v) => Ok(v),
            None => Err(ResolveError { text: txt, target: TargetKind::Port }),
        }
    }
}

/// A templated value, resolving against a variable store to a typed value.
pub trait Resolvable: Sized {
    type Output: View;

    /// What resolution yields on the views, when it succeeds.
    spec fn resolve_spec(self, vars: Seq<(Seq<char>, Seq<char>)>) -> Option<
        <Self::Output as View>::V,
    >;

    /// Resolve against the store; failure reports the offending text.
    fn resolve(self, variables: &VarStore) -> (r: Result<Self::Output, ResolveError>)
        ensures
            match r {
                Ok(v) => Self::resolve_spec(self, variables@) == Some(v@),
                Err(_) => Self::resolve_spec(self, variables@) is None,
            },
    ;
}

/// A templated record value, one template per field.
#[derive(Debug, Clone, PartialEq, Eq)]
pub enum PreRecordValue {
    A { addr: Precursor },
    AAAA { addr: Precursor },
    CNAME { domain: Precursor },
    SRV { domain: Precursor, priority: Precursor, weight: Precursor, port: Precursor },
    TXT { data: Precursor },
}

/// The mathematical view of a templated record value.
pub enum PreValueView {
    A { addr: Seq<char> },
    AAAA { addr: Seq<char> },
    CNAME { domain: Seq<char> },
    SRV { domain: Seq<char>, priority: Seq<char>, weight: Seq<char>, port: Seq<char> },
    TXT { data: Seq<char> },
}

impl View for PreRecordValue {
    type V = PreValueView;

    open spec fn view(&self) -> PreValueView {
        match self {
            PreRecordValue::A { addr } => PreValueView::A { addr: addr@ },
            PreRecordValue::AAAA { addr } => PreValueView::AAAA { addr: addr@ },
            PreRecordValue::CNAME { domain } => PreValueView::CNAME { domain: domain@ },
            PreRecordValue::SRV { domain, priority, weight, port } => PreValueView::SRV {
                domain: domain@,
                priority: priority@,
                weight: weight@,
                port: port@,
            },
            PreRecordValue::TXT { data } => PreValueView::TXT { data: data@ },
        }
    }
}

/// What a templated record value resolves to: substitution on every field,
/// then the typed parse of each.
pub open spec fn resolve_value_spec(pv: PreValueView, vars: Seq<(Seq<char>, Seq<char>)>) -> Option<
    ValueView,
> {
    match pv {
        PreValueView::A { addr } => match parse_ipv4_spec(resolved_text(addr, vars)) {
            Some(ip) => Some(ValueView::A { data: ip }),
            None => None,
        },
        PreValueView::AAAA { addr } => match parse_ipv6_spec(resolved_text(addr, vars)) {
            Some(ip) => Some(ValueView::AAAA { data: ip }),
            None => None,
        },
        PreValueView::CNAME { domain } => Some(
            ValueView::CNAME { data: resolved_text(domain, vars) },
        ),
        PreValueView::SRV { domain, priority, weight, port } => match (
            parse_u16_spec(resolved_text(priority, vars)),
            parse_u16_spec(resolved_text(weight, vars)),
            parse_u16_spec(resolved_text(port, vars)),
        ) {
            (Some(pr), Some(w), Some(po)) => Some(
                ValueView::SRV {
                    data: resolved_text(domain, vars),
                    priority: pr,
                    weight: w,
                    port: po,
                },
            ),
            _ => None,
        },
        PreValueView::TXT { data } => Some(ValueView::TXT { data: resolved_text(data, vars) }),
    }
}

impl Resolvable for PreRecordValue {
    type Output = RecordValue;

    open spec fn resolve_spec(self, vars: Seq<(Seq<char>, Seq<char>)>) -> Option<ValueView> {
        resolve_value_spec(self@, vars)
    }

    fn resolve(self, variables: &VarStore) -> (r: Result<RecordValue, ResolveError>) {
        match self {
            PreRecordValue::A { addr } => match addr.resolve_v4(variables) {
                Ok(ip) => Ok(RecordValue::A { data: ip }),
                Err(e) => Err(e),
            },
            PreRecordValue::AAAA { addr } => match addr.resolve_v6(variables) {
                Ok(ip) => Ok(RecordValue::AAAA { data: ip }),
                Err(e) => Err(e),
            },
            PreRecordValue::CNAME { domain } => Ok(
                RecordValue::CNAME { data: domain.resolve_text(variables) },
            ),
            PreRecordValue::SRV { domain, priority, weight, port } => {
                let data = domain.resolve_text(variables);
                let priority = match priority.resolve_port(variables) {
                    Ok(v) => v,
                    Err(e) => {
                        return Err(e);
                    },
                };
                let weight = match weight.resolve_port(variables) {
                    Ok(v) => v,
                    Err(e) => {
                        return Err(e);
                    },
                };
                let port = match port.resolve_port(variables) {
                    Ok(v) => v,
                    Err(e) => {
                        return Err(e);
                    },
                };
                Ok(RecordValue::SRV { data, priority, weight, port })
            },
            PreRecordValue::TXT { data } => Ok(
                RecordValue::TXT { data: data.resolve_text(variables) },
            ),
        }
    }
}

/// A templated record: a name template plus a templated value.
#[derive(Debug, Clone, PartialEq, Eq)]
pub struct PreRecord {
    pub name: Precursor,
    pub value: PreRecordValue,
}

/// The mathematical view of a templated record.
pub struct PreRecordView {
    pub name: Seq<char>,
    pub value: PreValueView,
}

impl View for PreRecord {
    type V = PreRecordView;

    open spec fn view(&self) -> PreRecordView {
        PreRecordView { name: self.name@, value: self.value@ }
    }
}

/// What a templated record resolves to.
pub open spec fn resolve_record_spec(pr: PreRecordView, vars: Seq<(Seq<char>, Seq<char>)>) -> Option<
    RecordView,
> {
    match resolve_value_spec(pr.value, vars) {
        Some(v) => Some(RecordView { name: resolved_text(pr.name, vars), value: v }),
        None => None,
    }
}

impl Resolvable for PreRecord {
    type Output = Record;

    open spec fn resolve_spec(self, vars: Seq<(Seq<char>, Seq<char>)>) -> Option<RecordView> {
        resolve_record_spec(self@, vars)
    }

    fn resolve(self, variables: &VarStore) -> (r: Result<Record, ResolveError>) {
        let name = self.name.resolve_text(variables);
        match self.value.resolve(variables) {
            Ok(value) => Ok(Record { name, value }),
            Err(e) => Err(e),
        }
    }
}

/// The views of a sequence of templated records.
pub open spec fn pre_views(s: Seq<PreRecord>) -> Seq<PreRecordView> {
    s.map_values(|p: PreRecord| p@)
}

/// Resolve every templated record in order; any failure fails the whole.
pub open spec fn resolve_all(prs: Seq<PreRecordView>, vars: Seq<(Seq<char>, Seq<char>)>) -> Option<
    Seq<RecordView>,
>
    decreases prs.len(),
{
    if prs.len() == 0 {
        Some(Seq::empty())
    } else {
        match resolve_record_spec(prs[0], vars) {
            Some(r) => match resolve_all(prs.drop_first(), vars) {
                Some(rest) => Some(seq![r] + rest),
                None => None,
            },
            None => None,
        }
    }
}

/// Separate the zone record from the list: a record with empty name and an
/// A value sets the zone's IPv4 address instead of appearing in the list;
/// with several such records the last one wins.
pub open spec fn extract_zone(rs: Seq<RecordView>) -> (Seq<RecordView>, Option<Ipv4>)
    decreases rs.len(),
{
    if rs.len() == 0 {
        (Seq::empty(), None::<Ipv4>)
    } else {
        let first = rs[0];
        let rest = extract_zone(rs.drop_first());
        if first.name == Seq::<char>::empty() && first.value is A {
            (rest.0, if rest.1 is Some {
                rest.1
            } else {
                Some(first.value->A_data)
            })
        } else {
            (seq![first] + rest.0, rest.1)
        }
    }
}

/// The zone configuration the extracted address stands for, if any.
pub open spec fn zone_of_addr(addr: Option<Ipv4>) -> Option<ZoneView> {
    match addr {
        Some(a) => Some(ZoneView { ipv4address: Some(a), ipv6prefix: None }),
        None => None,
    }
}

/// The desired-state builder: resolve every templated record in input
/// order, then extract the zone record (empty name, A value) into the
/// desired zone configuration; its IPv6 prefix is never templated.
pub fn instantiate(prerecords: Vec<PreRecord>, variables: &VarStore) -> (r: Result<
    (Vec<Record>, Option<ZoneValue>),
    ResolveError,
>)
    ensures
        match r {
            Ok(p) => {
                let resolved = resolve_all(pre_views(prerecords@), variables@);
                let ez = extract_zone(resolved->Some_0);
                resolved is Some && records_view(p.0@) == ez.0 && (match p.1 {
                    Some(z) => z@ == zone_of_addr(ez.1)->Some_0 && ez.1 is Some,
                    None => ez.1 is None,
                })
            },
            Err(_) => resolve_all(pre_views(prerecords@), variables@) is None,
        },
{
    let ghost prs0 = pre_views(prerecords@);
    let mut rem = prerecords;
    let mut resolved: Vec<Record> = Vec::new();
    proof {
        assert(pre_views(rem@) == prs0);
    }
    while rem.len() > 0
        invariant
            prs0 == pre_views(prerecords@),
            match resolve_all(pre_views(rem@), variables@) {
                Some(rest) => resolve_all(prs0, variables@) == Some(
                    records_view(resolved@) + rest,
                ),
                None => resolve_all(prs0, variables@) is None,
            },
        decreases rem.len(),
    {
        let ghost rem_pre = pre_views(rem@);
        let ghost res_pre = records_view(resolved@);
        let pr = rem.remove(0);
        proof {
            assert(rem_pre[0] == pr@);
            assert(pre_views(rem@) =~= rem_pre.drop_first());
        }
        match pr.resolve(variables) {
            Ok(rec) => {
                resolved.push(rec);
                proof {
                    assert(records_view(resolved@) =~= res_pre + seq![rec@]);
                    if resolve_all(pre_views(rem@), variables@) is Some {
                        let rest = resolve_all(pre_views(rem@), variables@)->Some_0;
                        assert(resolve_all(rem_pre, variables@) == Some(seq![rec@] + rest));
                        assert(res_pre + (seq![rec@] + rest) =~= (res_pre + seq![rec@]) + rest);
                    }
                }
            },
            Err(e) => {
                proof {
                    assert(resolve_all(rem_pre, variables@) is None);
                }
                return Err(e);
            },
        }
    }
    proof {
        assert(pre_views(rem@) =~= Seq::<PreRecordView>::empty());
        assert(resolve_all(pre_views(rem@), variables@) == Some(Seq::<RecordView>::empty()));
        assert(records_view(resolved@) + Seq::<RecordView>::empty() =~= records_view(resolved@));
    }
    let ghost full = records_view(resolved@);
    let mut out: Vec<Record> = Vec::new();
    let mut zone_addr: Option<Ipv4> = None;
    let mut rest = resolved;
    while rest.len() > 0
        invariant
            extract_zone(full).0 =~= records_view(out@) + extract_zone(records_view(rest@)).0,
            extract_zone(full).1 == (if extract_zone(records_view(rest@)).1 is Some {
                extract_zone(records_view(rest@)).1
            } else {
                zone_addr
            }),
        decreases rest.len(),
    {
        let ghost rv_pre = records_view(rest@);
        let ghost out_pre = records_view(out@);
        let rec = rest.remove(0);
        proof {
            assert(rv_pre[0] == rec@);
            assert(records_view(rest@) =~= rv_pre.drop_first());
        }
        let zone_hit: Option<Ipv4> = if rec.name.as_str().is_empty() {
            match &rec.value {
                RecordValue::A { data } => Some(*data),
                _ => None,
            }
        } else {
            None
        };
        if let Some(addr) = zone_hit {
            proof {
                assert(rec.name@ =~= Seq::<char>::empty());
                assert(rec@.name == Seq::<char>::empty() && rec@.value is A);
            }
            zone_addr = Some(addr);
        } else {
            out.push(rec);
            proof {
                assert(!(rec@.name == Seq::<char>::empty() && rec@.value is A)) by {
                    if rec@.name == Seq::<char>::empty() && rec@.value is A {
                        assert(rec.name@.len() == 0);
                    }
                }
                assert(records_view(out@) =~= out_pre + seq![rec@]);
                assert(extract_zone(rv_pre).0 == seq![rec@] + extract_zone(
                    records_view(rest@),
                ).0);
                assert(out_pre + (seq![rec@] + extract_zone(records_view(rest@)).0) =~= (out_pre
                    + seq![rec@]) + extract_zone(records_view(rest@)).0);
            }
        }
    }
    proof {
        assert(records_view(rest@) =~= Seq::<RecordView>::empty());
        assert(extract_zone(records_view(rest@)) == (
            Seq::<RecordView>::empty(),
            None::<Ipv4>,
        ));
        assert(records_view(out@) + Seq::<RecordView>::empty() =~= records_view(out@));
    }
    let zone = match zone_addr {
        Some(a) => Some(ZoneValue { ipv4address: Some(a), ipv6prefix: None }),
        None => None,
    };
    Ok((out, zone))
}

} // verus!
