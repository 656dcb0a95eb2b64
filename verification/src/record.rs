//! The data model: records, record values, provider-held record nodes and
//! zone configuration, together with their mathematical views.

use vstd::prelude::*;

verus! {

/// An IPv4 address as four octets.
#[derive(Clone, Copy, Debug, PartialEq, Eq, Structural, Hash)]
pub struct Ipv4 {
    pub o1: u8,
    pub o2: u8,
    pub o3: u8,
    pub o4: u8,
}

impl View for Ipv4 {
    type V = Ipv4;

    open spec fn view(&self) -> Ipv4 {
        *self
    }
}

/// An IPv6 address as one 128-bit value; the first text group of the address
/// is the most significant 16 bits.
#[derive(Clone, Copy, Debug, PartialEq, Eq, Structural, Hash)]
pub struct Ipv6 {
    pub bits: u128,
}

impl View for Ipv6 {
    type V = Ipv6;

    open spec fn view(&self) -> Ipv6 {
        *self
    }
}

/// The typed value of a DNS record.
#[derive(Clone, Debug, PartialEq, Eq)]
pub enum RecordValue {
    A { data: Ipv4 },
    AAAA { data: Ipv6 },
    CNAME { data: String },
    SRV { data: String, priority: u16, weight: u16, port: u16 },
    TXT { data: String },
}

/// The mathematical view of a record value.
pub enum ValueView {
    A { data: Ipv4 },
    AAAA { data: Ipv6 },
    CNAME { data: Seq<char> },
    SRV { data: Seq<char>, priority: u16, weight: u16, port: u16 },
    TXT { data: Seq<char> },
}

impl View for RecordValue {
    type V = ValueView;

    open spec fn view(&self) -> ValueView {
        match self {
            RecordValue::A { data } => ValueView::A { data: *data },
            RecordValue::AAAA { data } => ValueView::AAAA { data: *data },
            RecordValue::CNAME { data } => ValueView::CNAME { data: data@ },
            RecordValue::SRV { data, priority, weight, port } => ValueView::SRV {
                data: data@,
                priority: *priority,
                weight: *weight,
                port: *port,
            },
            RecordValue::TXT { data } => ValueView::TXT { data: data@ },
        }
    }
}

/// The record-type tag, ignoring the carried value.
#[derive(Clone, Copy, Debug, PartialEq, Eq, Structural, Hash)]
pub enum RecordKind {
    A,
    AAAA,
    CNAME,
    SRV,
    TXT,
}

/// The record-type tag of a record value view.
pub open spec fn kind_of(v: ValueView) -> RecordKind {
    match v {
        ValueView::A { .. } => RecordKind::A,
        ValueView::AAAA { .. } => RecordKind::AAAA,
        ValueView::CNAME { .. } => RecordKind::CNAME,
        ValueView::SRV { .. } => RecordKind::SRV,
        ValueView::TXT { .. } => RecordKind::TXT,
    }
}

impl RecordValue {
    /// The record-type tag of this value.
    pub fn kind(&self) -> (k: RecordKind)
        ensures
            k == kind_of(self@),
    {
        match self {
            RecordValue::A { .. } => RecordKind::A,
            RecordValue::AAAA { .. } => RecordKind::AAAA,
            RecordValue::CNAME { .. } => RecordKind::CNAME,
            RecordValue::SRV { .. } => RecordKind::SRV,
            RecordValue::TXT { .. } => RecordKind::TXT,
        }
    }

    /// Value equality: same variant with equal payload.
    pub fn value_eq(&self, other: &RecordValue) -> (r: bool)
        ensures
            r == (self@ == other@),
    {
        match (self, other) {
            (RecordValue::A { data: a }, RecordValue::A { data: b }) => *a == *b,
            (RecordValue::AAAA { data: a }, RecordValue::AAAA { data: b }) => *a == *b,
            (RecordValue::CNAME { data: a }, RecordValue::CNAME { data: b }) => *a == *b,
            (
                RecordValue::SRV { data: a, priority: pa, weight: wa, port: oa },
                RecordValue::SRV { data: b, priority: pb, weight: wb, port: ob },
            ) => *a == *b && *pa == *pb && *wa == *wb && *oa == *ob,
            (RecordValue::TXT { data: a }, RecordValue::TXT { data: b }) => *a == *b,
            _ => false,
        }
    }

    /// A fresh record value equal to this one.
    pub fn duplicate(&self) -> (r: RecordValue)
        ensures
            r@ == self@,
    {
        match self {
            RecordValue::A { data } => RecordValue::A { data: *data },
            RecordValue::AAAA { data } => RecordValue::AAAA { data: *data },
            RecordValue::CNAME { data } => RecordValue::CNAME { data: data.clone() },
            RecordValue::SRV { data, priority, weight, port } => RecordValue::SRV {
                data: data.clone(),
                priority: *priority,
                weight: *weight,
                port: *port,
            },
            RecordValue::TXT { data } => RecordValue::TXT { data: data.clone() },
        }
    }
}

/// A desired record: a name and a typed value, without provider identity.
#[derive(Clone, Debug, PartialEq, Eq)]
pub struct Record {
    pub name: String,
    pub value: RecordValue,
}

/// The mathematical view of a record.
pub struct RecordView {
    pub name: Seq<char>,
    pub value: ValueView,
}

impl View for Record {
    type V = RecordView;

    open spec fn view(&self) -> RecordView {
        RecordView { name: self.name@, value: self.value@ }
    }
}

impl Record {
    /// Value equality of two records: same name and same typed value.
    pub fn record_eq(&self, other: &Record) -> (r: bool)
        ensures
            r == (self@ == other@),
    {
        let name_eq: bool = self.name == other.name;
        let value_eq = self.value.value_eq(&other.value);
        name_eq && value_eq
    }

    /// A fresh record equal to this one.
    pub fn duplicate(&self) -> (r: Record)
        ensures
            r@ == self@,
    {
        Record { name: self.name.clone(), value: self.value.duplicate() }
    }
}

/// An actual record as the provider holds it: a record plus the
/// provider-assigned identity.
#[derive(Clone, Debug, PartialEq, Eq)]
pub struct RecordNode {
    pub id: i64,
    pub record: Record,
}

/// The mathematical view of an actual record node.
pub struct NodeView {
    pub id: i64,
    pub record: RecordView,
}

impl View for RecordNode {
    type V = NodeView;

    open spec fn view(&self) -> NodeView {
        NodeView { id: self.id, record: self.record@ }
    }
}

/// Zone-level configuration, compared by value.
#[derive(Clone, Debug, PartialEq, Eq)]
pub struct ZoneValue {
    pub ipv4address: Option<Ipv4>,
    pub ipv6prefix: Option<String>,
}

/// The mathematical view of a zone configuration.
pub struct ZoneView {
    pub ipv4address: Option<Ipv4>,
    pub ipv6prefix: Option<Seq<char>>,
}

impl View for ZoneValue {
    type V = ZoneView;

    open spec fn view(&self) -> ZoneView {
        ZoneView {
            ipv4address: match self.ipv4address {
                Some(a) => Some(a),
                None => None,
            },
            ipv6prefix: match &self.ipv6prefix {
                Some(p) => Some(p@),
                None => None,
            },
        }
    }
}

impl ZoneValue {
    /// Value equality of two zone configurations.
    pub fn zone_eq(&self, other: &ZoneValue) -> (r: bool)
        ensures
            r == (self@ == other@),
    {
        let v4eq = match (&self.ipv4address, &other.ipv4address) {
            (Some(a), Some(b)) => *a == *b,
            (None, None) => true,
            _ => false,
        };
        let v6eq = match (&self.ipv6prefix, &other.ipv6prefix) {
            (Some(a), Some(b)) => {
                let prefix_eq: bool = *a == *b;
                prefix_eq
            },
            (None, None) => true,
            _ => false,
        };
        v4eq && v6eq
    }

    /// A fresh zone configuration equal to this one.
    pub fn duplicate(&self) -> (r: ZoneValue)
        ensures
            r@ == self@,
    {
        ZoneValue {
            ipv4address: match &self.ipv4address {
                Some(a) => Some(*a),
                None => None,
            },
            ipv6prefix: match &self.ipv6prefix {
                Some(p) => Some(p.clone()),
                None => None,
            },
        }
    }
}

/// The view of a sequence of records.
pub open spec fn records_view(s: Seq<Record>) -> Seq<RecordView> {
    s.map_values(|r: Record| r@)
}

/// The view of a sequence of record nodes.
pub open spec fn nodes_view(s: Seq<RecordNode>) -> Seq<NodeView> {
    s.map_values(|n: RecordNode| n@)
}

} // verus!
