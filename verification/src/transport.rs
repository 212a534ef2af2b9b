use vstd::prelude::*;

verus! {

/// The families of links a node can send over.
#[derive(Debug, Clone, Copy, PartialEq, Eq, Hash, Structural)]
pub enum TransportKind {
    ShortRange,
    LongRange,
    DelayTolerant,
    Internet,
}

/// The label under which reports count a transport.
pub open spec fn transport_label(kind: TransportKind) -> Seq<char> {
    match kind {
        TransportKind::ShortRange => "short-range"@,
        TransportKind::LongRange => "long-range"@,
        TransportKind::DelayTolerant => "delay-tolerant"@,
        TransportKind::Internet => "internet"@,
    }
}

impl TransportKind {
    pub fn label(self) -> (s: &'static str)
        ensures
            s@ == transport_label(self),
    {
        match self {
            TransportKind::ShortRange => "short-range",
            TransportKind::LongRange => "long-range",
            TransportKind::DelayTolerant => "delay-tolerant",
            TransportKind::Internet => "internet",
        }
    }
}

} // verus!
