//! Core of a Winlink/FBB B2 forwarding client speaking to a VARA TNC:
//! the LZHUF codec, the B2 framed-message parser and proposal grammar,
//! the callsign value type, and the pure state machines of the TNC
//! session controller. The radiogram data model the client forwards
//! lives at the crate root.

use vstd::prelude::*;

pub mod crc16;
pub mod fbb;
pub mod lzhuf;
pub mod modem;
pub mod parser;
pub mod rig;
pub mod types;

pub use modem::Modem;
pub use types::InvalidStationId;
pub use types::StationId;

verus! {

/// A complete radiogram ready for forwarding.
#[derive(Debug, PartialEq, Eq)]
pub struct Traffic {
    pub header: TrafficHeader,
    pub destination: Destination,
    pub body: String,
    pub signature: Signature,
}

/// Where the message should be delivered.
#[derive(Debug, PartialEq, Eq)]
pub struct Destination {
    pub addressee: String,
    pub station: Option<StationId>,
    pub address: Vec<String>,
    pub phone: Option<String>,
    pub email: Option<String>,
    pub op_note: Option<String>,
}

/// Who signed the message.
#[derive(Debug, PartialEq, Eq)]
pub struct Signature {
    pub signed_by: String,
    pub op_note: Option<String>,
}

/// The radiogram preamble.
#[derive(Debug, PartialEq, Eq)]
pub struct TrafficHeader {
    pub service: ServiceType,
    pub number: u16,
    pub traffic_type: TrafficType,
    pub precedence: Precedence,
    pub handling: Handling,
    pub originator: StationId,
    pub check: Check,
    pub origin: String,
    pub time_filed: Option<String>,
    pub date: String,
}

/// Ordinary traffic, or a service message about earlier traffic.
#[derive(Clone, Copy, Debug, Hash, PartialEq, Eq, Structural)]
pub enum ServiceType {
    Normal,
    Service,
}

/// Real traffic, or a test exercise.
#[derive(Clone, Copy, Debug, Hash, PartialEq, Eq, Structural)]
pub enum TrafficType {
    Normal,
    Test,
}

/// The four precedences, least urgent first.
#[derive(Clone, Copy, Debug, Hash, PartialEq, Eq, PartialOrd, Ord, Structural)]
pub enum Precedence {
    Routine,
    Welfare,
    Priority,
    Emergency,
}

/// A handling instruction attached to a radiogram.
#[derive(Clone, Debug, Hash, PartialEq, Eq)]
pub enum HandlingDirective {
    LandlineCollect { distance: u16 },
    DeliverWithin { hours: u8 },
    ReportDelivery,
    TraceRelayAndDelivery,
    RequestReply,
    HoldUntil { date: String },
    CancelIfFeeRequired,
}

/// Two directives mean the same thing.
pub open spec fn directive_eq(a: HandlingDirective, b: HandlingDirective) -> bool {
    match a {
        HandlingDirective::LandlineCollect { distance: x } => b matches
            HandlingDirective::LandlineCollect { distance: y } && x == y,
        HandlingDirective::DeliverWithin { hours: x } => b matches
            HandlingDirective::DeliverWithin { hours: y } && x == y,
        HandlingDirective::ReportDelivery => b is ReportDelivery,
        HandlingDirective::TraceRelayAndDelivery => b is TraceRelayAndDelivery,
        HandlingDirective::RequestReply => b is RequestReply,
        HandlingDirective::HoldUntil { date: x } => b matches HandlingDirective::HoldUntil {
            date: y,
        } && x@ == y@,
        HandlingDirective::CancelIfFeeRequired => b is CancelIfFeeRequired,
    }
}

/// Decide `directive_eq`.
fn directive_eq_exec(a: &HandlingDirective, b: &HandlingDirective) -> (r: bool)
    ensures
        r == directive_eq(*a, *b),
{
    match a {
        HandlingDirective::LandlineCollect { distance: x } => match b {
            HandlingDirective::LandlineCollect { distance: y } => *x == *y,
            _ => false,
        },
        HandlingDirective::DeliverWithin { hours: x } => match b {
            HandlingDirective::DeliverWithin { hours: y } => *x == *y,
            _ => false,
        },
        HandlingDirective::ReportDelivery => match b {
            HandlingDirective::ReportDelivery => true,
            _ => false,
        },
        HandlingDirective::TraceRelayAndDelivery => match b {
            HandlingDirective::TraceRelayAndDelivery => true,
            _ => false,
        },
        HandlingDirective::RequestReply => match b {
            HandlingDirective::RequestReply => true,
            _ => false,
        },
        HandlingDirective::HoldUntil { date: x } => match b {
            HandlingDirective::HoldUntil { date: y } => x.eq(y),
            _ => false,
        },
        HandlingDirective::CancelIfFeeRequired => match b {
            HandlingDirective::CancelIfFeeRequired => true,
            _ => false,
        },
    }
}

/// A directive with this meaning is in the list.
#[verifier::opaque]
pub open spec fn has_directive(s: Seq<HandlingDirective>, d: HandlingDirective) -> bool {
    exists|i: int| 0 <= i < s.len() && directive_eq(s[i], d)
}

/// The set of handling instructions on a radiogram: no two of its
/// entries mean the same thing.
#[derive(Debug, PartialEq, Eq)]
pub struct Handling {
    directives: Vec<HandlingDirective>,
}

impl Handling {
    /// The directives as a sequence.
    pub closed spec fn view(&self) -> Seq<HandlingDirective> {
        self.directives@
    }

    /// Collect directives, keeping the first of any repeated ones: no
    /// two kept entries mean the same thing, every given meaning is
    /// kept, and nothing else is.
    #[verifier::spinoff_prover]
    pub fn with_directives(directives: Vec<HandlingDirective>) -> (r: Handling)
        ensures
            forall|i: int, j: int|
                0 <= i < j < r@.len() ==> !directive_eq(#[trigger] r@[i], #[trigger] r@[j]),
            forall|j: int|
                #![trigger directives@[j]]
                0 <= j < directives@.len() ==> has_directive(r@, directives@[j]),
            forall|i: int|
                #![trigger r@[i]]
                0 <= i < r@.len() ==> has_directive(directives@, r@[i]),
    {
        let mut out: Vec<HandlingDirective> = Vec::new();
        let mut n: usize = 0;
        while n < directives.len()
            invariant
                n <= directives@.len(),
                forall|i: int, j: int|
                    0 <= i < j < out@.len() ==> !directive_eq(#[trigger] out@[i], #[trigger] out@[j]),
                forall|i: int|
                    0 <= i < out@.len() ==> exists|j: int|
                        0 <= j < directives@.len() && directive_eq(
                            #[trigger] out@[i],
                            directives@[j],
                        ),
                forall|j: int|
                    0 <= j < n ==> exists|i: int|
                        0 <= i < out@.len() && directive_eq(#[trigger] directives@[j], out@[i]),
            decreases directives@.len() - n,
        {
            let d = &directives[n];
            let mut present: bool = false;
            let mut k: usize = 0;
            while k < out.len()
                invariant
                    k <= out@.len(),
                    n < directives@.len(),
                    *d == directives@[n as int],
                    present ==> exists|i: int|
                        0 <= i < out@.len() && directive_eq(#[trigger] directives@[n as int], out@[i])
                            && directive_eq(out@[i], directives@[n as int]),
                    !present ==> forall|i: int|
                        0 <= i < k ==> !directive_eq(#[trigger] out@[i], directives@[n as int]),
                decreases out@.len() - k,
            {
                if directive_eq_exec(&out[k], d) {
                    present = true;
                    proof {
                        lemma_directive_eq_sym(out@[k as int], directives@[n as int]);
                    }
                }
                if present {
                    k = out.len();
                } else {
                    k = k + 1;
                }
            }
            let ghost out_pre = out@;
            if !present {
                out.push(directives[n].clone_directive());
                proof {
                    let last = out@.len() - 1;
                    assert(out@[last] == directives@[n as int]);
                    lemma_directive_eq_refl(out@[last]);
                    lemma_directive_eq_sym(out@[last], directives@[n as int]);
                }
            }
            proof {
                assert forall|j: int| 0 <= j < n + 1 implies exists|i: int|
                    0 <= i < out@.len() && directive_eq(#[trigger] directives@[j], out@[i]) by {
                    if j < n {
                        let i0 = choose|i: int|
                            0 <= i < out_pre.len() && directive_eq(
                                #[trigger] directives@[j],
                                out_pre[i],
                            );
                        assert(out@[i0] == out_pre[i0]);
                        assert(directive_eq(directives@[j], out@[i0]));
                    } else {
                        if present {
                            let i0 = choose|i: int|
                                0 <= i < out_pre.len() && directive_eq(
                                    #[trigger] directives@[n as int],
                                    out_pre[i],
                                ) && directive_eq(out_pre[i], directives@[n as int]);
                            assert(directive_eq(directives@[j], out@[i0]));
                        } else {
                            assert(directive_eq(directives@[j], out@[out@.len() - 1]));
                        }
                    }
                }
                assert forall|i: int| 0 <= i < out@.len() implies exists|j: int|
                    0 <= j < directives@.len() && directive_eq(
                    #[trigger] out@[i],
                    directives@[j],
                ) by {
                    if i < out_pre.len() {
                        let j0 = choose|j: int|
                            0 <= j < directives@.len() && directive_eq(
                                #[trigger] out_pre[i],
                                directives@[j],
                            );
                        assert(out@[i] == out_pre[i]);
                        assert(directive_eq(out@[i], directives@[j0]));
                    } else {
                        assert(directive_eq(out@[i], directives@[n as int]));
                    }
                }
            }
            n = n + 1;
        }

        let ghost outg = out@;
        let r = Handling { directives: out };
        proof {
            assert(r@ == outg);
            assert forall|j: int| #![trigger directives@[j]] 0 <= j < directives@.len()
                implies has_directive(r@, directives@[j]) by {
                reveal(has_directive);
                let i0 = choose|i: int|
                    0 <= i < outg.len() && directive_eq(#[trigger] directives@[j], outg[i]);
                lemma_directive_eq_sym(directives@[j], outg[i0]);
                assert(directive_eq(r@[i0], directives@[j]));
            }
            assert forall|i: int| #![trigger r@[i]] 0 <= i < r@.len() implies has_directive(
                directives@,
                r@[i],
            ) by {
                reveal(has_directive);
                let j0 = choose|j: int|
                    0 <= j < directives@.len() && directive_eq(#[trigger] outg[i], directives@[j]);
                lemma_directive_eq_sym(outg[i], directives@[j0]);
                assert(directive_eq(directives@[j0], r@[i]));
            }
        }
        r
    }
}

/// A directive means the same as itself.
proof fn lemma_directive_eq_refl(a: HandlingDirective)
    ensures
        directive_eq(a, a),
{
}

/// Meaning the same goes both ways.
proof fn lemma_directive_eq_sym(a: HandlingDirective, b: HandlingDirective)
    requires
        directive_eq(a, b),
    ensures
        directive_eq(b, a),
{
}

/// Not meaning the same goes both ways.
proof fn lemma_directive_eq_sym2(a: HandlingDirective, b: HandlingDirective)
    requires
        !directive_eq(b, a),
    ensures
        !directive_eq(a, b),
{
}

impl HandlingDirective {
    /// An equal copy of the directive.
    fn clone_directive(&self) -> (r: HandlingDirective)
        ensures
            r == *self,
    {
        match self {
            HandlingDirective::LandlineCollect { distance } => HandlingDirective::LandlineCollect {
                distance: *distance,
            },
            HandlingDirective::DeliverWithin { hours } => HandlingDirective::DeliverWithin {
                hours: *hours,
            },
            HandlingDirective::ReportDelivery => HandlingDirective::ReportDelivery,
            HandlingDirective::TraceRelayAndDelivery => HandlingDirective::TraceRelayAndDelivery,
            HandlingDirective::RequestReply => HandlingDirective::RequestReply,
            HandlingDirective::HoldUntil { date } => HandlingDirective::HoldUntil {
                date: date.clone(),
            },
            HandlingDirective::CancelIfFeeRequired => HandlingDirective::CancelIfFeeRequired,
        }
    }
}


/// A sample radiogram, as a fixture for exercising the data model.
pub fn test() -> (r: Traffic)
    ensures
        r.header.number == 22,
        r.header.traffic_type == TrafficType::Normal,
        r.header.precedence == Precedence::Routine,
        r.header.service == ServiceType::Normal,
        r.header.originator@ == seq![0x4bu8, 0x43u8, 0x31u8, 0x47u8, 0x53u8, 0x4cu8],
        r.destination.station matches Some(s) && s@ == seq![
            0x4bu8,
            0x43u8,
            0x31u8,
            0x4bu8,
            0x56u8,
            0x59u8,
        ],
{
    let originator_bytes = vec![0x4bu8, 0x43u8, 0x31u8, 0x47u8, 0x53u8, 0x4cu8];
    proof {
        assert(types::station_witness(originator_bytes@, 1, 3));
    }
    let originator = match StationId::from_bytes(&originator_bytes) {
        Ok(id) => id,
        Err(_) => {
            proof {
                assert(false);
            }
            vstd::pervasive::unreached()
        },
    };
    let station_bytes = vec![0x4bu8, 0x43u8, 0x31u8, 0x4bu8, 0x56u8, 0x59u8];
    proof {
        assert(types::station_witness(station_bytes@, 1, 3));
    }
    let station = match StationId::from_bytes(&station_bytes) {
        Ok(id) => id,
        Err(_) => {
            proof {
                assert(false);
            }
            vstd::pervasive::unreached()
        },
    };
    proof {
        assert(types::upper_seq(originator_bytes@) =~= originator_bytes@);
        assert(types::upper_seq(station_bytes@) =~= station_bytes@);
    }
    let mut directives: Vec<HandlingDirective> = Vec::new();
    directives.push(HandlingDirective::ReportDelivery);
    Traffic {
        header: TrafficHeader {
            number: 22,
            traffic_type: TrafficType::Normal,
            precedence: Precedence::Routine,
            handling: Handling::with_directives(directives),
            check: Check { content: ContentType::Standard, count: 21 },
            originator,
            origin: String::from_str("BILLERICA MA"),
            service: ServiceType::Normal,
            time_filed: None,
            date: String::from_str("DEC 3"),
        },
        destination: Destination {
            addressee: String::from_str("BOB SPARKES"),
            station: Some(station),
            address: Vec::new(),
            phone: None,
            email: None,
            op_note: None,
        },
        signature: Signature {
            signed_by: String::from_str("MARCUS KC1GSL"),
            op_note: None,
        },
        body: String::from_str(
            "THIS IS A TEST OF A PROGRAM I WROTE TO ASSIST ME IN PUSHING TRAFFIC INTO THE DIGITAL TRAFFIC NETWORK 73",
        ),
    }
}

/// The word count of a radiogram, and whether it is an ARL text.
#[derive(Clone, Debug, PartialEq, Eq)]
pub struct Check {
    content: ContentType,
    count: u16,
}

/// Whether the body counts as plain words or as an ARL numbered text.
#[derive(Clone, Copy, Debug, PartialEq, Eq, Structural)]
pub enum ContentType {
    Standard,
    Arl,
}

} // verus!
