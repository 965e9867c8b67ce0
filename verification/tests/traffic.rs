//! The radiogram data model.

use plusendi::Handling;
use plusendi::HandlingDirective;
use plusendi::Precedence;

#[test]
fn sample_traffic_fixture() {
    let t = plusendi::test();
    assert_eq!(t.header.number, 22);
    assert_eq!(t.header.precedence, Precedence::Routine);
    assert_eq!(t.header.originator.as_bytes(), &b"KC1GSL".to_vec());
    assert_eq!(
        t.destination.station.as_ref().unwrap().as_bytes(),
        &b"KC1KVY".to_vec()
    );
    assert!(t.body.starts_with("THIS IS A TEST"));
}

#[test]
fn handling_drops_repeated_directives() {
    let given = vec![
        HandlingDirective::ReportDelivery,
        HandlingDirective::DeliverWithin { hours: 24 },
        HandlingDirective::ReportDelivery,
        HandlingDirective::DeliverWithin { hours: 24 },
        HandlingDirective::DeliverWithin { hours: 48 },
    ];
    let h = Handling::with_directives(given);
    let h2 = Handling::with_directives(vec![
        HandlingDirective::ReportDelivery,
        HandlingDirective::DeliverWithin { hours: 24 },
        HandlingDirective::DeliverWithin { hours: 48 },
    ]);
    assert_eq!(h, h2);
}

#[test]
fn precedence_orders_by_urgency() {
    assert!(Precedence::Routine < Precedence::Welfare);
    assert!(Precedence::Welfare < Precedence::Priority);
    assert!(Precedence::Priority < Precedence::Emergency);
}
