use external_dns_sdk::{Change, Changes, Endpoint, EndpointDiff, EndpointIdent};

fn record(name: &str, target: &str) -> Endpoint {
    Endpoint {
        identity: EndpointIdent {
            dns_name: name.to_string(),
            record_type: "A".to_string(),
            set_identifier: String::new(),
        },
        targets: vec![target.to_string()],
        record_ttl: Some(300),
        labels: Vec::new(),
        provider_specific: Vec::new(),
    }
}

#[test]
fn changes_are_sorted_into_the_four_lists() {
    let batch = Changes::from(vec![
        Change::Create(record("c1.org", "1.1.1.1")),
        Change::Update { old: record("u1.org", "1.1.1.1"), new: record("u1.org", "1.1.1.2") },
        Change::Delete(record("d1.org", "1.1.1.1")),
        Change::Create(record("c2.org", "1.1.1.1")),
        Change::Update { old: record("u2.org", "1.1.1.1"), new: record("u2.org", "1.1.1.2") },
        Change::Delete(record("d2.org", "1.1.1.1")),
    ]);
    assert_eq!(batch.create, vec![record("c1.org", "1.1.1.1"), record("c2.org", "1.1.1.1")]);
    assert_eq!(batch.update_old, vec![record("u1.org", "1.1.1.1"), record("u2.org", "1.1.1.1")]);
    assert_eq!(batch.update_new, vec![record("u1.org", "1.1.1.2"), record("u2.org", "1.1.1.2")]);
    assert_eq!(batch.delete, vec![record("d1.org", "1.1.1.1"), record("d2.org", "1.1.1.1")]);
}

#[test]
fn no_changes_make_an_empty_batch() {
    let batch = Changes::from(Vec::new());
    assert!(batch.create.is_empty());
    assert!(batch.update_old.is_empty());
    assert!(batch.update_new.is_empty());
    assert!(batch.delete.is_empty());
}

#[test]
fn a_batch_becomes_deletes_then_updates_then_creates() {
    let batch = Changes {
        create: vec![record("c1.org", "1.1.1.1"), record("c2.org", "1.1.1.1")],
        update_old: vec![record("u1.org", "1.1.1.1"), record("u2.org", "1.1.1.1")],
        update_new: vec![record("u1.org", "1.1.1.2"), record("u2.org", "1.1.1.2")],
        delete: vec![record("d1.org", "1.1.1.1"), record("d2.org", "1.1.1.1")],
    };
    assert_eq!(
        Vec::<Change>::from(batch),
        vec![
            Change::Delete(record("d1.org", "1.1.1.1")),
            Change::Delete(record("d2.org", "1.1.1.1")),
            Change::Update { old: record("u1.org", "1.1.1.1"), new: record("u1.org", "1.1.1.2") },
            Change::Update { old: record("u2.org", "1.1.1.1"), new: record("u2.org", "1.1.1.2") },
            Change::Create(record("c1.org", "1.1.1.1")),
            Change::Create(record("c2.org", "1.1.1.1")),
        ]
    );
}

#[test]
fn updates_are_paired_by_identity_not_by_position() {
    let batch = Changes {
        create: Vec::new(),
        update_old: vec![record("u1.org", "1.1.1.1"), record("u2.org", "1.1.1.1")],
        update_new: vec![record("u2.org", "1.1.1.2"), record("u1.org", "1.1.1.3")],
        delete: Vec::new(),
    };
    assert_eq!(
        Vec::<Change>::from(batch),
        vec![
            Change::Update { old: record("u1.org", "1.1.1.1"), new: record("u1.org", "1.1.1.3") },
            Change::Update { old: record("u2.org", "1.1.1.1"), new: record("u2.org", "1.1.1.2") },
        ]
    );
}

#[test]
fn an_update_without_partner_is_dropped() {
    let batch = Changes {
        create: vec![record("c.org", "1.1.1.1")],
        update_old: vec![record("lonely.org", "1.1.1.1"), record("u.org", "1.1.1.1")],
        update_new: vec![record("u.org", "1.1.1.2")],
        delete: Vec::new(),
    };
    assert_eq!(
        Vec::<Change>::from(batch),
        vec![
            Change::Update { old: record("u.org", "1.1.1.1"), new: record("u.org", "1.1.1.2") },
            Change::Create(record("c.org", "1.1.1.1")),
        ]
    );
}

#[test]
fn the_first_partner_is_taken() {
    let batch = Changes {
        create: Vec::new(),
        update_old: vec![record("u.org", "1.1.1.1")],
        update_new: vec![record("u.org", "1.1.1.2"), record("u.org", "1.1.1.3")],
        delete: Vec::new(),
    };
    assert_eq!(
        Vec::<Change>::from(batch),
        vec![Change::Update { old: record("u.org", "1.1.1.1"), new: record("u.org", "1.1.1.2") }]
    );
}

#[test]
fn an_empty_batch_holds_no_change() {
    let batch = Changes {
        create: Vec::new(),
        update_old: Vec::new(),
        update_new: Vec::new(),
        delete: Vec::new(),
    };
    assert_eq!(Vec::<Change>::from(batch), Vec::<Change>::new());
}

#[test]
fn a_round_trip_regroups_the_changes() {
    let changes = vec![
        Change::Create(record("c1.org", "1.1.1.1")),
        Change::Update { old: record("u1.org", "1.1.1.1"), new: record("u1.org", "1.1.1.2") },
        Change::Delete(record("d1.org", "1.1.1.1")),
        Change::Create(record("c1.org", "1.1.1.1")),
        Change::Delete(record("d2.org", "1.1.1.1")),
    ];
    let back: Vec<Change> = Changes::from(changes).into();
    assert_eq!(
        back,
        vec![
            Change::Delete(record("d1.org", "1.1.1.1")),
            Change::Delete(record("d2.org", "1.1.1.1")),
            Change::Update { old: record("u1.org", "1.1.1.1"), new: record("u1.org", "1.1.1.2") },
            Change::Create(record("c1.org", "1.1.1.1")),
            Change::Create(record("c1.org", "1.1.1.1")),
        ]
    );
}

#[test]
fn a_round_trip_loses_an_update_that_changes_identity() {
    let changes = vec![
        Change::Update { old: record("old.org", "1.1.1.1"), new: record("new.org", "1.1.1.1") },
        Change::Delete(record("d.org", "1.1.1.1")),
    ];
    let back: Vec<Change> = Changes::from(changes).into();
    assert_eq!(back, vec![Change::Delete(record("d.org", "1.1.1.1"))]);
}

#[test]
fn a_difference_survives_the_round_trip() {
    let current = vec![
        record("update.org", "192.168.0.1"),
        record("delete.org", "192.168.0.1"),
        record("keep.org", "192.168.0.1"),
    ];
    let desired = vec![
        record("keep.org", "192.168.0.1"),
        record("update.org", "192.168.0.2"),
        record("create.org", "192.168.0.1"),
    ];
    let changes = current.difference(desired);
    let back: Vec<Change> = Changes::from(changes.clone()).into();
    assert_eq!(back, changes);
}
