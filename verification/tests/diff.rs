use external_dns_sdk::{Change, Endpoint, EndpointDiff, EndpointIdent, ProviderSpecificProperty};

fn endpoint(name: &str, target: &str) -> Endpoint {
    Endpoint {
        identity: EndpointIdent {
            dns_name: name.to_string(),
            record_type: "A".to_string(),
            set_identifier: String::new(),
        },
        targets: vec![target.to_string()],
        record_ttl: Some(300),
        labels: Vec::new(),
        provider_specific: Vec::new(),
    }
}

fn bare(name: &str, target: &str) -> Endpoint {
    Endpoint { record_ttl: None, ..endpoint(name, target) }
}

fn creates(changes: &[Change]) -> Vec<Endpoint> {
    let mut found = Vec::new();
    for change in changes {
        if let Change::Create(endpoint) = change {
            found.push(endpoint.clone());
        }
    }
    found
}

fn deletes(changes: &[Change]) -> Vec<Endpoint> {
    let mut found = Vec::new();
    for change in changes {
        if let Change::Delete(endpoint) = change {
            found.push(endpoint.clone());
        }
    }
    found
}

#[test]
fn difference_calculation() {
    let a = vec![
        Endpoint {
            identity: EndpointIdent {
                dns_name: "update.org.".to_string(),
                record_type: "A".to_string(),
                set_identifier: String::new(),
            },
            targets: vec!["192.168.0.1".to_string()],
            record_ttl: Some(300),
            labels: Vec::new(),
            provider_specific: Vec::new(),
        },
        Endpoint {
            identity: EndpointIdent {
                dns_name: "delete.org.".to_string(),
                record_type: "A".to_string(),
                set_identifier: String::new(),
            },
            targets: vec!["192.168.0.1".to_string()],
            record_ttl: Some(300),
            labels: Vec::new(),
            provider_specific: Vec::new(),
        },
    ];

    let b = vec![
        Endpoint {
            identity: EndpointIdent {
                dns_name: "update.org.".to_string(),
                record_type: "A".to_string(),
                set_identifier: String::new(),
            },
            targets: vec!["192.168.0.2".to_string()],
            record_ttl: Some(300),
            labels: Vec::new(),
            provider_specific: Vec::new(),
        },
        Endpoint {
            identity: EndpointIdent {
                dns_name: "create.org.".to_string(),
                record_type: "A".to_string(),
                set_identifier: String::new(),
            },
            targets: vec!["192.168.0.1".to_string()],
            record_ttl: Some(300),
            labels: Vec::new(),
            provider_specific: Vec::new(),
        },
    ];

    let changes = a.difference(b);

    assert_eq!(
        changes,
        vec![
            Change::Delete(Endpoint {
                identity: EndpointIdent {
                    dns_name: "delete.org.".to_string(),
                    record_type: "A".to_string(),
                    set_identifier: String::new(),
                },
                targets: vec!["192.168.0.1".to_string()],
                record_ttl: Some(300),
                labels: Vec::new(),
                provider_specific: Vec::new(),
            }),
            Change::Update {
                old: Endpoint {
                    identity: EndpointIdent {
                        dns_name: "update.org.".to_string(),
                        record_type: "A".to_string(),
                        set_identifier: String::new(),
                    },
                    targets: vec!["192.168.0.1".to_string()],
                    record_ttl: Some(300),
                    labels: Vec::new(),
                    provider_specific: Vec::new(),
                },
                new: Endpoint {
                    identity: EndpointIdent {
                        dns_name: "update.org.".to_string(),
                        record_type: "A".to_string(),
                        set_identifier: String::new(),
                    },
                    targets: vec!["192.168.0.2".to_string()],
                    record_ttl: Some(300),
                    labels: Vec::new(),
                    provider_specific: Vec::new(),
                }
            },
            Change::Create(Endpoint {
                identity: EndpointIdent {
                    dns_name: "create.org.".to_string(),
                    record_type: "A".to_string(),
                    set_identifier: String::new(),
                },
                targets: vec!["192.168.0.1".to_string()],
                record_ttl: Some(300),
                labels: Vec::new(),
                provider_specific: Vec::new(),
            })
        ]
    )
}

#[test]
fn nothing_current_gives_one_create() {
    let desired = vec![bare("update.org", "1.1.1.1")];
    let changes = Vec::<Endpoint>::new().difference(desired);
    assert_eq!(changes, vec![Change::Create(bare("update.org", "1.1.1.1"))]);
}

#[test]
fn delete_then_update_then_create() {
    let current = vec![bare("update.org", "1.1.1.1"), bare("delete.org", "1.1.1.1")];
    let desired = vec![bare("update.org", "1.1.1.2"), bare("create.org", "1.1.1.1")];
    let changes = current.difference(desired);
    assert_eq!(
        changes,
        vec![
            Change::Delete(bare("delete.org", "1.1.1.1")),
            Change::Update {
                old: bare("update.org", "1.1.1.1"),
                new: bare("update.org", "1.1.1.2"),
            },
            Change::Create(bare("create.org", "1.1.1.1")),
        ]
    );
}

#[test]
fn same_values_give_no_change() {
    let current = vec![bare("update.org", "1.1.1.1"), bare("delete.org", "1.1.1.1")];
    let desired = vec![bare("update.org", "1.1.1.1"), bare("delete.org", "1.1.1.1")];
    assert_eq!(current.difference(desired), Vec::<Change>::new());
}

#[test]
fn same_state_in_another_order_gives_no_change() {
    let current = vec![endpoint("a.org", "1.1.1.1"), endpoint("b.org", "1.1.1.2")];
    let desired = vec![endpoint("b.org", "1.1.1.2"), endpoint("a.org", "1.1.1.1")];
    assert_eq!(current.difference(desired), Vec::<Change>::new());
}

#[test]
fn empty_states_give_no_change() {
    assert_eq!(Vec::<Endpoint>::new().difference(Vec::new()), Vec::<Change>::new());
}

#[test]
fn difference_with_itself_is_empty() {
    let state = vec![
        endpoint("a.org", "1.1.1.1"),
        endpoint("b.org", "1.1.1.2"),
        endpoint("a.org", "1.1.1.3"),
    ];
    assert_eq!(state.clone().difference(state), Vec::<Change>::new());
}

#[test]
fn disjoint_addition_gives_one_create_each() {
    let a = vec![endpoint("a.org", "1.1.1.1"), endpoint("b.org", "1.1.1.2")];
    let b = vec![endpoint("c.org", "1.1.1.3"), endpoint("d.org", "1.1.1.4")];
    let mut both = a.clone();
    both.extend(b.clone());
    assert_eq!(
        a.difference(both),
        vec![
            Change::Create(endpoint("c.org", "1.1.1.3")),
            Change::Create(endpoint("d.org", "1.1.1.4")),
        ]
    );
}

#[test]
fn deletes_one_way_are_creates_the_other_way() {
    let a = vec![
        endpoint("a.org", "1.1.1.1"),
        endpoint("b.org", "1.1.1.2"),
        endpoint("c.org", "1.1.1.3"),
    ];
    let b = vec![
        endpoint("b.org", "1.1.1.9"),
        endpoint("d.org", "1.1.1.4"),
        endpoint("e.org", "1.1.1.5"),
    ];
    let forth = a.clone().difference(b.clone());
    let back = b.difference(a);
    assert_eq!(deletes(&forth), creates(&back));
    assert_eq!(creates(&forth), deletes(&back));
    assert_eq!(deletes(&forth), vec![endpoint("a.org", "1.1.1.1"), endpoint("c.org", "1.1.1.3")]);
    assert_eq!(creates(&forth), vec![endpoint("d.org", "1.1.1.4"), endpoint("e.org", "1.1.1.5")]);
}

#[test]
fn groups_come_in_order() {
    let current = vec![
        endpoint("u1.org", "1.1.1.1"),
        endpoint("d1.org", "1.1.1.1"),
        endpoint("u2.org", "1.1.1.1"),
        endpoint("d2.org", "1.1.1.1"),
    ];
    let desired = vec![
        endpoint("c1.org", "1.1.1.1"),
        endpoint("u2.org", "1.1.1.2"),
        endpoint("c2.org", "1.1.1.1"),
        endpoint("u1.org", "1.1.1.2"),
    ];
    let changes = current.difference(desired);
    assert_eq!(
        changes,
        vec![
            Change::Delete(endpoint("d1.org", "1.1.1.1")),
            Change::Delete(endpoint("d2.org", "1.1.1.1")),
            Change::Update { old: endpoint("u1.org", "1.1.1.1"), new: endpoint("u1.org", "1.1.1.2") },
            Change::Update { old: endpoint("u2.org", "1.1.1.1"), new: endpoint("u2.org", "1.1.1.2") },
            Change::Create(endpoint("c1.org", "1.1.1.1")),
            Change::Create(endpoint("c2.org", "1.1.1.1")),
        ]
    );
}

#[test]
fn later_duplicate_wins() {
    let current = vec![endpoint("a.org", "1.1.1.1"), endpoint("a.org", "1.1.1.2")];
    let desired = vec![endpoint("a.org", "1.1.1.2")];
    assert_eq!(current.difference(desired), Vec::<Change>::new());

    let current = vec![endpoint("a.org", "1.1.1.1")];
    let desired = vec![endpoint("a.org", "1.1.1.1"), endpoint("a.org", "1.1.1.3")];
    assert_eq!(
        current.difference(desired),
        vec![Change::Update { old: endpoint("a.org", "1.1.1.1"), new: endpoint("a.org", "1.1.1.3") }]
    );

    let desired = vec![endpoint("a.org", "1.1.1.1"), endpoint("a.org", "1.1.1.3")];
    assert_eq!(
        Vec::<Endpoint>::new().difference(desired),
        vec![Change::Create(endpoint("a.org", "1.1.1.3"))]
    );
}

#[test]
fn identity_is_name_type_and_set_identifier() {
    let mut weighted = endpoint("a.org", "1.1.1.1");
    weighted.identity.set_identifier = "blue".to_string();
    let mut other_type = endpoint("a.org", "1.1.1.1");
    other_type.identity.record_type = "AAAA".to_string();
    let current = vec![endpoint("a.org", "1.1.1.1")];
    let desired = vec![endpoint("a.org", "1.1.1.1"), weighted.clone(), other_type.clone()];
    assert_eq!(
        current.difference(desired),
        vec![Change::Create(weighted), Change::Create(other_type)]
    );
}

#[test]
fn any_field_that_differs_gives_an_update() {
    let old = endpoint("a.org", "1.1.1.1");

    let mut ttl = old.clone();
    ttl.record_ttl = None;
    assert_eq!(
        vec![old.clone()].difference(vec![ttl.clone()]),
        vec![Change::Update { old: old.clone(), new: ttl }]
    );

    let mut labelled = old.clone();
    labelled.labels.push(("owner".to_string(), "me".to_string()));
    assert_eq!(
        vec![old.clone()].difference(vec![labelled.clone()]),
        vec![Change::Update { old: old.clone(), new: labelled }]
    );

    let mut specific = old.clone();
    specific
        .provider_specific
        .push(ProviderSpecificProperty { name: "alias".to_string(), value: "true".to_string() });
    assert_eq!(
        vec![old.clone()].difference(vec![specific.clone()]),
        vec![Change::Update { old: old.clone(), new: specific }]
    );

    let mut targets = old.clone();
    targets.targets.push("1.1.1.2".to_string());
    assert_eq!(
        vec![old.clone()].difference(vec![targets.clone()]),
        vec![Change::Update { old, new: targets }]
    );
}

#[test]
fn labels_compare_as_a_mapping() {
    let mut one = endpoint("a.org", "1.1.1.1");
    one.labels = vec![
        ("owner".to_string(), "me".to_string()),
        ("resource".to_string(), "ingress".to_string()),
    ];
    let mut other = endpoint("a.org", "1.1.1.1");
    other.labels = vec![
        ("resource".to_string(), "ingress".to_string()),
        ("owner".to_string(), "me".to_string()),
    ];
    assert_eq!(one, other);
    assert_eq!(vec![one.clone()].difference(vec![other.clone()]), Vec::<Change>::new());

    let mut replaced = endpoint("a.org", "1.1.1.1");
    replaced.labels = vec![
        ("owner".to_string(), "you".to_string()),
        ("resource".to_string(), "ingress".to_string()),
        ("owner".to_string(), "me".to_string()),
    ];
    assert_eq!(one, replaced);

    let mut differs = endpoint("a.org", "1.1.1.1");
    differs.labels = vec![
        ("owner".to_string(), "you".to_string()),
        ("resource".to_string(), "ingress".to_string()),
    ];
    assert_ne!(one, differs);

    let mut fewer = endpoint("a.org", "1.1.1.1");
    fewer.labels = vec![("owner".to_string(), "me".to_string())];
    assert_ne!(one, fewer);
    assert_ne!(fewer, one);
}

#[test]
fn targets_compare_in_order() {
    let mut one = endpoint("a.org", "1.1.1.1");
    one.targets.push("1.1.1.2".to_string());
    let mut other = endpoint("a.org", "1.1.1.2");
    other.targets.push("1.1.1.1".to_string());
    assert_ne!(one, other);
}
