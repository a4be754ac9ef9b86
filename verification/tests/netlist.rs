use pcb_netlist::builder::NetlistBuilder;
use pcb_netlist::classify::classify_group;
use pcb_netlist::classify::pins_compatible;
use pcb_netlist::grouping::group_connected_pins;
use pcb_netlist::model::build_model;
use pcb_netlist::pins::BuildError;
use pcb_netlist::pins::ChipPin;
use pcb_netlist::pins::ConnectedPins;
use pcb_netlist::pins::PinMetadata;
use pcb_netlist::pins::PinType;
use pcb_netlist::pins::pin_type_from_str;
use pcb_netlist::pins::tristatable_from_path;

fn cp(chip: &str, pin: &str) -> ChipPin {
    ChipPin { chip: chip.to_string(), pin: pin.to_string() }
}

fn md(t: PinType, tri: bool) -> PinMetadata {
    PinMetadata { pin_type: t, data_type: "u8".to_string(), tristatable: tri }
}

fn names(v: &[&str]) -> Vec<String> {
    v.iter().map(|s| s.to_string()).collect()
}

#[test]
fn pin_type_from_str_reads_directions() {
    assert_eq!(pin_type_from_str(&"input".to_string()), Some(PinType::Input));
    assert_eq!(pin_type_from_str(&"output".to_string()), Some(PinType::Output));
    assert_eq!(pin_type_from_str(&"io".to_string()), Some(PinType::IO));
    assert_eq!(pin_type_from_str(&"tristate".to_string()), None);
    assert_eq!(pin_type_from_str(&"".to_string()), None);
}

#[test]
fn tristatable_path_forms() {
    assert!(tristatable_from_path(&names(&["Option"])));
    assert!(tristatable_from_path(&names(&["option", "Option"])));
    assert!(tristatable_from_path(&names(&["std", "option", "Option"])));
    assert!(!tristatable_from_path(&names(&["core", "option", "Option"])));
    assert!(!tristatable_from_path(&names(&["Vec"])));
    assert!(!tristatable_from_path(&names(&[])));
}

#[test]
fn model_accepts_clean_design() {
    let m = build_model(
        &names(&["a", "b"]),
        &vec![(cp("a", "p1"), cp("b", "p2"))],
        &vec![cp("a", "p1")],
    )
    .unwrap();
    assert_eq!(m.chips, names(&["a", "b"]));
    assert_eq!(m.connections.len(), 1);
    assert_eq!(m.exposed, vec![cp("a", "p1")]);
    assert_eq!(m.chip_pins[0], names(&["p1"]));
    assert_eq!(m.chip_pins[1], names(&["p2"]));
}

#[test]
fn model_deduplicates_redeclared_chips() {
    let m = build_model(&names(&["a", "a", "b"]), &vec![(cp("a", "x"), cp("b", "y"))], &vec![])
        .unwrap();
    assert_eq!(m.chips, names(&["a", "b"]));
}

#[test]
fn self_connection_rejected_whatever_the_pin() {
    let r = build_model(&names(&["a"]), &vec![(cp("a", "p1"), cp("a", "p1"))], &vec![]);
    assert_eq!(r.unwrap_err(), BuildError::SelfConnection(cp("a", "p1")));
}

#[test]
fn undeclared_chip_in_connection_rejected() {
    let r = build_model(&names(&["a"]), &vec![(cp("a", "p1"), cp("b", "p2"))], &vec![]);
    assert_eq!(r.unwrap_err(), BuildError::UndeclaredChip("b".to_string()));
}

#[test]
fn undeclared_chip_in_expose_rejected() {
    let r = build_model(
        &names(&["a"]),
        &vec![(cp("a", "p1"), cp("a", "p2"))],
        &vec![cp("c", "p")],
    );
    assert_eq!(r.unwrap_err(), BuildError::UndeclaredChip("c".to_string()));
}

#[test]
fn grouping_partitions_wired_pins() {
    let edges = vec![
        (cp("a", "1"), cp("b", "1")),
        (cp("b", "1"), cp("c", "1")),
        (cp("d", "1"), cp("e", "1")),
    ];
    let groups = group_connected_pins(&edges);
    let all_pins = [cp("a", "1"), cp("b", "1"), cp("c", "1"), cp("d", "1"), cp("e", "1")];
    // every wired pin lies in exactly one group
    for p in &all_pins {
        let occurrences: usize =
            groups.iter().map(|g| g.iter().filter(|q| *q == p).count()).sum();
        assert_eq!(occurrences, 1);
    }
    // the chain a-b-c is one group, d-e another
    let g_abc = groups.iter().find(|g| g.contains(&cp("a", "1"))).unwrap();
    assert_eq!(g_abc.len(), 3);
    assert!(g_abc.contains(&cp("b", "1")));
    assert!(g_abc.contains(&cp("c", "1")));
    let g_de = groups.iter().find(|g| g.contains(&cp("d", "1"))).unwrap();
    assert_eq!(g_de.len(), 2);
    assert!(g_de.contains(&cp("e", "1")));
    assert_eq!(groups.len(), 2);
}

#[test]
fn unwired_pin_stays_out_of_groups() {
    let edges = vec![(cp("a", "1"), cp("b", "1"))];
    let groups = group_connected_pins(&edges);
    assert_eq!(groups.len(), 1);
    assert!(!groups[0].contains(&cp("x", "9")));
}

#[test]
fn pair_source_is_the_output_pin() {
    let ms = vec![(cp("a", "o"), md(PinType::Output, false)), (cp("b", "i"), md(PinType::Input, false))];
    let r = classify_group(&ms).unwrap();
    assert_eq!(r, ConnectedPins::Pair { source: cp("a", "o"), destination: cp("b", "i") });
    let ms2 = vec![(cp("b", "i"), md(PinType::Input, false)), (cp("a", "o"), md(PinType::Output, false))];
    let r2 = classify_group(&ms2).unwrap();
    assert_eq!(r2, ConnectedPins::Pair { source: cp("a", "o"), destination: cp("b", "i") });
}

#[test]
fn pair_without_driver_rejected() {
    let ms = vec![(cp("a", "i"), md(PinType::Input, false)), (cp("b", "i"), md(PinType::Input, false))];
    let r = classify_group(&ms).unwrap_err();
    assert_eq!(r, BuildError::NoDriver(vec![cp("a", "i"), cp("b", "i")]));
}

#[test]
fn broadcast_single_driver() {
    let ms = vec![
        (cp("a", "o"), md(PinType::Output, false)),
        (cp("b", "i"), md(PinType::Input, false)),
        (cp("c", "i"), md(PinType::Input, false)),
    ];
    let r = classify_group(&ms).unwrap();
    assert_eq!(
        r,
        ConnectedPins::Broadcast {
            source: cp("a", "o"),
            destinations: vec![cp("b", "i"), cp("c", "i")],
        }
    );
}

#[test]
fn tristated_bus_with_two_drivers() {
    let ms = vec![
        (cp("a", "o"), md(PinType::Output, true)),
        (cp("b", "o"), md(PinType::Output, true)),
        (cp("c", "i"), md(PinType::Input, true)),
    ];
    let r = classify_group(&ms).unwrap();
    assert_eq!(
        r,
        ConnectedPins::Tristated {
            sources: vec![cp("a", "o"), cp("b", "o")],
            destinations: vec![cp("c", "i")],
        }
    );
}

#[test]
fn multiple_drivers_without_tristate_rejected() {
    let ms = vec![
        (cp("a", "o"), md(PinType::Output, true)),
        (cp("b", "o"), md(PinType::Output, true)),
        (cp("c", "i"), md(PinType::Input, false)),
    ];
    let r = classify_group(&ms).unwrap_err();
    assert_eq!(
        r,
        BuildError::MultipleDriversWithoutTristate(vec![cp("a", "o"), cp("b", "o"), cp("c", "i")])
    );
}

#[test]
fn mixed_tristate_group_rejected() {
    let ms = vec![
        (cp("a", "o"), md(PinType::Output, true)),
        (cp("b", "i"), md(PinType::Input, false)),
        (cp("c", "i"), md(PinType::Input, false)),
    ];
    let r = classify_group(&ms).unwrap_err();
    assert_eq!(
        r,
        BuildError::MixedTristateGroup(vec![cp("a", "o"), cp("b", "i"), cp("c", "i")])
    );
}

#[test]
fn group_of_receivers_has_no_driver() {
    let ms = vec![
        (cp("a", "i"), md(PinType::Input, false)),
        (cp("b", "i"), md(PinType::Input, false)),
        (cp("c", "x"), md(PinType::IO, false)),
    ];
    let r = classify_group(&ms).unwrap_err();
    assert_eq!(r, BuildError::NoDriver(vec![cp("a", "i"), cp("b", "i"), cp("c", "x")]));
}

#[test]
fn pair_rule_rejects_two_permanent_drivers() {
    assert!(!pins_compatible(&md(PinType::Output, false), &md(PinType::Output, false)));
    assert!(pins_compatible(&md(PinType::Output, false), &md(PinType::Input, false)));
    assert!(pins_compatible(&md(PinType::Output, true), &md(PinType::Output, true)));
    assert!(pins_compatible(&md(PinType::Output, false), &md(PinType::Output, true)));
}

#[test]
fn build_produces_finished_netlist() {
    let m = build_model(
        &names(&["a", "b"]),
        &vec![(cp("a", "out1"), cp("b", "in1"))],
        &vec![cp("b", "in1")],
    )
    .unwrap();
    let b = NetlistBuilder::new(m)
        .add_chip("a".to_string(), vec![("out1".to_string(), md(PinType::Output, false))])
        .add_chip("b".to_string(), vec![("in1".to_string(), md(PinType::Input, false))]);
    let n = b.build().unwrap();
    assert_eq!(
        n.connections,
        vec![ConnectedPins::Pair { source: cp("a", "out1"), destination: cp("b", "in1") }]
    );
    assert_eq!(n.exposed, vec![cp("b", "in1")]);
}

#[test]
fn missing_chip_reported_before_connections_are_inspected() {
    // the wire joins two permanent drivers, but the missing chip wins
    let m = build_model(&names(&["a", "b"]), &vec![(cp("a", "o"), cp("b", "o"))], &vec![])
        .unwrap();
    let b = NetlistBuilder::new(m)
        .add_chip("a".to_string(), vec![("o".to_string(), md(PinType::Output, false))]);
    assert_eq!(b.build().unwrap_err(), BuildError::MissingChip("b".to_string()));
}

#[test]
fn unknown_pin_reported() {
    let m = build_model(&names(&["a", "b"]), &vec![(cp("a", "o"), cp("b", "i"))], &vec![])
        .unwrap();
    let b = NetlistBuilder::new(m)
        .add_chip("a".to_string(), vec![("other".to_string(), md(PinType::Output, false))])
        .add_chip("b".to_string(), vec![("i".to_string(), md(PinType::Input, false))]);
    assert_eq!(
        b.build().unwrap_err(),
        BuildError::UnknownPin("a".to_string(), "o".to_string())
    );
}

#[test]
fn incompatible_pins_reported() {
    let m = build_model(&names(&["a", "b"]), &vec![(cp("a", "o"), cp("b", "o"))], &vec![])
        .unwrap();
    let b = NetlistBuilder::new(m)
        .add_chip("a".to_string(), vec![("o".to_string(), md(PinType::Output, false))])
        .add_chip("b".to_string(), vec![("o".to_string(), md(PinType::Output, false))]);
    assert_eq!(
        b.build().unwrap_err(),
        BuildError::IncompatiblePins(cp("a", "o"), cp("b", "o"))
    );
}

#[test]
fn build_twice_yields_identical_results() {
    let m = build_model(
        &names(&["a", "b", "c"]),
        &vec![(cp("a", "o"), cp("b", "i")), (cp("a", "o"), cp("c", "i"))],
        &vec![cp("a", "o")],
    )
    .unwrap();
    let b = NetlistBuilder::new(m)
        .add_chip("a".to_string(), vec![("o".to_string(), md(PinType::Output, false))])
        .add_chip("b".to_string(), vec![("i".to_string(), md(PinType::Input, false))])
        .add_chip("c".to_string(), vec![("i".to_string(), md(PinType::Input, false))]);
    let first = b.build();
    let second = b.build();
    assert_eq!(format!("{:?}", first), format!("{:?}", second));
    // and the same holds of a failing build
    let m2 = build_model(&names(&["a", "b"]), &vec![(cp("a", "o"), cp("b", "o"))], &vec![])
        .unwrap();
    let b2 = NetlistBuilder::new(m2)
        .add_chip("a".to_string(), vec![("o".to_string(), md(PinType::Output, false))])
        .add_chip("b".to_string(), vec![("o".to_string(), md(PinType::Output, false))]);
    let e1 = b2.build();
    let e2 = b2.build();
    assert_eq!(format!("{:?}", e1), format!("{:?}", e2));
}

#[test]
fn build_classifies_broadcast_group() {
    let m = build_model(
        &names(&["a", "b", "c"]),
        &vec![(cp("a", "o"), cp("b", "i")), (cp("a", "o"), cp("c", "i"))],
        &vec![],
    )
    .unwrap();
    let b = NetlistBuilder::new(m)
        .add_chip("a".to_string(), vec![("o".to_string(), md(PinType::Output, false))])
        .add_chip("b".to_string(), vec![("i".to_string(), md(PinType::Input, false))])
        .add_chip("c".to_string(), vec![("i".to_string(), md(PinType::Input, false))]);
    let n = b.build().unwrap();
    assert_eq!(n.connections.len(), 1);
    match &n.connections[0] {
        ConnectedPins::Broadcast { source, destinations } => {
            assert_eq!(*source, cp("a", "o"));
            assert_eq!(destinations.len(), 2);
            assert!(destinations.contains(&cp("b", "i")));
            assert!(destinations.contains(&cp("c", "i")));
        }
        other => panic!("expected a broadcast group, got {:?}", other),
    }
}

#[test]
fn adding_a_chip_again_replaces_the_first_instance() {
    let m = build_model(&names(&["a", "b"]), &vec![(cp("a", "o"), cp("b", "i"))], &vec![])
        .unwrap();
    let b = NetlistBuilder::new(m)
        .add_chip("a".to_string(), vec![("wrong".to_string(), md(PinType::Input, false))])
        .add_chip("b".to_string(), vec![("i".to_string(), md(PinType::Input, false))])
        .add_chip("a".to_string(), vec![("o".to_string(), md(PinType::Output, false))]);
    let n = b.build().unwrap();
    assert_eq!(
        n.connections,
        vec![ConnectedPins::Pair { source: cp("a", "o"), destination: cp("b", "i") }]
    );
}

#[test]
fn empty_design_builds_empty_netlist() {
    let m = build_model(&names(&["a"]), &vec![], &vec![]).unwrap();
    let b = NetlistBuilder::new(m).add_chip("a".to_string(), vec![]);
    let n = b.build().unwrap();
    assert_eq!(n.connections.len(), 0);
    assert_eq!(n.exposed.len(), 0);
}

#[test]
fn diagnostics_name_the_offenders() {
    assert_eq!(
        BuildError::UndeclaredChip("b".to_string()).describe(),
        "use of undeclared chip b"
    );
    assert_eq!(
        BuildError::SelfConnection(cp("a", "p1")).describe(),
        "pin wired to itself: a::p1"
    );
    assert_eq!(
        BuildError::MissingChip("b".to_string()).describe(),
        "chip b defined in pcb design, but not added"
    );
    assert_eq!(
        BuildError::UnknownPin("a".to_string(), "x".to_string()).describe(),
        "chip a has no pin named x"
    );
    assert_eq!(
        BuildError::IncompatiblePins(cp("a", "o"), cp("b", "o")).describe(),
        "cannot connect a::o to b::o"
    );
}

#[test]
fn late_wire_merges_two_groups() {
    // a-b and c-d form first; the b-c wire then joins them into one group
    let edges = vec![
        (cp("a", "1"), cp("b", "1")),
        (cp("c", "1"), cp("d", "1")),
        (cp("b", "1"), cp("c", "1")),
    ];
    let groups = group_connected_pins(&edges);
    assert_eq!(groups.len(), 1);
    assert_eq!(groups[0].len(), 4);
    for p in [cp("a", "1"), cp("b", "1"), cp("c", "1"), cp("d", "1")] {
        assert!(groups[0].contains(&p));
    }
}

#[test]
fn io_pins_join_destinations_by_elimination() {
    let ms = vec![
        (cp("a", "o"), md(PinType::Output, false)),
        (cp("b", "i"), md(PinType::Input, false)),
        (cp("c", "x"), md(PinType::IO, false)),
    ];
    let r = classify_group(&ms).unwrap();
    assert_eq!(
        r,
        ConnectedPins::Broadcast {
            source: cp("a", "o"),
            destinations: vec![cp("b", "i"), cp("c", "x")],
        }
    );
    let ms2 = vec![
        (cp("a", "o"), md(PinType::Output, true)),
        (cp("b", "o"), md(PinType::Output, true)),
        (cp("c", "x"), md(PinType::IO, true)),
    ];
    let r2 = classify_group(&ms2).unwrap();
    assert_eq!(
        r2,
        ConnectedPins::Tristated {
            sources: vec![cp("a", "o"), cp("b", "o")],
            destinations: vec![cp("c", "x")],
        }
    );
}

#[test]
fn group_diagnostics_name_the_pins() {
    assert_eq!(
        BuildError::NoDriver(vec![cp("a", "i"), cp("b", "i")]).describe(),
        "shorted pins have no driver: a::i, b::i"
    );
    assert_eq!(
        BuildError::MixedTristateGroup(vec![cp("a", "o")]).describe(),
        "shorted pins mix tristatable and non-tristatable members: a::o"
    );
}

#[test]
fn build_keeps_wired_io_pins_in_the_netlist() {
    let m = build_model(
        &names(&["a", "b", "c"]),
        &vec![(cp("a", "o"), cp("b", "i")), (cp("a", "o"), cp("c", "x"))],
        &vec![],
    )
    .unwrap();
    let b = NetlistBuilder::new(m)
        .add_chip("a".to_string(), vec![("o".to_string(), md(PinType::Output, false))])
        .add_chip("b".to_string(), vec![("i".to_string(), md(PinType::Input, false))])
        .add_chip("c".to_string(), vec![("x".to_string(), md(PinType::IO, false))]);
    let n = b.build().unwrap();
    assert_eq!(n.connections.len(), 1);
    match &n.connections[0] {
        ConnectedPins::Broadcast { source, destinations } => {
            assert_eq!(*source, cp("a", "o"));
            assert!(destinations.contains(&cp("b", "i")));
            assert!(destinations.contains(&cp("c", "x")));
        }
        other => panic!("expected a broadcast group, got {:?}", other),
    }
}
