use graphkit::parser::neuron::{
    ExcitatoryType, InhibitoryType, Neuron, NeuronClass, NeuronCluster, NeuronRegion, NeuronSpan,
};

const CLUSTERS: [NeuronCluster; 5] =
    [NeuronCluster::A, NeuronCluster::B, NeuronCluster::C, NeuronCluster::ET, NeuronCluster::NP];

#[test]
fn cluster_names_round_trip() {
    for c in CLUSTERS {
        assert_eq!(NeuronCluster::from(&c.id()), Some(c));
    }
    assert_eq!(NeuronCluster::from("ET"), Some(NeuronCluster::ET));
    assert_eq!(NeuronCluster::from("et"), None);
    assert_eq!(NeuronCluster::from(""), None);
}

#[test]
fn span_names_round_trip() {
    for s in [NeuronSpan::Short, NeuronSpan::Tall] {
        assert_eq!(NeuronSpan::from(&s.id()), Some(s));
    }
    assert_eq!(NeuronSpan::from("tall"), Some(NeuronSpan::Tall));
    assert_eq!(NeuronSpan::from("long"), None);
}

#[test]
fn inhibitory_names_round_trip() {
    for t in [InhibitoryType::DTC, InhibitoryType::ITC, InhibitoryType::PTC, InhibitoryType::STC] {
        assert_eq!(InhibitoryType::from(&t.id()), Some(t));
    }
    assert_eq!(InhibitoryType::id(&InhibitoryType::PTC), "PTC");
    assert_eq!(InhibitoryType::from("XTC"), None);
}

#[test]
fn excitatory_names() {
    assert_eq!(ExcitatoryType::from("L4NP"), Some(ExcitatoryType::L4(NeuronCluster::NP)));
    assert_eq!(
        ExcitatoryType::from("L6short-b"),
        Some(ExcitatoryType::L6(NeuronSpan::Short, NeuronCluster::B))
    );
    assert_eq!(ExcitatoryType::from("L2"), None);
    assert_eq!(ExcitatoryType::from("L7a"), None);
    assert_eq!(ExcitatoryType::from("L6short"), None);
    assert_eq!(ExcitatoryType::from("L6-a"), None);
    assert_eq!(ExcitatoryType::from("L5x"), None);
    let e = ExcitatoryType::L6(NeuronSpan::Tall, NeuronCluster::C);
    assert_eq!(e.partial_id(), "L6");
    assert_eq!(e.id(), "L6tall-c");
    assert_eq!(ExcitatoryType::L3(NeuronCluster::ET).id(), "L3ET");
}

#[test]
fn excitatory_names_round_trip() {
    let mut all = Vec::new();
    for c in CLUSTERS {
        all.push(ExcitatoryType::L2(c));
        all.push(ExcitatoryType::L3(c));
        all.push(ExcitatoryType::L4(c));
        all.push(ExcitatoryType::L5(c));
        all.push(ExcitatoryType::L6(NeuronSpan::Short, c));
        all.push(ExcitatoryType::L6(NeuronSpan::Tall, c));
    }
    for e in all {
        assert_eq!(ExcitatoryType::from(&e.id()), Some(e));
    }
}

#[test]
fn class_names() {
    let c = NeuronClass::build("excitatory_neuron", "L5ET").unwrap();
    assert_eq!(c, NeuronClass::Excitatory(ExcitatoryType::L5(NeuronCluster::ET)));
    assert_eq!(c.classification(), "excitatory_neuron");
    assert_eq!(c.layer(), "L5");
    assert_eq!(c.subtype(), "L5ET");
    let i = NeuronClass::build("inhibitory_neuron", "STC").unwrap();
    assert_eq!(i.classification(), "inhibitory_neuron");
    assert_eq!(i.layer(), "STC");
    assert_eq!(i.subtype(), "STC");
    assert_eq!(NeuronClass::build("glia", "STC"), None);
    assert_eq!(NeuronClass::build("inhibitory_neuron", "L5ET"), None);
}

#[test]
fn class_names_round_trip() {
    let classes = [
        NeuronClass::Inhibitory(InhibitoryType::ITC),
        NeuronClass::Excitatory(ExcitatoryType::L2(NeuronCluster::A)),
        NeuronClass::Excitatory(ExcitatoryType::L6(NeuronSpan::Tall, NeuronCluster::NP)),
    ];
    for c in classes {
        assert_eq!(NeuronClass::build(&c.classification(), &c.subtype()), Some(c));
    }
}

#[test]
fn regions() {
    assert_eq!(NeuronRegion::try_from_str("visp"), Ok(NeuronRegion::VISp));
    assert_eq!(NeuronRegion::try_from_str("visrl"), Ok(NeuronRegion::VISrl));
    assert_eq!(NeuronRegion::try_from_str("vislm"), Ok(NeuronRegion::VISlm));
    assert_eq!(NeuronRegion::try_from_str("visal"), Ok(NeuronRegion::VISal));
    assert_eq!(NeuronRegion::try_from_str("VISp"), Err(()));
}

#[test]
fn neurons_are_equal_by_identifier() {
    let a = Neuron::new(7, NeuronClass::Inhibitory(InhibitoryType::DTC), NeuronRegion::VISp);
    let b = Neuron::new(7, NeuronClass::Inhibitory(InhibitoryType::ITC), NeuronRegion::VISal);
    let c = Neuron::new(8, NeuronClass::Inhibitory(InhibitoryType::DTC), NeuronRegion::VISp);
    assert!(a == b);
    assert!(a != c);
    assert_eq!(a.uid, 7);
    assert_eq!(b.region, NeuronRegion::VISal);
}
