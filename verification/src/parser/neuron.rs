//! Cell types of the MICrONS connectome, as named in its neuron table.

use vstd::prelude::*;
use vstd::std_specs::cmp::PartialEqSpecImpl;
use vstd::utf8::*;

use crate::text::{
    ascii_chars, at_boundary, concat_str, find_byte, find_byte_exec, lemma_encode_ascii,
    lemma_encode_concat, lemma_find_byte_at, str_eq, str_slice, text,
};

verus! {

#[derive(Debug, Clone, Copy, PartialEq, Eq, Structural, Hash)]
pub enum NeuronCluster {
    A,
    B,
    C,
    ET,
    NP,
}

#[derive(Debug, Clone, Copy, PartialEq, Eq, Structural, Hash)]
pub enum NeuronSpan {
    Short,
    Tall,
}

#[derive(Debug, Clone, Copy, PartialEq, Eq, Structural, Hash)]
pub enum InhibitoryType {
    DTC,
    ITC,
    PTC,
    STC,
}

#[derive(Debug, Clone, Copy, PartialEq, Eq, Structural, Hash)]
pub enum ExcitatoryType {
    L2(NeuronCluster),
    L3(NeuronCluster),
    L4(NeuronCluster),
    L5(NeuronCluster),
    L6(NeuronSpan, NeuronCluster),
}

#[derive(Debug, Clone, Copy, PartialEq, Eq, Structural, Hash)]
pub enum NeuronClass {
    Excitatory(ExcitatoryType),
    Inhibitory(InhibitoryType),
}

#[derive(Debug, Clone, Copy, PartialEq, Eq, Structural, Hash)]
pub enum NeuronRegion {
    VISp,
    VISrl,
    VISlm,
    VISal,
}

/// A neuron of the table: its identifier, cell type and brain region.
/// Two neurons are equal when their identifiers are.
#[derive(Debug, Clone)]
pub struct Neuron {
    pub uid: usize,
    pub class: NeuronClass,
    pub region: NeuronRegion,
}

impl Neuron {
    pub fn new(uid: usize, class: NeuronClass, region: NeuronRegion) -> (r: Self)
        ensures
            r == (Neuron { uid, class, region }),
    {
        Self { uid, class, region }
    }
}

impl PartialEq for Neuron {
    fn eq(&self, other: &Self) -> (r: bool) {
        self.uid == other.uid
    }
}

impl PartialEqSpecImpl for Neuron {
    open spec fn obeys_eq_spec() -> bool {
        true
    }

    open spec fn eq_spec(&self, other: &Self) -> bool {
        self.uid == other.uid
    }
}

impl Eq for Neuron {

}

pub open spec fn spec_cluster_from(c: Seq<char>) -> Option<NeuronCluster> {
    if c == "a"@ {
        Some(NeuronCluster::A)
    } else if c == "b"@ {
        Some(NeuronCluster::B)
    } else if c == "c"@ {
        Some(NeuronCluster::C)
    } else if c == "ET"@ {
        Some(NeuronCluster::ET)
    } else if c == "NP"@ {
        Some(NeuronCluster::NP)
    } else {
        None
    }
}

pub open spec fn spec_cluster_id(c: NeuronCluster) -> Seq<char> {
    match c {
        NeuronCluster::A => "a"@,
        NeuronCluster::B => "b"@,
        NeuronCluster::C => "c"@,
        NeuronCluster::ET => "ET"@,
        NeuronCluster::NP => "NP"@,
    }
}

impl NeuronCluster {
    /// The cluster named `cluster`, if any.
    pub fn from(cluster: &str) -> (r: Option<Self>)
        ensures
            r == spec_cluster_from(cluster@),
    {
        if str_eq(cluster, "a") {
            Some(Self::A)
        } else if str_eq(cluster, "b") {
            Some(Self::B)
        } else if str_eq(cluster, "c") {
            Some(Self::C)
        } else if str_eq(cluster, "ET") {
            Some(Self::ET)
        } else if str_eq(cluster, "NP") {
            Some(Self::NP)
        } else {
            None
        }
    }

    /// The name of the cluster.
    pub fn id(&self) -> (r: String)
        ensures
            r@ == spec_cluster_id(*self),
    {
        match self {
            Self::A => "a".to_owned(),
            Self::B => "b".to_owned(),
            Self::C => "c".to_owned(),
            Self::ET => "ET".to_owned(),
            Self::NP => "NP".to_owned(),
        }
    }
}

pub open spec fn spec_span_from(c: Seq<char>) -> Option<NeuronSpan> {
    if c == "short"@ {
        Some(NeuronSpan::Short)
    } else if c == "tall"@ {
        Some(NeuronSpan::Tall)
    } else {
        None
    }
}

pub open spec fn spec_span_id(c: NeuronSpan) -> Seq<char> {
    match c {
        NeuronSpan::Short => "short"@,
        NeuronSpan::Tall => "tall"@,
    }
}

impl NeuronSpan {
    /// The span named `cluster`, if any.
    pub fn from(cluster: &str) -> (r: Option<Self>)
        ensures
            r == spec_span_from(cluster@),
    {
        if str_eq(cluster, "short") {
            Some(Self::Short)
        } else if str_eq(cluster, "tall") {
            Some(Self::Tall)
        } else {
            None
        }
    }

    /// The name of the span.
    pub fn id(&self) -> (r: String)
        ensures
            r@ == spec_span_id(*self),
    {
        match self {
            NeuronSpan::Short => "short".to_owned(),
            NeuronSpan::Tall => "tall".to_owned(),
        }
    }
}

pub open spec fn spec_inhibitory_from(c: Seq<char>) -> Option<InhibitoryType> {
    if c == "DTC"@ {
        Some(InhibitoryType::DTC)
    } else if c == "ITC"@ {
        Some(InhibitoryType::ITC)
    } else if c == "PTC"@ {
        Some(InhibitoryType::PTC)
    } else if c == "STC"@ {
        Some(InhibitoryType::STC)
    } else {
        None
    }
}

pub open spec fn spec_inhibitory_id(c: InhibitoryType) -> Seq<char> {
    match c {
        InhibitoryType::DTC => "DTC"@,
        InhibitoryType::ITC => "ITC"@,
        InhibitoryType::PTC => "PTC"@,
        InhibitoryType::STC => "STC"@,
    }
}

impl InhibitoryType {
    /// The inhibitory type named `subtype`, if any.
    pub fn from(subtype: &str) -> (r: Option<InhibitoryType>)
        ensures
            r == spec_inhibitory_from(subtype@),
    {
        if str_eq(subtype, "DTC") {
            Some(Self::DTC)
        } else if str_eq(subtype, "ITC") {
            Some(Self::ITC)
        } else if str_eq(subtype, "PTC") {
            Some(Self::PTC)
        } else if str_eq(subtype, "STC") {
            Some(Self::STC)
        } else {
            None
        }
    }

    /// The name of the type.
    pub fn id(&self) -> (r: String)
        ensures
            r@ == spec_inhibitory_id(*self),
    {
        match self {
            InhibitoryType::DTC => "DTC".to_owned(),
            InhibitoryType::ITC => "ITC".to_owned(),
            InhibitoryType::PTC => "PTC".to_owned(),
            InhibitoryType::STC => "STC".to_owned(),
        }
    }
}

/// Slicing `subtype` after its second byte, as the excitatory reader does,
/// would split a character.
pub open spec fn layer_cut_splits_char(subtype: Seq<char>) -> bool {
    let b = encode_utf8(subtype);
    b.len() > 2 && !at_boundary(b, 2)
}

/// The excitatory type named `subtype`: a layer `L2` to `L6` in its first
/// two bytes, then a cluster (for `L6`: a span, `-`, then a cluster).
pub open spec fn spec_excitatory_from(subtype: Seq<char>) -> Option<ExcitatoryType> {
    let b = encode_utf8(subtype);
    let n = b.len() as int;
    let layer = text(b, 0, 2);
    let rest = text(b, 2, n);
    if n <= 2 {
        None
    } else if layer == "L2"@ {
        match spec_cluster_from(rest) {
            Some(c) => Some(ExcitatoryType::L2(c)),
            None => None,
        }
    } else if layer == "L3"@ {
        match spec_cluster_from(rest) {
            Some(c) => Some(ExcitatoryType::L3(c)),
            None => None,
        }
    } else if layer == "L4"@ {
        match spec_cluster_from(rest) {
            Some(c) => Some(ExcitatoryType::L4(c)),
            None => None,
        }
    } else if layer == "L5"@ {
        match spec_cluster_from(rest) {
            Some(c) => Some(ExcitatoryType::L5(c)),
            None => None,
        }
    } else if layer == "L6"@ {
        let p = find_byte(b, 2, n, 45u8);
        if p >= n {
            None
        } else {
            match (spec_span_from(text(b, 2, p)), spec_cluster_from(text(b, p + 1, n))) {
                (Some(s), Some(c)) => Some(ExcitatoryType::L6(s, c)),
                _ => None,
            }
        }
    } else {
        None
    }
}

pub open spec fn spec_partial_id(e: ExcitatoryType) -> Seq<char> {
    match e {
        ExcitatoryType::L2(_) => "L2"@,
        ExcitatoryType::L3(_) => "L3"@,
        ExcitatoryType::L4(_) => "L4"@,
        ExcitatoryType::L5(_) => "L5"@,
        ExcitatoryType::L6(..) => "L6"@,
    }
}

pub open spec fn spec_excitatory_id(e: ExcitatoryType) -> Seq<char> {
    match e {
        ExcitatoryType::L2(c) => "L2"@ + spec_cluster_id(c),
        ExcitatoryType::L3(c) => "L3"@ + spec_cluster_id(c),
        ExcitatoryType::L4(c) => "L4"@ + spec_cluster_id(c),
        ExcitatoryType::L5(c) => "L5"@ + spec_cluster_id(c),
        ExcitatoryType::L6(s, c) => "L6"@ + spec_span_id(s) + "-"@ + spec_cluster_id(c),
    }
}

impl ExcitatoryType {
    /// The excitatory type named `subtype` (see `spec_excitatory_from`).
    pub fn from(subtype: &str) -> (r: Option<ExcitatoryType>)
        requires
            !layer_cut_splits_char(subtype@),
        ensures
            r == spec_excitatory_from(subtype@),
    {
        let b = subtype.as_bytes();
        let n = b.len();
        if n <= 2 {
            return None;
        }
        let layer = str_slice(subtype, 0, 2);
        let cluster = str_slice(subtype, 2, n);
        if str_eq(layer, "L2") {
            match NeuronCluster::from(cluster) {
                Some(c) => Some(Self::L2(c)),
                None => None,
            }
        } else if str_eq(layer, "L3") {
            match NeuronCluster::from(cluster) {
                Some(c) => Some(Self::L3(c)),
                None => None,
            }
        } else if str_eq(layer, "L4") {
            match NeuronCluster::from(cluster) {
                Some(c) => Some(Self::L4(c)),
                None => None,
            }
        } else if str_eq(layer, "L5") {
            match NeuronCluster::from(cluster) {
                Some(c) => Some(Self::L5(c)),
                None => None,
            }
        } else if str_eq(layer, "L6") {
            let p = find_byte_exec(b, 2, n, 45u8);
            if p >= n {
                return None;
            }
            proof {
                crate::text::lemma_find_byte_bounds(b@, 2, n as int, 45u8);
                encode_utf8_valid_utf8(subtype@);
                crate::text::lemma_boundary_after_ascii(b@, p as int);
            }
            let span = str_slice(subtype, 2, p);
            let cl = str_slice(subtype, p + 1, n);
            match (NeuronSpan::from(span), NeuronCluster::from(cl)) {
                (Some(s), Some(c)) => Some(Self::L6(s, c)),
                _ => None,
            }
        } else {
            None
        }
    }

    /// The layer of the type, `L2` to `L6`.
    pub fn partial_id(&self) -> (r: String)
        ensures
            r@ == spec_partial_id(*self),
    {
        match self {
            Self::L2(_) => "L2".to_owned(),
            Self::L3(_) => "L3".to_owned(),
            Self::L4(_) => "L4".to_owned(),
            Self::L5(_) => "L5".to_owned(),
            Self::L6(..) => "L6".to_owned(),
        }
    }

    /// The full name of the type.
    pub fn id(&self) -> (r: String)
        ensures
            r@ == spec_excitatory_id(*self),
    {
        match self {
            Self::L6(span, cluster) => {
                let a = concat_str(self.partial_id().as_str(), span.id().as_str());
                let b = concat_str(a.as_str(), "-");
                let r = concat_str(b.as_str(), cluster.id().as_str());
                r
            },
            Self::L2(cluster) | Self::L3(cluster) | Self::L4(cluster) | Self::L5(cluster) => {
                concat_str(self.partial_id().as_str(), cluster.id().as_str())
            },
        }
    }
}

pub open spec fn spec_build(classification: Seq<char>, subtype: Seq<char>) -> Option<NeuronClass> {
    if classification == "excitatory_neuron"@ {
        match spec_excitatory_from(subtype) {
            Some(e) => Some(NeuronClass::Excitatory(e)),
            None => None,
        }
    } else if classification == "inhibitory_neuron"@ {
        match spec_inhibitory_from(subtype) {
            Some(i) => Some(NeuronClass::Inhibitory(i)),
            None => None,
        }
    } else {
        None
    }
}

/// Building the class reaches the slicing of an excitatory subtype that
/// splits a character.
pub open spec fn class_cut_splits_char(classification: Seq<char>, subtype: Seq<char>) -> bool {
    classification == "excitatory_neuron"@ && layer_cut_splits_char(subtype)
}

pub open spec fn spec_classification(c: NeuronClass) -> Seq<char> {
    match c {
        NeuronClass::Excitatory(_) => "excitatory_neuron"@,
        NeuronClass::Inhibitory(_) => "inhibitory_neuron"@,
    }
}

pub open spec fn spec_layer(c: NeuronClass) -> Seq<char> {
    match c {
        NeuronClass::Excitatory(e) => spec_partial_id(e),
        NeuronClass::Inhibitory(i) => spec_inhibitory_id(i),
    }
}

pub open spec fn spec_subtype(c: NeuronClass) -> Seq<char> {
    match c {
        NeuronClass::Excitatory(e) => spec_excitatory_id(e),
        NeuronClass::Inhibitory(i) => spec_inhibitory_id(i),
    }
}

impl NeuronClass {
    /// The class named by a classification (`excitatory_neuron` or
    /// `inhibitory_neuron`) and a subtype.
    pub fn build(classification: &str, subtype: &str) -> (r: Option<NeuronClass>)
        requires
            !class_cut_splits_char(classification@, subtype@),
        ensures
            r == spec_build(classification@, subtype@),
    {
        if str_eq(classification, "excitatory_neuron") {
            match ExcitatoryType::from(subtype) {
                Some(e) => Some(Self::Excitatory(e)),
                None => None,
            }
        } else if str_eq(classification, "inhibitory_neuron") {
            match InhibitoryType::from(subtype) {
                Some(i) => Some(Self::Inhibitory(i)),
                None => None,
            }
        } else {
            None
        }
    }

    pub fn classification(&self) -> (r: String)
        ensures
            r@ == spec_classification(*self),
    {
        match self {
            NeuronClass::Excitatory(_) => "excitatory_neuron".to_owned(),
            NeuronClass::Inhibitory(_) => "inhibitory_neuron".to_owned(),
        }
    }

    pub fn layer(&self) -> (r: String)
        ensures
            r@ == spec_layer(*self),
    {
        match self {
            NeuronClass::Excitatory(subtype) => subtype.partial_id(),
            NeuronClass::Inhibitory(subtype) => subtype.id(),
        }
    }

    pub fn subtype(&self) -> (r: String)
        ensures
            r@ == spec_subtype(*self),
    {
        match self {
            NeuronClass::Excitatory(subtype) => subtype.id(),
            NeuronClass::Inhibitory(subtype) => subtype.id(),
        }
    }
}

pub open spec fn spec_region_from(value: Seq<char>) -> Option<NeuronRegion> {
    if value == "visp"@ {
        Some(NeuronRegion::VISp)
    } else if value == "visrl"@ {
        Some(NeuronRegion::VISrl)
    } else if value == "vislm"@ {
        Some(NeuronRegion::VISlm)
    } else if value == "visal"@ {
        Some(NeuronRegion::VISal)
    } else {
        None
    }
}

impl NeuronRegion {
    /// The region named `value` (in lower case), as `TryFrom<&str>` gives it.
    pub fn try_from_str(value: &str) -> (r: Result<Self, ()>)
        ensures
            match r {
                Ok(x) => spec_region_from(value@) == Some(x),
                Err(_) => spec_region_from(value@) is None,
            },
    {
        if str_eq(value, "visp") {
            Ok(Self::VISp)
        } else if str_eq(value, "visrl") {
            Ok(Self::VISrl)
        } else if str_eq(value, "vislm") {
            Ok(Self::VISlm)
        } else if str_eq(value, "visal") {
            Ok(Self::VISal)
        } else {
            Err(())
        }
    }
}

/// Naming a cluster and reading the name back gives the cluster.
pub proof fn lemma_cluster_name_roundtrip(c: NeuronCluster)
    ensures
        spec_cluster_from(spec_cluster_id(c)) == Some(c),
        ascii_chars(spec_cluster_id(c)),
        spec_cluster_id(c).len() > 0,
{
    reveal_strlit("a");
    reveal_strlit("b");
    reveal_strlit("c");
    reveal_strlit("ET");
    reveal_strlit("NP");
    assert("a"@[0] != "b"@[0]);
    assert("a"@[0] != "c"@[0]);
    assert("b"@[0] != "c"@[0]);
    assert("ET"@[0] != "NP"@[0]);
}

/// Naming a span and reading the name back gives the span.
pub proof fn lemma_span_name_roundtrip(s: NeuronSpan)
    ensures
        spec_span_from(spec_span_id(s)) == Some(s),
        ascii_chars(spec_span_id(s)),
        forall|i: int| 0 <= i < spec_span_id(s).len() ==> #[trigger] spec_span_id(s)[i] != '-',
{
    reveal_strlit("short");
    reveal_strlit("tall");
    assert("short"@.len() != "tall"@.len());
}

/// Naming an inhibitory type and reading the name back gives the type.
pub proof fn lemma_inhibitory_name_roundtrip(t: InhibitoryType)
    ensures
        spec_inhibitory_from(spec_inhibitory_id(t)) == Some(t),
{
    reveal_strlit("DTC");
    reveal_strlit("ITC");
    reveal_strlit("PTC");
    reveal_strlit("STC");
    assert("DTC"@[0] != "ITC"@[0]);
    assert("DTC"@[0] != "PTC"@[0]);
    assert("DTC"@[0] != "STC"@[0]);
    assert("ITC"@[0] != "PTC"@[0]);
    assert("ITC"@[0] != "STC"@[0]);
    assert("PTC"@[0] != "STC"@[0]);
}

/// A two-character layer name followed by a nonempty ASCII rest is read
/// back as that layer and that rest, and slicing after the layer splits no
/// character.
proof fn lemma_layer_split(layer: Seq<char>, rest: Seq<char>)
    requires
        ascii_chars(layer),
        layer.len() == 2,
        ascii_chars(rest),
        rest.len() > 0,
    ensures
        encode_utf8(layer + rest).len() == 2 + rest.len(),
        text(encode_utf8(layer + rest), 0, 2) == layer,
        text(encode_utf8(layer + rest), 2, (2 + rest.len()) as int) == rest,
        !layer_cut_splits_char(layer + rest),
{
    lemma_encode_concat(layer, rest);
    lemma_encode_ascii(layer);
    lemma_encode_ascii(rest);
    let b = encode_utf8(layer + rest);
    assert(b.subrange(0, 2) =~= encode_utf8(layer));
    assert(b.subrange(2, (2 + rest.len()) as int) =~= encode_utf8(rest));
    encode_utf8_decode_utf8(layer);
    encode_utf8_decode_utf8(rest);
    assert(b[2] == encode_utf8(rest)[0]);
}

/// In `layer + (span + "-" + cluster)`, the first dash after the layer is
/// the one before the cluster, and the texts around it are the span and
/// the cluster.
proof fn lemma_dash_split(layer: Seq<char>, span: Seq<char>, cluster: Seq<char>)
    requires
        ascii_chars(layer),
        layer.len() == 2,
        ascii_chars(span),
        ascii_chars(cluster),
        forall|i: int| 0 <= i < span.len() ==> #[trigger] span[i] != '-',
    ensures
        ({
            let b = encode_utf8(layer + (span + seq!['-'] + cluster));
            let n = b.len() as int;
            let p = (2 + span.len()) as int;
            &&& n == 3 + span.len() + cluster.len()
            &&& find_byte(b, 2, n, 45u8) == p
            &&& text(b, 2, p) == span
            &&& text(b, p + 1, n) == cluster
        }),
{
    let full = layer + (span + seq!['-'] + cluster);
    let p = (2 + span.len()) as int;
    assert forall|i: int| 0 <= i < full.len() implies (#[trigger] full[i] as u32) < 128 by {
        if i < 2 {
            assert(full[i] == layer[i]);
        } else if i < p {
            assert(full[i] == span[i - 2]);
        } else if i > p {
            assert(full[i] == cluster[i - p - 1]);
        }
    }
    lemma_encode_ascii(full);
    lemma_encode_ascii(span);
    lemma_encode_ascii(cluster);
    let b = encode_utf8(full);
    let n = b.len() as int;
    assert forall|k: int| 2 <= k < p implies b[k] != 45u8 by {
        assert(full[k] == span[k - 2]);
        assert(span[k - 2] != '-');
        assert(b[k] == full[k] as u32);
        char_u32_cast(full[k], full[k] as u32);
        char_u32_cast('-', 45u32);
    }
    assert(full[p] == '-');
    lemma_find_byte_at(b, 2, n, 45u8, p);
    assert forall|i: int| 0 <= i < span.len() implies b.subrange(2, p)[i] == encode_utf8(span)[i] by {
        assert(full[i + 2] == span[i]);
    }
    assert(b.subrange(2, p) =~= encode_utf8(span));
    assert forall|i: int| 0 <= i < cluster.len() implies b.subrange(p + 1, n)[i] == encode_utf8(cluster)[i] by {
        assert(full[i + p + 1] == cluster[i]);
    }
    assert(b.subrange(p + 1, n) =~= encode_utf8(cluster));
    encode_utf8_decode_utf8(span);
    encode_utf8_decode_utf8(cluster);
}

/// Naming an excitatory type and reading the name back gives the type;
/// the name can be cut after its layer.
pub proof fn lemma_excitatory_name_roundtrip(e: ExcitatoryType)
    ensures
        !layer_cut_splits_char(spec_excitatory_id(e)),
        spec_excitatory_from(spec_excitatory_id(e)) == Some(e),
{
    reveal_strlit("L2");
    reveal_strlit("L3");
    reveal_strlit("L4");
    reveal_strlit("L5");
    reveal_strlit("L6");
    reveal_strlit("-");
    assert("L2"@[1] != "L3"@[1]);
    assert("L2"@[1] != "L4"@[1]);
    assert("L2"@[1] != "L5"@[1]);
    assert("L2"@[1] != "L6"@[1]);
    assert("L3"@[1] != "L4"@[1]);
    assert("L3"@[1] != "L5"@[1]);
    assert("L3"@[1] != "L6"@[1]);
    assert("L4"@[1] != "L5"@[1]);
    assert("L4"@[1] != "L6"@[1]);
    assert("L5"@[1] != "L6"@[1]);
    match e {
        ExcitatoryType::L2(c) | ExcitatoryType::L3(c) | ExcitatoryType::L4(c) | ExcitatoryType::L5(c) => {
            lemma_cluster_name_roundtrip(c);
            lemma_layer_split(spec_partial_id(e), spec_cluster_id(c));
            assert(spec_excitatory_id(e) == spec_partial_id(e) + spec_cluster_id(c));
        },
        ExcitatoryType::L6(s, c) => {
            lemma_cluster_name_roundtrip(c);
            lemma_span_name_roundtrip(s);
            let rest = spec_span_id(s) + seq!['-'] + spec_cluster_id(c);
            assert("-"@ =~= seq!['-']);
            assert(spec_excitatory_id(e) =~= "L6"@ + rest);
            assert forall|i: int| 0 <= i < rest.len() implies (#[trigger] rest[i] as u32) < 128 by {
                if i < spec_span_id(s).len() {
                    assert(rest[i] == spec_span_id(s)[i]);
                } else if i > spec_span_id(s).len() {
                    assert(rest[i] == spec_cluster_id(c)[i - spec_span_id(s).len() - 1]);
                }
            }
            lemma_layer_split("L6"@, rest);
            lemma_dash_split("L6"@, spec_span_id(s), spec_cluster_id(c));
        },
    }
}

/// Building a cell class from its classification and its subtype gives the
/// class back; an excitatory subtype can be cut after its layer.
pub proof fn lemma_class_name_roundtrip(c: NeuronClass)
    ensures
        !class_cut_splits_char(spec_classification(c), spec_subtype(c)),
        spec_build(spec_classification(c), spec_subtype(c)) == Some(c),
{
    reveal_strlit("excitatory_neuron");
    reveal_strlit("inhibitory_neuron");
    assert("excitatory_neuron"@[0] != "inhibitory_neuron"@[0]);
    match c {
        NeuronClass::Excitatory(e) => lemma_excitatory_name_roundtrip(e),
        NeuronClass::Inhibitory(t) => lemma_inhibitory_name_roundtrip(t),
    }
}

} // verus!
