//! DNS records as value types, and their mathematical views.

use vstd::prelude::*;

verus! {

/// View of an [`EndpointIdent`].
#[verifier::ext_equal]
pub struct IdentView {
    pub dns_name: Seq<char>,
    pub record_type: Seq<char>,
    pub set_identifier: Seq<char>,
}

/// Uniquely identifiable parts of an endpoint.
///
/// `dns_name` holds the domain name in its textual form and `record_type`
/// the record type's mnemonic (`A`, `AAAA`, `CNAME`, ...). Two identities
/// are the same when all three texts are.
#[derive(Debug, Hash)]
pub struct EndpointIdent {
    pub dns_name: String,
    pub record_type: String,
    pub set_identifier: String,
}

impl View for EndpointIdent {
    type V = IdentView;

    open spec fn view(&self) -> IdentView {
        IdentView {
            dns_name: self.dns_name@,
            record_type: self.record_type@,
            set_identifier: self.set_identifier@,
        }
    }
}

impl DeepView for EndpointIdent {
    type V = IdentView;

    open spec fn deep_view(&self) -> IdentView {
        self@
    }
}

impl Clone for EndpointIdent {
    fn clone(&self) -> (copy: Self)
        ensures
            copy@ == self@,
    {
        EndpointIdent {
            dns_name: self.dns_name.clone(),
            record_type: self.record_type.clone(),
            set_identifier: self.set_identifier.clone(),
        }
    }
}

impl PartialEq for EndpointIdent {
    fn eq(&self, other: &Self) -> (same: bool) {
        self.dns_name == other.dns_name && self.record_type == other.record_type
            && self.set_identifier == other.set_identifier
    }
}

impl Eq for EndpointIdent {}

impl vstd::std_specs::cmp::PartialEqSpecImpl for EndpointIdent {
    open spec fn obeys_eq_spec() -> bool {
        true
    }

    open spec fn eq_spec(&self, other: &Self) -> bool {
        self@ == other@
    }
}

/// View of a [`ProviderSpecificProperty`].
#[verifier::ext_equal]
pub struct PropertyView {
    pub name: Seq<char>,
    pub value: Seq<char>,
}

/// Provider-specific property associated with an [`Endpoint`].
#[derive(Debug)]
pub struct ProviderSpecificProperty {
    /// Name of the property.
    pub name: String,
    /// Value of the property.
    pub value: String,
}

impl View for ProviderSpecificProperty {
    type V = PropertyView;

    open spec fn view(&self) -> PropertyView {
        PropertyView { name: self.name@, value: self.value@ }
    }
}

impl DeepView for ProviderSpecificProperty {
    type V = PropertyView;

    open spec fn deep_view(&self) -> PropertyView {
        self@
    }
}

impl Clone for ProviderSpecificProperty {
    fn clone(&self) -> (copy: Self)
        ensures
            copy@ == self@,
    {
        ProviderSpecificProperty { name: self.name.clone(), value: self.value.clone() }
    }
}

impl PartialEq for ProviderSpecificProperty {
    fn eq(&self, other: &Self) -> (same: bool) {
        self.name == other.name && self.value == other.value
    }
}

impl Eq for ProviderSpecificProperty {}

impl vstd::std_specs::cmp::PartialEqSpecImpl for ProviderSpecificProperty {
    open spec fn obeys_eq_spec() -> bool {
        true
    }

    open spec fn eq_spec(&self, other: &Self) -> bool {
        self@ == other@
    }
}

/// The mapping that a list of `(key, value)` pairs stands for: a pair
/// further back in the list replaces an earlier pair with the same key.
pub open spec fn label_map(pairs: Seq<(Seq<char>, Seq<char>)>) -> Map<Seq<char>, Seq<char>>
    decreases pairs.len(),
{
    if pairs.len() == 0 {
        Map::empty()
    } else {
        label_map(pairs.drop_last()).insert(pairs.last().0, pairs.last().1)
    }
}

/// A key is mapped exactly when some pair of the list carries it.
pub proof fn lemma_label_map_keys(pairs: Seq<(Seq<char>, Seq<char>)>, key: Seq<char>)
    ensures
        label_map(pairs).contains_key(key) <==> exists|i: int|
            0 <= i < pairs.len() && (#[trigger] pairs[i]).0 == key,
    decreases pairs.len(),
{
    if pairs.len() > 0 {
        let front = pairs.drop_last();
        lemma_label_map_keys(front, key);
        if label_map(pairs).contains_key(key) {
            if pairs.last().0 == key {
                assert(pairs[pairs.len() - 1].0 == key);
            } else {
                let i = choose|i: int| 0 <= i < front.len() && (#[trigger] front[i]).0 == key;
                assert(pairs[i].0 == key);
            }
        }
        if exists|i: int| 0 <= i < pairs.len() && (#[trigger] pairs[i]).0 == key {
            let i = choose|i: int| 0 <= i < pairs.len() && (#[trigger] pairs[i]).0 == key;
            if i < front.len() {
                assert(front[i].0 == key);
            }
        }
    }
}

/// View of an [`Endpoint`].
#[verifier::ext_equal]
pub struct EndpointView {
    pub identity: IdentView,
    pub targets: Seq<Seq<char>>,
    pub record_ttl: Option<i64>,
    pub labels: Map<Seq<char>, Seq<char>>,
    pub provider_specific: Seq<PropertyView>,
}

/// Domain and record type with one or more targets (values).
///
/// `labels` is a list of `(key, value)` pairs that stands for a mapping
/// (see [`label_map`]): the order of the pairs does not matter to equality.
#[derive(Debug)]
pub struct Endpoint {
    /// Uniquely identifiable record name.
    pub identity: EndpointIdent,
    /// The R-data values returned when this record is queried.
    pub targets: Vec<String>,
    /// Time-To-Live in seconds, if any.
    pub record_ttl: Option<i64>,
    /// Labels associated with the record.
    pub labels: Vec<(String, String)>,
    /// Provider-specific properties associated with the endpoint.
    pub provider_specific: Vec<ProviderSpecificProperty>,
}

impl View for Endpoint {
    type V = EndpointView;

    open spec fn view(&self) -> EndpointView {
        EndpointView {
            identity: self.identity@,
            targets: self.targets.deep_view(),
            record_ttl: self.record_ttl,
            labels: label_map(self.labels.deep_view()),
            provider_specific: self.provider_specific.deep_view(),
        }
    }
}

impl DeepView for Endpoint {
    type V = EndpointView;

    open spec fn deep_view(&self) -> EndpointView {
        self@
    }
}

/// Whether no two of `endpoints` have the same identity.
pub open spec fn distinct_identities(endpoints: Seq<EndpointView>) -> bool {
    forall|i: int, j: int|
        0 <= i < j < endpoints.len() ==> (#[trigger] endpoints[i]).identity != (
        #[trigger] endpoints[j]).identity
}

/// Whether no endpoint of `a` has the identity of an endpoint of `b`.
pub open spec fn disjoint_identities(a: Seq<EndpointView>, b: Seq<EndpointView>) -> bool {
    forall|i: int, j: int|
        0 <= i < a.len() && 0 <= j < b.len() ==> (#[trigger] a[i]).identity != (
        #[trigger] b[j]).identity
}

/// Copies a list of texts.
fn copy_texts(texts: &Vec<String>) -> (copy: Vec<String>)
    ensures
        copy.deep_view() == texts.deep_view(),
{
    let mut copy: Vec<String> = Vec::new();
    let mut i: usize = 0;
    while i < texts.len()
        invariant
            i <= texts.len(),
            copy.len() == i,
            forall|k: int| 0 <= k < i ==> copy[k]@ == texts[k]@,
        decreases texts.len() - i,
    {
        copy.push(texts[i].clone());
        i += 1;
    }
    assert(copy.deep_view() =~= texts.deep_view());
    copy
}

/// Whether two lists hold the same texts in the same order.
fn same_texts(left: &Vec<String>, right: &Vec<String>) -> (same: bool)
    ensures
        same == (left.deep_view() == right.deep_view()),
{
    if left.len() != right.len() {
        assert(left.deep_view().len() != right.deep_view().len());
        return false;
    }
    let mut i: usize = 0;
    while i < left.len()
        invariant
            i <= left.len(),
            left.len() == right.len(),
            forall|k: int| 0 <= k < i ==> left[k]@ == right[k]@,
        decreases left.len() - i,
    {
        if left[i] != right[i] {
            assert(left.deep_view()[i as int] != right.deep_view()[i as int]);
            return false;
        }
        i += 1;
    }
    assert(left.deep_view() =~= right.deep_view());
    true
}

/// Copies a list of label pairs.
fn copy_labels(labels: &Vec<(String, String)>) -> (copy: Vec<(String, String)>)
    ensures
        copy.deep_view() == labels.deep_view(),
{
    let mut copy: Vec<(String, String)> = Vec::new();
    let mut i: usize = 0;
    while i < labels.len()
        invariant
            i <= labels.len(),
            copy.len() == i,
            forall|k: int| 0 <= k < i ==> copy[k].deep_view() == labels[k].deep_view(),
        decreases labels.len() - i,
    {
        copy.push((labels[i].0.clone(), labels[i].1.clone()));
        i += 1;
    }
    assert(copy.deep_view() =~= labels.deep_view());
    copy
}

/// The value that a list of label pairs maps `key` to, if any.
pub fn label_value<'a>(labels: &'a Vec<(String, String)>, key: &String) -> (found: Option<
    &'a String,
>)
    ensures
        match found {
            Some(value) => label_map(labels.deep_view()).contains_key(key@) && label_map(
                labels.deep_view(),
            )[key@] == value@,
            None => !label_map(labels.deep_view()).contains_key(key@),
        },
{
    let mut found: Option<&'a String> = None;
    let mut i: usize = 0;
    assert(labels.deep_view().take(0) =~= Seq::empty());
    while i < labels.len()
        invariant
            i <= labels.len(),
            match found {
                Some(value) => label_map(labels.deep_view().take(i as int)).contains_key(key@)
                    && label_map(labels.deep_view().take(i as int))[key@] == value@,
                None => !label_map(labels.deep_view().take(i as int)).contains_key(key@),
            },
        decreases labels.len() - i,
    {
        assert(labels.deep_view().take(i + 1).drop_last() =~= labels.deep_view().take(i as int));
        assert(labels.deep_view().take(i + 1).last() == labels[i as int].deep_view());
        if labels[i].0 == *key {
            found = Some(&labels[i].1);
        }
        i += 1;
    }
    assert(labels.deep_view().take(i as int) =~= labels.deep_view());
    found
}

/// Whether every key of `left` is mapped by `right` to the value that `left` maps it to.
fn labels_within(left: &Vec<(String, String)>, right: &Vec<(String, String)>) -> (within: bool)
    ensures
        within == label_map(left.deep_view()).submap_of(label_map(right.deep_view())),
{
    let mut i: usize = 0;
    while i < left.len()
        invariant
            i <= left.len(),
            forall|k: int|
                0 <= k < i ==> {
                    let key = (#[trigger] left.deep_view()[k]).0;
                    label_map(right.deep_view()).contains_key(key) && label_map(
                        right.deep_view(),
                    )[key] == label_map(left.deep_view())[key]
                },
        decreases left.len() - i,
    {
        let ours = label_value(left, &left[i].0);
        let theirs = label_value(right, &left[i].0);
        proof {
            lemma_label_map_keys(left.deep_view(), left[i as int].0@);
            assert(left.deep_view()[i as int].0 == left[i as int].0@);
        }
        let agree = match (ours, theirs) {
            (Some(mine), Some(other)) => *mine == *other,
            _ => false,
        };
        if !agree {
            return false;
        }
        i += 1;
    }
    proof {
        let ours = label_map(left.deep_view());
        let theirs = label_map(right.deep_view());
        assert forall|key: Seq<char>| #[trigger] ours.dom().contains(key) implies theirs.dom().contains(
            key,
        ) && ours[key] == theirs[key] by {
            lemma_label_map_keys(left.deep_view(), key);
            let k = choose|k: int|
                0 <= k < left.deep_view().len() && (#[trigger] left.deep_view()[k]).0 == key;
            assert(left.deep_view()[k].0 == key);
        }
    }
    true
}

/// Whether two lists of label pairs stand for the same mapping.
pub fn same_labels(left: &Vec<(String, String)>, right: &Vec<(String, String)>) -> (same: bool)
    ensures
        same == (label_map(left.deep_view()) == label_map(right.deep_view())),
{
    let same = labels_within(left, right) && labels_within(right, left);
    proof {
        let ours = label_map(left.deep_view());
        let theirs = label_map(right.deep_view());
        if same {
            assert forall|key: Seq<char>| ours.contains_key(key) == theirs.contains_key(key) by {
                assert(ours.dom().contains(key) ==> theirs.dom().contains(key));
                assert(theirs.dom().contains(key) ==> ours.dom().contains(key));
            }
            assert(ours =~= theirs);
        }
    }
    same
}

/// Copies a list of provider-specific properties.
fn copy_properties(properties: &Vec<ProviderSpecificProperty>) -> (copy: Vec<
    ProviderSpecificProperty,
>)
    ensures
        copy.deep_view() == properties.deep_view(),
{
    let mut copy: Vec<ProviderSpecificProperty> = Vec::new();
    let mut i: usize = 0;
    while i < properties.len()
        invariant
            i <= properties.len(),
            copy.len() == i,
            forall|k: int| 0 <= k < i ==> copy[k]@ == properties[k]@,
        decreases properties.len() - i,
    {
        copy.push(properties[i].clone());
        i += 1;
    }
    assert(copy.deep_view() =~= properties.deep_view());
    copy
}

/// Whether two lists hold the same properties in the same order.
fn same_properties(
    left: &Vec<ProviderSpecificProperty>,
    right: &Vec<ProviderSpecificProperty>,
) -> (same: bool)
    ensures
        same == (left.deep_view() == right.deep_view()),
{
    if left.len() != right.len() {
        assert(left.deep_view().len() != right.deep_view().len());
        return false;
    }
    let mut i: usize = 0;
    while i < left.len()
        invariant
            i <= left.len(),
            left.len() == right.len(),
            forall|k: int| 0 <= k < i ==> left[k]@ == right[k]@,
        decreases left.len() - i,
    {
        if left[i] != right[i] {
            assert(left.deep_view()[i as int] != right.deep_view()[i as int]);
            return false;
        }
        i += 1;
    }
    assert(left.deep_view() =~= right.deep_view());
    true
}

impl Clone for Endpoint {
    fn clone(&self) -> (copy: Self)
        ensures
            copy@ == self@,
    {
        Endpoint {
            identity: self.identity.clone(),
            targets: copy_texts(&self.targets),
            record_ttl: self.record_ttl,
            labels: copy_labels(&self.labels),
            provider_specific: copy_properties(&self.provider_specific),
        }
    }
}

impl PartialEq for Endpoint {
    fn eq(&self, other: &Self) -> (same: bool) {
        let same_ttl = match (self.record_ttl, other.record_ttl) {
            (Some(ours), Some(theirs)) => ours == theirs,
            (None, None) => true,
            _ => false,
        };
        self.identity == other.identity && same_texts(&self.targets, &other.targets) && same_ttl
            && same_labels(&self.labels, &other.labels) && same_properties(
            &self.provider_specific,
            &other.provider_specific,
        )
    }
}

impl Eq for Endpoint {}

impl vstd::std_specs::cmp::PartialEqSpecImpl for Endpoint {
    open spec fn obeys_eq_spec() -> bool {
        true
    }

    open spec fn eq_spec(&self, other: &Self) -> bool {
        self@ == other@
    }
}

} // verus!
