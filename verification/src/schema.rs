//! Schema and vocabulary: the declared node types, edge types and
//! prefix bindings of an ontology.
//!
//! A [`Schema`] keeps its node types and edge types in declaration order,
//! one entry per name: declaring a name again replaces its entry. A
//! [`Vocabulary`] binds prefixes to base IRIs in the same way.
use vstd::prelude::*;

use crate::keyed::{key_index, lemma_key_index, lemma_key_index_at, set_entry};

use crate::text::{chars_of, colon_position, first_colon, has_colon};

verus! {

/// Datatype of a property value, mapped to XSD on the RDF side.
#[derive(Clone, Copy, Debug, PartialEq, Eq, Structural, Hash)]
pub enum Datatype {
    String,
    Integer,
    Float,
    Bool,
    DateTime,
    Iri,
    Bytes,
    Json,
}

/// How many values a property or edge may carry: `min` to `max`
/// (`max == None` means unbounded).
#[derive(Clone, Copy, Debug, PartialEq, Eq, Structural, Hash)]
pub struct Cardinality {
    pub min: u32,
    pub max: Option<u32>,
}

impl Cardinality {
    /// `min..=max` values.
    pub fn new(min: u32, max: Option<u32>) -> (r: Cardinality)
        ensures
            r.min == min,
            r.max == max,
    {
        Cardinality { min, max }
    }

    /// Any number of values.
    pub fn any() -> (r: Cardinality)
        ensures
            r == (Cardinality { min: 0, max: None }),
    {
        Cardinality { min: 0, max: None }
    }

    /// Exactly one value.
    pub fn one() -> (r: Cardinality)
        ensures
            r == (Cardinality { min: 1, max: Some(1u32) }),
    {
        Cardinality { min: 1, max: Some(1) }
    }

    /// At most one value.
    pub fn optional() -> (r: Cardinality)
        ensures
            r == (Cardinality { min: 0, max: Some(1u32) }),
    {
        Cardinality { min: 0, max: Some(1) }
    }

    /// One value or more.
    pub fn at_least_one() -> (r: Cardinality)
        ensures
            r == (Cardinality { min: 1, max: None }),
    {
        Cardinality { min: 1, max: None }
    }
}

/// A declared property of a node or edge type.
#[derive(Clone, Debug)]
pub struct PropertyType {
    pub name: String,
    pub datatype: Datatype,
    pub cardinality: Cardinality,
    pub iri: Option<String>,
    pub description: Option<String>,
}

/// The view of an optional string.
pub open spec fn opt_view(s: Option<String>) -> Option<Seq<char>> {
    match s {
        Some(t) => Some(t@),
        None => None,
    }
}

/// The views of a list of strings.
pub open spec fn strings_view(s: Seq<String>) -> Seq<Seq<char>> {
    s.map_values(|t: String| t@)
}

/// The mathematical view of a property type.
pub struct PropertyTypeView {
    pub name: Seq<char>,
    pub datatype: Datatype,
    pub cardinality: Cardinality,
    pub iri: Option<Seq<char>>,
    pub description: Option<Seq<char>>,
}

impl View for PropertyType {
    type V = PropertyTypeView;

    open spec fn view(&self) -> PropertyTypeView {
        PropertyTypeView {
            name: self.name@,
            datatype: self.datatype,
            cardinality: self.cardinality,
            iri: opt_view(self.iri),
            description: opt_view(self.description),
        }
    }
}

/// The views of a list of property types.
pub open spec fn properties_view(s: Seq<PropertyType>) -> Seq<PropertyTypeView> {
    s.map_values(|p: PropertyType| p@)
}

/// The mathematical view of a node type.
pub struct NodeTypeView {
    pub name: Seq<char>,
    pub iri: Option<Seq<char>>,
    pub supertypes: Seq<Seq<char>>,
    pub properties: Seq<PropertyTypeView>,
    pub description: Option<Seq<char>>,
}

impl View for NodeType {
    type V = NodeTypeView;

    open spec fn view(&self) -> NodeTypeView {
        NodeTypeView {
            name: self.name@,
            iri: opt_view(self.iri),
            supertypes: strings_view(self.supertypes@),
            properties: properties_view(self.properties@),
            description: opt_view(self.description),
        }
    }
}

/// The mathematical view of an edge type.
pub struct EdgeTypeView {
    pub name: Seq<char>,
    pub iri: Option<Seq<char>>,
    pub domain: Seq<Seq<char>>,
    pub range: Seq<Seq<char>>,
    pub functional: bool,
    pub inverse_of: Option<Seq<char>>,
    pub properties: Seq<PropertyTypeView>,
    pub cardinality: Cardinality,
    pub description: Option<Seq<char>>,
}

impl View for EdgeType {
    type V = EdgeTypeView;

    open spec fn view(&self) -> EdgeTypeView {
        EdgeTypeView {
            name: self.name@,
            iri: opt_view(self.iri),
            domain: strings_view(self.domain@),
            range: strings_view(self.range@),
            functional: self.functional,
            inverse_of: opt_view(self.inverse_of),
            properties: properties_view(self.properties@),
            cardinality: self.cardinality,
            description: opt_view(self.description),
        }
    }
}

/// A copy of an optional string.
pub fn copy_opt(s: &Option<String>) -> (r: Option<String>)
    ensures
        r == *s,
{
    match s {
        Some(t) => Some(t.clone()),
        None => None,
    }
}

/// A copy of a list of strings.
pub fn copy_strings(s: &Vec<String>) -> (r: Vec<String>)
    ensures
        r@ == s@,
{
    let mut out: Vec<String> = Vec::new();
    let mut i: usize = 0;
    while i < s.len()
        invariant
            i <= s.len(),
            out@ == s@.take(i as int),
        decreases s.len() - i,
    {
        out.push(s[i].clone());
        assert(out@ =~= s@.take(i + 1));
        i = i + 1;
    }
    assert(s@.take(i as int) =~= s@);
    out
}

impl PropertyType {
    /// A copy with the same view.
    pub fn duplicate(&self) -> (r: PropertyType)
        ensures
            r@ == self@,
    {
        PropertyType {
            name: self.name.clone(),
            datatype: self.datatype,
            cardinality: self.cardinality,
            iri: copy_opt(&self.iri),
            description: copy_opt(&self.description),
        }
    }
}

impl NodeType {
    /// A copy with the same view.
    pub fn duplicate(&self) -> (r: NodeType)
        ensures
            r@ == self@,
    {
        let mut props: Vec<PropertyType> = Vec::new();
        let mut i: usize = 0;
        while i < self.properties.len()
            invariant
                i <= self.properties.len(),
                properties_view(props@) == properties_view(self.properties@.take(i as int)),
            decreases self.properties.len() - i,
        {
            let ghost before = props@;
            let d = self.properties[i].duplicate();
            props.push(d);
            assert(properties_view(props@) =~= properties_view(before).push(d@));
            assert(self.properties@.take(i + 1) =~= self.properties@.take(i as int).push(self.properties@[i as int]));
            assert(properties_view(self.properties@.take(i + 1)) =~= properties_view(self.properties@.take(i as int)).push(
                self.properties@[i as int]@,
            ));
            assert(properties_view(props@) =~= properties_view(self.properties@.take(i + 1)));
            i = i + 1;
        }
        assert(self.properties@.take(i as int) =~= self.properties@);
        NodeType {
            name: self.name.clone(),
            iri: copy_opt(&self.iri),
            supertypes: copy_strings(&self.supertypes),
            properties: props,
            description: copy_opt(&self.description),
        }
    }
}

/// A declared node type.
#[derive(Clone, Debug)]
pub struct NodeType {
    pub name: String,
    pub iri: Option<String>,
    pub supertypes: Vec<String>,
    pub properties: Vec<PropertyType>,
    pub description: Option<String>,
}

impl NodeType {
    /// A node type with only a name.
    pub fn new(name: String) -> (r: NodeType)
        ensures
            r.name@ == name@,
            r.iri.is_none(),
            r.supertypes@.len() == 0,
            r.properties@.len() == 0,
            r.description.is_none(),
    {
        NodeType {
            name,
            iri: None,
            supertypes: Vec::new(),
            properties: Vec::new(),
            description: None,
        }
    }

    /// Set the IRI.
    pub fn with_iri(self, iri: String) -> (r: NodeType)
        ensures
            r.name == self.name,
            opt_view(r.iri) == Some(iri@),
            r.supertypes == self.supertypes,
            r.properties == self.properties,
            r.description == self.description,
    {
        NodeType { iri: Some(iri), ..self }
    }

    /// Add a supertype.
    pub fn with_supertype(self, name: String) -> (r: NodeType)
        ensures
            r.name == self.name,
            r.iri == self.iri,
            strings_view(r.supertypes@) == strings_view(self.supertypes@).push(name@),
            r.properties == self.properties,
            r.description == self.description,
    {
        let mut supertypes = self.supertypes;
        let ghost before = supertypes@;
        supertypes.push(name);
        assert(strings_view(supertypes@) =~= strings_view(before).push(name@));
        NodeType { supertypes, ..self }
    }

    /// Add a property.
    pub fn with_property(self, prop: PropertyType) -> (r: NodeType)
        ensures
            r.name == self.name,
            r.iri == self.iri,
            r.supertypes == self.supertypes,
            r.properties@ == self.properties@.push(prop),
            r.description == self.description,
    {
        let mut properties = self.properties;
        properties.push(prop);
        NodeType { properties, ..self }
    }

    /// Set the description.
    pub fn with_description(self, text: String) -> (r: NodeType)
        ensures
            r.name == self.name,
            r.iri == self.iri,
            r.supertypes == self.supertypes,
            r.properties == self.properties,
            opt_view(r.description) == Some(text@),
    {
        NodeType { description: Some(text), ..self }
    }
}

/// A declared edge type.
#[derive(Clone, Debug)]
pub struct EdgeType {
    pub name: String,
    pub iri: Option<String>,
    pub domain: Vec<String>,
    pub range: Vec<String>,
    pub functional: bool,
    pub inverse_of: Option<String>,
    pub properties: Vec<PropertyType>,
    pub cardinality: Cardinality,
    pub description: Option<String>,
}

impl EdgeType {
    /// An edge type with only a name.
    pub fn new(name: String) -> (r: EdgeType)
        ensures
            r.name@ == name@,
            r.iri.is_none(),
            r.domain@.len() == 0,
            r.range@.len() == 0,
            !r.functional,
            r.inverse_of.is_none(),
            r.properties@.len() == 0,
            r.cardinality == Cardinality::spec_any(),
            r.description.is_none(),
    {
        EdgeType {
            name,
            iri: None,
            domain: Vec::new(),
            range: Vec::new(),
            functional: false,
            inverse_of: None,
            properties: Vec::new(),
            cardinality: Cardinality::any(),
            description: None,
        }
    }

    /// Set the IRI.
    pub fn with_iri(self, iri: String) -> (r: EdgeType)
        ensures
            r == (EdgeType { iri: r.iri, ..self }),
            opt_view(r.iri) == Some(iri@),
    {
        EdgeType { iri: Some(iri), ..self }
    }

    /// Add a domain type.
    pub fn with_domain(self, name: String) -> (r: EdgeType)
        ensures
            r == (EdgeType { domain: r.domain, ..self }),
            strings_view(r.domain@) == strings_view(self.domain@).push(name@),
    {
        let mut domain = self.domain;
        let ghost before = domain@;
        domain.push(name);
        assert(strings_view(domain@) =~= strings_view(before).push(name@));
        EdgeType { domain, ..self }
    }

    /// Add a range type.
    pub fn with_range(self, name: String) -> (r: EdgeType)
        ensures
            r == (EdgeType { range: r.range, ..self }),
            strings_view(r.range@) == strings_view(self.range@).push(name@),
    {
        let mut range = self.range;
        let ghost before = range@;
        range.push(name);
        assert(strings_view(range@) =~= strings_view(before).push(name@));
        EdgeType { range, ..self }
    }

    /// Mark the edge type functional (at most one target per source).
    pub fn functional(self) -> (r: EdgeType)
        ensures
            r == (EdgeType { functional: true, ..self }),
    {
        EdgeType { functional: true, ..self }
    }

    /// Declare the inverse edge type.
    pub fn with_inverse(self, label: String) -> (r: EdgeType)
        ensures
            r == (EdgeType { inverse_of: r.inverse_of, ..self }),
            opt_view(r.inverse_of) == Some(label@),
    {
        EdgeType { inverse_of: Some(label), ..self }
    }

    /// Set the description.
    pub fn with_description(self, text: String) -> (r: EdgeType)
        ensures
            r == (EdgeType { description: r.description, ..self }),
            opt_view(r.description) == Some(text@),
    {
        EdgeType { description: Some(text), ..self }
    }
}

impl Cardinality {
    /// Any number of values.
    pub open spec fn spec_any() -> Cardinality {
        Cardinality { min: 0, max: None }
    }
}

/// `i` is the first index of `s` holding the node type named `name`.
pub open spec fn first_node_type_at(s: Seq<NodeType>, name: Seq<char>, i: int) -> bool {
    0 <= i < s.len() && s[i].name@ == name && forall|j: int| 0 <= j < i ==> s[j].name@ != name
}

/// The node type named `name` in `s` (its first entry), if any.
pub open spec fn node_type_in(s: Seq<NodeType>, name: Seq<char>) -> Option<NodeType> {
    if exists|i: int| first_node_type_at(s, name, i) {
        Some(s[choose|i: int| first_node_type_at(s, name, i)])
    } else {
        None
    }
}

/// `i` is the first index of `s` holding the edge type named `name`.
pub open spec fn first_edge_type_at(s: Seq<EdgeType>, name: Seq<char>, i: int) -> bool {
    0 <= i < s.len() && s[i].name@ == name && forall|j: int| 0 <= j < i ==> s[j].name@ != name
}

/// The edge type named `name` in `s` (its first entry), if any.
pub open spec fn edge_type_in(s: Seq<EdgeType>, name: Seq<char>) -> Option<EdgeType> {
    if exists|i: int| first_edge_type_at(s, name, i) {
        Some(s[choose|i: int| first_edge_type_at(s, name, i)])
    } else {
        None
    }
}

/// The views of a list of node types.
pub open spec fn node_types_view(s: Seq<NodeType>) -> Seq<NodeTypeView> {
    s.map_values(|t: NodeType| t@)
}

/// The views of a list of edge types.
pub open spec fn edge_types_view(s: Seq<EdgeType>) -> Seq<EdgeTypeView> {
    s.map_values(|t: EdgeType| t@)
}

/// A node type is found by its name.
pub open spec fn node_type_name() -> spec_fn(NodeTypeView) -> Seq<char> {
    |v: NodeTypeView| v.name
}

/// An edge type is found by its name.
pub open spec fn edge_type_name() -> spec_fn(EdgeTypeView) -> Seq<char> {
    |v: EdgeTypeView| v.name
}

/// The node types and edge types an ontology declares.
#[derive(Clone, Debug)]
pub struct Schema {
    pub node_types: Vec<NodeType>,
    pub edge_types: Vec<EdgeType>,
}

impl Schema {
    /// An empty schema.
    pub fn new() -> (r: Schema)
        ensures
            r.node_types@.len() == 0,
            r.edge_types@.len() == 0,
    {
        Schema { node_types: Vec::new(), edge_types: Vec::new() }
    }

    /// Declare a node type, replacing any node type of the same name.
    pub fn declare_node_type(&mut self, ty: NodeType)
        ensures
            node_types_view(final(self).node_types@) == set_entry(node_types_view(old(self).node_types@), node_type_name(), ty@),
            final(self).edge_types == old(self).edge_types,
            forall|n: Seq<char>|
                #[trigger] node_type_in(final(self).node_types@, n) == if n == ty.name@ {
                    Some(ty)
                } else {
                    node_type_in(old(self).node_types@, n)
                },
            final(self).node_types@.len() == old(self).node_types@.len() + if node_type_in(
                old(self).node_types@,
                ty.name@,
            ) is Some {
                0int
            } else {
                1int
            },
    {
        let ghost s = self.node_types@;
        let mut i: usize = 0;
        while i < self.node_types.len()
            invariant
                i <= self.node_types.len(),
                self.node_types@ == s,
                *self == *old(self),
                forall|j: int| 0 <= j < i ==> s[j].name@ != ty.name@,
            decreases self.node_types.len() - i,
        {
            if self.node_types[i].name == ty.name {
                assert(first_node_type_at(s, ty.name@, i as int));
                let ghost tname = ty.name@;
                let ghost tv = ty@;
                proof {
                    let vs = node_types_view(s);
                    assert forall|j: int| 0 <= j < i implies (node_type_name())(#[trigger] vs[j]) != tname by {}
                    lemma_key_index_at(vs, node_type_name(), tname, i as int);
                }
                self.node_types.set(i, ty);
                let ghost t = self.node_types@;
                assert(node_types_view(t) =~= node_types_view(s).update(i as int, tv));
                assert forall|n: Seq<char>| #[trigger] node_type_in(t, n) == if n == tname {
                    Some(t[i as int])
                } else {
                    node_type_in(s, n)
                } by {
                    if n == tname {
                        assert(first_node_type_at(t, n, i as int));
                    } else if exists|k: int| first_node_type_at(s, n, k) {
                        let k = choose|k: int| first_node_type_at(s, n, k);
                        assert(first_node_type_at(t, n, k));
                    } else {
                        if exists|k: int| first_node_type_at(t, n, k) {
                            let k = choose|k: int| first_node_type_at(t, n, k);
                            assert(k != i);
                            assert(s[k] == t[k]);
                            assert forall|j: int| 0 <= j < k implies s[j].name@ != n by {
                                if j != i {
                                    assert(s[j] == t[j]);
                                }
                            }
                            assert(first_node_type_at(s, n, k));
                        }
                    }
                }
                return;
            }
            i = i + 1;
        }
        assert(node_type_in(s, ty.name@) is None);
        let ghost tname = ty.name@;
        let ghost tv = ty@;
        proof {
            let vs = node_types_view(s);
            lemma_key_index(vs, node_type_name(), tname);
            if let Some(q) = key_index(vs, node_type_name(), tname) {
                assert(s[q].name@ == tname);
            }
        }
        self.node_types.push(ty);
        let ghost t = self.node_types@;
        assert(node_types_view(t) =~= node_types_view(s).push(tv));
        assert forall|n: Seq<char>| #[trigger] node_type_in(t, n) == if n == tname {
            Some(t[s.len() as int])
        } else {
            node_type_in(s, n)
        } by {
            if n == tname {
                assert(first_node_type_at(t, n, s.len() as int));
            } else if exists|k: int| first_node_type_at(s, n, k) {
                let k = choose|k: int| first_node_type_at(s, n, k);
                assert(first_node_type_at(t, n, k));
            } else {
                if exists|k: int| first_node_type_at(t, n, k) {
                    let k = choose|k: int| first_node_type_at(t, n, k);
                    assert(k < s.len());
                    assert forall|j: int| 0 <= j < k implies s[j].name@ != n by {
                        assert(s[j] == t[j]);
                    }
                    assert(first_node_type_at(s, n, k));
                }
            }
        }
    }

    /// Declare an edge type, replacing any edge type of the same name.
    pub fn declare_edge_type(&mut self, ty: EdgeType)
        ensures
            edge_types_view(final(self).edge_types@) == set_entry(edge_types_view(old(self).edge_types@), edge_type_name(), ty@),
            final(self).node_types == old(self).node_types,
            forall|n: Seq<char>|
                #[trigger] edge_type_in(final(self).edge_types@, n) == if n == ty.name@ {
                    Some(ty)
                } else {
                    edge_type_in(old(self).edge_types@, n)
                },
            final(self).edge_types@.len() == old(self).edge_types@.len() + if edge_type_in(
                old(self).edge_types@,
                ty.name@,
            ) is Some {
                0int
            } else {
                1int
            },
    {
        let ghost s = self.edge_types@;
        let mut i: usize = 0;
        while i < self.edge_types.len()
            invariant
                i <= self.edge_types.len(),
                self.edge_types@ == s,
                *self == *old(self),
                forall|j: int| 0 <= j < i ==> s[j].name@ != ty.name@,
            decreases self.edge_types.len() - i,
        {
            if self.edge_types[i].name == ty.name {
                assert(first_edge_type_at(s, ty.name@, i as int));
                let ghost tname = ty.name@;
                let ghost tv = ty@;
                proof {
                    let vs = edge_types_view(s);
                    assert forall|j: int| 0 <= j < i implies (edge_type_name())(#[trigger] vs[j]) != tname by {}
                    lemma_key_index_at(vs, edge_type_name(), tname, i as int);
                }
                self.edge_types.set(i, ty);
                let ghost t = self.edge_types@;
                assert(edge_types_view(t) =~= edge_types_view(s).update(i as int, tv));
                assert forall|n: Seq<char>| #[trigger] edge_type_in(t, n) == if n == tname {
                    Some(t[i as int])
                } else {
                    edge_type_in(s, n)
                } by {
                    if n == tname {
                        assert(first_edge_type_at(t, n, i as int));
                    } else if exists|k: int| first_edge_type_at(s, n, k) {
                        let k = choose|k: int| first_edge_type_at(s, n, k);
                        assert(first_edge_type_at(t, n, k));
                    } else {
                        if exists|k: int| first_edge_type_at(t, n, k) {
                            let k = choose|k: int| first_edge_type_at(t, n, k);
                            assert(k != i);
                            assert(s[k] == t[k]);
                            assert forall|j: int| 0 <= j < k implies s[j].name@ != n by {
                                if j != i {
                                    assert(s[j] == t[j]);
                                }
                            }
                            assert(first_edge_type_at(s, n, k));
                        }
                    }
                }
                return;
            }
            i = i + 1;
        }
        assert(edge_type_in(s, ty.name@) is None);
        let ghost tname = ty.name@;
        let ghost tv = ty@;
        proof {
            let vs = edge_types_view(s);
            lemma_key_index(vs, edge_type_name(), tname);
            if let Some(q) = key_index(vs, edge_type_name(), tname) {
                assert(s[q].name@ == tname);
            }
        }
        self.edge_types.push(ty);
        let ghost t = self.edge_types@;
        assert(edge_types_view(t) =~= edge_types_view(s).push(tv));
        assert forall|n: Seq<char>| #[trigger] edge_type_in(t, n) == if n == tname {
            Some(t[s.len() as int])
        } else {
            edge_type_in(s, n)
        } by {
            if n == tname {
                assert(first_edge_type_at(t, n, s.len() as int));
            } else if exists|k: int| first_edge_type_at(s, n, k) {
                let k = choose|k: int| first_edge_type_at(s, n, k);
                assert(first_edge_type_at(t, n, k));
            } else {
                if exists|k: int| first_edge_type_at(t, n, k) {
                    let k = choose|k: int| first_edge_type_at(t, n, k);
                    assert(k < s.len());
                    assert forall|j: int| 0 <= j < k implies s[j].name@ != n by {
                        assert(s[j] == t[j]);
                    }
                    assert(first_edge_type_at(s, n, k));
                }
            }
        }
    }

    /// The node type named `name`, if declared.
    pub fn node_type(&self, name: &String) -> (r: Option<&NodeType>)
        ensures
            match r {
                Some(t) => node_type_in(self.node_types@, name@) == Some(*t),
                None => node_type_in(self.node_types@, name@) is None,
            },
    {
        let mut i: usize = 0;
        while i < self.node_types.len()
            invariant
                i <= self.node_types.len(),
                forall|j: int| 0 <= j < i ==> self.node_types@[j].name@ != name@,
            decreases self.node_types.len() - i,
        {
            if self.node_types[i].name == *name {
                assert(first_node_type_at(self.node_types@, name@, i as int));
                return Some(&self.node_types[i]);
            }
            i = i + 1;
        }
        None
    }

    /// The edge type named `name`, if declared.
    pub fn edge_type(&self, name: &String) -> (r: Option<&EdgeType>)
        ensures
            match r {
                Some(t) => edge_type_in(self.edge_types@, name@) == Some(*t),
                None => edge_type_in(self.edge_types@, name@) is None,
            },
    {
        let mut i: usize = 0;
        while i < self.edge_types.len()
            invariant
                i <= self.edge_types.len(),
                forall|j: int| 0 <= j < i ==> self.edge_types@[j].name@ != name@,
            decreases self.edge_types.len() - i,
        {
            if self.edge_types[i].name == *name {
                assert(first_edge_type_at(self.edge_types@, name@, i as int));
                return Some(&self.edge_types[i]);
            }
            i = i + 1;
        }
        None
    }
}

/// A prefix bound to a base IRI, e.g. `rdf:` to
/// `http://www.w3.org/1999/02/22-rdf-syntax-ns#`.
#[derive(Clone, Debug)]
pub struct Namespace {
    pub prefix: String,
    pub base: String,
}

/// `i` is the first index of `s` binding `prefix`.
pub open spec fn first_binding_at(s: Seq<Namespace>, prefix: Seq<char>, i: int) -> bool {
    0 <= i < s.len() && s[i].prefix@ == prefix && forall|j: int|
        0 <= j < i ==> s[j].prefix@ != prefix
}

/// The base IRI `s` binds `prefix` to (its first binding), if any.
pub open spec fn base_in(s: Seq<Namespace>, prefix: Seq<char>) -> Option<Seq<char>> {
    if exists|i: int| first_binding_at(s, prefix, i) {
        Some(s[choose|i: int| first_binding_at(s, prefix, i)].base@)
    } else {
        None
    }
}

/// The `(prefix, base)` pairs of a list of bindings.
pub open spec fn bindings_view(s: Seq<Namespace>) -> Seq<(Seq<char>, Seq<char>)> {
    s.map_values(|n: Namespace| (n.prefix@, n.base@))
}

/// The standard bindings, in binding order.
pub open spec fn standard_bindings() -> Seq<(Seq<char>, Seq<char>)> {
    seq![
        ("rdf"@, "http://www.w3.org/1999/02/22-rdf-syntax-ns#"@),
        ("rdfs"@, "http://www.w3.org/2000/01/rdf-schema#"@),
        ("owl"@, "http://www.w3.org/2002/07/owl#"@),
        ("xsd"@, "http://www.w3.org/2001/XMLSchema#"@),
        ("skos"@, "http://www.w3.org/2004/02/skos/core#"@),
        ("prov"@, "http://www.w3.org/ns/prov#"@),
        ("org"@, "http://www.w3.org/ns/org#"@),
        ("schema"@, "http://schema.org/"@),
    ]
}

/// `base_in` over the exact standard bindings is `standard_binding`.
proof fn lemma_base_in_view(s: Seq<Namespace>, p: Seq<char>)
    requires
        bindings_view(s) == standard_bindings(),
    ensures
        base_in(s, p) == standard_binding(p),
{
    let w = standard_bindings();
    reveal_strlit("rdf");
    reveal_strlit("rdfs");
    reveal_strlit("owl");
    reveal_strlit("xsd");
    reveal_strlit("skos");
    reveal_strlit("prov");
    reveal_strlit("org");
    reveal_strlit("schema");
    assert(bindings_view(s).len() == s.len());
    assert(s.len() == 8);
    assert forall|i: int| 0 <= i < 8 implies (#[trigger] s[i]).prefix@ == w[i].0 && s[i].base@ == w[i].1 by {
        assert(bindings_view(s)[i] == w[i]);
    }
    assert("rdf"@[0] == 'r' && "rdfs"@[0] == 'r' && "owl"@[0] == 'o' && "xsd"@[0] == 'x');
    assert("skos"@[0] == 's' && "prov"@[0] == 'p' && "org"@[0] == 'o' && "schema"@[0] == 's');
    assert("owl"@[1] == 'w' && "org"@[1] == 'r');
    if exists|i: int| 0 <= i < 8 && w[i].0 == p {
        let i = choose|i: int| 0 <= i < 8 && w[i].0 == p;
        assert forall|j: int| 0 <= j < i implies s[j].prefix@ != p by {
            assert(s[j].prefix@ == w[j].0);
        }
        assert(first_binding_at(s, p, i));
        lemma_first_binding_unique(s, p, i, choose|j: int| first_binding_at(s, p, j));
    } else {
        assert forall|i: int| !first_binding_at(s, p, i) by {
            if first_binding_at(s, p, i) {
                assert(s[i].prefix@ == w[i].0);
            }
        }
    }
}

/// Two first bindings of one prefix are the same binding.
pub proof fn lemma_first_binding_unique(s: Seq<Namespace>, p: Seq<char>, i: int, j: int)
    requires
        first_binding_at(s, p, i),
        first_binding_at(s, p, j),
    ensures
        i == j,
{
    if i < j {
        assert(s[i].prefix@ == p);
    } else if j < i {
        assert(s[j].prefix@ == p);
    }
}

/// The prefixes bound by the standard vocabulary, with their base IRIs.
pub open spec fn standard_binding(prefix: Seq<char>) -> Option<Seq<char>> {
    if prefix == "rdf"@ {
        Some("http://www.w3.org/1999/02/22-rdf-syntax-ns#"@)
    } else if prefix == "rdfs"@ {
        Some("http://www.w3.org/2000/01/rdf-schema#"@)
    } else if prefix == "owl"@ {
        Some("http://www.w3.org/2002/07/owl#"@)
    } else if prefix == "xsd"@ {
        Some("http://www.w3.org/2001/XMLSchema#"@)
    } else if prefix == "skos"@ {
        Some("http://www.w3.org/2004/02/skos/core#"@)
    } else if prefix == "prov"@ {
        Some("http://www.w3.org/ns/prov#"@)
    } else if prefix == "org"@ {
        Some("http://www.w3.org/ns/org#"@)
    } else if prefix == "schema"@ {
        Some("http://schema.org/"@)
    } else {
        None
    }
}

/// The IRI that the CURIE `c` (`prefix:local`, split at its first `:`)
/// denotes under the bindings `s`: the base bound to `prefix` followed by
/// `local`; nothing when `c` has no `:` or its prefix is unbound.
pub open spec fn curie_expansion(s: Seq<Namespace>, c: Seq<char>) -> Option<Seq<char>> {
    if has_colon(c) {
        match base_in(s, c.take(first_colon(c))) {
            Some(b) => Some(b + c.skip(first_colon(c) + 1)),
            None => None,
        }
    } else {
        None
    }
}

/// Prefix bindings, in binding order, one per prefix.
#[derive(Clone, Debug)]
pub struct Vocabulary {
    pub bindings: Vec<Namespace>,
}

impl Vocabulary {
    /// No bindings.
    pub fn new() -> (r: Vocabulary)
        ensures
            r.bindings@.len() == 0,
    {
        Vocabulary { bindings: Vec::new() }
    }

    /// Bind `prefix` to `base`, replacing any binding of `prefix`.
    pub fn bind(&mut self, prefix: String, base: String)
        ensures
            forall|p: Seq<char>|
                #[trigger] base_in(final(self).bindings@, p) == if p == prefix@ {
                    Some(base@)
                } else {
                    base_in(old(self).bindings@, p)
                },
            final(self).bindings@.len() >= 1,
            bindings_view(final(self).bindings@) == if exists|i: int| first_binding_at(old(self).bindings@, prefix@, i) {
                bindings_view(old(self).bindings@).update(
                    choose|i: int| first_binding_at(old(self).bindings@, prefix@, i),
                    (prefix@, base@),
                )
            } else {
                bindings_view(old(self).bindings@).push((prefix@, base@))
            },
    {
        let ghost s = self.bindings@;
        let ghost (pv, bv) = (prefix@, base@);
        let ns = Namespace { prefix, base };
        let mut i: usize = 0;
        while i < self.bindings.len()
            invariant
                i <= self.bindings.len(),
                self.bindings@ == s,
                s == old(self).bindings@,
                pv == prefix@,
                bv == base@,
                ns.prefix@ == pv,
                ns.base@ == bv,
                forall|j: int| 0 <= j < i ==> s[j].prefix@ != pv,
            decreases self.bindings.len() - i,
        {
            if self.bindings[i].prefix == ns.prefix {
                assert(first_binding_at(s, pv, i as int));
                self.bindings.set(i, ns);
                let ghost t = self.bindings@;
                proof {
                    let k = choose|k: int| first_binding_at(s, pv, k);
                    lemma_first_binding_unique(s, pv, k, i as int);
                    assert(bindings_view(t) =~= bindings_view(s).update(i as int, (pv, bv)));
                }
                assert forall|p: Seq<char>| #[trigger] base_in(t, p) == if p == pv {
                    Some(bv)
                } else {
                    base_in(s, p)
                } by {
                    if p == pv {
                        assert(first_binding_at(t, p, i as int));
                    } else if exists|k: int| first_binding_at(s, p, k) {
                        let k = choose|k: int| first_binding_at(s, p, k);
                        assert(first_binding_at(t, p, k));
                    } else if exists|k: int| first_binding_at(t, p, k) {
                        let k = choose|k: int| first_binding_at(t, p, k);
                        assert(k != i);
                        assert forall|j: int| 0 <= j < k implies s[j].prefix@ != p by {
                            if j != i {
                                assert(s[j] == t[j]);
                            }
                        }
                        assert(first_binding_at(s, p, k));
                    }
                }
                return;
            }
            i = i + 1;
        }
        self.bindings.push(ns);
        let ghost t = self.bindings@;
        assert(bindings_view(t) =~= bindings_view(s).push((pv, bv)));
        assert(!exists|i: int| first_binding_at(s, pv, i));
        assert forall|p: Seq<char>| #[trigger] base_in(t, p) == if p == pv {
            Some(bv)
        } else {
            base_in(s, p)
        } by {
            if p == pv {
                assert(first_binding_at(t, p, s.len() as int));
            } else if exists|k: int| first_binding_at(s, p, k) {
                let k = choose|k: int| first_binding_at(s, p, k);
                assert(first_binding_at(t, p, k));
            } else if exists|k: int| first_binding_at(t, p, k) {
                let k = choose|k: int| first_binding_at(t, p, k);
                assert(k < s.len());
                assert forall|j: int| 0 <= j < k implies s[j].prefix@ != p by {
                    assert(s[j] == t[j]);
                }
                assert(first_binding_at(s, p, k));
            }
        }
    }

    /// The standard bindings: `rdf`, `rdfs`, `owl`, `xsd`, `skos`, `prov`,
    /// `org` and `schema`, in that order.
    pub fn with_standard_bindings() -> (r: Vocabulary)
        ensures
            bindings_view(r.bindings@) == standard_bindings(),
            forall|p: Seq<char>| #[trigger] base_in(r.bindings@, p) == standard_binding(p),
            r.bindings@.len() >= 1,
    {
        let ghost w = standard_bindings();
        proof {
            reveal_strlit("rdf");
            reveal_strlit("rdfs");
            reveal_strlit("owl");
            reveal_strlit("xsd");
            reveal_strlit("skos");
            reveal_strlit("prov");
            reveal_strlit("org");
            reveal_strlit("schema");
            assert("rdf"@[0] == 'r' && "rdfs"@[0] == 'r' && "owl"@[0] == 'o' && "xsd"@[0] == 'x');
            assert("skos"@[0] == 's' && "prov"@[0] == 'p' && "org"@[0] == 'o' && "schema"@[0] == 's');
            assert("owl"@[1] == 'w' && "org"@[1] == 'r');
            assert("rdf"@.len() == 3 && "rdfs"@.len() == 4 && "skos"@.len() == 4 && "schema"@.len() == 6);
        }
        let mut v = Vocabulary::new();
        assert(bindings_view(v.bindings@) =~= w.take(0));
        self::Vocabulary::bind_fresh(&mut v, String::from_str("rdf"), String::from_str("http://www.w3.org/1999/02/22-rdf-syntax-ns#"), Ghost(0));
        self::Vocabulary::bind_fresh(&mut v, String::from_str("rdfs"), String::from_str("http://www.w3.org/2000/01/rdf-schema#"), Ghost(1));
        self::Vocabulary::bind_fresh(&mut v, String::from_str("owl"), String::from_str("http://www.w3.org/2002/07/owl#"), Ghost(2));
        self::Vocabulary::bind_fresh(&mut v, String::from_str("xsd"), String::from_str("http://www.w3.org/2001/XMLSchema#"), Ghost(3));
        self::Vocabulary::bind_fresh(&mut v, String::from_str("skos"), String::from_str("http://www.w3.org/2004/02/skos/core#"), Ghost(4));
        self::Vocabulary::bind_fresh(&mut v, String::from_str("prov"), String::from_str("http://www.w3.org/ns/prov#"), Ghost(5));
        self::Vocabulary::bind_fresh(&mut v, String::from_str("org"), String::from_str("http://www.w3.org/ns/org#"), Ghost(6));
        self::Vocabulary::bind_fresh(&mut v, String::from_str("schema"), String::from_str("http://schema.org/"), Ghost(7));
        assert(w.take(8) =~= w);
        proof {
            assert forall|p: Seq<char>| #[trigger] base_in(v.bindings@, p) == standard_binding(p) by {
                lemma_base_in_view(v.bindings@, p);
            }
        }
        v
    }

    fn bind_fresh(v: &mut Vocabulary, prefix: String, base: String, Ghost(k): Ghost<int>)
        requires
            0 <= k < 8,
            bindings_view(old(v).bindings@) == standard_bindings().take(k),
            standard_bindings()[k] == (prefix@, base@),
            forall|i: int| 0 <= i < k ==> (#[trigger] standard_bindings()[i]).0 != prefix@,
        ensures
            bindings_view(final(v).bindings@) == standard_bindings().take(k + 1),
    {
        let ghost s = v.bindings@;
        let ghost w = standard_bindings();
        assert forall|i: int| !first_binding_at(s, prefix@, i) by {
            if first_binding_at(s, prefix@, i) {
                assert(bindings_view(s).len() == s.len());
                assert(bindings_view(s)[i] == (s[i].prefix@, s[i].base@));
                assert(w.take(k)[i] == w[i]);
                assert(w[i].0 == prefix@);
            }
        }
        v.bind(prefix, base);
        assert(w.take(k).push(w[k]) =~= w.take(k + 1));
    }

    /// The base IRI bound to `prefix`.
    pub fn base(&self, prefix: &String) -> (r: Option<&String>)
        ensures
            match r {
                Some(b) => base_in(self.bindings@, prefix@) == Some(b@),
                None => base_in(self.bindings@, prefix@) is None,
            },
    {
        let mut i: usize = 0;
        while i < self.bindings.len()
            invariant
                i <= self.bindings.len(),
                forall|j: int| 0 <= j < i ==> self.bindings@[j].prefix@ != prefix@,
            decreases self.bindings.len() - i,
        {
            if self.bindings[i].prefix == *prefix {
                assert(first_binding_at(self.bindings@, prefix@, i as int));
                return Some(&self.bindings[i].base);
            }
            i = i + 1;
        }
        None
    }

    /// The IRI the CURIE `curie` denotes, when its prefix is bound.
    pub fn expand_curie(&self, curie: &String) -> (r: Option<String>)
        ensures
            opt_view(r) == curie_expansion(self.bindings@, curie@),
    {
        let chars = chars_of(curie.as_str());
        match colon_position(&chars) {
            None => None,
            Some(k) => {
                let n = chars.len();
                let prefix = String::from_str(curie.as_str().substring_char(0, k));
                assert(prefix@ =~= curie@.take(k as int));
                match self.base(&prefix) {
                    Some(b) => {
                        let local = curie.as_str().substring_char(k + 1, n);
                        assert(local@ =~= curie@.skip(k + 1));
                        Some(b.clone().concat(local))
                    },
                    None => None,
                }
            },
        }
    }

    /// `true` when nothing is bound.
    pub fn is_empty(&self) -> (r: bool)
        ensures
            r == (self.bindings@.len() == 0),
    {
        self.bindings.len() == 0
    }
}

} // verus!
