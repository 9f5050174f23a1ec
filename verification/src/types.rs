use vstd::prelude::*;

verus! {

/// Identifier of a stored vector.
#[derive(Clone, Copy, PartialEq, Eq, Structural, Hash, Debug)]
pub struct EntityId(pub u64);

/// A metadata value attached to an entity. Floating-point values are held
/// by their IEEE-754 bit pattern.
#[derive(Clone, Debug)]
pub enum MetaValue {
    Text(String),
    Int(i64),
    Float(u32),
    Bool(bool),
}

/// The metadata fields of one entity, as (field name, value) pairs.
#[derive(Clone, Debug)]
pub struct Metadata {
    pub fields: Vec<(String, MetaValue)>,
}

/// The content of a metadata value.
pub enum MetaValueView {
    Text(Seq<char>),
    Int(i64),
    Float(u32),
    Bool(bool),
}

pub open spec fn meta_value_view(v: MetaValue) -> MetaValueView {
    match v {
        MetaValue::Text(s) => MetaValueView::Text(s@),
        MetaValue::Int(i) => MetaValueView::Int(i),
        MetaValue::Float(f) => MetaValueView::Float(f),
        MetaValue::Bool(b) => MetaValueView::Bool(b),
    }
}

/// The content of an entity's metadata: field names and values in order.
pub open spec fn metadata_view(m: Metadata) -> Seq<(Seq<char>, MetaValueView)> {
    m.fields@.map_values(|f: (String, MetaValue)| (f.0@, meta_value_view(f.1)))
}

/// No field name occurs twice in the metadata.
pub open spec fn metadata_wf(m: Metadata) -> bool {
    forall|a: int, b: int| 0 <= a < b < m.fields@.len() ==> (#[trigger] m.fields@[a]).0@ != (#[trigger] m.fields@[b]).0@
}

/// Metadata with the same content is as well formed.
pub proof fn lemma_metadata_wf_view(m1: Metadata, m2: Metadata)
    requires
        metadata_view(m1) == metadata_view(m2),
        metadata_wf(m1),
    ensures
        metadata_wf(m2),
{
    assert forall|a: int, b: int| 0 <= a < b < m2.fields@.len() implies (#[trigger] m2.fields@[a]).0@ != (#[trigger] m2.fields@[b]).0@ by {
        assert(metadata_view(m1).len() == m1.fields@.len());
        assert(metadata_view(m2)[a].0 == m2.fields@[a].0@);
        assert(metadata_view(m2)[b].0 == m2.fields@[b].0@);
        assert(metadata_view(m1)[a].0 == m1.fields@[a].0@);
        assert(metadata_view(m1)[b].0 == m1.fields@[b].0@);
    }
}

impl MetaValue {
    /// A copy with the same content.
    pub fn duplicate(&self) -> (r: MetaValue)
        ensures
            meta_value_view(r) == meta_value_view(*self),
    {
        match self {
            MetaValue::Text(s) => MetaValue::Text(s.clone()),
            MetaValue::Int(i) => MetaValue::Int(*i),
            MetaValue::Float(f) => MetaValue::Float(*f),
            MetaValue::Bool(b) => MetaValue::Bool(*b),
        }
    }
}

impl Metadata {
    /// A copy with the same content.
    pub fn duplicate(&self) -> (r: Metadata)
        ensures
            metadata_view(r) == metadata_view(*self),
    {
        let mut fields: Vec<(String, MetaValue)> = Vec::new();
        let mut i: usize = 0;
        while i < self.fields.len()
            invariant
                i <= self.fields@.len(),
                fields@.len() == i,
                forall|j: int| 0 <= j < i ==> (#[trigger] fields@[j]).0@ == self.fields@[j].0@
                    && meta_value_view(fields@[j].1) == meta_value_view(self.fields@[j].1),
            decreases self.fields.len() - i,
        {
            let name = self.fields[i].0.clone();
            let value = self.fields[i].1.duplicate();
            fields.push((name, value));
            i = i + 1;
        }
        let r = Metadata { fields };
        assert(metadata_view(r) =~= metadata_view(*self));
        r
    }
}

} // verus!
