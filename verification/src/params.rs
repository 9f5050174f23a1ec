use vstd::prelude::*;
use vstd::string::StringExecFns;

verus! {

/// The value of a member of a JSON parameter object, as far as the indexes
/// read it: a non-negative integer that fits in 64 bits, a boolean, or
/// anything else.
#[derive(Clone, Copy, Debug)]
pub enum JsonScalar {
    UInt(u64),
    Bool(bool),
    Other,
}

/// A JSON parameter object: its members in order. A value that is not an
/// object has no members.
pub struct JsonParams {
    pub fields: Vec<(String, JsonScalar)>,
}

/// The members' names and values.
pub open spec fn params_view(p: JsonParams) -> Seq<(Seq<char>, JsonScalar)> {
    p.fields@.map_values(|f: (String, JsonScalar)| (f.0@, f.1))
}

/// The value of the first member with this name.
pub open spec fn member(fields: Seq<(Seq<char>, JsonScalar)>, key: Seq<char>) -> Option<JsonScalar>
    decreases fields.len(),
{
    if fields.len() == 0 {
        None
    } else if fields[0].0 == key {
        Some(fields[0].1)
    } else {
        member(fields.drop_first(), key)
    }
}

/// The member as an unsigned integer (`get(key).and_then(as_u64)`).
pub open spec fn member_u64(fields: Seq<(Seq<char>, JsonScalar)>, key: Seq<char>) -> Option<u64> {
    match member(fields, key) {
        Some(JsonScalar::UInt(v)) => Some(v),
        _ => None,
    }
}

/// The member as a boolean (`get(key).and_then(as_bool)`).
pub open spec fn member_bool(fields: Seq<(Seq<char>, JsonScalar)>, key: Seq<char>) -> Option<bool> {
    match member(fields, key) {
        Some(JsonScalar::Bool(v)) => Some(v),
        _ => None,
    }
}

impl JsonParams {
    /// A parameter object with no members.
    pub fn empty() -> (r: Self)
        ensures
            params_view(r).len() == 0,
    {
        let r = JsonParams { fields: Vec::new() };
        assert(params_view(r) =~= Seq::<(Seq<char>, JsonScalar)>::empty());
        r
    }

    /// The value of the first member named `key`.
    pub fn get(&self, key: &str) -> (r: Option<JsonScalar>)
        ensures
            r == member(params_view(*self), key@),
    {
        let k = String::from_str(key);
        let mut i: usize = 0;
        assert(params_view(*self).skip(0) =~= params_view(*self));
        while i < self.fields.len()
            invariant
                i <= self.fields@.len(),
                k@ == key@,
                member(params_view(*self), key@) == member(params_view(*self).skip(i as int), key@),
            decreases self.fields.len() - i,
        {
            let ghost rest = params_view(*self).skip(i as int);
            proof {
                assert(rest[0] == (self.fields@[i as int].0@, self.fields@[i as int].1));
                assert(rest.drop_first() =~= params_view(*self).skip(i + 1));
            }
            if self.fields[i].0 == k {
                return Some(self.fields[i].1);
            }
            i = i + 1;
        }
        None
    }

    /// The member named `key` as an unsigned integer.
    pub fn get_u64(&self, key: &str) -> (r: Option<u64>)
        ensures
            r == member_u64(params_view(*self), key@),
    {
        match self.get(key) {
            Some(JsonScalar::UInt(v)) => Some(v),
            _ => None,
        }
    }

    /// The member named `key` as a boolean.
    pub fn get_bool(&self, key: &str) -> (r: Option<bool>)
        ensures
            r == member_bool(params_view(*self), key@),
    {
        match self.get(key) {
            Some(JsonScalar::Bool(v)) => Some(v),
            _ => None,
        }
    }
}

} // verus!
