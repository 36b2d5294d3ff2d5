//! Values as a scripting host hands them over.

use vstd::prelude::*;

verus! {

/// A loosely typed value: what a caller may pass where a palette is expected.
#[derive(Debug)]
pub enum HostValue {
    /// No value at all.
    Nothing,
    /// A truth value.
    Flag(bool),
    /// A number, read as an unsigned 32-bit integer.
    Number(u32),
    /// A string.
    Text(String),
    /// An ordered list of values.
    List(Vec<HostValue>),
    /// An object: its named properties, in order.
    Record(Vec<(String, HostValue)>),
}

/// The value of the first field called `name`.
pub open spec fn first_named(fields: Seq<(String, HostValue)>, name: Seq<char>) -> Option<
    HostValue,
>
    decreases fields.len(),
{
    if fields.len() == 0 {
        None
    } else if fields.first().0@ == name {
        Some(fields.first().1)
    } else {
        first_named(fields.drop_first(), name)
    }
}

impl HostValue {
    /// The property `name` of an object; nothing else has properties.
    pub open spec fn spec_property(&self, name: Seq<char>) -> Option<HostValue> {
        match self {
            HostValue::Record(fields) => first_named(fields@, name),
            _ => None,
        }
    }

    /// The property `name` of an object; nothing else has properties.
    pub fn property(&self, name: &String) -> (found: Option<&HostValue>)
        ensures
            match found {
                Some(value) => self.spec_property(name@) == Some(*value),
                None => self.spec_property(name@) is None,
            },
    {
        match self {
            HostValue::Record(fields) => {
                let mut i: usize = 0;
                assert(fields@.skip(0) == fields@);
                while i < fields.len()
                    invariant
                        i <= fields@.len(),
                        self.spec_property(name@) == first_named(fields@.skip(i as int), name@),
                    decreases fields@.len() - i,
                {
                    proof {
                        let rest = fields@.skip(i as int);
                        assert(rest.first() == fields@[i as int]);
                        assert(rest.drop_first() == fields@.skip(i + 1));
                    }
                    if fields[i].0 == *name {
                        return Some(&fields[i].1);
                    }
                    i += 1;
                }
                None
            },
            _ => None,
        }
    }
}

} // verus!
