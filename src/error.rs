//! Errors that finishing an object can report.
use vstd::prelude::*;

verus! {

/// Why a builder could not finish.
#[derive(Debug, PartialEq, Eq)]
pub enum VariantError {
    /// Keys inserted more than once into an object that validates unique
    /// fields; the names are in ascending order.
    DuplicateFields(Vec<String>),
}

/// Relies on `String::push_str`: appends the characters of `t`.
#[verifier::external_body]
fn push_str(s: &mut String, t: &str)
    ensures
        final(s)@ == old(s)@ + t@,
{
    s.push_str(t)
}

/// `names` separated by `sep`.
pub open spec fn join(names: Seq<Seq<char>>, sep: Seq<char>) -> Seq<char>
    decreases names.len(),
{
    if names.len() == 0 {
        Seq::empty()
    } else if names.len() == 1 {
        names[0]
    } else {
        join(names.drop_last(), sep) + sep + names.last()
    }
}

/// The text of an error for the duplicate keys `names`.
pub open spec fn duplicate_fields_message(names: Seq<Seq<char>>) -> Seq<char> {
    "Invalid argument error: Duplicate field keys detected: ["@ + join(names, ", "@) + "]"@
}

impl VariantError {
    /// The error's text.
    pub fn message(&self) -> (r: String)
        ensures
            match self {
                VariantError::DuplicateFields(names) => r@ == duplicate_fields_message(
                    names@.map_values(|s: String| s@),
                ),
            },
    {
        match self {
            VariantError::DuplicateFields(names) => {
                let ghost all = names@.map_values(|s: String| s@);
                let mut r = String::new();
                push_str(&mut r, "Invalid argument error: Duplicate field keys detected: [");
                let ghost head = r@;
                let mut i: usize = 0;
                while i < names.len()
                    invariant
                        i <= names@.len(),
                        all == names@.map_values(|s: String| s@),
                        r@ == head + join(all.subrange(0, i as int), ", "@),
                    decreases names@.len() - i,
                {
                    if i > 0 {
                        push_str(&mut r, ", ");
                    }
                    push_str(&mut r, names[i].as_str());
                    proof {
                        let sub = all.subrange(0, i + 1);
                        assert(sub.drop_last() == all.subrange(0, i as int));
                        if i == 0 {
                            assert(join(all.subrange(0, 0), ", "@) == Seq::<char>::empty());
                            assert(head + Seq::<char>::empty() == head);
                        }
                    }
                    i = i + 1;
                }
                push_str(&mut r, "]");
                assert(all.subrange(0, names@.len() as int) == all);
                r
            },
        }
    }
}

} // verus!
