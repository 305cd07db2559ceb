//! Turning per-field validation outcomes into the flat message list that an
//! error response carries.

use vstd::prelude::*;

verus! {

/// One field's validation outcome: the field name, and the message the
/// validation rule supplied, if any.
#[derive(Clone, Debug, PartialEq)]
pub struct FieldError {
    pub field: String,
    pub message: Option<String>,
}

/// Collects one message per field error: the supplied message where there
/// is one, and `<field> is required` where none was supplied.
pub fn collect_errors(errors: Vec<FieldError>) -> (r: Vec<String>)
    ensures
        r@.len() == errors@.len(),
        forall|i: int|
            0 <= i < errors@.len() ==> #[trigger] r@[i]@ == match errors@[i].message {
                Some(m) => m@,
                None => errors@[i].field@ + " is required"@,
            },
{
    let n = errors.len();
    let mut out: Vec<String> = Vec::new();
    let mut i: usize = 0;
    while i < n
        invariant
            i <= n,
            n == errors@.len(),
            out@.len() == i,
            forall|k: int|
                0 <= k < i ==> #[trigger] out@[k]@ == match errors@[k].message {
                    Some(m) => m@,
                    None => errors@[k].field@ + " is required"@,
                },
        decreases n - i,
    {
        let e = &errors[i];
        let msg = match &e.message {
            Some(m) => m.clone(),
            None => e.field.clone().concat(" is required"),
        };
        out.push(msg);
        i += 1;
    }
    out
}

} // verus!
