use vstd::prelude::*;

verus! {

/// `s` is a UUID in its hyphenated lowercase text form: 36 characters, hyphens at
/// positions 8, 13, 18 and 23, and lowercase hexadecimal digits everywhere else.
pub open spec fn is_hyphenated_uuid(s: Seq<char>) -> bool {
    &&& s.len() == 36
    &&& forall|i: int|
        0 <= i < 36 ==> if i == 8 || i == 13 || i == 18 || i == 23 {
            #[trigger] s[i] == '-'
        } else {
            ('0' <= s[i] <= '9') || ('a' <= s[i] <= 'f')
        }
}

/// `uuid::Uuid::new_v4`, in its hyphenated text form (`to_string`, which writes the
/// hyphenated lowercase form). The value is random: only its form is stated, and two
/// calls may give different values.
#[verifier::external_body]
pub fn new_dag_id() -> (r: String)
    ensures
        is_hyphenated_uuid(r@),
{
    uuid::Uuid::new_v4().to_string()
}

} // verus!
