//! The keys and names that the page tree uses, as bytes.

use vstd::prelude::*;
use vstd::string::{StringSliceAdditionalSpecFns, StrSliceExecFns};

verus! {

/// The bytes of a name written as a string.
pub open spec fn name(s: &str) -> Seq<u8> {
    s.spec_bytes()
}

/// The bytes of `s`, to be stored as a key or a name.
pub(crate) fn name_bytes(s: &str) -> (r: Vec<u8>)
    ensures
        r@ == name(s),
{
    s.as_bytes_vec()
}

/// The names that stand as keys side by side are told apart by their length
/// or by their first byte.
pub proof fn lemma_name_bytes()
    ensures
        name("Type").len() == 4 && name("Type")[0] == 84,
        name("Kids").len() == 4 && name("Kids")[0] == 75,
        name("Pages").len() == 5 && name("Pages")[0] == 80,
        name("Page").len() == 4,
        name("Count").len() == 5 && name("Count")[0] == 67,
        name("Parent").len() == 6 && name("Parent")[0] == 80,
        name("Rotate").len() == 6 && name("Rotate")[0] == 82,
        name("MediaBox").len() == 8 && name("MediaBox")[0] == 77,
        name("Contents").len() == 8 && name("Contents")[0] == 67,
        name("Resources").len() == 9,
        name("XObject").len() == 7 && name("XObject")[0] == 88,
        name("ProcSet").len() == 7 && name("ProcSet")[0] == 80,
        name("Length").len() == 6 && name("Length")[0] == 76,
        name("Root").len() == 4,
        name("Im") == seq![73u8, 109],
{
    broadcast use vstd::string::is_ascii_spec_bytes;
    reveal_strlit("Type");
    reveal_strlit("Kids");
    reveal_strlit("Pages");
    reveal_strlit("Page");
    reveal_strlit("Count");
    reveal_strlit("Parent");
    reveal_strlit("Rotate");
    reveal_strlit("MediaBox");
    reveal_strlit("Contents");
    reveal_strlit("Resources");
    reveal_strlit("XObject");
    reveal_strlit("ProcSet");
    reveal_strlit("Length");
    reveal_strlit("Root");
    reveal_strlit("Im");
    assert("Type".is_ascii());
    assert("Kids".is_ascii());
    assert("Pages".is_ascii());
    assert("Page".is_ascii());
    assert("Count".is_ascii());
    assert("Parent".is_ascii());
    assert("Rotate".is_ascii());
    assert("MediaBox".is_ascii());
    assert("Contents".is_ascii());
    assert("Resources".is_ascii());
    assert("XObject".is_ascii());
    assert("ProcSet".is_ascii());
    assert("Length".is_ascii());
    assert("Root".is_ascii());
    assert("Im".is_ascii());
    assert(name("Im") =~= seq![73u8, 109]);
}

} // verus!
