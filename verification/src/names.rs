//! The names by which the page tree is laid out in dictionaries.

use vstd::prelude::*;
use vstd::string::StringSliceAdditionalSpecFns;

verus! {

/// The bytes of a name that is written as `text`.
pub open spec fn name_bytes(text: &str) -> Seq<u8> {
    text.spec_bytes()
}

/// The bytes of a name that is written as `text`, to look it up by.
pub fn name_key(text: &str) -> (key: &[u8])
    ensures
        key@ == name_bytes(text),
{
    text.as_bytes()
}

/// The bytes of a name that is written as `text`, to store.
pub fn name_vec(text: &str) -> (key: Vec<u8>)
    ensures
        key@ == name_bytes(text),
{
    crate::object::copy_bytes(text.as_bytes())
}

/// No two of the names used in the page tree are the same.
pub proof fn lemma_names_differ()
    ensures
        name_bytes("Parent") != name_bytes("Type"),
        name_bytes("Parent") != name_bytes("Kids"),
        name_bytes("Parent") != name_bytes("Count"),
        name_bytes("Parent") != name_bytes("Rotate"),
        name_bytes("Type") != name_bytes("Kids"),
        name_bytes("Type") != name_bytes("Count"),
        name_bytes("Type") != name_bytes("Pages"),
        name_bytes("Type") != name_bytes("Rotate"),
        name_bytes("Kids") != name_bytes("Count"),
        name_bytes("Pages") != name_bytes("Kids"),
        name_bytes("Pages") != name_bytes("Count"),
        name_bytes("Pages") != name_bytes("Page"),
        name_bytes("Pages") != name_bytes("Catalog"),
        name_bytes("Page") != name_bytes("Catalog"),
{
    reveal_strlit("Parent");
    reveal_strlit("Type");
    reveal_strlit("Kids");
    reveal_strlit("Count");
    reveal_strlit("Rotate");
    reveal_strlit("Pages");
    reveal_strlit("Page");
    reveal_strlit("Catalog");
    assert(vstd::string::is_ascii("Parent"));
    assert(vstd::string::is_ascii("Type"));
    assert(vstd::string::is_ascii("Kids"));
    assert(vstd::string::is_ascii("Count"));
    assert(vstd::string::is_ascii("Rotate"));
    assert(vstd::string::is_ascii("Pages"));
    assert(vstd::string::is_ascii("Page"));
    assert(vstd::string::is_ascii("Catalog"));
    assert(name_bytes("Parent").len() == 6);
    assert(name_bytes("Type").len() == 4);
    assert(name_bytes("Kids").len() == 4);
    assert(name_bytes("Count").len() == 5);
    assert(name_bytes("Rotate").len() == 6);
    assert(name_bytes("Pages").len() == 5);
    assert(name_bytes("Page").len() == 4);
    assert(name_bytes("Catalog").len() == 7);
    assert(name_bytes("Parent")[0] == 80u8);
    assert(name_bytes("Rotate")[0] == 82u8);
    assert(name_bytes("Type")[0] == 84u8);
    assert(name_bytes("Kids")[0] == 75u8);
    assert(name_bytes("Pages")[0] == 80u8);
    assert(name_bytes("Count")[0] == 67u8);
}

} // verus!
