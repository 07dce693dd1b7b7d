//! A key/value attribute as the Metaplex Core `Attributes` plugin stores it.

use vstd::prelude::*;

use crate::error::ErrorCode;

verus! {

/// One entry of an asset's or a collection's attribute list.
#[derive(Debug, PartialEq, Eq)]
pub struct Attribute {
    pub key: String,
    pub value: String,
}

impl View for Attribute {
    type V = (Seq<char>, Seq<char>);

    /// The key and the value as text.
    open spec fn view(&self) -> (Seq<char>, Seq<char>) {
        (self.key@, self.value@)
    }
}

impl Clone for Attribute {
    fn clone(&self) -> (res: Self)
        ensures
            res@ == self@,
    {
        Attribute { key: self.key.clone(), value: self.value.clone() }
    }
}

impl Attribute {
    /// An attribute with the given key and value.
    pub fn new(key: &str, value: String) -> (res: Attribute)
        ensures
            res@ == (key@, value@),
    {
        Attribute { key: key.to_owned(), value }
    }
}

/// The key/value texts of an attribute list, in order.
pub open spec fn attributes_view(v: Seq<Attribute>) -> Seq<(Seq<char>, Seq<char>)> {
    v.map_values(|a: Attribute| a@)
}

/// The entries of `s` whose key is not in `keys`, in their order.
pub open spec fn without_keys(
    s: Seq<(Seq<char>, Seq<char>)>,
    keys: Set<Seq<char>>,
) -> Seq<(Seq<char>, Seq<char>)>
    decreases s.len(),
{
    if s.len() == 0 {
        s
    } else {
        let rest = without_keys(s.drop_last(), keys);
        if keys.contains(s.last().0) {
            rest
        } else {
            rest.push(s.last())
        }
    }
}

/// No entry of `s` has a key in `keys`.
pub open spec fn has_no_key_in(s: Seq<(Seq<char>, Seq<char>)>, keys: Set<Seq<char>>) -> bool {
    forall|i: int| 0 <= i < s.len() ==> !keys.contains(#[trigger] s[i].0)
}

/// Appending one entry to `s` appends it to `without_keys(s, keys)` unless its
/// key is in `keys`.
pub proof fn lemma_without_keys_push(
    s: Seq<(Seq<char>, Seq<char>)>,
    x: (Seq<char>, Seq<char>),
    keys: Set<Seq<char>>,
)
    ensures
        without_keys(s.push(x), keys) == if keys.contains(x.0) {
            without_keys(s, keys)
        } else {
            without_keys(s, keys).push(x)
        },
{
    assert(s.push(x).drop_last() =~= s);
}

/// Removing keys from a list that holds none of them leaves it unchanged.
pub proof fn lemma_without_absent_keys(s: Seq<(Seq<char>, Seq<char>)>, keys: Set<Seq<char>>)
    requires
        has_no_key_in(s, keys),
    ensures
        without_keys(s, keys) == s,
    decreases s.len(),
{
    if s.len() > 0 {
        lemma_without_absent_keys(s.drop_last(), keys);
        assert(s.drop_last().push(s.last()) =~= s);
    }
}

/// What `without_keys` leaves holds none of the removed keys.
pub proof fn lemma_without_keys_has_none(s: Seq<(Seq<char>, Seq<char>)>, keys: Set<Seq<char>>)
    ensures
        has_no_key_in(without_keys(s, keys), keys),
    decreases s.len(),
{
    if s.len() > 0 {
        lemma_without_keys_has_none(s.drop_last(), keys);
    }
}

/// Removing keys from a concatenation removes them from each part.
pub proof fn lemma_without_keys_concat(
    a: Seq<(Seq<char>, Seq<char>)>,
    b: Seq<(Seq<char>, Seq<char>)>,
    keys: Set<Seq<char>>,
)
    ensures
        without_keys(a + b, keys) == without_keys(a, keys) + without_keys(b, keys),
    decreases b.len(),
{
    if b.len() == 0 {
        assert(a + b =~= a);
        assert(without_keys(a, keys) + without_keys(b, keys) =~= without_keys(a, keys));
    } else {
        lemma_without_keys_concat(a, b.drop_last(), keys);
        assert((a + b).drop_last() =~= a + b.drop_last());
        assert((a + b).last() == b.last());
        if !keys.contains(b.last().0) {
            assert(without_keys(a, keys) + without_keys(b.drop_last(), keys).push(b.last())
                =~= (without_keys(a, keys) + without_keys(b.drop_last(), keys)).push(b.last()));
        }
    }
}

/// An attribute list to write back through the `Attributes` plugin, and
/// whether the plugin has to be added (`true`) or only updated (`false`).
#[derive(Debug)]
pub struct PluginWrite {
    pub attribute_list: Vec<Attribute>,
    pub add_plugin: bool,
}

impl View for PluginWrite {
    type V = (Seq<(Seq<char>, Seq<char>)>, bool);

    open spec fn view(&self) -> (Seq<(Seq<char>, Seq<char>)>, bool) {
        (attributes_view(self.attribute_list@), self.add_plugin)
    }
}

/// A planned plugin write, or the error, as key/value texts.
pub open spec fn plugin_write_view(r: Result<PluginWrite, ErrorCode>) -> Result<
    (Seq<(Seq<char>, Seq<char>)>, bool),
    ErrorCode,
> {
    match r {
        Ok(w) => Ok(w@),
        Err(e) => Err(e),
    }
}

/// The attribute list that was fetched, as key/value texts: empty where the
/// plugin is absent.
pub open spec fn fetched_view(fetched: Option<Vec<Attribute>>) -> Seq<(Seq<char>, Seq<char>)> {
    match fetched {
        Some(v) => attributes_view(v@),
        None => Seq::empty(),
    }
}

} // verus!
