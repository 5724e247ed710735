use vstd::prelude::*;

verus! {

/// One `key="value"` pair declared in an element head.
pub struct AttrData {
    key: String,
    value: String,
}

impl AttrData {
    pub closed spec fn key_view(&self) -> Seq<char> {
        self.key@
    }

    pub closed spec fn value_view(&self) -> Seq<char> {
        self.value@
    }

    pub fn new(key: &str, value: &str) -> (r: AttrData)
        ensures
            r.key_view() == key@,
            r.value_view() == value@,
    {
        AttrData { key: key.to_owned(), value: value.to_owned() }
    }

    pub(crate) fn from_strings(key: String, value: String) -> (r: AttrData)
        ensures
            r.key_view() == key@,
            r.value_view() == value@,
    {
        AttrData { key, value }
    }

    pub fn get_key(&self) -> (r: String)
        ensures
            r@ == self.key_view(),
    {
        self.key.clone()
    }

    pub fn get_value(&self) -> (r: String)
        ensures
            r@ == self.value_view(),
    {
        self.value.clone()
    }

    pub fn get_key_ref(&self) -> (r: &String)
        ensures
            r@ == self.key_view(),
    {
        &self.key
    }

    pub fn get_value_ref(&self) -> (r: &String)
        ensures
            r@ == self.value_view(),
    {
        &self.value
    }
}

} // verus!
