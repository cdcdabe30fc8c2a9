use vstd::prelude::*;

verus! {

/// One intermediate key/value record exchanged between the map and the
/// reduce phase. Both components are strings; the record is a plain value.
#[derive(Clone, Debug, PartialEq, Eq, PartialOrd, Ord, Hash)]
pub struct KeyValue {
    pub key: String,
    pub value: String,
}

/// The mathematical content of a [`KeyValue`]: its two strings as
/// character sequences.
#[verifier::ext_equal]
pub ghost struct KvView {
    pub key: Seq<char>,
    pub value: Seq<char>,
}

impl View for KeyValue {
    type V = KvView;

    open spec fn view(&self) -> KvView {
        KvView { key: self.key@, value: self.value@ }
    }
}

impl DeepView for KeyValue {
    type V = KvView;

    open spec fn deep_view(&self) -> KvView {
        self.view()
    }
}

impl KeyValue {
    pub fn new(key: String, value: String) -> (kv: Self)
        ensures
            kv@.key == key@,
            kv@.value == value@,
    {
        KeyValue { key, value }
    }
}

} // verus!
