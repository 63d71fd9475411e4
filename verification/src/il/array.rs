//! Named memory regions.

use vstd::prelude::*;
use vstd::string::StringExecFns;
use crate::il::scalar::{push_versioned, versioned};
use crate::il::serial::{
    encodes, fits, lemma_encodes_split, lemma_encodes_whole, lemma_number_is_unique,
    lemma_size_and_index_are_unique, lemma_string_is_unique, number_bytes, optional_index_bytes,
    put_number, put_optional_index, put_string, string_bytes, take_number, take_optional_index,
    take_string,
};

verus! {

/// What an `Array` is: its name, its size in bytes and its optional SSA index.
pub struct ArrayView {
    pub name: Seq<char>,
    pub size: u64,
    pub ssa: Option<u32>,
}

/// A named region of memory. Its cells are addressed by expressions.
#[derive(Debug, Eq, Hash, PartialOrd, Ord)]
pub struct Array {
    name: String,
    size: u64,
    ssa: Option<u32>,
}

impl View for Array {
    type V = ArrayView;

    closed spec fn view(&self) -> ArrayView {
        ArrayView { name: self.name@, size: self.size, ssa: self.ssa }
    }
}

impl Array {
    /// Create an array of the given name and size in bytes, with no SSA index.
    pub fn new(name: &str, size: u64) -> (a: Array)
        ensures
            a@ == (ArrayView { name: name@, size: size, ssa: None }),
    {
        Array { name: String::from_str(name), size: size, ssa: None }
    }

    /// The name of this array.
    pub fn name(&self) -> (name: &str)
        ensures
            name@ == self@.name,
    {
        self.name.as_str()
    }

    /// The size of this array in bytes.
    pub fn size(&self) -> (size: u64)
        ensures
            size == self@.size,
    {
        self.size
    }

    /// The SSA index of this array, if it has one.
    pub fn ssa(&self) -> (ssa: Option<u32>)
        ensures
            ssa == self@.ssa,
    {
        self.ssa
    }

    /// Set or clear the SSA index. Name and size stay as they are.
    pub fn set_ssa(&mut self, ssa: Option<u32>)
        ensures
            final(self)@ == (ArrayView { ssa: ssa, ..old(self)@ }),
    {
        self.ssa = ssa;
    }
}

impl ArrayView {
    /// The text of an array: its name with its SSA index.
    pub open spec fn rendered(self) -> Seq<char> {
        versioned(self.name, self.ssa)
    }
}

impl Array {
    /// Append the text of this array.
    pub fn render_into(&self, text: &mut String)
        ensures
            final(text)@ == old(text)@ + self@.rendered(),
    {
        push_versioned(text, self.name.as_str(), self.ssa);
    }

    /// The text of this array.
    pub fn render(&self) -> (text: String)
        ensures
            text@ == self@.rendered(),
    {
        let mut text = String::new();
        self.render_into(&mut text);
        assert(text@ =~= self@.rendered());
        text
    }
}

impl Clone for Array {
    fn clone(&self) -> (a: Self)
        ensures
            a == *self,
    {
        Array { name: self.name.clone(), size: self.size, ssa: self.ssa }
    }
}

impl PartialEq for Array {
    fn eq(&self, other: &Self) -> (r: bool) {
        self.name == other.name && self.size == other.size && self.ssa == other.ssa
    }
}

impl vstd::std_specs::cmp::PartialEqSpecImpl for Array {
    open spec fn obeys_eq_spec() -> bool {
        true
    }

    open spec fn eq_spec(&self, other: &Self) -> bool {
        self@ == other@
    }
}

impl ArrayView {
    /// The serialized form of an array: its name, its size, its SSA index.
    pub open spec fn serialized(self) -> Seq<u8> {
        string_bytes(self.name) + number_bytes(self.size) + optional_index_bytes(self.ssa)
    }
}

/// Where the parts of a serialized array stand.
pub proof fn lemma_array_layout(bytes: Seq<u8>, start: int, array: ArrayView)
    ensures
        encodes(bytes, start, array.serialized()) <==> {
            &&& encodes(bytes, start, string_bytes(array.name))
            &&& encodes(bytes, start + string_bytes(array.name).len(), number_bytes(array.size))
            &&& encodes(
                bytes,
                start + string_bytes(array.name).len() + number_bytes(array.size).len(),
                optional_index_bytes(array.ssa),
            )
        },
        array.serialized().len() == string_bytes(array.name).len() + number_bytes(
            array.size,
        ).len() + optional_index_bytes(array.ssa).len(),
{
    let name = string_bytes(array.name);
    let size = number_bytes(array.size);
    let ssa = optional_index_bytes(array.ssa);
    lemma_encodes_split(bytes, start, name + size, ssa);
    lemma_encodes_split(bytes, start, name, size);
}

impl Array {
    /// Append the serialized form of this array.
    pub fn encode_into(&self, out: &mut Vec<u8>)
        ensures
            final(out)@ == old(out)@ + self@.serialized(),
    {
        put_string(out, self.name.as_str());
        put_number(out, self.size);
        put_optional_index(out, self.ssa);
        assert(out@ =~= old(out)@ + self@.serialized());
    }

    /// Read the array whose serialized form stands at `start`, and say
    /// where it ends. `None` where no array stands there.
    pub fn decode_at(bytes: &[u8], start: usize) -> (r: Option<(Array, usize)>)
        ensures
            r matches Some((array, end)) ==> encodes(bytes@, start as int, array@.serialized())
                && end == start + array@.serialized().len(),
            forall|array: ArrayView|
                encodes(bytes@, start as int, #[trigger] array.serialized()) ==> ({
                    &&& r matches Some((read, end))
                    &&& read@ == array
                    &&& end == start + array.serialized().len()
                }),
    {
        proof {
            assert forall|array: ArrayView|
                encodes(bytes@, start as int, #[trigger] array.serialized()) implies encodes(
                bytes@,
                start as int,
                string_bytes(array.name),
            ) && encodes(
                bytes@,
                start + string_bytes(array.name).len(),
                number_bytes(array.size),
            ) && encodes(
                bytes@,
                start + string_bytes(array.name).len() + number_bytes(array.size).len(),
                optional_index_bytes(array.ssa),
            ) by {
                lemma_array_layout(bytes@, start as int, array);
            }
        }
        let (name, after_name) = match take_string(bytes, start) {
            Some(taken) => taken,
            None => {
                return None;
            },
        };
        let (size, after_size) = match take_number(bytes, after_name) {
            Some(taken) => taken,
            None => {
                return None;
            },
        };
        let (ssa, end) = match take_optional_index(bytes, after_size) {
            Some(taken) => taken,
            None => {
                return None;
            },
        };
        let array = Array { name: name, size: size, ssa: ssa };
        proof {
            lemma_array_layout(bytes@, start as int, array@);
        }
        Some((array, end))
    }
}

impl Array {
    /// The serialized form of this array.
    pub fn serialize(&self) -> (bytes: Vec<u8>)
        ensures
            bytes@ == self@.serialized(),
    {
        let mut bytes: Vec<u8> = Vec::new();
        self.encode_into(&mut bytes);
        assert(bytes@ =~= self@.serialized());
        bytes
    }

    /// The array of which `bytes` is the serialized form; `None` where it is
    /// the serialized form of none. What `serialize` returned for a array
    /// gives that array back.
    pub fn deserialize(bytes: &[u8]) -> (r: Option<Array>)
        ensures
            r matches Some(read) ==> bytes@ == read@.serialized(),
            forall|other: ArrayView|
                bytes@ == #[trigger] other.serialized() ==> ({
                    &&& r matches Some(read)
                    &&& read@ == other
                }),
    {
        proof {
            assert forall|other: ArrayView| bytes@ == #[trigger] other.serialized() implies encodes(
                bytes@,
                0,
                other.serialized(),
            ) by {
                lemma_encodes_whole(bytes@, other.serialized());
            }
        }
        match Array::decode_at(bytes, 0) {
            Some((read, end)) => {
                if end == bytes.len() {
                    proof {
                        lemma_encodes_whole(bytes@, read@.serialized());
                    }
                    Some(read)
                } else {
                    None
                }
            },
            None => None,
        }
    }
}

/// At one place stands one array at most.
pub proof fn lemma_array_is_unique(bytes: Seq<u8>, start: int, a: ArrayView, b: ArrayView)
    requires
        fits(bytes),
        encodes(bytes, start, a.serialized()),
        encodes(bytes, start, b.serialized()),
    ensures
        a == b,
{
    lemma_array_layout(bytes, start, a);
    lemma_array_layout(bytes, start, b);
    lemma_string_is_unique(bytes, start, a.name, b.name);
    let size = start + string_bytes(a.name).len();
    lemma_number_is_unique(bytes, size, a.size, b.size);
    let ssa = size + number_bytes(a.size).len();
    lemma_size_and_index_are_unique(bytes, ssa, 0, 0, a.ssa, b.ssa);
}

} // verus!
