//! Named bit-vector variables.

use vstd::prelude::*;
use vstd::string::StringExecFns;
use crate::il::serial::{
    encodes, fits, lemma_encodes_split, lemma_encodes_whole, lemma_size_and_index_are_unique,
    lemma_string_is_unique, optional_index_bytes, put_optional_index, put_size, put_string,
    size_bytes, string_bytes, take_optional_index, take_size, take_string,
};
use crate::il::text::{decimal, push_decimal};

verus! {

/// The least width, in bits, of a value of the language.
pub const MIN_BITS: usize = 1;

/// The greatest width, in bits, of a value of the language.
pub const MAX_BITS: usize = 64;

/// Whether `bits` is a width that a value of the language can have.
pub open spec fn admissible_bits(bits: usize) -> bool {
    MIN_BITS <= bits <= MAX_BITS
}

/// What a `Scalar` is: its name, its width and its optional SSA index.
pub struct ScalarView {
    pub name: Seq<char>,
    pub bits: usize,
    pub ssa: Option<u32>,
}

/// A named variable that holds a bit-vector of a fixed width.
#[derive(Debug, Eq, Hash, PartialOrd, Ord)]
pub struct Scalar {
    name: String,
    bits: usize,
    ssa: Option<u32>,
}

impl View for Scalar {
    type V = ScalarView;

    closed spec fn view(&self) -> ScalarView {
        ScalarView { name: self.name@, bits: self.bits, ssa: self.ssa }
    }
}

impl Scalar {
    /// A scalar is well formed when its width is admissible.
    pub open spec fn well_formed(&self) -> bool {
        admissible_bits(self@.bits)
    }

    /// Create a scalar of the given name and width, with no SSA index.
    pub fn new(name: &str, bits: usize) -> (s: Scalar)
        requires
            admissible_bits(bits),
        ensures
            s@ == (ScalarView { name: name@, bits: bits, ssa: None }),
            s.well_formed(),
    {
        Scalar { name: String::from_str(name), bits: bits, ssa: None }
    }

    /// The name of this scalar.
    pub fn name(&self) -> (name: &str)
        ensures
            name@ == self@.name,
    {
        self.name.as_str()
    }

    /// The width of this scalar in bits.
    pub fn bits(&self) -> (bits: usize)
        ensures
            bits == self@.bits,
    {
        self.bits
    }

    /// The SSA index of this scalar, if it has one.
    pub fn ssa(&self) -> (ssa: Option<u32>)
        ensures
            ssa == self@.ssa,
    {
        self.ssa
    }

    /// Set or clear the SSA index. Name and width stay as they are.
    pub fn set_ssa(&mut self, ssa: Option<u32>)
        ensures
            final(self)@ == (ScalarView { ssa: ssa, ..old(self)@ }),
    {
        self.ssa = ssa;
    }
}

/// The text of a variable's name with its SSA index: the name, and where
/// there is an index an underscore and the index in decimal.
pub open spec fn versioned(name: Seq<char>, ssa: Option<u32>) -> Seq<char> {
    match ssa {
        Some(ssa) => name + "_"@ + decimal(ssa as nat),
        None => name,
    }
}

/// Append a variable's name with its SSA index.
pub(crate) fn push_versioned(text: &mut String, name: &str, ssa: Option<u32>)
    ensures
        final(text)@ == old(text)@ + versioned(name@, ssa),
{
    text.append(name);
    match ssa {
        Some(ssa) => {
            text.append("_");
            push_decimal(text, ssa as u64);
            assert(text@ =~= old(text)@ + (name@ + "_"@ + decimal(ssa as nat)));
        },
        None => {},
    }
}

impl ScalarView {
    /// The text of a scalar: its name with its SSA index, a colon, and its
    /// width in decimal.
    pub open spec fn rendered(self) -> Seq<char> {
        versioned(self.name, self.ssa) + ":"@ + decimal(self.bits as nat)
    }
}

impl Scalar {
    /// Append the text of this scalar.
    pub fn render_into(&self, text: &mut String)
        ensures
            final(text)@ == old(text)@ + self@.rendered(),
    {
        push_versioned(text, self.name.as_str(), self.ssa);
        text.append(":");
        push_decimal(text, self.bits as u64);
        assert(text@ =~= old(text)@ + self@.rendered());
    }

    /// The text of this scalar.
    pub fn render(&self) -> (text: String)
        ensures
            text@ == self@.rendered(),
    {
        let mut text = String::new();
        self.render_into(&mut text);
        assert(text@ =~= self@.rendered());
        text
    }
}

impl Clone for Scalar {
    fn clone(&self) -> (s: Self)
        ensures
            s == *self,
    {
        Scalar { name: self.name.clone(), bits: self.bits, ssa: self.ssa }
    }
}

impl PartialEq for Scalar {
    fn eq(&self, other: &Self) -> (r: bool) {
        self.name == other.name && self.bits == other.bits && self.ssa == other.ssa
    }
}

impl vstd::std_specs::cmp::PartialEqSpecImpl for Scalar {
    open spec fn obeys_eq_spec() -> bool {
        true
    }

    open spec fn eq_spec(&self, other: &Self) -> bool {
        self@ == other@
    }
}

impl ScalarView {
    /// The serialized form of a scalar: its name, its width, its SSA index.
    pub open spec fn serialized(self) -> Seq<u8> {
        string_bytes(self.name) + size_bytes(self.bits) + optional_index_bytes(self.ssa)
    }
}

/// Where the parts of a serialized scalar stand.
pub proof fn lemma_scalar_layout(bytes: Seq<u8>, start: int, scalar: ScalarView)
    ensures
        encodes(bytes, start, scalar.serialized()) <==> {
            &&& encodes(bytes, start, string_bytes(scalar.name))
            &&& encodes(bytes, start + string_bytes(scalar.name).len(), size_bytes(scalar.bits))
            &&& encodes(
                bytes,
                start + string_bytes(scalar.name).len() + size_bytes(scalar.bits).len(),
                optional_index_bytes(scalar.ssa),
            )
        },
        scalar.serialized().len() == string_bytes(scalar.name).len() + size_bytes(
            scalar.bits,
        ).len() + optional_index_bytes(scalar.ssa).len(),
{
    let name = string_bytes(scalar.name);
    let bits = size_bytes(scalar.bits);
    let ssa = optional_index_bytes(scalar.ssa);
    lemma_encodes_split(bytes, start, name + bits, ssa);
    lemma_encodes_split(bytes, start, name, bits);
}

impl Scalar {
    /// Append the serialized form of this scalar.
    pub fn encode_into(&self, out: &mut Vec<u8>)
        ensures
            final(out)@ == old(out)@ + self@.serialized(),
    {
        put_string(out, self.name.as_str());
        put_size(out, self.bits);
        put_optional_index(out, self.ssa);
        assert(out@ =~= old(out)@ + self@.serialized());
    }

    /// Read the scalar whose serialized form stands at `start`, and say
    /// where it ends. `None` where no scalar stands there.
    pub fn decode_at(bytes: &[u8], start: usize) -> (r: Option<(Scalar, usize)>)
        ensures
            r matches Some((scalar, end)) ==> encodes(bytes@, start as int, scalar@.serialized())
                && end == start + scalar@.serialized().len(),
            forall|scalar: ScalarView|
                encodes(bytes@, start as int, #[trigger] scalar.serialized()) ==> ({
                    &&& r matches Some((read, end))
                    &&& read@ == scalar
                    &&& end == start + scalar.serialized().len()
                }),
    {
        proof {
            assert forall|scalar: ScalarView|
                encodes(bytes@, start as int, #[trigger] scalar.serialized()) implies encodes(
                bytes@,
                start as int,
                string_bytes(scalar.name),
            ) && encodes(
                bytes@,
                start + string_bytes(scalar.name).len(),
                size_bytes(scalar.bits),
            ) && encodes(
                bytes@,
                start + string_bytes(scalar.name).len() + size_bytes(scalar.bits).len(),
                optional_index_bytes(scalar.ssa),
            ) by {
                lemma_scalar_layout(bytes@, start as int, scalar);
            }
        }
        let (name, after_name) = match take_string(bytes, start) {
            Some(taken) => taken,
            None => {
                return None;
            },
        };
        let (bits, after_bits) = match take_size(bytes, after_name) {
            Some(taken) => taken,
            None => {
                return None;
            },
        };
        let (ssa, end) = match take_optional_index(bytes, after_bits) {
            Some(taken) => taken,
            None => {
                return None;
            },
        };
        let scalar = Scalar { name: name, bits: bits, ssa: ssa };
        proof {
            lemma_scalar_layout(bytes@, start as int, scalar@);
        }
        Some((scalar, end))
    }
}

impl Scalar {
    /// The serialized form of this scalar.
    pub fn serialize(&self) -> (bytes: Vec<u8>)
        ensures
            bytes@ == self@.serialized(),
    {
        let mut bytes: Vec<u8> = Vec::new();
        self.encode_into(&mut bytes);
        assert(bytes@ =~= self@.serialized());
        bytes
    }

    /// The scalar of which `bytes` is the serialized form; `None` where it is
    /// the serialized form of none. What `serialize` returned for a scalar
    /// gives that scalar back.
    pub fn deserialize(bytes: &[u8]) -> (r: Option<Scalar>)
        ensures
            r matches Some(read) ==> bytes@ == read@.serialized(),
            forall|other: ScalarView|
                bytes@ == #[trigger] other.serialized() ==> ({
                    &&& r matches Some(read)
                    &&& read@ == other
                }),
    {
        proof {
            assert forall|other: ScalarView| bytes@ == #[trigger] other.serialized() implies encodes(
                bytes@,
                0,
                other.serialized(),
            ) by {
                lemma_encodes_whole(bytes@, other.serialized());
            }
        }
        match Scalar::decode_at(bytes, 0) {
            Some((read, end)) => {
                if end == bytes.len() {
                    proof {
                        lemma_encodes_whole(bytes@, read@.serialized());
                    }
                    Some(read)
                } else {
                    None
                }
            },
            None => None,
        }
    }
}

impl Scalar {
    /// Whether this scalar is well formed.
    pub fn is_well_formed(&self) -> (r: bool)
        ensures
            r == self.well_formed(),
    {
        MIN_BITS <= self.bits && self.bits <= MAX_BITS
    }
}

/// Whether scalars of one name have one width: whether any two scalars of
/// the sequence that have the same name are equally wide.
pub open spec fn widths_agree(scalars: Seq<Scalar>) -> bool {
    forall|i: int, j: int|
        0 <= i < scalars.len() && 0 <= j < scalars.len() && (#[trigger] scalars[i])@.name == (
        #[trigger] scalars[j])@.name ==> scalars[i]@.bits == scalars[j]@.bits
}

impl Scalar {
    /// Whether this scalar and `other` have the same name.
    pub fn same_name(&self, other: &Scalar) -> (r: bool)
        ensures
            r == (self@.name == other@.name),
    {
        self.name == other.name
    }
}

/// At one place stands one scalar at most.
pub proof fn lemma_scalar_is_unique(bytes: Seq<u8>, start: int, a: ScalarView, b: ScalarView)
    requires
        fits(bytes),
        encodes(bytes, start, a.serialized()),
        encodes(bytes, start, b.serialized()),
    ensures
        a == b,
{
    lemma_scalar_layout(bytes, start, a);
    lemma_scalar_layout(bytes, start, b);
    lemma_string_is_unique(bytes, start, a.name, b.name);
    let bits = start + string_bytes(a.name).len();
    lemma_size_and_index_are_unique(bytes, bits, a.bits, b.bits, None, None);
    let ssa = bits + size_bytes(a.bits).len();
    lemma_size_and_index_are_unique(bytes, ssa, 0, 0, a.ssa, b.ssa);
}

} // verus!
