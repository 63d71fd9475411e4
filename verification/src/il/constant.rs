//! Constant bit-vectors.

use vstd::arithmetic::power2::pow2;
use vstd::prelude::*;
use vstd::string::StringExecFns;
use crate::il::scalar::admissible_bits;
use crate::il::serial::{
    encodes, lemma_encodes_split, lemma_encodes_whole, lemma_number_is_unique,
    lemma_size_and_index_are_unique, number_bytes, put_number, put_size, size_bytes, take_number,
    take_size,
};
use crate::il::text::{decimal, hex, push_decimal, push_hex};

verus! {

/// What a `Constant` is: its value and its width in bits.
pub struct ConstantView {
    pub value: u64,
    pub bits: usize,
}

/// The value that a constant of width `bits` keeps of `value`: its low
/// `bits` bits, which is `value` modulo two to the power `bits`.
pub open spec fn trimmed(value: u64, bits: usize) -> int {
    value as int % pow2(bits as nat) as int
}

/// A constant value of a fixed width.
#[derive(Debug, Eq, Hash, PartialOrd, Ord)]
pub struct Constant {
    value: u64,
    bits: usize,
}

impl View for Constant {
    type V = ConstantView;

    closed spec fn view(&self) -> ConstantView {
        ConstantView { value: self.value, bits: self.bits }
    }
}

impl Constant {
    /// A constant is well formed when its width is admissible and its value
    /// fits in that width.
    pub open spec fn well_formed(&self) -> bool {
        &&& admissible_bits(self@.bits)
        &&& self@.value < pow2(self@.bits as nat)
    }

    /// Create a constant of the given width. Of `value` the low `bits` bits
    /// are kept.
    pub fn new(value: u64, bits: usize) -> (c: Constant)
        requires
            admissible_bits(bits),
        ensures
            c@.bits == bits,
            c@.value == trimmed(value, bits),
            c.well_formed(),
    {
        Constant { value: trim_value(value, bits), bits: bits }
    }

    /// The value of this constant.
    pub fn value(&self) -> (value: u64)
        ensures
            value == self@.value,
    {
        self.value
    }

    /// The width of this constant in bits.
    pub fn bits(&self) -> (bits: usize)
        ensures
            bits == self@.bits,
    {
        self.bits
    }
}

/// Keep the low `bits` bits of `value`.
fn trim_value(value: u64, bits: usize) -> (r: u64)
    requires
        admissible_bits(bits),
    ensures
        r == trimmed(value, bits),
        r < pow2(bits as nat),
{
    if bits >= 64 {
        proof {
            vstd::arithmetic::power2::lemma2_to64_rest();
            assert(pow2(64) == 0x10000000000000000);
            vstd::arithmetic::div_mod::lemma_small_mod(value as nat, pow2(64));
        }
        value
    } else {
        let shift: u64 = bits as u64;
        proof {
            vstd::bits::lemma_u64_pow2_no_overflow(bits as nat);
            vstd::bits::lemma_u64_shl_is_mul(1u64, shift);
            vstd::arithmetic::div_mod::lemma_mod_bound(value as int, pow2(bits as nat) as int);
        }
        value % (1u64 << shift)
    }
}

impl ConstantView {
    /// The text of a constant: `0x`, its value in hexadecimal, a colon, and
    /// its width in decimal.
    pub open spec fn rendered(self) -> Seq<char> {
        "0x"@ + hex(self.value as nat) + ":"@ + decimal(self.bits as nat)
    }
}

impl Constant {
    /// Append the text of this constant.
    pub fn render_into(&self, text: &mut String)
        ensures
            final(text)@ == old(text)@ + self@.rendered(),
    {
        text.append("0x");
        push_hex(text, self.value);
        text.append(":");
        push_decimal(text, self.bits as u64);
        assert(text@ =~= old(text)@ + self@.rendered());
    }

    /// The text of this constant.
    pub fn render(&self) -> (text: String)
        ensures
            text@ == self@.rendered(),
    {
        let mut text = String::new();
        self.render_into(&mut text);
        assert(text@ =~= self@.rendered());
        text
    }
}

impl Clone for Constant {
    fn clone(&self) -> (c: Self)
        ensures
            c == *self,
    {
        Constant { value: self.value, bits: self.bits }
    }
}

impl PartialEq for Constant {
    fn eq(&self, other: &Self) -> (r: bool) {
        self.value == other.value && self.bits == other.bits
    }
}

impl vstd::std_specs::cmp::PartialEqSpecImpl for Constant {
    open spec fn obeys_eq_spec() -> bool {
        true
    }

    open spec fn eq_spec(&self, other: &Self) -> bool {
        self@ == other@
    }
}

impl ConstantView {
    /// The serialized form of a constant: its value, its width.
    pub open spec fn serialized(self) -> Seq<u8> {
        number_bytes(self.value) + size_bytes(self.bits)
    }
}

impl Constant {
    /// Append the serialized form of this constant.
    pub fn encode_into(&self, out: &mut Vec<u8>)
        ensures
            final(out)@ == old(out)@ + self@.serialized(),
    {
        put_number(out, self.value);
        put_size(out, self.bits);
        assert(out@ =~= old(out)@ + self@.serialized());
    }

    /// Read the constant whose serialized form stands at `start`, and say
    /// where it ends. `None` where no constant stands there.
    pub fn decode_at(bytes: &[u8], start: usize) -> (r: Option<(Constant, usize)>)
        ensures
            r matches Some((constant, end)) ==> encodes(
                bytes@,
                start as int,
                constant@.serialized(),
            ) && end == start + constant@.serialized().len(),
            forall|constant: ConstantView|
                encodes(bytes@, start as int, #[trigger] constant.serialized()) ==> ({
                    &&& r matches Some((read, end))
                    &&& read@ == constant
                    &&& end == start + constant.serialized().len()
                }),
    {
        proof {
            assert forall|constant: ConstantView|
                encodes(bytes@, start as int, #[trigger] constant.serialized()) implies encodes(
                bytes@,
                start as int,
                number_bytes(constant.value),
            ) && encodes(
                bytes@,
                start + number_bytes(constant.value).len(),
                size_bytes(constant.bits),
            ) by {
                lemma_encodes_split(
                    bytes@,
                    start as int,
                    number_bytes(constant.value),
                    size_bytes(constant.bits),
                );
            }
        }
        let (value, after_value) = match take_number(bytes, start) {
            Some(taken) => taken,
            None => {
                return None;
            },
        };
        let (bits, end) = match take_size(bytes, after_value) {
            Some(taken) => taken,
            None => {
                return None;
            },
        };
        let constant = Constant { value: value, bits: bits };
        proof {
            lemma_encodes_split(bytes@, start as int, number_bytes(value), size_bytes(bits));
        }
        Some((constant, end))
    }
}

impl Constant {
    /// The serialized form of this constant.
    pub fn serialize(&self) -> (bytes: Vec<u8>)
        ensures
            bytes@ == self@.serialized(),
    {
        let mut bytes: Vec<u8> = Vec::new();
        self.encode_into(&mut bytes);
        assert(bytes@ =~= self@.serialized());
        bytes
    }

    /// The constant of which `bytes` is the serialized form; `None` where it is
    /// the serialized form of none. What `serialize` returned for a constant
    /// gives that constant back.
    pub fn deserialize(bytes: &[u8]) -> (r: Option<Constant>)
        ensures
            r matches Some(read) ==> bytes@ == read@.serialized(),
            forall|other: ConstantView|
                bytes@ == #[trigger] other.serialized() ==> ({
                    &&& r matches Some(read)
                    &&& read@ == other
                }),
    {
        proof {
            assert forall|other: ConstantView| bytes@ == #[trigger] other.serialized() implies encodes(
                bytes@,
                0,
                other.serialized(),
            ) by {
                lemma_encodes_whole(bytes@, other.serialized());
            }
        }
        match Constant::decode_at(bytes, 0) {
            Some((read, end)) => {
                if end == bytes.len() {
                    proof {
                        lemma_encodes_whole(bytes@, read@.serialized());
                    }
                    Some(read)
                } else {
                    None
                }
            },
            None => None,
        }
    }
}

impl Constant {
    /// Whether this constant is well formed.
    pub fn is_well_formed(&self) -> (r: bool)
        ensures
            r == self.well_formed(),
    {
        if self.bits < 1 || self.bits > 64 {
            false
        } else if self.bits == 64 {
            proof {
                vstd::arithmetic::power2::lemma2_to64_rest();
            }
            true
        } else {
            let shift: u64 = self.bits as u64;
            proof {
                vstd::bits::lemma_u64_pow2_no_overflow(self.bits as nat);
                vstd::bits::lemma_u64_shl_is_mul(1u64, shift);
            }
            self.value < (1u64 << shift)
        }
    }
}

/// At one place stands one constant at most.
pub proof fn lemma_constant_is_unique(bytes: Seq<u8>, start: int, a: ConstantView, b: ConstantView)
    requires
        encodes(bytes, start, a.serialized()),
        encodes(bytes, start, b.serialized()),
    ensures
        a == b,
{
    lemma_encodes_split(bytes, start, number_bytes(a.value), size_bytes(a.bits));
    lemma_encodes_split(bytes, start, number_bytes(b.value), size_bytes(b.bits));
    lemma_number_is_unique(bytes, start, a.value, b.value);
    lemma_size_and_index_are_unique(
        bytes,
        start + number_bytes(a.value).len(),
        a.bits,
        b.bits,
        None,
        None,
    );
}

} // verus!
