//! The serialized form: numbers, strings and options as bytes.
//!
//! A number is eight bytes, the least significant first. A string is the
//! number of its bytes, then its bytes in UTF-8. An optional value is one
//! byte, 0 or 1, and behind a 1 the value. A sequence is the number of its
//! items, then the items. Sums begin with one byte that names the variant.

use vstd::bytes::{spec_u64_from_le_bytes, spec_u64_to_le_bytes, u64_from_le_bytes, u64_to_le_bytes};
use vstd::prelude::*;
use vstd::slice::{slice_subrange, slice_to_vec};
use vstd::utf8::{encode_utf8, valid_utf8};
use crate::il::text::characters;

verus! {

/// Whether `part` stands in `bytes` from `start` on.
pub open spec fn encodes(bytes: Seq<u8>, start: int, part: Seq<u8>) -> bool {
    &&& 0 <= start
    &&& start + part.len() <= bytes.len()
    &&& bytes.subrange(start, start + part.len()) == part
}

/// Two parts stand one after the other where their concatenation stands.
pub proof fn lemma_encodes_split(bytes: Seq<u8>, start: int, first: Seq<u8>, second: Seq<u8>)
    ensures
        encodes(bytes, start, first + second) <==> encodes(bytes, start, first) && encodes(
            bytes,
            start + first.len(),
            second,
        ),
{
    let whole = first + second;
    if encodes(bytes, start, whole) {
        assert(bytes.subrange(start, start + first.len()) =~= whole.subrange(
            0,
            first.len() as int,
        ));
        assert(whole.subrange(0, first.len() as int) =~= first);
        assert(bytes.subrange(start + first.len(), start + first.len() + second.len())
            =~= whole.subrange(first.len() as int, whole.len() as int));
        assert(whole.subrange(first.len() as int, whole.len() as int) =~= second);
    }
    if encodes(bytes, start, first) && encodes(bytes, start + first.len(), second) {
        assert(bytes.subrange(start, start + whole.len()) =~= bytes.subrange(
            start,
            start + first.len(),
        ) + bytes.subrange(start + first.len(), start + first.len() + second.len()));
    }
}

/// One byte stands at `start` where the byte at `start` is that byte.
pub proof fn lemma_encodes_byte(bytes: Seq<u8>, start: int, byte: u8)
    ensures
        encodes(bytes, start, seq![byte]) <==> 0 <= start < bytes.len() && bytes[start] == byte,
{
    if 0 <= start < bytes.len() {
        if bytes[start] == byte {
            assert(bytes.subrange(start, start + 1) =~= seq![byte]);
        }
        if encodes(bytes, start, seq![byte]) {
            assert(bytes.subrange(start, start + 1)[0] == byte);
        }
    }
}

/// What stands in `bytes` from 0 on and is as long as `bytes` is `bytes`.
pub proof fn lemma_encodes_whole(bytes: Seq<u8>, part: Seq<u8>)
    ensures
        encodes(bytes, 0, part) && part.len() == bytes.len() <==> bytes == part,
{
    assert(bytes.subrange(0, bytes.len() as int) =~= bytes);
}

/// The serialized form of a number.
pub open spec fn number_bytes(n: u64) -> Seq<u8> {
    spec_u64_to_le_bytes(n)
}

/// The serialized form of an optional number.
pub open spec fn optional_number_bytes(n: Option<u64>) -> Seq<u8> {
    match n {
        Some(n) => seq![1u8] + number_bytes(n),
        None => seq![0u8],
    }
}

/// The serialized form of a string.
pub open spec fn string_bytes(chars: Seq<char>) -> Seq<u8> {
    number_bytes(encode_utf8(chars).len() as u64) + encode_utf8(chars)
}

/// The serialized form of an optional string.
pub open spec fn optional_string_bytes(chars: Option<Seq<char>>) -> Seq<u8> {
    match chars {
        Some(chars) => seq![1u8] + string_bytes(chars),
        None => seq![0u8],
    }
}

/// A number is eight bytes long, and different numbers have different
/// forms.
pub proof fn lemma_number(n: u64)
    ensures
        number_bytes(n).len() == 8,
        spec_u64_from_le_bytes(number_bytes(n)) == n,
{
    vstd::bytes::lemma_auto_spec_u64_to_from_le_bytes();
}

/// The string that consists of the given bytes, where they are UTF-8.
///
/// This is `String::from_utf8` of `std`: it returns a string exactly where
/// the bytes are valid UTF-8, and the string then consists of these bytes.
#[verifier::external_body]
fn string_from_utf8(bytes: Vec<u8>) -> (r: Option<String>)
    ensures
        r is Some <==> valid_utf8(bytes@),
        r matches Some(string) ==> encode_utf8(string@) == bytes@,
{
    String::from_utf8(bytes).ok()
}

/// Append `bytes`.
pub fn put_bytes(out: &mut Vec<u8>, bytes: &[u8])
    ensures
        final(out)@ == old(out)@ + bytes@,
{
    let mut i: usize = 0;
    while i < bytes.len()
        invariant
            i <= bytes.len(),
            out@ == old(out)@ + bytes@.take(i as int),
        decreases bytes.len() - i,
    {
        out.push(bytes[i]);
        assert(out@ =~= old(out)@ + bytes@.take(i + 1));
        i += 1;
    }
    assert(bytes@.take(i as int) =~= bytes@);
}

/// Append a number.
pub fn put_number(out: &mut Vec<u8>, n: u64)
    ensures
        final(out)@ == old(out)@ + number_bytes(n),
{
    let bytes = u64_to_le_bytes(n);
    put_bytes(out, bytes.as_slice());
}

/// Read the number that stands at `start`.
pub fn take_number(bytes: &[u8], start: usize) -> (r: Option<(u64, usize)>)
    ensures
        r matches Some((n, end)) ==> encodes(bytes@, start as int, number_bytes(n)) && end == start
            + number_bytes(n).len(),
        forall|n: u64|
            encodes(bytes@, start as int, #[trigger] number_bytes(n)) ==> r == Some(
                (n, (start + number_bytes(n).len()) as usize),
            ),
        forall|n: u64| (#[trigger] number_bytes(n)).len() == 8,
{
    proof {
        vstd::bytes::lemma_auto_spec_u64_to_from_le_bytes();
    }
    if start > bytes.len() || bytes.len() - start < 8 {
        return None;
    }
    let n = u64_from_le_bytes(slice_subrange(bytes, start, start + 8));
    Some((n, start + 8))
}

/// Append an optional number.
pub fn put_optional_number(out: &mut Vec<u8>, n: Option<u64>)
    ensures
        final(out)@ == old(out)@ + optional_number_bytes(n),
{
    match n {
        Some(n) => {
            out.push(1);
            put_number(out, n);
            assert(out@ =~= old(out)@ + optional_number_bytes(Some(n)));
        },
        None => {
            out.push(0);
            assert(out@ =~= old(out)@ + optional_number_bytes(None));
        },
    }
}

/// Read the optional number that stands at `start`.
pub fn take_optional_number(bytes: &[u8], start: usize) -> (r: Option<(Option<u64>, usize)>)
    ensures
        r matches Some((n, end)) ==> encodes(bytes@, start as int, optional_number_bytes(n)) && end == start
            + optional_number_bytes(n).len(),
        forall|n: Option<u64>|
            encodes(bytes@, start as int, #[trigger] optional_number_bytes(n)) ==> r == Some(
                (n, (start + optional_number_bytes(n).len()) as usize),
            ),
{
    if start >= bytes.len() {
        return None;
    }
    let tag = bytes[start];
    assert(bytes@.subrange(start as int, start + 1) =~= seq![tag]);
    if tag == 0 {
        assert forall|n: Option<u64>|
            encodes(bytes@, start as int, #[trigger] optional_number_bytes(n)) implies n is None by {
            if let Some(m) = n {
                lemma_encodes_split(bytes@, start as int, seq![1u8], number_bytes(m));
                assert(bytes@.subrange(start as int, start + 1)[0] == 1u8);
            }
        }
        Some((None, start + 1))
    } else if tag == 1 {
        let taken = take_number(bytes, start + 1);
        proof {
            assert forall|n: Option<u64>|
                encodes(bytes@, start as int, #[trigger] optional_number_bytes(n)) implies taken
                matches Some((m, end)) && n == Some(m) && end == start + optional_number_bytes(n).len() by {
                match n {
                    Some(m) => {
                        lemma_encodes_split(bytes@, start as int, seq![1u8], number_bytes(m));
                        lemma_number(m);
                    },
                    None => {
                        assert(bytes@.subrange(start as int, start + 1)[0] == 0u8);
                    },
                }
            }
        }
        match taken {
            Some((n, end)) => {
                proof {
                    lemma_encodes_split(bytes@, start as int, seq![1u8], number_bytes(n));
                    lemma_number(n);
                }
                Some((Some(n), end))
            },
            None => None,
        }
    } else {
        assert forall|n: Option<u64>|
            encodes(bytes@, start as int, #[trigger] optional_number_bytes(n)) implies false by {
            match n {
                Some(m) => {
                    lemma_encodes_split(bytes@, start as int, seq![1u8], number_bytes(m));
                    assert(bytes@.subrange(start as int, start + 1)[0] == 1u8);
                },
                None => {
                    assert(bytes@.subrange(start as int, start + 1)[0] == 0u8);
                },
            }
        }
        None
    }
}

/// Append a string.
pub fn put_string(out: &mut Vec<u8>, string: &str)
    ensures
        final(out)@ == old(out)@ + string_bytes(string@),
{
    let bytes = string.as_bytes();
    put_number(out, bytes.len() as u64);
    put_bytes(out, bytes);
    assert(out@ =~= old(out)@ + string_bytes(string@));
}

/// Read the string that stands at `start`.
pub fn take_string(bytes: &[u8], start: usize) -> (r: Option<(String, usize)>)
    ensures
        r matches Some((string, end)) ==> encodes(bytes@, start as int, string_bytes(string@)) && end
            == start + string_bytes(string@).len(),
        forall|chars: Seq<char>|
            encodes(bytes@, start as int, #[trigger] string_bytes(chars)) ==> ({
                &&& r matches Some((string, end))
                &&& string@ == chars
                &&& end == start + string_bytes(chars).len()
            }),
{
    let taken = take_number(bytes, start);
    let total = bytes.len();
    proof {
        assert forall|chars: Seq<char>|
            encodes(bytes@, start as int, #[trigger] string_bytes(chars)) implies taken matches Some(
            (n, first),
        ) && n == encode_utf8(chars).len() && first == start + 8 && encodes(
            bytes@,
            start + 8,
            encode_utf8(chars),
        ) by {
            let length = encode_utf8(chars).len() as u64;
            lemma_number(length);
            assert(string_bytes(chars).len() == 8 + encode_utf8(chars).len());
            assert(bytes@.len() == total);
            lemma_encodes_split(bytes@, start as int, number_bytes(length), encode_utf8(chars));
        }
    }
    let (length, first) = match taken {
        Some(taken) => taken,
        None => {
            return None;
        },
    };
    proof {
        lemma_number(length);
    }
    if length > (bytes.len() - first) as u64 {
        return None;
    }
    let last = first + length as usize;
    let held = slice_to_vec(slice_subrange(bytes, first, last));
    let made = string_from_utf8(held);
    proof {
        assert forall|chars: Seq<char>|
            encodes(bytes@, start as int, #[trigger] string_bytes(chars)) implies made matches Some(string)
            && string@ == chars && last == start + string_bytes(chars).len() by {
            vstd::utf8::encode_utf8_valid_utf8(chars);
            vstd::utf8::encode_utf8_decode_utf8(chars);
            let string = made->0;
            vstd::utf8::encode_utf8_decode_utf8(string@);
        }
    }
    match made {
        Some(string) => {
            proof {
                lemma_encodes_split(bytes@, start as int, number_bytes(length), encode_utf8(string@));
            }
            Some((string, last))
        },
        None => None,
    }
}

/// Append an optional string.
pub fn put_optional_string(out: &mut Vec<u8>, string: &Option<String>)
    ensures
        final(out)@ == old(out)@ + optional_string_bytes(characters(*string)),
{
    match string {
        Some(string) => {
            out.push(1);
            put_string(out, string.as_str());
            assert(out@ =~= old(out)@ + optional_string_bytes(Some(string@)));
        },
        None => {
            out.push(0);
            assert(out@ =~= old(out)@ + optional_string_bytes(None));
        },
    }
}

/// Read the optional string that stands at `start`.
pub fn take_optional_string(bytes: &[u8], start: usize) -> (r: Option<(Option<String>, usize)>)
    ensures
        r matches Some((string, end)) ==> encodes(
            bytes@,
            start as int,
            optional_string_bytes(characters(string)),
        ) && end == start + optional_string_bytes(characters(string)).len(),
        forall|chars: Option<Seq<char>>|
            encodes(bytes@, start as int, #[trigger] optional_string_bytes(chars)) ==> ({
                &&& r matches Some((string, end))
                &&& chars == characters(string)
                &&& end == start + optional_string_bytes(chars).len()
            }),
{
    if start >= bytes.len() {
        return None;
    }
    let tag = bytes[start];
    assert(bytes@.subrange(start as int, start + 1) =~= seq![tag]);
    proof {
        assert forall|chars: Option<Seq<char>>|
            encodes(bytes@, start as int, #[trigger] optional_string_bytes(chars)) implies (chars
            matches Some(some) ==> tag == 1 && encodes(bytes@, start + 1, string_bytes(some))) && (chars
            is None ==> tag == 0) by {
            match chars {
                Some(some) => {
                    lemma_encodes_split(bytes@, start as int, seq![1u8], string_bytes(some));
                    assert(bytes@.subrange(start as int, start + 1)[0] == 1u8);
                },
                None => {
                    assert(bytes@.subrange(start as int, start + 1)[0] == 0u8);
                },
            }
        }
    }
    if tag == 0 {
        Some((None, start + 1))
    } else if tag == 1 {
        match take_string(bytes, start + 1) {
            Some((string, end)) => {
                proof {
                    lemma_encodes_split(bytes@, start as int, seq![1u8], string_bytes(string@));
                }
                Some((Some(string), end))
            },
            None => None,
        }
    } else {
        None
    }
}

/// The serialized form of a size or a width.
pub open spec fn size_bytes(n: usize) -> Seq<u8> {
    number_bytes(n as u64)
}

/// The serialized form of an optional SSA index.
pub open spec fn optional_index_bytes(n: Option<u32>) -> Seq<u8> {
    optional_number_bytes(
        match n {
            Some(n) => Some(n as u64),
            None => None,
        },
    )
}

/// Append a size or a width.
pub fn put_size(out: &mut Vec<u8>, n: usize)
    ensures
        final(out)@ == old(out)@ + size_bytes(n),
{
    put_number(out, n as u64);
}

/// Read the size or width that stands at `start`.
pub fn take_size(bytes: &[u8], start: usize) -> (r: Option<(usize, usize)>)
    ensures
        r matches Some((n, end)) ==> encodes(bytes@, start as int, size_bytes(n)) && end == start
            + size_bytes(n).len(),
        forall|n: usize|
            encodes(bytes@, start as int, #[trigger] size_bytes(n)) ==> r == Some(
                (n, (start + size_bytes(n).len()) as usize),
            ),
        forall|n: usize| (#[trigger] size_bytes(n)).len() == 8,
{
    match take_number(bytes, start) {
        Some((n, end)) => {
            if n <= usize::MAX as u64 {
                Some((n as usize, end))
            } else {
                None
            }
        },
        None => None,
    }
}

/// Append an optional SSA index.
pub fn put_optional_index(out: &mut Vec<u8>, n: Option<u32>)
    ensures
        final(out)@ == old(out)@ + optional_index_bytes(n),
{
    put_optional_number(
        out,
        match n {
            Some(n) => Some(n as u64),
            None => None,
        },
    );
}

/// Read the optional SSA index that stands at `start`.
pub fn take_optional_index(bytes: &[u8], start: usize) -> (r: Option<(Option<u32>, usize)>)
    ensures
        r matches Some((n, end)) ==> encodes(bytes@, start as int, optional_index_bytes(n)) && end
            == start + optional_index_bytes(n).len(),
        forall|n: Option<u32>|
            encodes(bytes@, start as int, #[trigger] optional_index_bytes(n)) ==> r == Some(
                (n, (start + optional_index_bytes(n).len()) as usize),
            ),
{
    match take_optional_number(bytes, start) {
        Some((Some(n), end)) => {
            if n <= u32::MAX as u64 {
                Some((Some(n as u32), end))
            } else {
                None
            }
        },
        Some((None, end)) => Some((None, end)),
        None => None,
    }
}

/// The serialized forms of the items of a sequence, one after the other,
/// where `form` gives the serialized form of an item.
pub open spec fn items_bytes<T>(items: Seq<T>, form: spec_fn(T) -> Seq<u8>) -> Seq<u8>
    decreases items.len(),
{
    if items.len() == 0 {
        Seq::<u8>::empty()
    } else {
        items_bytes(items.drop_last(), form) + form(items.last())
    }
}

/// The serialized form of a sequence: the number of its items, then the
/// items.
pub open spec fn sequence_bytes<T>(items: Seq<T>, form: spec_fn(T) -> Seq<u8>) -> Seq<u8> {
    number_bytes(items.len() as u64) + items_bytes(items, form)
}

/// The form of a sequence with one more item ends with the form of that
/// item.
pub proof fn lemma_items_bytes_push<T>(items: Seq<T>, item: T, form: spec_fn(T) -> Seq<u8>)
    ensures
        items_bytes(items.push(item), form) == items_bytes(items, form) + form(item),
{
    assert(items.push(item).drop_last() =~= items);
}

/// Where the items of a serialized sequence stand: each behind the items
/// before it.
pub proof fn lemma_item_stands<T>(
    bytes: Seq<u8>,
    first: int,
    items: Seq<T>,
    form: spec_fn(T) -> Seq<u8>,
    i: int,
)
    requires
        encodes(bytes, first, items_bytes(items, form)),
        0 <= i < items.len(),
    ensures
        encodes(bytes, first, items_bytes(items.take(i), form)),
        encodes(bytes, first + items_bytes(items.take(i), form).len(), form(items[i])),
        items_bytes(items.take(i + 1), form) == items_bytes(items.take(i), form) + form(items[i]),
    decreases items.len(),
{
    assert(items.take(i + 1).drop_last() =~= items.take(i));
    lemma_encodes_split(bytes, first, items_bytes(items.drop_last(), form), form(items.last()));
    if i == items.len() - 1 {
        assert(items.take(i) =~= items.drop_last());
    } else {
        lemma_item_stands(bytes, first, items.drop_last(), form, i);
        assert(items.drop_last().take(i) =~= items.take(i));
    }
}

/// A serialized sequence whose items are not empty is at least as long as
/// the sequence.
pub proof fn lemma_items_bytes_len<T>(items: Seq<T>, form: spec_fn(T) -> Seq<u8>)
    requires
        forall|item: T| (#[trigger] form(item)).len() >= 1,
    ensures
        items_bytes(items, form).len() >= items.len(),
    decreases items.len(),
{
    if items.len() > 0 {
        lemma_items_bytes_len(items.drop_last(), form);
    }
}

/// The greatest length of a sequence of bytes of which the laws on unique
/// reading speak: a length that a number can hold.
pub open spec fn fits(bytes: Seq<u8>) -> bool {
    bytes.len() <= u64::MAX
}

/// At one place stands one number at most.
pub proof fn lemma_number_is_unique(bytes: Seq<u8>, start: int, a: u64, b: u64)
    requires
        encodes(bytes, start, number_bytes(a)),
        encodes(bytes, start, number_bytes(b)),
    ensures
        a == b,
{
    lemma_number(a);
    lemma_number(b);
}

/// At one place stands one optional number at most.
pub proof fn lemma_optional_number_is_unique(
    bytes: Seq<u8>,
    start: int,
    a: Option<u64>,
    b: Option<u64>,
)
    requires
        encodes(bytes, start, optional_number_bytes(a)),
        encodes(bytes, start, optional_number_bytes(b)),
    ensures
        a == b,
{
    match a {
        Some(first) => {
            lemma_encodes_split(bytes, start, seq![1u8], number_bytes(first));
            lemma_encodes_byte(bytes, start, 1u8);
        },
        None => {
            lemma_encodes_byte(bytes, start, 0u8);
        },
    }
    match b {
        Some(second) => {
            lemma_encodes_split(bytes, start, seq![1u8], number_bytes(second));
            lemma_encodes_byte(bytes, start, 1u8);
        },
        None => {
            lemma_encodes_byte(bytes, start, 0u8);
        },
    }
    if let Some(first) = a {
        if let Some(second) = b {
            lemma_number_is_unique(bytes, start + 1, first, second);
        }
    }
}

/// At one place stands one string at most.
pub proof fn lemma_string_is_unique(bytes: Seq<u8>, start: int, a: Seq<char>, b: Seq<char>)
    requires
        fits(bytes),
        encodes(bytes, start, string_bytes(a)),
        encodes(bytes, start, string_bytes(b)),
    ensures
        a == b,
{
    let first = encode_utf8(a);
    let second = encode_utf8(b);
    lemma_number(first.len() as u64);
    lemma_number(second.len() as u64);
    lemma_encodes_split(bytes, start, number_bytes(first.len() as u64), first);
    lemma_encodes_split(bytes, start, number_bytes(second.len() as u64), second);
    lemma_number_is_unique(bytes, start, first.len() as u64, second.len() as u64);
    assert(first == second);
    vstd::utf8::encode_utf8_decode_utf8(a);
    vstd::utf8::encode_utf8_decode_utf8(b);
}

/// At one place stands one optional string at most.
pub proof fn lemma_optional_string_is_unique(
    bytes: Seq<u8>,
    start: int,
    a: Option<Seq<char>>,
    b: Option<Seq<char>>,
)
    requires
        fits(bytes),
        encodes(bytes, start, optional_string_bytes(a)),
        encodes(bytes, start, optional_string_bytes(b)),
    ensures
        a == b,
{
    match a {
        Some(first) => {
            lemma_encodes_split(bytes, start, seq![1u8], string_bytes(first));
            lemma_encodes_byte(bytes, start, 1u8);
        },
        None => {
            lemma_encodes_byte(bytes, start, 0u8);
        },
    }
    match b {
        Some(second) => {
            lemma_encodes_split(bytes, start, seq![1u8], string_bytes(second));
            lemma_encodes_byte(bytes, start, 1u8);
        },
        None => {
            lemma_encodes_byte(bytes, start, 0u8);
        },
    }
    if let Some(first) = a {
        if let Some(second) = b {
            lemma_string_is_unique(bytes, start + 1, first, second);
        }
    }
}

/// At one place stands one size at most, and one optional SSA index at most.
pub proof fn lemma_size_and_index_are_unique(
    bytes: Seq<u8>,
    start: int,
    a: usize,
    b: usize,
    c: Option<u32>,
    d: Option<u32>,
)
    ensures
        encodes(bytes, start, size_bytes(a)) && encodes(bytes, start, size_bytes(b)) ==> a == b,
        encodes(bytes, start, optional_index_bytes(c)) && encodes(
            bytes,
            start,
            optional_index_bytes(d),
        ) ==> c == d,
{
    if encodes(bytes, start, size_bytes(a)) && encodes(bytes, start, size_bytes(b)) {
        lemma_number_is_unique(bytes, start, a as u64, b as u64);
    }
    if encodes(bytes, start, optional_index_bytes(c)) && encodes(
        bytes,
        start,
        optional_index_bytes(d),
    ) {
        let first: Option<u64> = match c {
            Some(n) => Some(n as u64),
            None => None,
        };
        let second: Option<u64> = match d {
            Some(n) => Some(n as u64),
            None => None,
        };
        lemma_optional_number_is_unique(bytes, start, first, second);
    }
}

/// Whether one form at most stands at each place of `bytes`: whether two
/// items whose forms stand at one place have the same form.
pub open spec fn reads_uniquely<T>(bytes: Seq<u8>, form: spec_fn(T) -> Seq<u8>) -> bool {
    forall|start: int, x: T, y: T|
        #![trigger encodes(bytes, start, form(x)), encodes(bytes, start, form(y))]
        encodes(bytes, start, form(x)) && encodes(bytes, start, form(y)) ==> form(x) == form(y)
}

/// Sequences of equal length whose items have the same forms have the same
/// form.
pub proof fn lemma_same_items_agree<T>(a: Seq<T>, b: Seq<T>, form: spec_fn(T) -> Seq<u8>)
    requires
        a.len() == b.len(),
        forall|k: int| 0 <= k < a.len() ==> form(#[trigger] a[k]) == form(b[k]),
    ensures
        items_bytes(a, form) == items_bytes(b, form),
        sequence_bytes(a, form) == sequence_bytes(b, form),
    decreases a.len(),
{
    if a.len() > 0 {
        assert forall|k: int| 0 <= k < a.drop_last().len() implies form(
            #[trigger] a.drop_last()[k],
        ) == form(b.drop_last()[k]) by {
            assert(a.drop_last()[k] == a[k]);
            assert(b.drop_last()[k] == b[k]);
        }
        lemma_same_items_agree(a.drop_last(), b.drop_last(), form);
        assert(form(a[a.len() - 1]) == form(b[a.len() - 1]));
    }
}

/// Where the items of two sequences stand at one place, the first `k` items
/// of the one have the same forms as the first `k` items of the other.
pub proof fn lemma_items_are_unique<T>(
    bytes: Seq<u8>,
    first: int,
    a: Seq<T>,
    b: Seq<T>,
    form: spec_fn(T) -> Seq<u8>,
    k: int,
)
    requires
        reads_uniquely(bytes, form),
        encodes(bytes, first, items_bytes(a, form)),
        encodes(bytes, first, items_bytes(b, form)),
        0 <= k <= a.len(),
        k <= b.len(),
    ensures
        items_bytes(a.take(k), form) == items_bytes(b.take(k), form),
        forall|j: int|
            0 <= j < k ==> form(#[trigger] a[j]) == form(b[j]) && form(a[j]).len() <= bytes.len(),
    decreases k,
{
    if k == 0 {
        assert(a.take(0) =~= b.take(0));
    } else {
        lemma_items_are_unique(bytes, first, a, b, form, k - 1);
        lemma_item_stands(bytes, first, a, form, k - 1);
        lemma_item_stands(bytes, first, b, form, k - 1);
        let at = first + items_bytes(a.take(k - 1), form).len();
        assert(encodes(bytes, at, form(a[k - 1])) && encodes(bytes, at, form(b[k - 1])));
    }
}

/// At one place stands one sequence at most, where one item at most stands
/// at each place and no item has an empty form: two sequences whose forms
/// stand at one place are equally long, and their items have the same
/// forms.
pub proof fn lemma_sequence_is_unique<T>(
    bytes: Seq<u8>,
    start: int,
    a: Seq<T>,
    b: Seq<T>,
    form: spec_fn(T) -> Seq<u8>,
)
    requires
        fits(bytes),
        reads_uniquely(bytes, form),
        forall|item: T| (#[trigger] form(item)).len() >= 1,
        encodes(bytes, start, sequence_bytes(a, form)),
        encodes(bytes, start, sequence_bytes(b, form)),
    ensures
        a.len() == b.len(),
        forall|j: int|
            0 <= j < a.len() ==> form(#[trigger] a[j]) == form(b[j]) && form(a[j]).len()
                <= bytes.len(),
        sequence_bytes(a, form) == sequence_bytes(b, form),
{
    lemma_items_bytes_len(a, form);
    lemma_items_bytes_len(b, form);
    lemma_number(a.len() as u64);
    lemma_number(b.len() as u64);
    lemma_encodes_split(bytes, start, number_bytes(a.len() as u64), items_bytes(a, form));
    lemma_encodes_split(bytes, start, number_bytes(b.len() as u64), items_bytes(b, form));
    lemma_number_is_unique(bytes, start, a.len() as u64, b.len() as u64);
    lemma_items_are_unique(bytes, start + 8, a, b, form, a.len() as int);
    assert(a.take(a.len() as int) =~= a);
    assert(b.take(a.len() as int) =~= b);
}

} // verus!
