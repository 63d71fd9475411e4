//! Edges between the blocks of a graph.

use vstd::prelude::*;
use vstd::string::StringExecFns;
use crate::error::Error;
use crate::il::expression::Expression;
use crate::il::serial::{
    encodes, fits, lemma_encodes_split, lemma_encodes_whole, number_bytes, put_number, take_number,
};
use crate::il::text::{hex, push_hex};

verus! {

/// What an `Edge` is: the index of the block that it leaves, the index of
/// the block that it enters, and the condition under which it is taken.
pub struct EdgeView {
    pub head: u64,
    pub tail: u64,
    pub condition: Option<Expression>,
}

impl EdgeView {
    /// An edge is well formed when its condition, if it has one, is well
    /// formed and one bit wide.
    pub open spec fn well_formed(self) -> bool {
        self.condition matches Some(condition) ==> condition.well_formed()
            && condition.spec_bits() == 1
    }

    /// Whether this edge comes no later than `other` in the order of a
    /// graph's edges: by head, then by tail.
    pub open spec fn precedes(self, other: EdgeView) -> bool {
        self.head < other.head || (self.head == other.head && self.tail <= other.tail)
    }
}

/// A directed edge from the block `head` to the block `tail` of one graph.
/// Without condition it is taken always; with one, where the condition is 1.
#[derive(Debug, PartialEq, Eq, Hash, PartialOrd, Ord)]
pub struct Edge {
    head: u64,
    tail: u64,
    condition: Option<Expression>,
}

impl View for Edge {
    type V = EdgeView;

    closed spec fn view(&self) -> EdgeView {
        EdgeView { head: self.head, tail: self.tail, condition: self.condition }
    }
}

/// Whether `condition` can guard an edge: it is absent or one bit wide.
pub open spec fn guards(condition: Option<Expression>) -> bool {
    condition matches Some(condition) ==> condition.spec_bits() == 1
}

/// What each edge of a sequence is.
pub open spec fn edge_views(edges: Seq<Edge>) -> Seq<EdgeView> {
    edges.map_values(|edge: Edge| edge@)
}

impl Edge {
    /// Create an edge. A sort error where the condition is not one bit
    /// wide.
    pub fn new(head: u64, tail: u64, condition: Option<Expression>) -> (r: Result<Edge, Error>)
        ensures
            guards(condition) ==> r is Ok && r->Ok_0@ == (EdgeView { head, tail, condition }),
            !guards(condition) ==> r == Err::<Edge, Error>(Error::Sort),
    {
        let admissible = match &condition {
            Some(condition) => condition.bits() == 1,
            None => true,
        };
        if admissible {
            Ok(Edge { head: head, tail: tail, condition: condition })
        } else {
            Err(Error::Sort)
        }
    }

    /// The index of the block that this edge leaves.
    pub fn head(&self) -> (head: u64)
        ensures
            head == self@.head,
    {
        self.head
    }

    /// The index of the block that this edge enters.
    pub fn tail(&self) -> (tail: u64)
        ensures
            tail == self@.tail,
    {
        self.tail
    }

    /// The condition under which this edge is taken, if it has one.
    pub fn condition(&self) -> (condition: &Option<Expression>)
        ensures
            *condition == self@.condition,
    {
        &self.condition
    }

    /// A copy of this edge between two other blocks.
    pub(crate) fn rewritten(&self, head: u64, tail: u64) -> (edge: Edge)
        ensures
            edge@ == (EdgeView { head, tail, condition: self@.condition }),
    {
        Edge {
            head: head,
            tail: tail,
            condition: match &self.condition {
                Some(condition) => Some(condition.clone()),
                None => None,
            },
        }
    }

    /// Whether `self` comes no later than an edge from `head` to `tail`.
    pub(crate) fn precedes(&self, head: u64, tail: u64) -> (r: bool)
        ensures
            r == self@.precedes(EdgeView { head, tail, condition: None }),
    {
        self.head < head || (self.head == head && self.tail <= tail)
    }
}

impl Clone for Edge {
    fn clone(&self) -> (edge: Self)
        ensures
            edge == *self,
    {
        Edge {
            head: self.head,
            tail: self.tail,
            condition: match &self.condition {
                Some(condition) => Some(condition.clone()),
                None => None,
            },
        }
    }
}

/// The serialized form of an optional expression.
pub open spec fn optional_expression_bytes(e: Option<Expression>) -> Seq<u8> {
    match e {
        Some(e) => seq![1u8] + e.serialized(),
        None => seq![0u8],
    }
}

/// Whether two optional expressions are both absent, or both present and
/// alike.
pub open spec fn alike_optional(read: Option<Expression>, other: Option<Expression>) -> bool {
    match read {
        Some(read) => other matches Some(other) && read.alike(other),
        None => other is None,
    }
}

impl EdgeView {
    /// The serialized form of an edge: its head, its tail, its condition.
    pub open spec fn serialized(self) -> Seq<u8> {
        number_bytes(self.head) + number_bytes(self.tail) + optional_expression_bytes(
            self.condition,
        )
    }

    /// Whether this edge and `other` are the same but for where they are
    /// held: they join the same blocks under like conditions.
    pub open spec fn alike(self, other: EdgeView) -> bool {
        &&& self.head == other.head
        &&& self.tail == other.tail
        &&& alike_optional(self.condition, other.condition)
    }
}

/// Where the parts of a serialized edge stand.
pub proof fn lemma_edge_layout(bytes: Seq<u8>, start: int, edge: EdgeView)
    ensures
        encodes(bytes, start, edge.serialized()) <==> {
            &&& encodes(bytes, start, number_bytes(edge.head))
            &&& encodes(bytes, start + number_bytes(edge.head).len(), number_bytes(edge.tail))
            &&& encodes(
                bytes,
                start + number_bytes(edge.head).len() + number_bytes(edge.tail).len(),
                optional_expression_bytes(edge.condition),
            )
        },
        edge.serialized().len() == number_bytes(edge.head).len() + number_bytes(edge.tail).len()
            + optional_expression_bytes(edge.condition).len(),
        edge.serialized().len() >= 1,
{
    let head = number_bytes(edge.head);
    let tail = number_bytes(edge.tail);
    let condition = optional_expression_bytes(edge.condition);
    lemma_encodes_split(bytes, start, head + tail, condition);
    lemma_encodes_split(bytes, start, head, tail);
    crate::il::serial::lemma_number(edge.head);
}

/// Append the serialized form of an optional expression.
fn put_optional_expression(out: &mut Vec<u8>, e: &Option<Expression>)
    ensures
        final(out)@ == old(out)@ + optional_expression_bytes(*e),
{
    match e {
        Some(e) => {
            out.push(1);
            e.encode_into(out);
            assert(out@ =~= old(out)@ + optional_expression_bytes(Some(*e)));
        },
        None => {
            out.push(0);
            assert(out@ =~= old(out)@ + optional_expression_bytes(None));
        },
    }
}

/// Read the optional expression that stands at `start`.
fn take_optional_expression(bytes: &[u8], start: usize) -> (r: Option<(Option<Expression>, usize)>)
    ensures
        r matches Some((e, end)) ==> encodes(bytes@, start as int, optional_expression_bytes(e))
            && end == start + optional_expression_bytes(e).len(),
        forall|e: Option<Expression>|
            encodes(bytes@, start as int, #[trigger] optional_expression_bytes(e)) ==> ({
                &&& r matches Some((read, end))
                &&& alike_optional(read, e)
                &&& end == start + optional_expression_bytes(e).len()
            }),
{
    if start >= bytes.len() {
        return None;
    }
    let tag = bytes[start];
    proof {
        assert forall|e: Option<Expression>|
            encodes(bytes@, start as int, #[trigger] optional_expression_bytes(e)) implies (e
            matches Some(some) ==> tag == 1 && encodes(bytes@, start + 1, some.serialized())) && (e
            is None ==> tag == 0) by {
            match e {
                Some(some) => {
                    lemma_encodes_split(bytes@, start as int, seq![1u8], some.serialized());
                    crate::il::serial::lemma_encodes_byte(bytes@, start as int, 1u8);
                },
                None => {
                    crate::il::serial::lemma_encodes_byte(bytes@, start as int, 0u8);
                },
            }
        }
        crate::il::serial::lemma_encodes_byte(bytes@, start as int, tag);
    }
    if tag == 0 {
        Some((None, start + 1))
    } else if tag == 1 {
        match Expression::decode_at(bytes, start + 1) {
            Some((e, end)) => {
                proof {
                    lemma_encodes_split(bytes@, start as int, seq![1u8], e.serialized());
                }
                Some((Some(e), end))
            },
            None => None,
        }
    } else {
        None
    }
}

impl Edge {
    /// Append the serialized form of this edge.
    pub fn encode_into(&self, out: &mut Vec<u8>)
        ensures
            final(out)@ == old(out)@ + self@.serialized(),
    {
        put_number(out, self.head);
        put_number(out, self.tail);
        put_optional_expression(out, &self.condition);
        assert(out@ =~= old(out)@ + self@.serialized());
    }

    /// Read the edge whose serialized form stands at `start`, and say where
    /// it ends. `None` where no edge stands there.
    pub fn decode_at(bytes: &[u8], start: usize) -> (r: Option<(Edge, usize)>)
        ensures
            r matches Some((edge, end)) ==> encodes(bytes@, start as int, edge@.serialized())
                && end == start + edge@.serialized().len(),
            forall|edge: EdgeView|
                encodes(bytes@, start as int, #[trigger] edge.serialized()) ==> ({
                    &&& r matches Some((read, end))
                    &&& read@.alike(edge)
                    &&& end == start + edge.serialized().len()
                }),
    {
        proof {
            assert forall|edge: EdgeView|
                encodes(bytes@, start as int, #[trigger] edge.serialized()) implies {
                &&& encodes(bytes@, start as int, number_bytes(edge.head))
                &&& encodes(
                    bytes@,
                    start + number_bytes(edge.head).len(),
                    number_bytes(edge.tail),
                )
                &&& encodes(
                    bytes@,
                    start + number_bytes(edge.head).len() + number_bytes(edge.tail).len(),
                    optional_expression_bytes(edge.condition),
                )
                &&& edge.serialized().len() == number_bytes(edge.head).len() + number_bytes(
                    edge.tail,
                ).len() + optional_expression_bytes(edge.condition).len()
            } by {
                lemma_edge_layout(bytes@, start as int, edge);
            }
        }
        let (head, first) = match take_number(bytes, start) {
            Some(read) => read,
            None => {
                return None;
            },
        };
        let (tail, second) = match take_number(bytes, first) {
            Some(read) => read,
            None => {
                return None;
            },
        };
        let (condition, end) = match take_optional_expression(bytes, second) {
            Some(read) => read,
            None => {
                return None;
            },
        };
        let edge = Edge { head: head, tail: tail, condition: condition };
        proof {
            lemma_edge_layout(bytes@, start as int, edge@);
        }
        Some((edge, end))
    }

    /// The serialized form of this edge.
    pub fn serialize(&self) -> (bytes: Vec<u8>)
        ensures
            bytes@ == self@.serialized(),
    {
        let mut bytes: Vec<u8> = Vec::new();
        self.encode_into(&mut bytes);
        assert(bytes@ =~= self@.serialized());
        bytes
    }

    /// The edge of which `bytes` is the serialized form; `None` where it is
    /// the serialized form of none. What `serialize` returned for an edge
    /// gives that edge back.
    pub fn deserialize(bytes: &[u8]) -> (r: Option<Edge>)
        ensures
            r matches Some(read) ==> bytes@ == read@.serialized(),
            forall|other: EdgeView|
                bytes@ == #[trigger] other.serialized() ==> ({
                    &&& r matches Some(read)
                    &&& read@.alike(other)
                }),
    {
        proof {
            assert forall|other: EdgeView| bytes@ == #[trigger] other.serialized() implies encodes(
                bytes@,
                0,
                other.serialized(),
            ) by {
                lemma_encodes_whole(bytes@, other.serialized());
            }
        }
        match Edge::decode_at(bytes, 0) {
            Some((read, end)) => {
                if end == bytes.len() {
                    proof {
                        lemma_encodes_whole(bytes@, read@.serialized());
                    }
                    Some(read)
                } else {
                    None
                }
            },
            None => None,
        }
    }
}

impl Edge {
    /// Whether this edge is well formed.
    pub fn is_well_formed(&self) -> (r: bool)
        ensures
            r == self@.well_formed(),
    {
        match &self.condition {
            Some(condition) => condition.is_well_formed() && condition.bits() == 1,
            None => true,
        }
    }
}

impl EdgeView {
    /// The text of an edge: `(0x`, its head in hexadecimal, `->0x`, its
    /// tail in hexadecimal, `)`; and behind that, where it has a condition,
    /// ` ? (`, the condition, `)`.
    pub open spec fn rendered(self) -> Seq<char> {
        "(0x"@ + hex(self.head as nat) + "->0x"@ + hex(self.tail as nat) + ")"@ + (
        match self.condition {
            Some(condition) => " ? ("@ + condition.rendered() + ")"@,
            None => Seq::<char>::empty(),
        })
    }
}

impl Edge {
    /// Append the text of this edge.
    pub fn render_into(&self, text: &mut String)
        ensures
            final(text)@ == old(text)@ + self@.rendered(),
    {
        text.append("(0x");
        push_hex(text, self.head);
        text.append("->0x");
        push_hex(text, self.tail);
        text.append(")");
        match &self.condition {
            Some(condition) => {
                text.append(" ? (");
                condition.render_into(text);
                text.append(")");
            },
            None => {},
        }
        assert(text@ =~= old(text)@ + self@.rendered());
    }

    /// The text of this edge.
    pub fn render(&self) -> (text: String)
        ensures
            text@ == self@.rendered(),
    {
        let mut text = String::new();
        self.render_into(&mut text);
        assert(text@ =~= self@.rendered());
        text
    }
}

/// Being alike is an equivalence of optional expressions, and like optional
/// expressions have the same serialized form and the same width.
pub proof fn lemma_alike_optional(
    a: Option<Expression>,
    b: Option<Expression>,
    c: Option<Expression>,
)
    ensures
        alike_optional(a, a),
        alike_optional(a, b) ==> alike_optional(b, a),
        alike_optional(a, b) && alike_optional(b, c) ==> alike_optional(a, c),
        alike_optional(a, b) ==> optional_expression_bytes(a) == optional_expression_bytes(b)
            && guards(a) == guards(b),
{
    if let Some(first) = a {
        crate::il::expression::lemma_alike_is_reflexive(first);
        if let Some(second) = b {
            if first.alike(second) {
                crate::il::expression::lemma_alike_is_symmetric(first, second);
                crate::il::expression::lemma_alike_expressions_agree(first, second);
                if let Some(third) = c {
                    if second.alike(third) {
                        crate::il::expression::lemma_alike_is_transitive(first, second, third);
                    }
                }
            }
        }
    }
}

/// Being alike is an equivalence of edges, and like edges have the same
/// serialized form.
pub proof fn lemma_alike_edges(a: EdgeView, b: EdgeView, c: EdgeView)
    ensures
        a.alike(a),
        a.alike(b) ==> b.alike(a),
        a.alike(b) && b.alike(c) ==> a.alike(c),
        a.alike(b) ==> a.serialized() == b.serialized(),
{
    lemma_alike_optional(a.condition, b.condition, c.condition);
}

/// At one place stands one optional expression at most.
pub proof fn lemma_optional_expression_is_unique(
    bytes: Seq<u8>,
    start: int,
    a: Option<Expression>,
    b: Option<Expression>,
)
    requires
        fits(bytes),
        encodes(bytes, start, optional_expression_bytes(a)),
        encodes(bytes, start, optional_expression_bytes(b)),
    ensures
        alike_optional(a, b),
{
    match a {
        Some(first) => {
            lemma_encodes_split(bytes, start, seq![1u8], first.serialized());
            crate::il::serial::lemma_encodes_byte(bytes, start, 1u8);
        },
        None => {
            crate::il::serial::lemma_encodes_byte(bytes, start, 0u8);
        },
    }
    match b {
        Some(second) => {
            lemma_encodes_split(bytes, start, seq![1u8], second.serialized());
            crate::il::serial::lemma_encodes_byte(bytes, start, 1u8);
        },
        None => {
            crate::il::serial::lemma_encodes_byte(bytes, start, 0u8);
        },
    }
    if let Some(first) = a {
        if let Some(second) = b {
            crate::il::expression::lemma_expression_is_unique(bytes, start + 1, first, second);
        }
    }
}

/// At one place stands one edge at most: two edges whose serialized forms
/// stand at one place are alike.
pub proof fn lemma_edge_is_unique(bytes: Seq<u8>, start: int, a: EdgeView, b: EdgeView)
    requires
        fits(bytes),
        encodes(bytes, start, a.serialized()),
        encodes(bytes, start, b.serialized()),
    ensures
        a.alike(b),
        a.serialized() == b.serialized(),
{
    lemma_edge_layout(bytes, start, a);
    lemma_edge_layout(bytes, start, b);
    crate::il::serial::lemma_number_is_unique(bytes, start, a.head, b.head);
    let tail = start + number_bytes(a.head).len();
    crate::il::serial::lemma_number_is_unique(bytes, tail, a.tail, b.tail);
    let condition = tail + number_bytes(a.tail).len();
    lemma_optional_expression_is_unique(bytes, condition, a.condition, b.condition);
    lemma_alike_edges(a, b, b);
}

/// Edges have the same serialized form exactly where they are alike. The
/// law speaks of forms whose length a number can hold.
pub proof fn lemma_edges_serialize_apart(a: EdgeView, b: EdgeView)
    requires
        fits(a.serialized()),
    ensures
        a.serialized() == b.serialized() <==> a.alike(b),
{
    if a.serialized() == b.serialized() {
        lemma_encodes_whole(a.serialized(), a.serialized());
        lemma_edge_is_unique(a.serialized(), 0, a, b);
    }
    lemma_alike_edges(a, b, b);
}

} // verus!
