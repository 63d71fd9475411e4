//! Functions: graphs at an address.

use vstd::prelude::*;
use vstd::string::StringExecFns;
use crate::error::Error;
use crate::il::control_flow_graph::ControlFlowGraph;
use crate::il::serial::{
    encodes, fits, lemma_encodes_split, lemma_encodes_whole, number_bytes, optional_number_bytes,
    optional_string_bytes, put_number, put_optional_number, put_optional_string, take_number,
    take_optional_number, take_optional_string,
};
use crate::il::text::{characters, hex, push_hex};

verus! {

/// What a `Function` is: the address of its first instruction, its graph,
/// its name and its position in its program, where it has them.
pub struct FunctionView {
    pub address: u64,
    pub control_flow_graph: ControlFlowGraph,
    pub name: Option<Seq<char>>,
    pub index: Option<u64>,
}

/// A graph with an entry, at the address of the machine code it was lifted
/// from.
#[derive(Debug, PartialEq, Eq, Hash, PartialOrd, Ord)]
pub struct Function {
    address: u64,
    control_flow_graph: ControlFlowGraph,
    name: Option<String>,
    index: Option<u64>,
}

impl View for Function {
    type V = FunctionView;

    closed spec fn view(&self) -> FunctionView {
        FunctionView {
            address: self.address,
            control_flow_graph: self.control_flow_graph,
            name: characters(self.name),
            index: self.index,
        }
    }
}

impl Function {
    /// A function is well formed when its graph is well formed and has an
    /// entry.
    pub open spec fn well_formed(&self) -> bool {
        &&& self@.control_flow_graph.well_formed()
        &&& self@.control_flow_graph@.entry is Some
    }

    /// Create a function from its address and its graph, without name or
    /// index. An error where the graph has no entry.
    pub fn new(address: u64, control_flow_graph: ControlFlowGraph) -> (r: Result<Function, Error>)
        ensures
            control_flow_graph@.entry is Some ==> r is Ok && r->Ok_0@ == (FunctionView {
                address: address,
                control_flow_graph: control_flow_graph,
                name: None,
                index: None,
            }),
            control_flow_graph@.entry is None ==> r == Err::<Function, Error>(
                Error::GraphMissingTerminal,
            ),
            control_flow_graph.well_formed() && r is Ok ==> r->Ok_0.well_formed(),
    {
        if control_flow_graph.entry().is_some() {
            Ok(
                Function {
                    address: address,
                    control_flow_graph: control_flow_graph,
                    name: None,
                    index: None,
                },
            )
        } else {
            Err(Error::GraphMissingTerminal)
        }
    }

    /// The address of the first instruction of this function.
    pub fn address(&self) -> (address: u64)
        ensures
            address == self@.address,
    {
        self.address
    }

    /// The graph of this function.
    pub fn control_flow_graph(&self) -> (graph: &ControlFlowGraph)
        ensures
            *graph == self@.control_flow_graph,
    {
        &self.control_flow_graph
    }

    /// The graph of this function, in its place. What the caller writes
    /// through it becomes the graph; address, name and index stay.
    pub fn control_flow_graph_mut(&mut self) -> (graph: &mut ControlFlowGraph)
        ensures
            *graph == old(self)@.control_flow_graph,
            final(self)@ == (FunctionView { control_flow_graph: *final(graph), ..old(self)@ }),
    {
        &mut self.control_flow_graph
    }

    /// The name of this function, if it has one.
    pub fn name(&self) -> (name: &Option<String>)
        ensures
            characters(*name) == self@.name,
    {
        &self.name
    }

    /// Set or clear the name.
    pub fn set_name(&mut self, name: Option<String>)
        ensures
            final(self)@ == (FunctionView { name: characters(name), ..old(self)@ }),
    {
        self.name = name;
    }

    /// The position of this function in its program, if it is in one.
    pub fn index(&self) -> (index: Option<u64>)
        ensures
            index == self@.index,
    {
        self.index
    }

    /// Set or clear the position of this function in its program.
    pub(crate) fn set_index(&mut self, index: Option<u64>)
        ensures
            final(self)@ == (FunctionView { index: index, ..old(self)@ }),
    {
        self.index = index;
    }
}

impl FunctionView {
    /// The serialized form of a function: its address, its graph, its name,
    /// its index.
    pub open spec fn serialized(self) -> Seq<u8> {
        number_bytes(self.address) + self.control_flow_graph.serialized() + optional_string_bytes(
            self.name,
        ) + optional_number_bytes(self.index)
    }

    /// Whether this function and `other` are the same but for where they
    /// are held: they have the same address, like graphs, the same name and
    /// the same index.
    pub open spec fn alike(self, other: FunctionView) -> bool {
        &&& self.address == other.address
        &&& self.control_flow_graph.alike(other.control_flow_graph)
        &&& self.name == other.name
        &&& self.index == other.index
    }
}

/// Where the parts of a serialized function stand.
pub proof fn lemma_function_layout(bytes: Seq<u8>, start: int, function: FunctionView)
    ensures
        encodes(bytes, start, function.serialized()) <==> {
            &&& encodes(bytes, start, number_bytes(function.address))
            &&& encodes(
                bytes,
                start + number_bytes(function.address).len(),
                function.control_flow_graph.serialized(),
            )
            &&& encodes(
                bytes,
                start + number_bytes(function.address).len()
                    + function.control_flow_graph.serialized().len(),
                optional_string_bytes(function.name),
            )
            &&& encodes(
                bytes,
                start + number_bytes(function.address).len()
                    + function.control_flow_graph.serialized().len() + optional_string_bytes(
                    function.name,
                ).len(),
                optional_number_bytes(function.index),
            )
        },
        function.serialized().len() == number_bytes(function.address).len()
            + function.control_flow_graph.serialized().len() + optional_string_bytes(
            function.name,
        ).len() + optional_number_bytes(function.index).len(),
        function.serialized().len() >= 1,
{
    let address = number_bytes(function.address);
    let graph = function.control_flow_graph.serialized();
    let name = optional_string_bytes(function.name);
    let index = optional_number_bytes(function.index);
    lemma_encodes_split(bytes, start, address + graph + name, index);
    lemma_encodes_split(bytes, start, address + graph, name);
    lemma_encodes_split(bytes, start, address, graph);
    crate::il::serial::lemma_number(function.address);
}

impl Function {
    /// Append the serialized form of this function.
    pub fn encode_into(&self, out: &mut Vec<u8>)
        ensures
            final(out)@ == old(out)@ + self@.serialized(),
    {
        put_number(out, self.address);
        self.control_flow_graph.encode_into(out);
        put_optional_string(out, &self.name);
        put_optional_number(out, self.index);
        assert(out@ =~= old(out)@ + self@.serialized());
    }

    /// Read the function whose serialized form stands at `start`, and say
    /// where it ends. `None` where no function stands there.
    pub fn decode_at(bytes: &[u8], start: usize) -> (r: Option<(Function, usize)>)
        ensures
            r matches Some((function, end)) ==> encodes(
                bytes@,
                start as int,
                function@.serialized(),
            ) && end == start + function@.serialized().len(),
            forall|function: FunctionView|
                encodes(bytes@, start as int, #[trigger] function.serialized()) ==> ({
                    &&& r matches Some((read, end))
                    &&& read@.alike(function)
                    &&& end == start + function.serialized().len()
                }),
    {
        proof {
            assert forall|function: FunctionView|
                encodes(bytes@, start as int, #[trigger] function.serialized()) implies {
                &&& encodes(bytes@, start as int, number_bytes(function.address))
                &&& encodes(
                    bytes@,
                    start + number_bytes(function.address).len(),
                    function.control_flow_graph.serialized(),
                )
                &&& encodes(
                    bytes@,
                    start + number_bytes(function.address).len()
                        + function.control_flow_graph.serialized().len(),
                    optional_string_bytes(function.name),
                )
                &&& encodes(
                    bytes@,
                    start + number_bytes(function.address).len()
                        + function.control_flow_graph.serialized().len() + optional_string_bytes(
                        function.name,
                    ).len(),
                    optional_number_bytes(function.index),
                )
                &&& function.serialized().len() == number_bytes(function.address).len()
                    + function.control_flow_graph.serialized().len() + optional_string_bytes(
                    function.name,
                ).len() + optional_number_bytes(function.index).len()
            } by {
                lemma_function_layout(bytes@, start as int, function);
            }
        }
        let (address, first) = match take_number(bytes, start) {
            Some(read) => read,
            None => {
                return None;
            },
        };
        let (control_flow_graph, second) = match ControlFlowGraph::decode_at(bytes, first) {
            Some(read) => read,
            None => {
                return None;
            },
        };
        let (name, third) = match take_optional_string(bytes, second) {
            Some(read) => read,
            None => {
                return None;
            },
        };
        let (index, end) = match take_optional_number(bytes, third) {
            Some(read) => read,
            None => {
                return None;
            },
        };
        let function = Function {
            address: address,
            control_flow_graph: control_flow_graph,
            name: name,
            index: index,
        };
        proof {
            lemma_function_layout(bytes@, start as int, function@);
        }
        Some((function, end))
    }

    /// The serialized form of this function.
    pub fn serialize(&self) -> (bytes: Vec<u8>)
        ensures
            bytes@ == self@.serialized(),
    {
        let mut bytes: Vec<u8> = Vec::new();
        self.encode_into(&mut bytes);
        assert(bytes@ =~= self@.serialized());
        bytes
    }

    /// The function of which `bytes` is the serialized form; `None` where
    /// it is the serialized form of none. What `serialize` returned for a
    /// function gives that function back.
    pub fn deserialize(bytes: &[u8]) -> (r: Option<Function>)
        ensures
            r matches Some(read) ==> bytes@ == read@.serialized(),
            forall|other: FunctionView|
                bytes@ == #[trigger] other.serialized() ==> ({
                    &&& r matches Some(read)
                    &&& read@.alike(other)
                }),
    {
        proof {
            assert forall|other: FunctionView|
                bytes@ == #[trigger] other.serialized() implies encodes(
                bytes@,
                0,
                other.serialized(),
            ) by {
                lemma_encodes_whole(bytes@, other.serialized());
            }
        }
        match Function::decode_at(bytes, 0) {
            Some((read, end)) => {
                if end == bytes.len() {
                    proof {
                        lemma_encodes_whole(bytes@, read@.serialized());
                    }
                    Some(read)
                } else {
                    None
                }
            },
            None => None,
        }
    }
}

impl Function {
    /// Whether this function is well formed.
    pub fn is_well_formed(&self) -> (r: bool)
        ensures
            r == self.well_formed(),
    {
        self.control_flow_graph.is_well_formed() && self.control_flow_graph.entry().is_some()
    }
}

impl FunctionView {
    /// Whether this function is the same as `other`: it has the same
    /// address, name and index, and its graph is the same.
    pub open spec fn same(self, other: FunctionView) -> bool {
        &&& self.address == other.address
        &&& self.control_flow_graph.same(other.control_flow_graph)
        &&& self.name == other.name
        &&& self.index == other.index
    }
}

impl Clone for Function {
    fn clone(&self) -> (function: Self)
        ensures
            function@.same(self@),
            self.well_formed() ==> function.well_formed(),
    {
        Function {
            address: self.address,
            control_flow_graph: self.control_flow_graph.clone(),
            name: match &self.name {
                Some(name) => Some(name.clone()),
                None => None,
            },
            index: self.index,
        }
    }
}

impl Function {
    /// Whether scalars of one name have one width throughout this function.
    pub fn widths_agree(&self) -> (r: bool)
        ensures
            r == crate::il::scalar::widths_agree(self@.control_flow_graph@.scalars()),
    {
        self.control_flow_graph.widths_agree()
    }
}

impl FunctionView {
    /// The text of a function: its name and `@`, where it has a name; `0x`
    /// and its address in hexadecimal on the same line; then its graph.
    pub open spec fn rendered(self) -> Seq<char> {
        (match self.name {
            Some(name) => name + "@"@,
            None => Seq::<char>::empty(),
        }) + "0x"@ + hex(self.address as nat) + "\n"@ + self.control_flow_graph@.rendered()
    }
}

impl Function {
    /// Append the text of this function.
    pub fn render_into(&self, text: &mut String)
        ensures
            final(text)@ == old(text)@ + self@.rendered(),
    {
        match &self.name {
            Some(name) => {
                text.append(name.as_str());
                text.append("@");
            },
            None => {},
        }
        text.append("0x");
        push_hex(text, self.address);
        text.append("\n");
        self.control_flow_graph.render_into(text);
        assert(text@ =~= old(text)@ + self@.rendered());
    }

    /// The text of this function.
    pub fn render(&self) -> (text: String)
        ensures
            text@ == self@.rendered(),
    {
        let mut text = String::new();
        self.render_into(&mut text);
        assert(text@ =~= self@.rendered());
        text
    }
}

/// Being alike is an equivalence of functions, and like functions have the
/// same serialized form.
pub proof fn lemma_alike_functions(a: FunctionView, b: FunctionView, c: FunctionView)
    ensures
        a.alike(a),
        a.alike(b) ==> b.alike(a),
        a.alike(b) && b.alike(c) ==> a.alike(c),
        a.alike(b) ==> a.serialized() == b.serialized(),
{
    ControlFlowGraph::lemma_alike(a.control_flow_graph, b.control_flow_graph, c.control_flow_graph);
}

/// At one place stands one function at most: two functions whose
/// serialized forms stand at one place are alike.
pub proof fn lemma_function_is_unique(bytes: Seq<u8>, start: int, a: FunctionView, b: FunctionView)
    requires
        fits(bytes),
        encodes(bytes, start, a.serialized()),
        encodes(bytes, start, b.serialized()),
    ensures
        a.alike(b),
        a.serialized() == b.serialized(),
{
    lemma_function_layout(bytes, start, a);
    lemma_function_layout(bytes, start, b);
    crate::il::serial::lemma_number_is_unique(bytes, start, a.address, b.address);
    let graph = start + number_bytes(a.address).len();
    ControlFlowGraph::lemma_is_unique(bytes, graph, a.control_flow_graph, b.control_flow_graph);
    let name = graph + a.control_flow_graph.serialized().len();
    crate::il::serial::lemma_optional_string_is_unique(bytes, name, a.name, b.name);
    let index = name + optional_string_bytes(a.name).len();
    crate::il::serial::lemma_optional_number_is_unique(bytes, index, a.index, b.index);
    lemma_alike_functions(a, b, b);
}

/// Functions have the same serialized form exactly where they are alike.
/// The law speaks of forms whose length a number can hold.
pub proof fn lemma_functions_serialize_apart(a: FunctionView, b: FunctionView)
    requires
        fits(a.serialized()),
    ensures
        a.serialized() == b.serialized() <==> a.alike(b),
{
    if a.serialized() == b.serialized() {
        lemma_encodes_whole(a.serialized(), a.serialized());
        lemma_function_is_unique(a.serialized(), 0, a, b);
    }
    lemma_alike_functions(a, b, b);
}

} // verus!
