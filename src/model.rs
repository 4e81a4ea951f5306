use vstd::prelude::*;

verus! {

broadcast use vstd::seq::group_seq_axioms, vstd::std_specs::vec::group_vec_axioms;

/// One node of a parsed file: a named block of nested nodes, or a key/value pair.
#[derive(PartialEq, Debug)]
pub enum Valve {
    Class { class_name: String, data: Vec<Valve> },
    PropertyValue(String, String),
}

/// A whole file: its top-level nodes, in order.
pub type VmfVmt = Vec<Valve>;

/// Mathematical model of a node.
pub enum Node {
    Block { name: Seq<char>, children: Seq<Node> },
    Entry { key: Seq<char>, value: Seq<char> },
}

/// The model of a node: its strings as char sequences, its children in order.
pub open spec fn valve_model(v: Valve) -> Node
    decreases v,
{
    match v {
        Valve::Class { class_name, data } => Node::Block {
            name: class_name@,
            children: valve_models(data@),
        },
        Valve::PropertyValue(k, val) => Node::Entry { key: k@, value: val@ },
    }
}

/// The models of a sequence of nodes, in order.
pub open spec fn valve_models(vs: Seq<Valve>) -> Seq<Node>
    decreases vs,
{
    if vs.len() == 0 {
        Seq::empty()
    } else {
        valve_models(vs.drop_last()).push(valve_model(vs.last()))
    }
}

impl View for Valve {
    type V = Node;

    open spec fn view(&self) -> Node {
        valve_model(*self)
    }
}

} // verus!
