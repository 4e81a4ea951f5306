use crate::model::{valve_model, valve_models, Node, Valve, VmfVmt};
use vstd::prelude::*;
use vstd::string::*;

verus! {

broadcast use vstd::seq::group_seq_axioms, vstd::std_specs::vec::group_vec_axioms;

/// `n` tab characters.
pub open spec fn tabs(n: nat) -> Seq<char> {
    Seq::new(n, |i: int| '\t')
}

/// Canonical text of one node at nesting depth `indent`.
pub open spec fn render(indent: nat, n: Node) -> Seq<char>
    decreases n,
{
    match n {
        Node::Block { name, children } => tabs(indent) + name + seq!['\n'] + tabs(indent) + seq![
            '{',
            '\n',
        ] + render_all(indent + 1, children) + tabs(indent) + seq!['}', '\n'],
        Node::Entry { key, value } => tabs(indent) + seq!['"'] + key + seq!['"', ' ', '"'] + value
            + seq!['"', '\n'],
    }
}

/// Canonical text of a sequence of nodes, one after the other.
pub open spec fn render_all(indent: nat, ns: Seq<Node>) -> Seq<char>
    decreases ns,
{
    if ns.len() == 0 {
        Seq::empty()
    } else {
        render_all(indent, ns.drop_last()) + render(indent, ns.last())
    }
}

/// Nesting depth of a node: 0 for an entry or an empty block.
pub open spec fn depth(n: Node) -> nat
    decreases n,
{
    match n {
        Node::Block { children, .. } => {
            if children.len() == 0 {
                0
            } else {
                1 + max_depth(children)
            }
        },
        Node::Entry { .. } => 0,
    }
}

/// Largest depth among a sequence of nodes.
pub open spec fn max_depth(ns: Seq<Node>) -> nat
    decreases ns,
{
    if ns.len() == 0 {
        0
    } else {
        let a = max_depth(ns.drop_last());
        let b = depth(ns.last());
        if a >= b {
            a
        } else {
            b
        }
    }
}

proof fn lemma_max_depth(ns: Seq<Node>, i: int)
    requires
        0 <= i < ns.len(),
    ensures
        depth(ns[i]) <= max_depth(ns),
    decreases ns.len(),
{
    if i < ns.len() - 1 {
        lemma_max_depth(ns.drop_last(), i);
    }
}

proof fn lemma_models_index(vs: Seq<Valve>, i: int)
    requires
        0 <= i < vs.len(),
    ensures
        valve_models(vs).len() == vs.len(),
        valve_models(vs)[i] == valve_model(vs[i]),
    decreases vs.len(),
{
    if i < vs.len() - 1 {
        lemma_models_index(vs.drop_last(), i);
    } else {
        lemma_models_len(vs.drop_last());
    }
}

proof fn lemma_models_len(vs: Seq<Valve>)
    ensures
        valve_models(vs).len() == vs.len(),
    decreases vs.len(),
{
    if vs.len() > 0 {
        lemma_models_len(vs.drop_last());
    }
}

proof fn lemma_render_all_push(indent: nat, ns: Seq<Node>, n: Node)
    ensures
        render_all(indent, ns.push(n)) == render_all(indent, ns) + render(indent, n),
{
    assert(ns.push(n).drop_last() =~= ns);
}

/// Appends `n` tab characters.
fn append_tabs(out: &mut String, n: usize)
    ensures
        final(out)@ == old(out)@ + tabs(n as nat),
{
    let mut i: usize = 0;
    while i < n
        invariant
            i <= n,
            out@ == old(out)@ + tabs(i as nat),
        decreases n - i,
    {
        proof {
            reveal_strlit("\t");
        }
        out.append("\t");
        assert(tabs((i + 1) as nat) =~= tabs(i as nat) + seq!['\t']);
        i = i + 1;
    }
}

fn write_valve(out: &mut String, indent: usize, v: &Valve)
    requires
        indent + depth(v@) <= usize::MAX,
    ensures
        final(out)@ == old(out)@ + render(indent as nat, v@),
    decreases v,
{
    match v {
        Valve::Class { class_name, data } => {
            append_tabs(out, indent);
            out.append(class_name.as_str());
            proof {
                reveal_strlit("\n");
                reveal_strlit("{\n");
                reveal_strlit("}\n");
            }
            out.append("\n");
            append_tabs(out, indent);
            out.append("{\n");
            let ghost start = out@;
            let ghost kids = valve_models(data@);
            proof {
                lemma_models_len(data@);
            }
            let mut i: usize = 0;
            while i < data.len()
                invariant
                    i <= data.len(),
                    kids == valve_models(data@),
                    kids.len() == data@.len(),
                    *v == (Valve::Class { class_name: *class_name, data: *data }),
                    v@ == (Node::Block { name: class_name@, children: kids }),
                    indent + depth(v@) <= usize::MAX,
                    out@ == start + render_all((indent + 1) as nat, kids.take(i as int)),
                decreases data.len() - i,
            {
                proof {
                    lemma_models_index(data@, i as int);
                    lemma_max_depth(kids, i as int);
                    assert(kids.take(i + 1) =~= kids.take(i as int).push(kids[i as int]));
                    lemma_render_all_push((indent + 1) as nat, kids.take(i as int), kids[i as int]);
                    assert(decreases_to!(*v => data@[i as int]));
                }
                write_valve(out, indent + 1, &data[i]);
                i = i + 1;
            }
            assert(kids.take(data.len() as int) =~= kids);
            append_tabs(out, indent);
            out.append("}\n");
        },
        Valve::PropertyValue(key, value) => {
            proof {
                reveal_strlit("\"");
                reveal_strlit("\" \"");
                reveal_strlit("\"\n");
            }
            append_tabs(out, indent);
            out.append("\"");
            out.append(key.as_str());
            out.append("\" \"");
            out.append(value.as_str());
            out.append("\"\n");
        },
    }
}

/// Renders one node at nesting depth `indent`: one tab per level, a block as
/// its name, `{`, its children one level deeper and `}`, each on a line of its
/// own, an entry as `"key" "value"` on one line.
pub fn build_valve(indent: usize, data: Valve) -> (r: String)
    requires
        indent + depth(data@) <= usize::MAX,
    ensures
        r@ == render(indent as nat, data@),
{
    let mut out = String::new();
    write_valve(&mut out, indent, &data);
    out
}

/// Renders a whole file: its top-level nodes at depth 0, one after the other.
pub fn build_vmf_vmt(data: VmfVmt) -> (r: String)
    requires
        forall|i: int| 0 <= i < data.len() ==> depth(#[trigger] data@[i]@) <= usize::MAX,
    ensures
        r@ == render_all(0, valve_models(data@)),
{
    let mut out = String::new();
    let ghost nodes = valve_models(data@);
    proof {
        lemma_models_len(data@);
    }
    let mut i: usize = 0;
    while i < data.len()
        invariant
            i <= data.len(),
            nodes == valve_models(data@),
            nodes.len() == data@.len(),
            forall|j: int| 0 <= j < data.len() ==> depth(#[trigger] data@[j]@) <= usize::MAX,
            out@ == render_all(0, nodes.take(i as int)),
        decreases data.len() - i,
    {
        proof {
            lemma_models_index(data@, i as int);
            assert(nodes.take(i + 1) =~= nodes.take(i as int).push(nodes[i as int]));
            lemma_render_all_push(0, nodes.take(i as int), nodes[i as int]);
        }
        write_valve(&mut out, 0, &data[i]);
        i = i + 1;
    }
    assert(nodes.take(data.len() as int) =~= nodes);
    out
}

} // verus!
