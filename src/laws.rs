use crate::grammar::{
    lemma_quote_end, lemma_skip_ws, lemma_string_at, lemma_unquoted_end,
    block_at, blocks_at, body_at, document, entry_at, is_special, is_ws, node_at, quote_end,
    skip_ws, string_at, unquoted_end,
};
use crate::model::Node;
use crate::serialize::{render, render_all, tabs};
use vstd::prelude::*;

verus! {

broadcast use vstd::seq::group_seq_axioms;

/// A string that can be written unquoted: not empty, and without whitespace,
/// quotes or braces.
pub open spec fn plain(w: Seq<char>) -> bool {
    w.len() > 0 && forall|k: int| 0 <= k < w.len() ==> !is_special(#[trigger] w[k])
}

/// A string without quotes.
pub open spec fn quote_free(w: Seq<char>) -> bool {
    forall|k: int| 0 <= k < w.len() ==> #[trigger] w[k] != '"'
}

/// A node whose rendering reads back as itself: block names are plain, keys
/// and values hold no quotes.
pub open spec fn printable(n: Node) -> bool
    decreases n,
{
    match n {
        Node::Block { name, children } => plain(name) && forall|x: int|
            0 <= x < children.len() ==> printable(#[trigger] children[x]),
        Node::Entry { key, value } => quote_free(key) && quote_free(value),
    }
}

/// A document whose rendering reads back as itself: one or more printable
/// blocks.
pub open spec fn printable_document(ns: Seq<Node>) -> bool {
    ns.len() > 0 && forall|x: int|
        0 <= x < ns.len() ==> (#[trigger] ns[x] is Block && printable(ns[x]))
}

/// Every block name in the node, at any depth, can be written unquoted.
pub open spec fn plain_names(n: Node) -> bool
    decreases n,
{
    match n {
        Node::Block { name, children } => plain(name) && forall|x: int|
            0 <= x < children.len() ==> plain_names(#[trigger] children[x]),
        Node::Entry { .. } => true,
    }
}

/// `w` stands in `s` at position `i`.
pub open spec fn at(s: Seq<char>, i: int, w: Seq<char>) -> bool {
    0 <= i && i + w.len() <= s.len() && s.subrange(i, i + w.len()) == w
}

proof fn lemma_at_split(s: Seq<char>, i: int, u: Seq<char>, v: Seq<char>)
    requires
        at(s, i, u + v),
    ensures
        at(s, i, u),
        at(s, i + u.len(), v),
{
    let whole = s.subrange(i, i + u.len() + v.len());
    assert(s.subrange(i, i + u.len()) =~= whole.subrange(0, u.len() as int));
    assert((u + v).subrange(0, u.len() as int) =~= u);
    assert(s.subrange(i + u.len(), i + u.len() + v.len()) =~= whole.subrange(
        u.len() as int,
        (u.len() + v.len()) as int,
    ));
    assert((u + v).subrange(u.len() as int, (u.len() + v.len()) as int) =~= v);
}

proof fn lemma_at_index(s: Seq<char>, i: int, w: Seq<char>, k: int)
    requires
        at(s, i, w),
        0 <= k < w.len(),
    ensures
        s[i + k] == w[k],
{
    assert(s.subrange(i, i + w.len())[k] == s[i + k]);
}

proof fn lemma_ws_run(s: Seq<char>, j: int, i: int)
    requires
        0 <= j <= i <= s.len(),
        forall|k: int| j <= k < i ==> is_ws(#[trigger] s[k]),
    ensures
        skip_ws(s, j) == skip_ws(s, i),
    decreases i - j,
{
    if j < i {
        lemma_ws_run(s, j + 1, i);
    }
}

proof fn lemma_tabs(s: Seq<char>, i: int, n: nat)
    requires
        at(s, i, tabs(n)),
    ensures
        skip_ws(s, i) == skip_ws(s, i + n),
{
    assert forall|k: int| i <= k < i + n implies is_ws(#[trigger] s[k]) by {
        lemma_at_index(s, i, tabs(n), k - i);
    }
    lemma_ws_run(s, i, i + n);
}

proof fn lemma_unquoted_run(s: Seq<char>, j: int, e: int)
    requires
        0 <= j <= e <= s.len(),
        forall|k: int| j <= k < e ==> !is_special(#[trigger] s[k]),
        e == s.len() || is_special(s[e]),
    ensures
        unquoted_end(s, j) == e,
    decreases e - j,
{
    if j < e {
        lemma_unquoted_run(s, j + 1, e);
    }
}

proof fn lemma_quote_run(s: Seq<char>, j: int, e: int)
    requires
        0 <= j <= e < s.len(),
        forall|k: int| j <= k < e ==> #[trigger] s[k] != '"',
        s[e] == '"',
    ensures
        quote_end(s, j) == e,
    decreases e - j,
{
    if j < e {
        lemma_quote_run(s, j + 1, e);
    }
}

proof fn lemma_plain_at(s: Seq<char>, i: int, w: Seq<char>)
    requires
        plain(w),
        at(s, i, w),
        i + w.len() == s.len() || is_special(s[i + w.len()]),
    ensures
        string_at(s, i) == Ok::<(Seq<char>, int), int>((w, i + w.len())),
{
    assert forall|k: int| i <= k < i + w.len() implies !is_special(#[trigger] s[k]) by {
        lemma_at_index(s, i, w, k - i);
    }
    lemma_unquoted_run(s, i, i + w.len());
    lemma_at_index(s, i, w, 0);
}

proof fn lemma_quoted_at(s: Seq<char>, i: int, w: Seq<char>)
    requires
        quote_free(w),
        at(s, i, seq!['"'] + w + seq!['"']),
    ensures
        string_at(s, i) == Ok::<(Seq<char>, int), int>((w, i + w.len() + 2)),
{
    lemma_at_split(s, i, seq!['"'] + w, seq!['"']);
    lemma_at_split(s, i, seq!['"'], w);
    lemma_at_index(s, i, seq!['"'], 0);
    lemma_at_index(s, i + 1 + w.len(), seq!['"'], 0);
    assert forall|k: int| i + 1 <= k < i + 1 + w.len() implies #[trigger] s[k] != '"' by {
        lemma_at_index(s, i + 1, w, k - i - 1);
    }
    lemma_quote_run(s, i + 1, i + 1 + w.len());
}

proof fn lemma_close_brace(s: Seq<char>, x: int)
    requires
        0 <= x < s.len(),
        s[x] == '}',
    ensures
        node_at(s, x) is Err,
{
    assert(string_at(s, x) is Err);
    assert(block_at(s, x) is Err);
    assert(entry_at(s, x) is Err);
}

proof fn lemma_render_all_concat(indent: nat, a: Seq<Node>, b: Seq<Node>)
    ensures
        render_all(indent, a + b) == render_all(indent, a) + render_all(indent, b),
    decreases b.len(),
{
    if b.len() == 0 {
        assert(a + b =~= a);
    } else {
        lemma_render_all_concat(indent, a, b.drop_last());
        assert((a + b).drop_last() =~= a + b.drop_last());
        assert((a + b).last() == b.last());
    }
}

proof fn lemma_render_all_first(indent: nat, ns: Seq<Node>)
    requires
        ns.len() > 0,
    ensures
        render_all(indent, ns) == render(indent, ns[0]) + render_all(indent, ns.drop_first()),
{
    lemma_render_all_concat(indent, seq![ns[0]], ns.drop_first());
    assert(seq![ns[0]] + ns.drop_first() =~= ns);
    let one = seq![ns[0]];
    assert(one.drop_last() =~= Seq::<Node>::empty());
    assert(one.last() == ns[0]);
    assert(render_all(indent, one.drop_last()) == Seq::<char>::empty());
    assert(render_all(indent, one) == render_all(indent, one.drop_last()) + render(indent, ns[0]));
    assert(render_all(indent, one) =~= render(indent, ns[0]));
}

proof fn lemma_read_node(s: Seq<char>, i: int, indent: nat, n: Node)
    requires
        printable(n),
        at(s, i, render(indent, n)),
    ensures
        skip_ws(s, i) == i + indent,
        node_at(s, i + indent) == Ok::<(Node, int), int>((n, i + render(indent, n).len() - 1)),
        n is Block ==> block_at(s, i + indent) == Ok::<(Node, int), int>(
            (n, i + render(indent, n).len() - 1),
        ),
        s[i + render(indent, n).len() - 1] == '\n',
    decreases n,
{
    let r = render(indent, n);
    let t = tabs(indent);
    let p = i + indent;
    match n {
        Node::Entry { key, value } => {
            let qk = seq!['"'] + key + seq!['"'];
            let sp = seq![' '];
            let qv = seq!['"'] + value + seq!['"'];
            let nl = seq!['\n'];
            assert(r =~= t + qk + sp + qv + nl);
            lemma_at_split(s, i, t + qk + sp + qv, nl);
            lemma_at_split(s, i, t + qk + sp, qv);
            lemma_at_split(s, i, t + qk, sp);
            lemma_at_split(s, i, t, qk);
            lemma_tabs(s, i, indent);
            lemma_at_index(s, p, qk, 0);
            lemma_quoted_at(s, p, key);
            let j = p + key.len() + 2;
            lemma_at_index(s, j, sp, 0);
            lemma_at_index(s, j + 1, qv, 0);
            assert(skip_ws(s, j + 1) == j + 1);
            assert(skip_ws(s, j) == j + 1);
            assert(block_at(s, p) is Err);
            lemma_quoted_at(s, j + 1, value);
            lemma_at_index(s, i + r.len() - 1, nl, 0);
        },
        Node::Block { name, children } => {
            let nl = seq!['\n'];
            let ob = seq!['{', '\n'];
            let ra = render_all(indent + 1, children);
            let cb = seq!['}', '\n'];
            lemma_at_split(s, i, t + name + nl + t + ob + ra + t, cb);
            lemma_at_split(s, i, t + name + nl + t + ob + ra, t);
            lemma_at_split(s, i, t + name + nl + t + ob, ra);
            lemma_at_split(s, i, t + name + nl + t, ob);
            lemma_at_split(s, i, t + name + nl, t);
            lemma_at_split(s, i, t + name, nl);
            lemma_at_split(s, i, t, name);
            lemma_tabs(s, i, indent);
            lemma_at_index(s, p, name, 0);
            let j = p + name.len();
            lemma_at_index(s, j, nl, 0);
            lemma_plain_at(s, p, name);
            lemma_tabs(s, j + 1, indent);
            let k = j + 1 + indent;
            lemma_at_index(s, k, ob, 0);
            lemma_at_index(s, k, ob, 1);
            let q = k + 2 + ra.len();
            lemma_tabs(s, q, indent);
            lemma_at_index(s, q + indent, cb, 0);
            lemma_at_index(s, q + indent, cb, 1);
            lemma_close_brace(s, q + indent);
            lemma_read_body(s, k + 1, k + 2, indent + 1, children);
        },
    }
}

proof fn lemma_read_body(s: Seq<char>, j: int, i: int, indent: nat, ns: Seq<Node>)
    requires
        0 <= j <= i,
        forall|k: int| j <= k < i ==> is_ws(#[trigger] s[k]),
        at(s, i, render_all(indent, ns)),
        forall|x: int| 0 <= x < ns.len() ==> printable(#[trigger] ns[x]),
        node_at(s, skip_ws(s, i + render_all(indent, ns).len())) is Err,
    ensures
        body_at(s, j) == (ns, skip_ws(s, i + render_all(indent, ns).len())),
    decreases ns,
{
    lemma_ws_run(s, j, i);
    if ns.len() == 0 {
        assert(ns =~= Seq::<Node>::empty());
    } else {
        let first = ns[0];
        let rest = ns.subrange(1, ns.len() as int);
        assert(rest =~= ns.drop_first());
        lemma_render_all_first(indent, ns);
        let r0 = render(indent, first);
        let rr = render_all(indent, rest);
        lemma_at_split(s, i, r0, rr);
        lemma_read_node(s, i, indent, first);
        let b = i + r0.len() - 1;
        assert forall|x: int| 0 <= x < rest.len() implies printable(#[trigger] rest[x]) by {
            assert(rest[x] == ns[x + 1]);
        }
        lemma_read_body(s, b, i + r0.len(), indent, rest);
        assert(seq![first] + rest =~= ns);
    }
}

proof fn lemma_read_blocks(s: Seq<char>, i: int, ns: Seq<Node>)
    requires
        at(s, i, render_all(0, ns)),
        i + render_all(0, ns).len() == s.len(),
        forall|x: int| 0 <= x < ns.len() ==> (#[trigger] ns[x] is Block && printable(ns[x])),
    ensures
        skip_ws(s, i) == i,
        blocks_at(s, i) == (ns, s.len() as int),
    decreases ns.len(),
{
    if ns.len() == 0 {
        assert(ns =~= Seq::<Node>::empty());
        assert(string_at(s, i) is Err);
    } else {
        let first = ns[0];
        let rest = ns.drop_first();
        lemma_render_all_first(0, ns);
        let r0 = render(0, first);
        let rr = render_all(0, rest);
        lemma_at_split(s, i, r0, rr);
        lemma_read_node(s, i, 0, first);
        let b = i + r0.len() - 1;
        assert forall|x: int| 0 <= x < rest.len() implies (#[trigger] rest[x] is Block && printable(
            rest[x],
        )) by {
            assert(rest[x] == ns[x + 1]);
        }
        lemma_read_blocks(s, b + 1, rest);
        assert(skip_ws(s, b) == skip_ws(s, b + 1));
        assert(seq![first] + rest =~= ns);
    }
}

/// Rendering a document of printable blocks and reading the text back gives
/// the same document, with nothing left over; so rendering what was read back
/// gives the same text again.
pub proof fn lemma_round_trip(ns: Seq<Node>)
    requires
        printable_document(ns),
    ensures
        document(render_all(0, ns)) == Ok::<(Seq<Node>, int), crate::grammar::ParseError>(
            (ns, render_all(0, ns).len() as int),
        ),
        document(render_all(0, ns)) matches Ok((back, _)) && render_all(0, back) == render_all(
            0,
            ns,
        ),
{
    let s = render_all(0, ns);
    assert(s.subrange(0, s.len() as int) =~= s);
    lemma_read_blocks(s, 0, ns);
    assert(string_at(s, s.len() as int) is Err);
    assert(s.len() > 0);
}

proof fn lemma_parsed_string(s: Seq<char>, i: int)
    ensures
        string_at(s, i) matches Ok((w, _)) ==> quote_free(w),
{
    lemma_unquoted_end(s, i);
    lemma_quote_end(s, i + 1);
    if string_at(s, i) is Ok {
        let w = string_at(s, i)->Ok_0.0;
        if 0 <= i < s.len() && !is_special(s[i]) {
            assert forall|k: int| 0 <= k < w.len() implies #[trigger] w[k] != '"' by {
                assert(w[k] == s[i + k]);
            }
        } else {
            assert forall|k: int| 0 <= k < w.len() implies #[trigger] w[k] != '"' by {
                assert(w[k] == s[i + 1 + k]);
            }
        }
    }
}

proof fn lemma_parsed_node(s: Seq<char>, i: int)
    ensures
        node_at(s, i) matches Ok((n, _)) ==> (plain_names(n) ==> printable(n)),
    decreases (s.len() - i) as nat, 3nat,
{
    lemma_parsed_block(s, i);
    if block_at(s, i) is Err {
        lemma_parsed_string(s, i);
        if string_at(s, i) is Ok {
            lemma_parsed_string(s, skip_ws(s, string_at(s, i)->Ok_0.1));
        }
    }
}

proof fn lemma_parsed_block(s: Seq<char>, i: int)
    ensures
        block_at(s, i) matches Ok((n, _)) ==> n is Block && (plain_names(n) ==> printable(n)),
    decreases (s.len() - i) as nat, 2nat,
{
    if string_at(s, i) is Ok {
        let j = string_at(s, i)->Ok_0.1;
        let k = skip_ws(s, j);
        if 0 <= k < s.len() && s[k] == '{' {
            lemma_string_at(s, i);
            lemma_skip_ws(s, j);
            lemma_parsed_body(s, k + 1);
            let name = string_at(s, i)->Ok_0.0;
            let children = body_at(s, k + 1).0;
            let e = body_at(s, k + 1).1;
            if 0 <= e < s.len() && s[e] == '}' {
                assert(block_at(s, i) == Ok::<(Node, int), int>(
                    (Node::Block { name, children }, e + 1),
                ));
                let n = block_at(s, i)->Ok_0.0;
                assert(n is Block && n->children == children);
                if plain_names(n) {
                    assert forall|x: int| 0 <= x < children.len() implies printable(
                        #[trigger] children[x],
                    ) by {
                        assert(plain_names(children[x]));
                    }
                }
            }
        }
    }
}

proof fn lemma_parsed_body(s: Seq<char>, i: int)
    ensures
        forall|x: int|
            0 <= x < body_at(s, i).0.len() ==> (plain_names(#[trigger] body_at(s, i).0[x])
                ==> printable(body_at(s, i).0[x])),
    decreases (s.len() - i) as nat, 4nat,
{
    let a = skip_ws(s, i);
    lemma_skip_ws(s, i);
    lemma_parsed_node(s, a);
    if node_at(s, a) is Ok {
        let (n, b) = node_at(s, a)->Ok_0;
        if i < b <= s.len() {
            lemma_parsed_body(s, b);
            let rest = body_at(s, b).0;
            assert(body_at(s, i).0 == seq![n] + rest);
            assert forall|x: int|
                0 <= x < body_at(s, i).0.len() && plain_names(
                    #[trigger] body_at(s, i).0[x],
                ) implies printable(body_at(s, i).0[x]) by {
                if x > 0 {
                    assert(body_at(s, i).0[x] == rest[x - 1]);
                }
            }
        }
    }
}

proof fn lemma_parsed_blocks(s: Seq<char>, i: int)
    ensures
        forall|x: int|
            0 <= x < blocks_at(s, i).0.len() ==> (#[trigger] blocks_at(s, i).0[x] is Block && (
            plain_names(blocks_at(s, i).0[x]) ==> printable(blocks_at(s, i).0[x]))),
    decreases (s.len() - i) as nat,
{
    lemma_parsed_block(s, i);
    if block_at(s, i) is Ok {
        let (n, b) = block_at(s, i)->Ok_0;
        if i < b <= s.len() {
            lemma_skip_ws(s, b);
            let c = skip_ws(s, b);
            lemma_parsed_blocks(s, c);
            let rest = blocks_at(s, c).0;
            assert(blocks_at(s, i).0 == seq![n] + rest);
            assert forall|x: int| 0 <= x < blocks_at(s, i).0.len() implies (
            #[trigger] blocks_at(s, i).0[x] is Block && (plain_names(blocks_at(s, i).0[x])
                ==> printable(blocks_at(s, i).0[x]))) by {
                assert(n is Block);
                if x > 0 {
                    assert(blocks_at(s, i).0[x] == rest[x - 1]);
                }
            }
        }
    }
}

/// Reading a text, rendering what was read, reading that and rendering it
/// again gives the text of the first rendering, for every text that reads as
/// a document whose block names can all be written unquoted. The second
/// reading gives the same document and reads its text to the end.
pub proof fn lemma_idempotent(s: Seq<char>)
    requires
        document(s) matches Ok((ns, _)) && forall|x: int|
            0 <= x < ns.len() ==> plain_names(#[trigger] ns[x]),
    ensures
        document(s) matches Ok((ns, _)) && document(render_all(0, ns)) matches Ok((again, end))
            && again == ns && end == render_all(0, ns).len() && render_all(0, again)
            == render_all(0, ns),
{
    let ns = document(s)->Ok_0.0;
    let a = skip_ws(s, 0);
    let (n, b) = block_at(s, a)->Ok_0;
    lemma_parsed_block(s, a);
    let c = skip_ws(s, b);
    lemma_parsed_blocks(s, c);
    let rest = blocks_at(s, c).0;
    assert(ns == seq![n] + rest);
    assert forall|x: int| 0 <= x < ns.len() implies (#[trigger] ns[x] is Block && printable(
        ns[x],
    )) by {
        if x > 0 {
            assert(ns[x] == rest[x - 1]);
        }
    }
    lemma_round_trip(ns);
}

/// Every char of `w` is whitespace.
pub open spec fn ws_only(w: Seq<char>) -> bool {
    forall|k: int| 0 <= k < w.len() ==> is_ws(#[trigger] w[k])
}

/// `w` written between quotes when `q` holds, else as it is.
pub open spec fn token(w: Seq<char>, q: bool) -> Seq<char> {
    if q {
        quoted(w)
    } else {
        w
    }
}

/// `w` can be written as `token(w, q)` and read back.
pub open spec fn token_ok(w: Seq<char>, q: bool) -> bool {
    if q {
        quote_free(w)
    } else {
        plain(w)
    }
}

/// The node laid out with the whitespace `gap(path, slot)` in each place where
/// the grammar allows it (before the node, after its first token, before a
/// block's `}`, after an entry) and each of its strings quoted or not as
/// `quote(path, slot)` says (slot 0 for a name or key, 1 for a value). `path`
/// locates the node in its document.
pub open spec fn spaced(
    path: Seq<int>,
    n: Node,
    gap: spec_fn(Seq<int>, nat) -> Seq<char>,
    quote: spec_fn(Seq<int>, nat) -> bool,
) -> Seq<char>
    decreases n,
{
    match n {
        Node::Block { name, children } => gap(path, 0) + token(name, quote(path, 0)) + gap(path, 1)
            + seq!['{'] + spaced_all(path, 0, children, gap, quote) + gap(path, 2) + seq!['}'],
        Node::Entry { key, value } => gap(path, 0) + token(key, quote(path, 0)) + gap(path, 1)
            + token(value, quote(path, 1)) + gap(path, 3),
    }
}

/// The nodes laid out one after the other, the first one at index `start`
/// under `path`.
pub open spec fn spaced_all(
    path: Seq<int>,
    start: int,
    ns: Seq<Node>,
    gap: spec_fn(Seq<int>, nat) -> Seq<char>,
    quote: spec_fn(Seq<int>, nat) -> bool,
) -> Seq<char>
    decreases ns,
{
    if ns.len() == 0 {
        Seq::empty()
    } else {
        spaced(path.push(start), ns[0], gap, quote) + spaced_all(
            path,
            start + 1,
            ns.subrange(1, ns.len() as int),
            gap,
            quote,
        )
    }
}

/// A document laid out with whitespace from `gap` and quoting from `quote`,
/// with whitespace at the end too.
pub open spec fn spaced_document(
    ns: Seq<Node>,
    gap: spec_fn(Seq<int>, nat) -> Seq<char>,
    quote: spec_fn(Seq<int>, nat) -> bool,
) -> Seq<char> {
    spaced_all(Seq::empty(), 0, ns, gap, quote) + gap(Seq::empty(), 0)
}

/// The layout of the node reads back: each string can be written as chosen,
/// and two unquoted strings of an entry, or an unquoted value and what comes
/// after it, are kept apart by whitespace.
pub open spec fn fits(
    path: Seq<int>,
    n: Node,
    gap: spec_fn(Seq<int>, nat) -> Seq<char>,
    quote: spec_fn(Seq<int>, nat) -> bool,
) -> bool
    decreases n,
{
    match n {
        Node::Block { name, children } => token_ok(name, quote(path, 0)) && forall|x: int|
            0 <= x < children.len() ==> fits(path.push(x), #[trigger] children[x], gap, quote),
        Node::Entry { key, value } => token_ok(key, quote(path, 0)) && token_ok(
            value,
            quote(path, 1),
        ) && (!quote(path, 0) && !quote(path, 1) ==> gap(path, 1).len() > 0) && (!quote(path, 1)
            ==> gap(path, 3).len() > 0),
    }
}

/// The document's layout reads back: it is one or more blocks, and each fits.
pub open spec fn fits_document(
    ns: Seq<Node>,
    gap: spec_fn(Seq<int>, nat) -> Seq<char>,
    quote: spec_fn(Seq<int>, nat) -> bool,
) -> bool {
    &&& ns.len() > 0
    &&& forall|p: Seq<int>, k: nat| ws_only(#[trigger] gap(p, k))
    &&& forall|x: int|
        0 <= x < ns.len() ==> (#[trigger] ns[x] is Block && fits(
            Seq::<int>::empty().push(x),
            ns[x],
            gap,
            quote,
        ))
}

/// The chars after an entry's layout that its own reading leaves unread.
pub open spec fn trail(path: Seq<int>, n: Node, gap: spec_fn(Seq<int>, nat) -> Seq<char>) -> int {
    match n {
        Node::Block { .. } => 0,
        Node::Entry { .. } => gap(path, 3).len() as int,
    }
}

proof fn lemma_ws_at(s: Seq<char>, i: int, w: Seq<char>)
    requires
        ws_only(w),
        at(s, i, w),
    ensures
        skip_ws(s, i) == skip_ws(s, i + w.len()),
        forall|k: int| i <= k < i + w.len() ==> is_ws(#[trigger] s[k]),
{
    assert forall|k: int| i <= k < i + w.len() implies is_ws(#[trigger] s[k]) by {
        lemma_at_index(s, i, w, k - i);
    }
    lemma_ws_run(s, i, i + w.len());
}

proof fn lemma_token_at(s: Seq<char>, i: int, w: Seq<char>, q: bool)
    requires
        token_ok(w, q),
        at(s, i, token(w, q)),
        !q ==> (i + w.len() == s.len() || is_special(s[i + w.len()])),
    ensures
        string_at(s, i) == Ok::<(Seq<char>, int), int>((w, i + token(w, q).len())),
        token(w, q).len() > 0,
        !is_ws(s[i]) && s[i] != '{',
{
    if q {
        lemma_quoted_at(s, i, w);
        lemma_at_index(s, i, quoted(w), 0);
    } else {
        lemma_plain_at(s, i, w);
        lemma_at_index(s, i, w, 0);
        assert(!is_special(w[0]));
    }
}

proof fn lemma_read_spaced(
    s: Seq<char>,
    i: int,
    path: Seq<int>,
    n: Node,
    gap: spec_fn(Seq<int>, nat) -> Seq<char>,
    quote: spec_fn(Seq<int>, nat) -> bool,
)
    requires
        fits(path, n, gap, quote),
        forall|p: Seq<int>, k: nat| ws_only(#[trigger] gap(p, k)),
        at(s, i, spaced(path, n, gap, quote)),
    ensures
        skip_ws(s, i) == i + gap(path, 0).len(),
        node_at(s, i + gap(path, 0).len()) == Ok::<(Node, int), int>(
            (n, i + spaced(path, n, gap, quote).len() - trail(path, n, gap)),
        ),
        n is Block ==> block_at(s, i + gap(path, 0).len()) == Ok::<(Node, int), int>(
            (n, i + spaced(path, n, gap, quote).len()),
        ),
        i + gap(path, 0).len() < i + spaced(path, n, gap, quote).len() - trail(path, n, gap),
        0 <= trail(path, n, gap) <= spaced(path, n, gap, quote).len(),
        forall|k: int|
            i + spaced(path, n, gap, quote).len() - trail(path, n, gap) <= k < i + spaced(
                path,
                n,
                gap,
                quote,
            ).len() ==> is_ws(#[trigger] s[k]),
    decreases n,
{
    let g0 = gap(path, 0);
    let g1 = gap(path, 1);
    let p = i + g0.len();
    match n {
        Node::Entry { key, value } => {
            let g3 = gap(path, 3);
            let tk = token(key, quote(path, 0));
            let tv = token(value, quote(path, 1));
            lemma_at_split(s, i, g0 + tk + g1 + tv, g3);
            lemma_at_split(s, i, g0 + tk + g1, tv);
            lemma_at_split(s, i, g0 + tk, g1);
            lemma_at_split(s, i, g0, tk);
            lemma_ws_at(s, i, g0);
            let j = p + tk.len();
            let k = j + g1.len();
            if g1.len() > 0 {
                lemma_at_index(s, j, g1, 0);
            } else if quote(path, 1) {
                lemma_at_index(s, k, tv, 0);
            }
            lemma_token_at(s, p, key, quote(path, 0));
            lemma_ws_at(s, j, g1);
            if !quote(path, 1) {
                lemma_at_index(s, k + tv.len(), g3, 0);
            }
            lemma_token_at(s, k, value, quote(path, 1));
            assert(skip_ws(s, k) == k);
            assert(block_at(s, p) is Err);
            lemma_ws_at(s, k + tv.len(), g3);
        },
        Node::Block { name, children } => {
            let g2 = gap(path, 2);
            let tn = token(name, quote(path, 0));
            let ob = seq!['{'];
            let sa = spaced_all(path, 0, children, gap, quote);
            let cb = seq!['}'];
            lemma_at_split(s, i, g0 + tn + g1 + ob + sa + g2, cb);
            lemma_at_split(s, i, g0 + tn + g1 + ob + sa, g2);
            lemma_at_split(s, i, g0 + tn + g1 + ob, sa);
            lemma_at_split(s, i, g0 + tn + g1, ob);
            lemma_at_split(s, i, g0 + tn, g1);
            lemma_at_split(s, i, g0, tn);
            lemma_ws_at(s, i, g0);
            let j = p + tn.len();
            let k = j + g1.len();
            lemma_at_index(s, k, ob, 0);
            if g1.len() > 0 {
                lemma_at_index(s, j, g1, 0);
            }
            lemma_token_at(s, p, name, quote(path, 0));
            lemma_ws_at(s, j, g1);
            let q = k + 1 + sa.len();
            lemma_ws_at(s, q, g2);
            lemma_at_index(s, q + g2.len(), cb, 0);
            lemma_close_brace(s, q + g2.len());
            assert forall|x: int| 0 <= x < children.len() implies fits(
                path.push(0 + x),
                #[trigger] children[x],
                gap,
                quote,
            ) by {
                assert(fits(path.push(x), children[x], gap, quote));
            }
            lemma_read_spaced_all(s, k + 1, k + 1, path, 0, children, gap, quote);
        },
    }
}

proof fn lemma_read_spaced_all(
    s: Seq<char>,
    j: int,
    i: int,
    path: Seq<int>,
    start: int,
    ns: Seq<Node>,
    gap: spec_fn(Seq<int>, nat) -> Seq<char>,
    quote: spec_fn(Seq<int>, nat) -> bool,
)
    requires
        0 <= j <= i,
        forall|k: int| j <= k < i ==> is_ws(#[trigger] s[k]),
        forall|x: int|
            0 <= x < ns.len() ==> fits(path.push(start + x), #[trigger] ns[x], gap, quote),
        forall|p: Seq<int>, k: nat| ws_only(#[trigger] gap(p, k)),
        at(s, i, spaced_all(path, start, ns, gap, quote)),
        node_at(s, skip_ws(s, i + spaced_all(path, start, ns, gap, quote).len())) is Err,
    ensures
        body_at(s, j) == (ns, skip_ws(s, i + spaced_all(path, start, ns, gap, quote).len())),
    decreases ns,
{
    lemma_ws_run(s, j, i);
    if ns.len() == 0 {
        assert(ns =~= Seq::<Node>::empty());
    } else {
        let rest = ns.subrange(1, ns.len() as int);
        let first = spaced(path.push(start), ns[0], gap, quote);
        lemma_at_split(s, i, first, spaced_all(path, start + 1, rest, gap, quote));
        assert(fits(path.push(start + 0), ns[0], gap, quote));
        assert(path.push(start + 0) == path.push(start));
        lemma_read_spaced(s, i, path.push(start), ns[0], gap, quote);
        let b = i + first.len() - trail(path.push(start), ns[0], gap);
        assert forall|x: int| 0 <= x < rest.len() implies fits(
            path.push(start + 1 + x),
            #[trigger] rest[x],
            gap,
            quote,
        ) by {
            assert(rest[x] == ns[x + 1]);
            assert(fits(path.push(start + (x + 1)), ns[x + 1], gap, quote));
            assert(start + (x + 1) == start + 1 + x);
        }
        lemma_read_spaced_all(s, b, i + first.len(), path, start + 1, rest, gap, quote);
        assert(seq![ns[0]] + rest =~= ns);
    }
}

proof fn lemma_read_spaced_blocks(
    s: Seq<char>,
    i: int,
    start: int,
    ns: Seq<Node>,
    gap: spec_fn(Seq<int>, nat) -> Seq<char>,
    quote: spec_fn(Seq<int>, nat) -> bool,
)
    requires
        forall|x: int|
            0 <= x < ns.len() ==> (#[trigger] ns[x] is Block && fits(
                Seq::<int>::empty().push(start + x),
                ns[x],
                gap,
                quote,
            )),
        forall|p: Seq<int>, k: nat| ws_only(#[trigger] gap(p, k)),
        at(s, i, spaced_all(Seq::empty(), start, ns, gap, quote)),
        forall|k: int|
            i + spaced_all(Seq::empty(), start, ns, gap, quote).len() <= k < s.len() ==> is_ws(
                #[trigger] s[k],
            ),
    ensures
        blocks_at(s, skip_ws(s, i)) == (ns, s.len() as int),
        ns.len() > 0 ==> skip_ws(s, i) < s.len(),
    decreases ns,
{
    if ns.len() == 0 {
        assert(ns =~= Seq::<Node>::empty());
        lemma_ws_run(s, i, s.len() as int);
        assert(string_at(s, s.len() as int) is Err);
    } else {
        let path = Seq::<int>::empty();
        let rest = ns.subrange(1, ns.len() as int);
        let first = spaced(path.push(start), ns[0], gap, quote);
        lemma_at_split(s, i, first, spaced_all(path, start + 1, rest, gap, quote));
        assert(ns[0] is Block && fits(path.push(start + 0), ns[0], gap, quote));
        assert(path.push(start + 0) == path.push(start));
        lemma_read_spaced(s, i, path.push(start), ns[0], gap, quote);
        assert forall|x: int| 0 <= x < rest.len() implies (#[trigger] rest[x] is Block && fits(
            path.push(start + 1 + x),
            rest[x],
            gap,
            quote,
        )) by {
            assert(rest[x] == ns[x + 1]);
            assert(ns[x + 1] is Block && fits(path.push(start + (x + 1)), ns[x + 1], gap, quote));
            assert(start + (x + 1) == start + 1 + x);
        }
        lemma_read_spaced_blocks(s, i + first.len(), start + 1, rest, gap, quote);
        assert(seq![ns[0]] + rest =~= ns);
    }
}

/// Any layout of a document reads back as that document, with nothing left
/// over: whatever whitespace stands between and around its tokens, and
/// whichever of its strings are quoted, as long as the layout fits.
pub proof fn lemma_layout_reads_back(
    ns: Seq<Node>,
    gap: spec_fn(Seq<int>, nat) -> Seq<char>,
    quote: spec_fn(Seq<int>, nat) -> bool,
)
    requires
        fits_document(ns, gap, quote),
    ensures
        document(spaced_document(ns, gap, quote)) == Ok::<
            (Seq<Node>, int),
            crate::grammar::ParseError,
        >((ns, spaced_document(ns, gap, quote).len() as int)),
{
    let s = spaced_document(ns, gap, quote);
    let body = spaced_all(Seq::empty(), 0, ns, gap, quote);
    let tail = gap(Seq::empty(), 0);
    assert(s.subrange(0, body.len() as int) =~= body);
    assert forall|k: int| body.len() <= k < s.len() implies is_ws(#[trigger] s[k]) by {
        assert(s[k] == tail[k - body.len()]);
        assert(ws_only(tail));
    }
    assert forall|x: int| 0 <= x < ns.len() implies (#[trigger] ns[x] is Block && fits(
        Seq::<int>::empty().push(0 + x),
        ns[x],
        gap,
        quote,
    )) by {
        assert(ns[x] is Block && fits(Seq::<int>::empty().push(x), ns[x], gap, quote));
    }
    lemma_read_spaced_blocks(s, 0, 0, ns, gap, quote);
}

/// Whitespace between tokens does not matter: two layouts of a document that
/// differ only in their whitespace read as the same document.
pub proof fn lemma_whitespace_insensitive(
    ns: Seq<Node>,
    gap1: spec_fn(Seq<int>, nat) -> Seq<char>,
    gap2: spec_fn(Seq<int>, nat) -> Seq<char>,
    quote: spec_fn(Seq<int>, nat) -> bool,
)
    requires
        fits_document(ns, gap1, quote),
        fits_document(ns, gap2, quote),
    ensures
        document(spaced_document(ns, gap1, quote)) matches Ok((a, _)) && document(
            spaced_document(ns, gap2, quote),
        ) matches Ok((b, _)) && a == b && a == ns,
{
    lemma_layout_reads_back(ns, gap1, quote);
    lemma_layout_reads_back(ns, gap2, quote);
}

/// Quoting does not matter: two layouts of a document that differ only in
/// which of its strings are quoted read as the same document.
pub proof fn lemma_quoting_irrelevant(
    ns: Seq<Node>,
    gap: spec_fn(Seq<int>, nat) -> Seq<char>,
    quote1: spec_fn(Seq<int>, nat) -> bool,
    quote2: spec_fn(Seq<int>, nat) -> bool,
)
    requires
        fits_document(ns, gap, quote1),
        fits_document(ns, gap, quote2),
    ensures
        document(spaced_document(ns, gap, quote1)) matches Ok((a, _)) && document(
            spaced_document(ns, gap, quote2),
        ) matches Ok((b, _)) && a == b && a == ns,
{
    lemma_layout_reads_back(ns, gap, quote1);
    lemma_layout_reads_back(ns, gap, quote2);
}

/// `head { key value }` with the three tokens written as given.
pub open spec fn one_entry_text(head: Seq<char>, key: Seq<char>, value: Seq<char>) -> Seq<char> {
    head + seq![' ', '{', ' '] + key + seq![' '] + value + seq![' ', '}']
}

/// `w` between quotes.
pub open spec fn quoted(w: Seq<char>) -> Seq<char> {
    seq!['"'] + w + seq!['"']
}

#[verifier::spinoff_prover]
#[verifier::rlimit(40)]
proof fn lemma_read_one_entry(
    tf: Seq<char>,
    ta: Seq<char>,
    tb: Seq<char>,
    f: Seq<char>,
    a: Seq<char>,
    b: Seq<char>,
)
    requires
        tf.len() > 0 && ta.len() > 0 && tb.len() > 0,
        !is_ws(tf[0]) && !is_ws(ta[0]) && !is_ws(tb[0]) && tb[0] != '{',
        string_at(one_entry_text(tf, ta, tb), 0) == Ok::<(Seq<char>, int), int>(
            (f, tf.len() as int),
        ),
        string_at(one_entry_text(tf, ta, tb), (tf.len() + 3) as int) == Ok::<(Seq<char>, int), int>(
            (a, (tf.len() + 3 + ta.len()) as int),
        ),
        string_at(one_entry_text(tf, ta, tb), (tf.len() + 4 + ta.len()) as int) == Ok::<
            (Seq<char>, int),
            int,
        >((b, (tf.len() + 4 + ta.len() + tb.len()) as int)),
    ensures
        document(one_entry_text(tf, ta, tb)) == Ok::<
            (Seq<Node>, int),
            crate::grammar::ParseError,
        >(
            (
                seq![Node::Block { name: f, children: seq![Node::Entry { key: a, value: b }] }],
                one_entry_text(tf, ta, tb).len() as int,
            ),
        ),
{
    let s = one_entry_text(tf, ta, tb);
    let fl = tf.len() as int;
    let al = ta.len() as int;
    let bl = tb.len() as int;
    assert(s[0] == tf[0]);
    assert(s[fl] == ' ' && s[fl + 1] == '{' && s[fl + 2] == ' ');
    assert(s[fl + 3] == ta[0]);
    assert(s[fl + 3 + al] == ' ');
    assert(s[fl + 4 + al] == tb[0]);
    let e = fl + 4 + al + bl;
    assert(s[e] == ' ' && s[e + 1] == '}');
    assert(s.len() == e + 2);
    assert(skip_ws(s, fl + 1) == fl + 1);
    assert(skip_ws(s, fl) == fl + 1);
    assert(skip_ws(s, fl + 3) == fl + 3);
    assert(skip_ws(s, fl + 2) == fl + 3);
    assert(skip_ws(s, fl + 4 + al) == fl + 4 + al);
    assert(skip_ws(s, fl + 3 + al) == fl + 4 + al);
    assert(block_at(s, fl + 3) is Err);
    assert(node_at(s, fl + 3) == Ok::<(Node, int), int>((Node::Entry { key: a, value: b }, e)));
    assert(skip_ws(s, e + 1) == e + 1);
    assert(skip_ws(s, e) == e + 1);
    lemma_close_brace(s, e + 1);
    assert(body_at(s, e) == (Seq::<Node>::empty(), e + 1));
    assert(seq![Node::Entry { key: a, value: b }] + Seq::<Node>::empty() =~= seq![
        Node::Entry { key: a, value: b },
    ]);
    assert(body_at(s, fl + 2) == (seq![Node::Entry { key: a, value: b }], e + 1));
    assert(skip_ws(s, 0) == 0);
    assert(skip_ws(s, e + 2) == e + 2);
    assert(string_at(s, e + 2) is Err);
    assert(blocks_at(s, e + 2) == (Seq::<Node>::empty(), e + 2));
    assert(seq![Node::Block { name: f, children: seq![Node::Entry { key: a, value: b }] }]
        + Seq::<Node>::empty() =~= seq![
        Node::Block { name: f, children: seq![Node::Entry { key: a, value: b }] },
    ]);
}

proof fn lemma_plain_quote_free(w: Seq<char>)
    requires
        plain(w),
    ensures
        quote_free(w),
        !is_ws(w[0]) && w[0] != '{',
{
    assert forall|k: int| 0 <= k < w.len() implies #[trigger] w[k] != '"' by {
        assert(!is_special(w[k]));
    }
    assert(!is_special(w[0]));
}

#[verifier::spinoff_prover]
#[verifier::rlimit(40)]
proof fn lemma_read_bare(f: Seq<char>, a: Seq<char>, b: Seq<char>)
    requires
        plain(f),
        plain(a),
        plain(b),
    ensures
        document(one_entry_text(f, a, b)) == Ok::<(Seq<Node>, int), crate::grammar::ParseError>(
            (
                seq![Node::Block { name: f, children: seq![Node::Entry { key: a, value: b }] }],
                one_entry_text(f, a, b).len() as int,
            ),
        ),
{
    lemma_plain_quote_free(f);
    lemma_plain_quote_free(a);
    lemma_plain_quote_free(b);
    let u = one_entry_text(f, a, b);
    let fl = f.len() as int;
    let al = a.len() as int;
    let bl = b.len() as int;
    assert(u.subrange(0, fl) =~= f);
    assert(u.subrange(fl + 3, fl + 3 + al) =~= a);
    assert(u.subrange(fl + 4 + al, fl + 4 + al + bl) =~= b);
    assert(u[fl] == ' ' && u[fl + 3 + al] == ' ' && u[fl + 4 + al + bl] == ' ');
    assert(is_special(' '));
    lemma_plain_at(u, 0, f);
    lemma_plain_at(u, fl + 3, a);
    lemma_plain_at(u, fl + 4 + al, b);
    lemma_read_one_entry(f, a, b, f, a, b);
}

#[verifier::spinoff_prover]
#[verifier::rlimit(40)]
proof fn lemma_read_quoted(f: Seq<char>, a: Seq<char>, b: Seq<char>)
    requires
        quote_free(f),
        quote_free(a),
        quote_free(b),
    ensures
        document(one_entry_text(quoted(f), quoted(a), quoted(b))) == Ok::<
            (Seq<Node>, int),
            crate::grammar::ParseError,
        >(
            (
                seq![Node::Block { name: f, children: seq![Node::Entry { key: a, value: b }] }],
                one_entry_text(quoted(f), quoted(a), quoted(b)).len() as int,
            ),
        ),
{
    let q = one_entry_text(quoted(f), quoted(a), quoted(b));
    let fl = f.len() as int;
    let al = a.len() as int;
    let bl = b.len() as int;
    assert(q.subrange(0, fl + 2) =~= quoted(f));
    assert(q.subrange(fl + 5, fl + 7 + al) =~= quoted(a));
    assert(q.subrange(fl + 8 + al, fl + 10 + al + bl) =~= quoted(b));
    lemma_quoted_at(q, 0, f);
    lemma_quoted_at(q, fl + 5, a);
    lemma_quoted_at(q, fl + 8 + al, b);
    lemma_read_one_entry(quoted(f), quoted(a), quoted(b), f, a, b);
}

/// `"Foo" { "a" "b" }` and `Foo { a b }` read as the same document, one
/// block `Foo` that holds the entry `a` `b`, whenever the three strings can be
/// written unquoted.
pub proof fn lemma_quoting_one_entry(f: Seq<char>, a: Seq<char>, b: Seq<char>)
    requires
        plain(f),
        plain(a),
        plain(b),
    ensures
        document(one_entry_text(quoted(f), quoted(a), quoted(b))) matches Ok((x, _))
            && document(one_entry_text(f, a, b)) matches Ok((y, _)) && x == y,
        document(one_entry_text(f, a, b)) matches Ok((y, _)) && y == seq![
            Node::Block { name: f, children: seq![Node::Entry { key: a, value: b }] },
        ],
{
    lemma_plain_quote_free(f);
    lemma_plain_quote_free(a);
    lemma_plain_quote_free(b);
    lemma_read_bare(f, a, b);
    lemma_read_quoted(f, a, b);
}

} // verus!
