use crate::grammar::{
    blocks_at, body_at, block_at, document, entry_at, is_special, is_ws, lemma_skip_ws, lemma_string_at,
    node_at, quote_end, quoted_at, skip_ws, string_at, unquoted_at, unquoted_end, ParseError,
};
use crate::model::{valve_models, Node, Valve, VmfVmt};
use vstd::prelude::*;
use vstd::std_specs::iter::IteratorSpec;
use vstd::string::*;

verus! {

broadcast use vstd::seq::group_seq_axioms, vstd::std_specs::vec::group_vec_axioms;

/// Relies on `String::push`: appends the char to the string.
#[verifier::external_body]
fn push_char(s: &mut String, c: char)
    ensures
        final(s)@ == old(s)@.push(c),
{
    s.push(c)
}

/// An executable result agrees with a result of the grammar.
pub open spec fn agrees(r: Result<(Valve, usize), usize>, t: Result<(Node, int), int>) -> bool {
    match (r, t) {
        (Ok((v, e)), Ok((n, f))) => v@ == n && e == f,
        (Err(p), Err(q)) => p == q,
        _ => false,
    }
}

fn chars_of(input: &str) -> (r: Vec<char>)
    ensures
        r@ == input@,
{
    broadcast use vstd::string::axiom_spec_iter, vstd::string::next_postcondition;

    let mut it = input.chars();
    let mut out: Vec<char> = Vec::new();
    loop
        invariant
            it.obeys_prophetic_iter_laws(),
            it.decrease() is Some,
            out@ + it.remaining() == input@,
        ensures
            out@ == input@,
        decreases it.decrease()->0,
    {
        let ghost before = it.remaining();
        match it.next() {
            Some(c) => {
                out.push(c);
                assert(out@ + it.remaining() =~= input@) by {
                    assert(before =~= seq![c] + it.remaining());
                }
            },
            None => {
                assert(out@ + it.remaining() =~= out@);
                break ;
            },
        }
    }
    out
}

fn is_ws_char(c: char) -> (r: bool)
    ensures
        r == is_ws(c),
{
    c == ' ' || c == '\t' || c == '\r' || c == '\n'
}

fn is_special_char(c: char) -> (r: bool)
    ensures
        r == is_special(c),
{
    is_ws_char(c) || c == '"' || c == '{' || c == '}'
}

fn skip_whitespace(s: &Vec<char>, i: usize) -> (r: usize)
    requires
        i <= s.len(),
    ensures
        r == skip_ws(s@, i as int),
        i <= r <= s.len(),
{
    let mut j = i;
    while j < s.len() && is_ws_char(s[j])
        invariant
            i <= j <= s.len(),
            skip_ws(s@, j as int) == skip_ws(s@, i as int),
        decreases s.len() - j,
    {
        j = j + 1;
    }
    j
}

/// The chars of `s` from `from` to `to` as a string.
fn collect(s: &Vec<char>, from: usize, to: usize) -> (r: String)
    requires
        from <= to <= s.len(),
    ensures
        r@ == s@.subrange(from as int, to as int),
{
    let mut out = String::new();
    let mut j = from;
    while j < to
        invariant
            from <= j <= to <= s.len(),
            out@ == s@.subrange(from as int, j as int),
        decreases to - j,
    {
        push_char(&mut out, s[j]);
        assert(s@.subrange(from as int, j + 1) =~= s@.subrange(from as int, j as int).push(s@[j as int]));
        j = j + 1;
    }
    out
}

/// A string result agrees with a string result of the grammar.
pub open spec fn agrees_string(
    r: Result<(String, usize), usize>,
    t: Result<(Seq<char>, int), int>,
) -> bool {
    match (r, t) {
        (Ok((w, e)), Ok((u, f))) => w@ == u && e == f,
        (Err(p), Err(q)) => p == q,
        _ => false,
    }
}

fn parse_unquoted(s: &Vec<char>, i: usize) -> (r: Result<(String, usize), usize>)
    requires
        i <= s.len(),
    ensures
        agrees_string(r, unquoted_at(s@, i as int)),
{
    if i == s.len() || is_special_char(s[i]) {
        return Err(i);
    }
    let mut j = i;
    while j < s.len() && !is_special_char(s[j])
        invariant
            i <= j <= s.len(),
            unquoted_end(s@, j as int) == unquoted_end(s@, i as int),
        decreases s.len() - j,
    {
        j = j + 1;
    }
    Ok((collect(s, i, j), j))
}

fn parse_quoted(s: &Vec<char>, i: usize) -> (r: Result<(String, usize), usize>)
    requires
        i <= s.len(),
    ensures
        agrees_string(r, quoted_at(s@, i as int)),
{
    if i == s.len() || s[i] != '"' {
        return Err(i);
    }
    let mut j = i + 1;
    while j < s.len() && s[j] != '"'
        invariant
            i < j <= s.len(),
            quote_end(s@, j as int) == quote_end(s@, i + 1),
        decreases s.len() - j,
    {
        j = j + 1;
    }
    if j < s.len() {
        Ok((collect(s, i + 1, j), j + 1))
    } else {
        Err(j)
    }
}

fn parse_string(s: &Vec<char>, i: usize) -> (r: Result<(String, usize), usize>)
    requires
        i <= s.len(),
    ensures
        agrees_string(r, string_at(s@, i as int)),
{
    match parse_unquoted(s, i) {
        Ok(r) => Ok(r),
        Err(_) => parse_quoted(s, i),
    }
}

fn parse_property_value(s: &Vec<char>, i: usize) -> (r: Result<(Valve, usize), usize>)
    requires
        i <= s.len(),
    ensures
        agrees(r, entry_at(s@, i as int)),
        r matches Ok((_, e)) ==> i < e <= s.len(),
{
    proof {
        lemma_string_at(s@, i as int);
    }
    match parse_string(s, i) {
        Ok((key, j)) => {
            let k = skip_whitespace(s, j);
            proof {
                lemma_string_at(s@, k as int);
            }
            match parse_string(s, k) {
                Ok((value, e)) => Ok((Valve::PropertyValue(key, value), e)),
                Err(p) => Err(p),
            }
        },
        Err(p) => Err(p),
    }
}

fn parse_valve(s: &Vec<char>, i: usize) -> (r: Result<(Valve, usize), usize>)
    requires
        i <= s.len(),
    ensures
        agrees(r, node_at(s@, i as int)),
        r matches Ok((_, e)) ==> i < e <= s.len(),
    decreases (s@.len() - i) as nat, 3nat,
{
    match parse_class(s, i) {
        Ok(r) => Ok(r),
        Err(_) => parse_property_value(s, i),
    }
}

fn parse_class(s: &Vec<char>, i: usize) -> (r: Result<(Valve, usize), usize>)
    requires
        i <= s.len(),
    ensures
        agrees(r, block_at(s@, i as int)),
        r matches Ok((_, e)) ==> i < e <= s.len(),
    decreases (s@.len() - i) as nat, 2nat,
{
    proof {
        lemma_string_at(s@, i as int);
    }
    match parse_string(s, i) {
        Ok((class_name, j)) => {
            let k = skip_whitespace(s, j);
            if k < s.len() && s[k] == '{' {
                let (data, e) = parse_body(s, k + 1);
                if e < s.len() && s[e] == '}' {
                    Ok((Valve::Class { class_name, data }, e + 1))
                } else {
                    Err(e)
                }
            } else {
                Err(k)
            }
        },
        Err(p) => Err(p),
    }
}

proof fn lemma_models_push(vs: Seq<Valve>, v: Valve)
    ensures
        valve_models(vs.push(v)) == valve_models(vs).push(v@),
{
    assert(vs.push(v).drop_last() =~= vs);
}

fn parse_body(s: &Vec<char>, i: usize) -> (r: (Vec<Valve>, usize))
    requires
        i <= s.len(),
    ensures
        valve_models(r.0@) == body_at(s@, i as int).0,
        r.1 == body_at(s@, i as int).1,
        i <= r.1 <= s.len(),
    decreases (s@.len() - i) as nat, 4nat,
{
    let ghost total = body_at(s@, i as int);
    let mut data: Vec<Valve> = Vec::new();
    let mut j = i;
    loop
        invariant
            i <= j <= s.len(),
            total == body_at(s@, i as int),
            total.0 == valve_models(data@) + body_at(s@, j as int).0,
            total.1 == body_at(s@, j as int).1,
        decreases s.len() - j,
    {
        let a = skip_whitespace(s, j);
        match parse_valve(s, a) {
            Ok((v, b)) => {
                proof {
                    lemma_models_push(data@, v);
                    let rest = body_at(s@, b as int).0;
                    assert(valve_models(data@) + (seq![v@] + rest) =~= valve_models(data@).push(v@)
                        + rest);
                }
                data.push(v);
                j = b;
            },
            Err(_) => {
                assert(valve_models(data@) + Seq::<Node>::empty() =~= valve_models(data@));
                return (data, a);
            },
        }
    }
}

/// Reads a file: one or more blocks, each with optional whitespace around it.
/// On success, the text after the last block that could be read, and the
/// blocks in order.
pub fn parse_vmf_vmt(input: &str) -> (r: Result<(&str, VmfVmt), ParseError>)
    ensures
        match (r, document(input@)) {
            (Ok((rest, data)), Ok((nodes, e))) => valve_models(data@) == nodes && rest@
                == input@.subrange(e, input@.len() as int),
            (Err(x), Err(y)) => x == y,
            _ => false,
        },
{
    let s = chars_of(input);
    let a = skip_whitespace(&s, 0);
    if a >= s.len() {
        return Err(ParseError::EmptyInput);
    }
    match parse_class(&s, a) {
        Err(p) => Err(ParseError::Syntax { offset: p }),
        Ok((first, b)) => {
            let mut j = skip_whitespace(&s, b);
            let ghost total = seq![first@] + blocks_at(s@, j as int).0;
            let ghost stop = blocks_at(s@, j as int).1;
            let mut data: Vec<Valve> = Vec::new();
            proof {
                lemma_models_push(data@, first);
            }
            data.push(first);
            loop
                invariant
                    j <= s.len(),
                    s@ == input@,
                    total == valve_models(data@) + blocks_at(s@, j as int).0,
                    stop == blocks_at(s@, j as int).1,
                ensures
                    j <= s.len(),
                    total == valve_models(data@),
                    stop == j,
                decreases s.len() - j,
            {
                match parse_class(&s, j) {
                    Ok((v, e)) => {
                        proof {
                            lemma_models_push(data@, v);
                            lemma_skip_ws(s@, e as int);
                            let rest = blocks_at(s@, skip_ws(s@, e as int)).0;
                            assert(valve_models(data@) + (seq![v@] + rest) =~= valve_models(
                                data@,
                            ).push(v@) + rest);
                        }
                        data.push(v);
                        j = skip_whitespace(&s, e);
                    },
                    Err(_) => {
                        assert(valve_models(data@) + Seq::<Node>::empty() =~= valve_models(data@));
                        break ;
                    },
                }
            }
            Ok((input.substring_char(j, s.len()), data))
        },
    }
}

} // verus!
