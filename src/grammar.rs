use crate::model::Node;
use vstd::prelude::*;

verus! {

broadcast use vstd::seq::group_seq_axioms;

/// Why a text is not a well-formed file.
#[derive(PartialEq, Eq, Debug, Clone, Copy)]
pub enum ParseError {
    /// The text holds nothing but whitespace.
    EmptyInput,
    /// The grammar is not met at char `offset` of the text.
    Syntax { offset: usize },
}

/// Space, tab, carriage return or line feed.
pub open spec fn is_ws(c: char) -> bool {
    c == ' ' || c == '\t' || c == '\r' || c == '\n'
}

/// A char that ends an unquoted string.
pub open spec fn is_special(c: char) -> bool {
    is_ws(c) || c == '"' || c == '{' || c == '}'
}

/// The first position at or after `i` that holds no whitespace.
pub open spec fn skip_ws(s: Seq<char>, i: int) -> int
    decreases s.len() - i,
{
    if 0 <= i < s.len() && is_ws(s[i]) {
        skip_ws(s, i + 1)
    } else {
        i
    }
}

/// The first position at or after `i` that holds a special char.
pub open spec fn unquoted_end(s: Seq<char>, i: int) -> int
    decreases s.len() - i,
{
    if 0 <= i < s.len() && !is_special(s[i]) {
        unquoted_end(s, i + 1)
    } else {
        i
    }
}

/// The first position at or after `i` that holds a quote.
pub open spec fn quote_end(s: Seq<char>, i: int) -> int
    decreases s.len() - i,
{
    if 0 <= i < s.len() && s[i] != '"' {
        quote_end(s, i + 1)
    } else {
        i
    }
}

/// An unquoted string at `i`: the longest run of ordinary chars there, which
/// must not be empty. On success, the run and the position after it; else `i`.
pub open spec fn unquoted_at(s: Seq<char>, i: int) -> Result<(Seq<char>, int), int> {
    if 0 <= i < s.len() && !is_special(s[i]) {
        let e = unquoted_end(s, i);
        Ok((s.subrange(i, e), e))
    } else {
        Err(i)
    }
}

/// A quoted string at `i`: a quote, the chars up to the next quote taken
/// verbatim, and that quote. On success, the chars between the quotes and the
/// position after the closing one; else the position at which it could not be
/// read (`i` where no quote opens, the end of the text where none closes).
pub open spec fn quoted_at(s: Seq<char>, i: int) -> Result<(Seq<char>, int), int> {
    if 0 <= i < s.len() && s[i] == '"' {
        let e = quote_end(s, i + 1);
        if e < s.len() {
            Ok((s.subrange(i + 1, e), e + 1))
        } else {
            Err(e)
        }
    } else {
        Err(i)
    }
}

/// A string token at `i`: an unquoted string where one can be read, else a
/// quoted one.
pub open spec fn string_at(s: Seq<char>, i: int) -> Result<(Seq<char>, int), int> {
    match unquoted_at(s, i) {
        Ok(r) => Ok(r),
        Err(_) => quoted_at(s, i),
    }
}

/// An entry at `i`: two strings, with optional whitespace between them.
pub open spec fn entry_at(s: Seq<char>, i: int) -> Result<(Node, int), int> {
    match string_at(s, i) {
        Ok((key, j)) => match string_at(s, skip_ws(s, j)) {
            Ok((value, e)) => Ok((Node::Entry { key, value }, e)),
            Err(p) => Err(p),
        },
        Err(p) => Err(p),
    }
}

pub proof fn lemma_skip_ws(s: Seq<char>, i: int)
    ensures
        skip_ws(s, i) >= i,
        0 <= i <= s.len() ==> skip_ws(s, i) <= s.len(),
        0 <= skip_ws(s, i) < s.len() ==> !is_ws(s[skip_ws(s, i)]),
    decreases s.len() - i,
{
    if 0 <= i < s.len() && is_ws(s[i]) {
        lemma_skip_ws(s, i + 1);
    }
}

pub proof fn lemma_unquoted_end(s: Seq<char>, i: int)
    ensures
        unquoted_end(s, i) >= i,
        0 <= i <= s.len() ==> unquoted_end(s, i) <= s.len(),
        forall|k: int| i <= k < unquoted_end(s, i) ==> !is_special(#[trigger] s[k]),
        0 <= unquoted_end(s, i) < s.len() ==> is_special(s[unquoted_end(s, i)]),
    decreases s.len() - i,
{
    if 0 <= i < s.len() && !is_special(s[i]) {
        lemma_unquoted_end(s, i + 1);
    }
}

pub proof fn lemma_quote_end(s: Seq<char>, i: int)
    ensures
        quote_end(s, i) >= i,
        0 <= i <= s.len() ==> quote_end(s, i) <= s.len(),
        forall|k: int| i <= k < quote_end(s, i) ==> #[trigger] s[k] != '"',
        0 <= quote_end(s, i) < s.len() ==> s[quote_end(s, i)] == '"',
    decreases s.len() - i,
{
    if 0 <= i < s.len() && s[i] != '"' {
        lemma_quote_end(s, i + 1);
    }
}

pub proof fn lemma_string_at(s: Seq<char>, i: int)
    ensures
        string_at(s, i) matches Ok((_, e)) ==> 0 <= i < e <= s.len(),
        string_at(s, i) matches Err(p) ==> p >= i && (0 <= i <= s.len() ==> p <= s.len()),
{
    lemma_unquoted_end(s, i);
    lemma_quote_end(s, i + 1);
}

/// A node at `i`: a block where one can be read there, else an entry.
pub open spec fn node_at(s: Seq<char>, i: int) -> Result<(Node, int), int>
    decreases (s.len() - i) as nat, 3nat,
{
    match block_at(s, i) {
        Ok(r) => Ok(r),
        Err(_) => entry_at(s, i),
    }
}

/// A block at `i`: a string, `{`, the nodes of its body and `}`, with optional
/// whitespace between the tokens.
pub open spec fn block_at(s: Seq<char>, i: int) -> Result<(Node, int), int>
    decreases (s.len() - i) as nat, 2nat,
{
    match string_at(s, i) {
        Ok((name, j)) => {
            let k = skip_ws(s, j);
            if 0 <= k < s.len() && s[k] == '{' {
                proof {
                    lemma_string_at(s, i);
                    lemma_skip_ws(s, j);
                }
                let (children, e) = body_at(s, k + 1);
                if 0 <= e < s.len() && s[e] == '}' {
                    Ok((Node::Block { name, children }, e + 1))
                } else {
                    Err(e)
                }
            } else {
                Err(k)
            }
        },
        Err(p) => Err(p),
    }
}

/// The nodes of a block's body from `i` on, each after optional whitespace, as
/// many as can be read; and the position after the whitespace that follows
/// the last of them.
pub open spec fn body_at(s: Seq<char>, i: int) -> (Seq<Node>, int)
    decreases (s.len() - i) as nat, 4nat,
{
    let a = skip_ws(s, i);
    proof {
        lemma_skip_ws(s, i);
    }
    match node_at(s, a) {
        Ok((n, b)) => {
            if i < b <= s.len() {
                let (rest, e) = body_at(s, b);
                (seq![n] + rest, e)
            } else {
                (seq![], a)
            }
        },
        Err(_) => (seq![], a),
    }
}

/// The blocks of a file from `i` on, each followed by optional whitespace, as
/// many as can be read; and the position where reading stopped.
pub open spec fn blocks_at(s: Seq<char>, i: int) -> (Seq<Node>, int)
    decreases (s.len() - i) as nat,
{
    match block_at(s, i) {
        Ok((n, b)) => {
            if i < b <= s.len() {
                proof {
                    lemma_skip_ws(s, b);
                }
                let (rest, e) = blocks_at(s, skip_ws(s, b));
                (seq![n] + rest, e)
            } else {
                (seq![], i)
            }
        },
        Err(_) => (seq![], i),
    }
}

/// A file: one or more blocks, with optional whitespace around each. On
/// success, the blocks and the position where reading stopped; the text after
/// it is left to the caller.
pub open spec fn document(s: Seq<char>) -> Result<(Seq<Node>, int), ParseError> {
    let a = skip_ws(s, 0);
    if a >= s.len() {
        Err(ParseError::EmptyInput)
    } else {
        match block_at(s, a) {
            Ok((n, b)) => {
                let (rest, e) = blocks_at(s, skip_ws(s, b));
                Ok((seq![n] + rest, e))
            },
            Err(p) => Err(ParseError::Syntax { offset: p as usize }),
        }
    }
}

} // verus!
