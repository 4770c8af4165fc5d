//! Reading a content expression: tokens, then a recursive-descent parser
//! that builds the expression tree.
use vstd::prelude::*;
use std::sync::Arc;

use crate::schema::NodeType;
use crate::automaton::expr_types_in;
use crate::language::{ExprV, expr_view, seqs_nonempty, children_view, lemma_children_view, children};
use crate::util::{share, char_is_whitespace, char_is_alphanumeric, spec_char_is_whitespace,
    spec_char_is_alphanumeric, string_from_chars, append_str, str_eq_chars};

verus! {

/// The tree of a content expression.
pub enum Expr {
    Name(Arc<NodeType>),
    Choice(Vec<Expr>),
    Sequence(Vec<Expr>),
    Plus(Box<Expr>),
    Star(Box<Expr>),
    Opt(Box<Expr>),
    Range { min: usize, max: Option<usize>, expr: Box<Expr> },
}

/// A character that forms a token of its own.
pub open spec fn is_special(c: char) -> bool {
    c == '(' || c == ')' || c == '{' || c == '}' || c == '|' || c == '+' || c == '*' || c == '?'
        || c == ','
}

/// `acc` with the pending word `cur` added, when there is one.
pub open spec fn flush(acc: Seq<Seq<char>>, cur: Seq<char>) -> Seq<Seq<char>> {
    if cur.len() == 0 {
        acc
    } else {
        acc.push(cur)
    }
}

/// Tokens of `s` from index `i`, given the pending word `cur` and the tokens
/// `acc` found so far: white space separates words, and each special
/// character is a token of its own.
pub open spec fn tokens_from(s: Seq<char>, i: int, cur: Seq<char>, acc: Seq<Seq<char>>) -> Seq<
    Seq<char>,
>
    decreases s.len() - i,
{
    if i < 0 || i >= s.len() {
        flush(acc, cur)
    } else if spec_char_is_whitespace(s[i]) {
        tokens_from(s, i + 1, seq![], flush(acc, cur))
    } else if is_special(s[i]) {
        tokens_from(s, i + 1, seq![], flush(acc, cur).push(seq![s[i]]))
    } else {
        tokens_from(s, i + 1, cur.push(s[i]), acc)
    }
}

/// The tokens of a content expression.
pub open spec fn tokenize(s: Seq<char>) -> Seq<Seq<char>> {
    tokens_from(s, 0, seq![], seq![])
}

/// Splits a content expression into tokens.
pub fn tokenize_exec(s: &[char]) -> (r: Vec<Vec<char>>)
    ensures
        r@.map_values(|t: Vec<char>| t@) == tokenize(s@),
{
    let mut acc: Vec<Vec<char>> = Vec::new();
    let mut cur: Vec<char> = Vec::new();
    let mut i: usize = 0;
    assert(acc@.map_values(|t: Vec<char>| t@) =~= Seq::<Seq<char>>::empty());
    assert(cur@ =~= Seq::<char>::empty());
    while i < s.len()
        invariant
            i <= s@.len(),
            tokens_from(s@, i as int, cur@, acc@.map_values(|t: Vec<char>| t@)) == tokenize(s@),
        decreases s@.len() - i,
    {
        let c = s[i];
        let ghost acc0 = acc@.map_values(|t: Vec<char>| t@);
        let ghost cur0 = cur@;
        if char_is_whitespace(c) {
            if cur.len() > 0 {
                acc.push(cur);
            }
            cur = Vec::new();
            assert(acc@.map_values(|t: Vec<char>| t@) =~= flush(acc0, cur0));
        } else if c == '(' || c == ')' || c == '{' || c == '}' || c == '|' || c == '+' || c == '*'
            || c == '?' || c == ',' {
            if cur.len() > 0 {
                acc.push(cur);
            }
            let mut one: Vec<char> = Vec::new();
            one.push(c);
            acc.push(one);
            cur = Vec::new();
            assert(acc@.map_values(|t: Vec<char>| t@) =~= flush(acc0, cur0).push(seq![c]));
        } else {
            cur.push(c);
            assert(acc@.map_values(|t: Vec<char>| t@) =~= acc0);
        }
        i = i + 1;
        assert(cur@ =~= (if spec_char_is_whitespace(c) || is_special(c) { seq![] } else { cur0.push(c) }));
    }
    let ghost acc0 = acc@.map_values(|t: Vec<char>| t@);
    let ghost cur0 = cur@;
    if cur.len() > 0 {
        acc.push(cur);
    }
    assert(acc@.map_values(|t: Vec<char>| t@) =~= flush(acc0, cur0));
    acc
}

/// A parse result: the position after what was read and the inline flag,
/// or an error message.
pub type PRes = Result<(int, Option<bool>), Seq<char>>;

/// An error message about the expression `ex`.
pub open spec fn emsg(msg: Seq<char>, ex: Seq<char>) -> Seq<char> {
    msg + " (in content expression '"@ + ex + "')"@
}

/// The token at `p` is the one-character token `c`.
pub open spec fn tok_is(ts: Seq<Seq<char>>, p: int, c: char) -> bool {
    0 <= p < ts.len() && ts[p] == seq![c]
}

/// The token is a name: its characters are alphanumeric or underscores.
pub open spec fn is_name_token(t: Seq<char>) -> bool {
    forall|i: int| 0 <= i < t.len() ==> spec_char_is_alphanumeric(#[trigger] t[i]) || t[i] == '_'
}

/// The value of a string of decimal digits, or none when a character is not
/// an ASCII digit.
pub open spec fn digits_value(t: Seq<char>) -> Option<nat>
    decreases t.len(),
{
    if t.len() == 0 {
        Some(0)
    } else {
        let c = t.last();
        if '0' <= c && c <= '9' {
            match digits_value(t.drop_last()) {
                Some(v) => Some((v * 10 + (c as nat - '0' as nat)) as nat),
                None => None,
            }
        } else {
            None
        }
    }
}

/// The token reads as a number that fits a `usize`.
pub open spec fn num_token(t: Seq<char>) -> bool {
    &&& t.len() > 0
    &&& digits_value(t) matches Some(v) && v <= usize::MAX
}

/// The index of the first type named `name`, if any.
pub open spec fn first_named(types: Seq<Arc<NodeType>>, name: Seq<char>) -> Option<int> {
    if exists|i: int| 0 <= i < types.len() && types[i].name@ == name {
        Some(choose|i: int| 0 <= i < types.len() && types[i].name@ == name && forall|j: int| 0 <= j < i ==> types[j].name@ != name)
    } else {
        None
    }
}

/// The types a name stands for: the type of that name, else every type of
/// the group of that name, in order.
pub open spec fn resolve(types: Seq<Arc<NodeType>>, name: Seq<char>) -> Seq<Arc<NodeType>> {
    match first_named(types, name) {
        Some(i) => seq![types[i]],
        None => types.filter(|t: Arc<NodeType>| crate::schema::spec_in_group(*t, name)),
    }
}

/// The inline flag after reading types `ts`: the first type read fixes it,
/// and a later type of the other kind is an error (none).
pub open spec fn inline_fold(ts: Seq<Arc<NodeType>>, inl: Option<bool>) -> Option<Option<bool>>
    decreases ts.len(),
{
    if ts.len() == 0 {
        Some(inl)
    } else {
        match inline_fold(ts.drop_last(), inl) {
            None => None,
            Some(i) => {
                let is_inl = !ts.last().is_block;
                match i {
                    None => Some(Some(is_inl)),
                    Some(prev) => if prev != is_inl {
                        None
                    } else {
                        Some(Some(prev))
                    },
                }
            },
        }
    }
}

/// Reads a number at `p`; the position after it.
pub open spec fn p_num(ts: Seq<Seq<char>>, ex: Seq<char>, p: int) -> Result<int, Seq<char>> {
    if 0 <= p < ts.len() {
        if num_token(ts[p]) {
            Ok(p + 1)
        } else {
            Err(emsg("Expected number, got '"@ + ts[p] + "'"@, ex))
        }
    } else {
        Err(emsg("Expected number"@, ex))
    }
}

/// Reads the inside of a braced range, after `{`.
pub open spec fn p_range(ts: Seq<Seq<char>>, ex: Seq<char>, p: int) -> Result<int, Seq<char>> {
    match p_num(ts, ex, p) {
        Err(m) => Err(m),
        Ok(p1) => {
            let p2 = if tok_is(ts, p1, ',') {
                if !tok_is(ts, p1 + 1, '}') {
                    p_num(ts, ex, p1 + 1)
                } else {
                    Ok(p1 + 1)
                }
            } else {
                Ok(p1)
            };
            match p2 {
                Err(m) => Err(m),
                Ok(q) => if tok_is(ts, q, '}') {
                    Ok(q + 1)
                } else {
                    Err(emsg("Unclosed braced range"@, ex))
                },
            }
        },
    }
}

/// A read from `p` that ended at `q` moved forward within the tokens.
pub open spec fn advanced(ts: Seq<Seq<char>>, p: int, q: int) -> bool {
    p < q <= ts.len()
}

/// The message for a read that did not move forward; no read gives it.
pub open spec fn stuck() -> Seq<char> {
    seq![]
}

/// Alternatives `| seq` after the first, from `p`.
pub open spec fn p_alts(
    ts: Seq<Seq<char>>,
    types: Seq<Arc<NodeType>>,
    ex: Seq<char>,
    p: int,
    inl: Option<bool>,
) -> PRes
    decreases ts.len() - p, 3int,
{
    if 0 <= p && tok_is(ts, p, '|') {
        match p_seq(ts, types, ex, p + 1, inl) {
            Err(m) => Err(m),
            Ok((q, i)) => if advanced(ts, p + 1, q) {
                p_alts(ts, types, ex, q, i)
            } else {
                Err(stuck())
            },
        }
    } else {
        Ok((p, inl))
    }
}

/// An expression: sequences separated by `|`.
pub open spec fn p_expr(
    ts: Seq<Seq<char>>,
    types: Seq<Arc<NodeType>>,
    ex: Seq<char>,
    p: int,
    inl: Option<bool>,
) -> PRes
    decreases ts.len() - p, 4int,
{
    if p < 0 || p > ts.len() {
        Err(stuck())
    } else {
        match p_seq(ts, types, ex, p, inl) {
            Err(m) => Err(m),
            Ok((q, i)) => if advanced(ts, p, q) {
                p_alts(ts, types, ex, q, i)
            } else {
                Err(stuck())
            },
        }
    }
}

/// Further items of a sequence, up to the end, `)` or `|`.
pub open spec fn p_seq_more(
    ts: Seq<Seq<char>>,
    types: Seq<Arc<NodeType>>,
    ex: Seq<char>,
    p: int,
    inl: Option<bool>,
) -> PRes
    decreases ts.len() - p, 2int,
{
    if 0 <= p < ts.len() && !tok_is(ts, p, ')') && !tok_is(ts, p, '|') {
        match p_sub(ts, types, ex, p, inl) {
            Err(m) => Err(m),
            Ok((q, i)) => if advanced(ts, p, q) {
                p_seq_more(ts, types, ex, q, i)
            } else {
                Err(stuck())
            },
        }
    } else {
        Ok((p, inl))
    }
}

/// A sequence: one or more subscripted atoms.
pub open spec fn p_seq(
    ts: Seq<Seq<char>>,
    types: Seq<Arc<NodeType>>,
    ex: Seq<char>,
    p: int,
    inl: Option<bool>,
) -> PRes
    decreases ts.len() - p, 2int,
{
    if p < 0 || p > ts.len() {
        Err(stuck())
    } else {
        match p_sub(ts, types, ex, p, inl) {
            Err(m) => Err(m),
            Ok((q, i)) => if advanced(ts, p, q) {
                p_seq_more(ts, types, ex, q, i)
            } else {
                Err(stuck())
            },
        }
    }
}

/// Postfix operators after an atom: `+`, `*`, `?` and braced ranges.
pub open spec fn p_post(
    ts: Seq<Seq<char>>,
    ex: Seq<char>,
    p: int,
    inl: Option<bool>,
) -> PRes
    decreases ts.len() - p,
{
    if 0 <= p && (tok_is(ts, p, '+') || tok_is(ts, p, '*') || tok_is(ts, p, '?')) {
        p_post(ts, ex, p + 1, inl)
    } else if 0 <= p && tok_is(ts, p, '{') {
        match p_range(ts, ex, p + 1) {
            Err(m) => Err(m),
            Ok(q) => if advanced(ts, p, q) {
                p_post(ts, ex, q, inl)
            } else {
                Err(stuck())
            },
        }
    } else {
        Ok((p, inl))
    }
}

/// An atom followed by postfix operators.
pub open spec fn p_sub(
    ts: Seq<Seq<char>>,
    types: Seq<Arc<NodeType>>,
    ex: Seq<char>,
    p: int,
    inl: Option<bool>,
) -> PRes
    decreases ts.len() - p, 1int,
{
    if p < 0 || p > ts.len() {
        Err(stuck())
    } else {
        match p_atom(ts, types, ex, p, inl) {
            Err(m) => Err(m),
            Ok((q, i)) => if advanced(ts, p, q) {
                p_post(ts, ex, q, i)
            } else {
                Err(stuck())
            },
        }
    }
}

/// An atom: a parenthesized expression or a name.
pub open spec fn p_atom(
    ts: Seq<Seq<char>>,
    types: Seq<Arc<NodeType>>,
    ex: Seq<char>,
    p: int,
    inl: Option<bool>,
) -> PRes
    decreases ts.len() - p, 0int,
{
    if p < 0 || p > ts.len() {
        Err(stuck())
    } else if tok_is(ts, p, '(') {
        match p_expr(ts, types, ex, p + 1, inl) {
            Err(m) => Err(m),
            Ok((q, i)) => if tok_is(ts, q, ')') {
                Ok((q + 1, i))
            } else {
                Err(emsg("Missing closing paren"@, ex))
            },
        }
    } else if p >= ts.len() {
        Err(emsg("Unexpected end of expression"@, ex))
    } else if is_name_token(ts[p]) {
        let rs = resolve(types, ts[p]);
        if rs.len() == 0 {
            Err(emsg("No node type or group '"@ + ts[p] + "' found"@, ex))
        } else {
            match inline_fold(rs, inl) {
                None => Err(emsg("Mixing inline and block content"@, ex)),
                Some(i) => Ok((p + 1, i)),
            }
        }
    } else {
        Err(emsg("Unexpected token '"@ + ts[p] + "'"@, ex))
    }
}

/// The position and inline flag after a successful read, or the given ones.
pub open spec fn after(r: PRes, p: int, inl: Option<bool>) -> (int, Option<bool>) {
    match r {
        Ok(x) => x,
        Err(_) => (p, inl),
    }
}

/// A sequence or choice of the trees `vs`: the single tree itself when
/// there is one.
pub open spec fn combine(vs: Seq<crate::language::ExprV>, choice: bool) -> crate::language::ExprV {
    if vs.len() == 1 {
        vs[0]
    } else if choice {
        crate::language::ExprV::Choice(vs)
    } else {
        crate::language::ExprV::Sequence(vs)
    }
}

/// The bounds of a braced range whose inside starts at `p`.
pub open spec fn range_bounds(ts: Seq<Seq<char>>, p: int) -> (nat, Option<nat>) {
    let min = digits_value(ts[p])->0;
    if tok_is(ts, p + 1, ',') {
        if !tok_is(ts, p + 2, '}') {
            (min, Some(digits_value(ts[p + 2])->0))
        } else {
            (min, None)
        }
    } else {
        (min, Some(min))
    }
}

/// The tree read by `p_expr` at `p`.
pub open spec fn t_expr(ts: Seq<Seq<char>>, types: Seq<Arc<NodeType>>, ex: Seq<char>, p: int, inl: Option<bool>) -> crate::language::ExprV
    decreases ts.len() - p, 4int,
{
    if p < 0 || p > ts.len() {
        crate::language::ExprV::Choice(seq![])
    } else {
        let first = t_seq(ts, types, ex, p, inl);
        let (q, i) = after(p_seq(ts, types, ex, p, inl), p, inl);
        if advanced(ts, p, q) {
            combine(seq![first] + t_alts(ts, types, ex, q, i), true)
        } else {
            first
        }
    }
}

/// The trees of the alternatives read by `p_alts` at `p`.
pub open spec fn t_alts(ts: Seq<Seq<char>>, types: Seq<Arc<NodeType>>, ex: Seq<char>, p: int, inl: Option<bool>) -> Seq<crate::language::ExprV>
    decreases ts.len() - p, 3int,
{
    if 0 <= p && tok_is(ts, p, '|') {
        let a = t_seq(ts, types, ex, p + 1, inl);
        let (q, i) = after(p_seq(ts, types, ex, p + 1, inl), p + 1, inl);
        if advanced(ts, p + 1, q) {
            seq![a] + t_alts(ts, types, ex, q, i)
        } else {
            seq![a]
        }
    } else {
        seq![]
    }
}

/// The tree read by `p_seq` at `p`.
pub open spec fn t_seq(ts: Seq<Seq<char>>, types: Seq<Arc<NodeType>>, ex: Seq<char>, p: int, inl: Option<bool>) -> crate::language::ExprV
    decreases ts.len() - p, 2int,
{
    if p < 0 || p > ts.len() {
        crate::language::ExprV::Choice(seq![])
    } else {
        let first = t_sub(ts, types, ex, p, inl);
        let (q, i) = after(p_sub(ts, types, ex, p, inl), p, inl);
        if advanced(ts, p, q) {
            combine(seq![first] + t_seq_more(ts, types, ex, q, i), false)
        } else {
            first
        }
    }
}

/// The trees of the further items read by `p_seq_more` at `p`.
pub open spec fn t_seq_more(ts: Seq<Seq<char>>, types: Seq<Arc<NodeType>>, ex: Seq<char>, p: int, inl: Option<bool>) -> Seq<crate::language::ExprV>
    decreases ts.len() - p, 2int,
{
    if 0 <= p < ts.len() && !tok_is(ts, p, ')') && !tok_is(ts, p, '|') {
        let a = t_sub(ts, types, ex, p, inl);
        let (q, i) = after(p_sub(ts, types, ex, p, inl), p, inl);
        if advanced(ts, p, q) {
            seq![a] + t_seq_more(ts, types, ex, q, i)
        } else {
            seq![a]
        }
    } else {
        seq![]
    }
}

/// The tree read by `p_sub` at `p`.
pub open spec fn t_sub(ts: Seq<Seq<char>>, types: Seq<Arc<NodeType>>, ex: Seq<char>, p: int, inl: Option<bool>) -> crate::language::ExprV
    decreases ts.len() - p, 1int,
{
    if p < 0 || p > ts.len() {
        crate::language::ExprV::Choice(seq![])
    } else {
        let a = t_atom(ts, types, ex, p, inl);
        let (q, i) = after(p_atom(ts, types, ex, p, inl), p, inl);
        if advanced(ts, p, q) {
            t_post(ts, ex, q, a)
        } else {
            a
        }
    }
}

/// The tree `acc` with the postfix operators at `p` applied.
pub open spec fn t_post(ts: Seq<Seq<char>>, ex: Seq<char>, p: int, acc: crate::language::ExprV) -> crate::language::ExprV
    decreases ts.len() - p,
{
    if 0 <= p && tok_is(ts, p, '+') {
        t_post(ts, ex, p + 1, crate::language::ExprV::Plus(Box::new(acc)))
    } else if 0 <= p && tok_is(ts, p, '*') {
        t_post(ts, ex, p + 1, crate::language::ExprV::Star(Box::new(acc)))
    } else if 0 <= p && tok_is(ts, p, '?') {
        t_post(ts, ex, p + 1, crate::language::ExprV::Opt(Box::new(acc)))
    } else if 0 <= p && tok_is(ts, p, '{') {
        match p_range(ts, ex, p + 1) {
            Ok(q) => if advanced(ts, p, q) {
                let (mn, mx) = range_bounds(ts, p + 1);
                t_post(ts, ex, q, crate::language::ExprV::Range { min: mn, max: mx, expr: Box::new(acc) })
            } else {
                acc
            },
            Err(_) => acc,
        }
    } else {
        acc
    }
}

/// The tree read by `p_atom` at `p`.
pub open spec fn t_atom(ts: Seq<Seq<char>>, types: Seq<Arc<NodeType>>, ex: Seq<char>, p: int, inl: Option<bool>) -> crate::language::ExprV
    decreases ts.len() - p, 0int,
{
    if p < 0 || p > ts.len() {
        crate::language::ExprV::Choice(seq![])
    } else if tok_is(ts, p, '(') {
        t_expr(ts, types, ex, p + 1, inl)
    } else if p < ts.len() {
        let rs = resolve(types, ts[p]);
        combine(rs.map_values(|t: Arc<NodeType>| crate::language::ExprV::Name(t)), true)
    } else {
        crate::language::ExprV::Choice(seq![])
    }
}

/// The values of a list of expression trees.
pub open spec fn views(es: Seq<Expr>) -> Seq<ExprV> {
    es.map_values(|e: Expr| expr_view(e))
}

/// The tree of a content expression whose syntax is correct.
pub open spec fn spec_tree(ex: Seq<char>, types: Seq<Arc<NodeType>>) -> crate::language::ExprV {
    t_expr(tokenize(ex), types, ex, 0, None)
}

/// The syntax check of a whole content expression over the given node types:
/// no tokens, or an expression that uses every token; else the message of
/// the first error.
pub open spec fn spec_syntax(ex: Seq<char>, types: Seq<Arc<NodeType>>) -> Result<(), Seq<char>> {
    let ts = tokenize(ex);
    if ts.len() == 0 {
        Ok(())
    } else {
        match p_expr(ts, types, ex, 0, None) {
            Err(m) => Err(m),
            Ok((q, _)) => if q < ts.len() {
                Err(emsg("Unexpected trailing text"@, ex))
            } else {
                Ok(())
            },
        }
    }
}

} // verus!

verus! {

/// The tokens of an expression, the expression itself (for messages) and
/// the node types that names may refer to.
pub struct Tokens {
    pub toks: Vec<Vec<char>>,
    pub ex: Vec<char>,
    pub types: Vec<Arc<NodeType>>,
}

/// The position of the reader and the inline flag fixed by the first name.
pub struct PState {
    pub pos: usize,
    pub inline: Option<bool>,
}

impl Tokens {
    pub open spec fn ts(&self) -> Seq<Seq<char>> {
        self.toks@.map_values(|t: Vec<char>| t@)
    }
}

/// An exec result agrees with the spec result `s` of the same read.
pub open spec fn agrees<T>(r: Result<T, String>, s: PRes, st: PState, len: int) -> bool {
    match r {
        Ok(_) => s == Ok::<(int, Option<bool>), Seq<char>>((st.pos as int, st.inline)) && st.pos <= len,
        Err(m) => s == Err::<(int, Option<bool>), Seq<char>>(m@),
    }
}

/// Whether the token at `p` is the one-character token `c`.
fn tok_is_exec(tk: &Tokens, p: usize, c: char) -> (r: bool)
    ensures
        r == tok_is(tk.ts(), p as int, c),
        r ==> p < tk.toks@.len(),
        tk.ts().len() == tk.toks@.len(),
        tk.toks@.len() <= usize::MAX,
{
    let _n = tk.toks.len();
    if p < tk.toks.len() {
        let t = &tk.toks[p];
        proof {
            assert(tk.ts()[p as int] == t@);
        }
        if t.len() == 1 && t[0] == c {
            assert(t@ =~= seq![c]);
            true
        } else {
            false
        }
    } else {
        false
    }
}

/// The message `msg` about this expression.
pub fn err(tk: &Tokens, msg: &str) -> (r: String)
    ensures
        r@ == emsg(msg@, tk.ex@),
{
    let mut s = String::from_str(msg);
    append_str(&mut s, " (in content expression '");
    let e = string_from_chars(tk.ex.as_slice());
    append_str(&mut s, e.as_str());
    append_str(&mut s, "')");
    assert(s@ =~= emsg(msg@, tk.ex@));
    s
}

/// The message `pre` + token `t` + `post` about this expression.
fn err_tok(tk: &Tokens, pre: &str, t: &Vec<char>, post: &str) -> (r: String)
    ensures
        r@ == emsg(pre@ + t@ + post@, tk.ex@),
{
    let mut m = String::from_str(pre);
    let ts = string_from_chars(t.as_slice());
    append_str(&mut m, ts.as_str());
    append_str(&mut m, post);
    let r = err(tk, m.as_str());
    assert(m@ =~= pre@ + t@ + post@);
    r
}

/// Reads a decimal number of at most `usize::MAX`.
fn read_number(t: &Vec<char>) -> (r: Option<usize>)
    ensures
        match r {
            Some(n) => num_token(t@) && digits_value(t@) == Some(n as nat),
            None => !num_token(t@),
        },
{
    if t.len() == 0 {
        return None;
    }
    let mut v: usize = 0;
    let mut i: usize = 0;
    while i < t.len()
        invariant
            i <= t@.len(),
            digits_value(t@.subrange(0, i as int)) == Some(v as nat),
        decreases t@.len() - i,
    {
        let c = t[i];
        assert(t@.subrange(0, i + 1).drop_last() =~= t@.subrange(0, i as int));
        assert(t@.subrange(0, i + 1).last() == c);
        if !('0' <= c && c <= '9') {
            proof {
                lemma_digits_none(t@, i as int + 1);
            }
            return None;
        }
        let d = (c as u32 - '0' as u32) as usize;
        if v > (usize::MAX - d) / 10 {
            proof {
                lemma_digits_grow(t@, i as int + 1);
            }
            return None;
        }
        v = v * 10 + d;
        i = i + 1;
    }
    assert(t@.subrange(0, t@.len() as int) =~= t@);
    Some(v)
}

/// A prefix that is not all digits makes the whole token not all digits.
proof fn lemma_digits_none(t: Seq<char>, k: int)
    requires
        0 <= k <= t.len(),
        digits_value(t.subrange(0, k)) is None,
    ensures
        digits_value(t) is None,
    decreases t.len() - k,
{
    if k < t.len() {
        assert(t.subrange(0, k + 1).drop_last() =~= t.subrange(0, k));
        lemma_digits_none(t, k + 1);
    } else {
        assert(t.subrange(0, k) =~= t);
    }
}

/// The value of a longer prefix is at least the value of a shorter one.
proof fn lemma_digits_grow(t: Seq<char>, k: int)
    requires
        0 <= k <= t.len(),
        digits_value(t.subrange(0, k)) matches Some(v) && v > usize::MAX,
    ensures
        !num_token(t),
    decreases t.len() - k,
{
    if k < t.len() {
        assert(t.subrange(0, k + 1).drop_last() =~= t.subrange(0, k));
        let v = digits_value(t.subrange(0, k)).unwrap();
        match digits_value(t.subrange(0, k + 1)) {
            Some(w) => {
                assert(w >= v * 10) by (nonlinear_arith)
                    requires
                        w == v * 10 + (t.subrange(0, k + 1).last() as nat - '0' as nat),
                        '0' <= t.subrange(0, k + 1).last(),
                ;
                assert(v * 10 >= v) by (nonlinear_arith);
                lemma_digits_grow(t, k + 1);
            },
            None => {
                lemma_digits_none(t, k + 1);
            },
        }
    } else {
        assert(t.subrange(0, k) =~= t);
    }
}

/// Reads a number at the reader's position.
fn parse_num(tk: &Tokens, st: &mut PState) -> (r: Result<usize, String>)
    requires
        old(st).pos <= tk.toks@.len(),
    ensures
        final(st).inline == old(st).inline,
        match r {
            Ok(v) => p_num(tk.ts(), tk.ex@, old(st).pos as int) == Ok::<int, Seq<char>>(
                final(st).pos as int,
            ) && final(st).pos <= tk.toks@.len() && digits_value(tk.ts()[old(st).pos as int]) == Some(v as nat),
            Err(m) => p_num(tk.ts(), tk.ex@, old(st).pos as int) == Err::<int, Seq<char>>(m@),
        },
{
    if st.pos < tk.toks.len() {
        let t = &tk.toks[st.pos];
        assert(tk.ts()[st.pos as int] == t@);
        match read_number(t) {
            Some(n) => {
                st.pos = st.pos + 1;
                Ok(n)
            },
            None => Err(err_tok(tk, "Expected number, got '", t, "'")),
        }
    } else {
        Err(err(tk, "Expected number"))
    }
}

/// Reads a braced range after `{`, applied to `expr`.
fn parse_expr_range(tk: &Tokens, st: &mut PState, expr: Expr) -> (r: Result<Expr, String>)
    requires
        old(st).pos <= tk.toks@.len(),
        expr_types_in(expr, tk.types@),
    ensures
        final(st).inline == old(st).inline,
        r matches Ok(e) ==> expr_types_in(e, tk.types@),
        r matches Ok(e) ==> expr_view(e) == (ExprV::Range {
            min: range_bounds(tk.ts(), old(st).pos as int).0,
            max: range_bounds(tk.ts(), old(st).pos as int).1,
            expr: Box::new(expr_view(expr)),
        }),
        r matches Ok(e) ==> (seqs_nonempty(expr) ==> seqs_nonempty(e)),
        match r {
            Ok(_) => p_range(tk.ts(), tk.ex@, old(st).pos as int) == Ok::<int, Seq<char>>(
                final(st).pos as int,
            ) && final(st).pos <= tk.toks@.len(),
            Err(m) => p_range(tk.ts(), tk.ex@, old(st).pos as int) == Err::<int, Seq<char>>(m@),
        },
{
    let min = match parse_num(tk, st) {
        Ok(n) => n,
        Err(m) => return Err(m),
    };
    let ghost p1 = st.pos;
    let max = if tok_is_exec(tk, st.pos, ',') {
        st.pos = st.pos + 1;
        if !tok_is_exec(tk, st.pos, '}') {
            match parse_num(tk, st) {
                Ok(n) => Some(n),
                Err(m) => return Err(m),
            }
        } else {
            None
        }
    } else {
        Some(min)
    };
    if !tok_is_exec(tk, st.pos, '}') {
        return Err(err(tk, "Unclosed braced range"));
    }
    st.pos = st.pos + 1;
    let r = Expr::Range { min, max, expr: Box::new(expr) };
    proof {
        let ts = tk.ts();
        let p0 = old(st).pos as int;
        assert(digits_value(ts[p0]) == Some(min as nat));
        if tok_is(ts, p1 as int, ',') {
            if !tok_is(ts, p1 + 1, '}') {
                assert(max matches Some(m) && digits_value(ts[p0 + 2]) == Some(m as nat));
            }
        }
    }
    Ok(r)
}

/// The types a name stands for.
fn resolve_name(tk: &Tokens, name: &Vec<char>) -> (r: Vec<Arc<NodeType>>)
    ensures
        r@ == resolve(tk.types@, name@),
        forall|j: int| 0 <= j < r@.len() ==> tk.types@.contains(#[trigger] r@[j]),
{
    let mut i: usize = 0;
    while i < tk.types.len()
        invariant
            i <= tk.types@.len(),
            forall|j: int| 0 <= j < i ==> tk.types@[j].name@ != name@,
        decreases tk.types@.len() - i,
    {
        if str_eq_chars(tk.types[i].name.as_str(), name.as_slice()) {
            let mut r: Vec<Arc<NodeType>> = Vec::new();
            r.push(share(&tk.types[i]));
            proof {
                let k = first_named(tk.types@, name@).unwrap();
                assert(tk.types@[i as int].name@ == name@);
                assert(k == i as int);
            }
            assert(r@ =~= seq![tk.types@[i as int]]);
            assert(tk.types@.contains(tk.types@[i as int]));
            return r;
        }
        i = i + 1;
    }
    let group = string_from_chars(name.as_slice());
    let ghost pred = |t: Arc<NodeType>| crate::schema::spec_in_group(*t, name@);
    let mut r: Vec<Arc<NodeType>> = Vec::new();
    let mut j: usize = 0;
    while j < tk.types.len()
        invariant
            j <= tk.types@.len(),
            group@ == name@,
            pred == (|t: Arc<NodeType>| crate::schema::spec_in_group(*t, name@)),
            r@ == tk.types@.subrange(0, j as int).filter(pred),
            forall|q: int| 0 <= q < r@.len() ==> tk.types@.contains(#[trigger] r@[q]),
        decreases tk.types@.len() - j,
    {
        reveal_with_fuel(Seq::<_>::filter, 1);
        assert(tk.types@.subrange(0, j + 1).drop_last() =~= tk.types@.subrange(0, j as int));
        if tk.types[j].is_in_group(group.as_str()) {
            r.push(share(&tk.types[j]));
            assert(tk.types@.contains(tk.types@[j as int]));
        }
        j = j + 1;
    }
    assert(tk.types@.subrange(0, tk.types@.len() as int) =~= tk.types@);
    assert(first_named(tk.types@, name@) is None);
    r
}

/// Reads an atom: a parenthesized expression or a name.
fn parse_expr_atom(tk: &Tokens, st: &mut PState) -> (r: Result<Expr, String>)
    requires
        old(st).pos <= tk.toks@.len(),
    ensures
        r matches Ok(e) ==> expr_view(e) == t_atom(tk.ts(), tk.types@, tk.ex@, old(st).pos as int, old(st).inline) && seqs_nonempty(e),
        r matches Ok(e) ==> expr_types_in(e, tk.types@),
        agrees(r, p_atom(tk.ts(), tk.types@, tk.ex@, old(st).pos as int, old(st).inline), *final(st), tk.toks@.len() as int),
        r is Ok ==> old(st).pos < final(st).pos,
    decreases tk.toks@.len() - old(st).pos, 0int,
{
    if tok_is_exec(tk, st.pos, '(') {
        st.pos = st.pos + 1;
        let e = match parse_expr(tk, st) {
            Ok(e) => e,
            Err(m) => return Err(m),
        };
        if !tok_is_exec(tk, st.pos, ')') {
            return Err(err(tk, "Missing closing paren"));
        }
        st.pos = st.pos + 1;
        return Ok(e);
    }
    if st.pos >= tk.toks.len() {
        return Err(err(tk, "Unexpected end of expression"));
    }
    let token = &tk.toks[st.pos];
    assert(tk.ts()[st.pos as int] == token@);
    let mut all_name = true;
    let mut k: usize = 0;
    while k < token.len()
        invariant
            k <= token@.len(),
            all_name == forall|x: int| 0 <= x < k ==> spec_char_is_alphanumeric(#[trigger] token@[x]) || token@[x] == '_',
        decreases token@.len() - k,
    {
        let c = token[k];
        let ok = char_is_alphanumeric(c) || c == '_';
        all_name = all_name && ok;
        k = k + 1;
    }
    if all_name {
        let types = resolve_name(tk, token);
        if types.len() == 0 {
            return Err(err_tok(tk, "No node type or group '", token, "' found"));
        }
        st.pos = st.pos + 1;
        let ghost inl0 = st.inline;
        let ghost p1 = st.pos;
        let mut t: usize = 0;
        while t < types.len()
            invariant
                st.pos == p1,
                inl0 == old(st).inline,
                p1 == old(st).pos + 1,
                old(st).pos < tk.toks@.len(),
                types@ == resolve(tk.types@, tk.ts()[old(st).pos as int]),
                is_name_token(tk.ts()[old(st).pos as int]),
                !tok_is(tk.ts(), old(st).pos as int, '('),
                types@.len() > 0,
                forall|q: int| 0 <= q < types@.len() ==> tk.types@.contains(#[trigger] types@[q]),
                t <= types@.len(),
                inline_fold(types@.subrange(0, t as int), inl0) == Some(st.inline),
            decreases types@.len() - t,
        {
            assert(types@.subrange(0, t + 1).drop_last() =~= types@.subrange(0, t as int));
            assert(types@.subrange(0, t + 1).last() == types@[t as int]);
            let is_inline = types[t].is_inline();
            match st.inline {
                None => { st.inline = Some(is_inline); },
                Some(prev) => {
                    if prev != is_inline {
                        proof {
                            assert(inline_fold(types@.subrange(0, t as int), inl0) == Some(Some(prev)));
                            assert(inline_fold(types@.subrange(0, t + 1), inl0) is None);
                            lemma_inline_fold_none(types@, inl0, t as int + 1);
                            assert(resolve(tk.types@, tk.ts()[old(st).pos as int]) == types@);
                            assert(inline_fold(types@, old(st).inline) is None);
                        }
                        return Err(err(tk, "Mixing inline and block content"));
                    }
                },
            }
            t = t + 1;
        }
        assert(types@.subrange(0, types@.len() as int) =~= types@);
        let mut exprs: Vec<Expr> = Vec::new();
        let n = types.len();
        let mut types = types;
        let ghost inl1 = st.inline;
        let ghost rs = types@;
        while types.len() > 0
            invariant
                st.pos == p1,
                st.inline == inl1,
                exprs@.len() + types@.len() == n,
                n == rs.len(),
                types@ == rs.skip(exprs@.len() as int),
                forall|q: int| 0 <= q < exprs@.len() ==> #[trigger] exprs@[q] == Expr::Name(rs[q]),
                forall|q: int| 0 <= q < types@.len() ==> tk.types@.contains(#[trigger] types@[q]),
                forall|q: int| 0 <= q < exprs@.len() ==> expr_types_in(#[trigger] exprs@[q], tk.types@),
            decreases types@.len(),
        {
            let ghost t0 = types@;
            let nt = types.remove(0);
            assert(tk.types@.contains(t0[0]));
            assert forall|q: int| 0 <= q < types@.len() implies tk.types@.contains(#[trigger] types@[q]) by {
                assert(types@[q] == t0[q + 1]);
            }
            let ghost e0 = exprs@;
            exprs.push(Expr::Name(nt));
            assert forall|q: int| 0 <= q < exprs@.len() implies expr_types_in(#[trigger] exprs@[q], tk.types@) by {
                if q < e0.len() {
                    assert(exprs@[q] == e0[q]);
                }
            }
            assert(nt == rs[e0.len() as int]);
            assert(types@ =~= rs.skip(exprs@.len() as int));
            assert forall|q: int| 0 <= q < exprs@.len() implies #[trigger] exprs@[q] == Expr::Name(rs[q]) by {
                if q < e0.len() {
                    assert(exprs@[q] == e0[q]);
                }
            }
        }
        let ghost vs = rs.map_values(|t: Arc<NodeType>| ExprV::Name(t));
        if exprs.len() == 1 {
            let r = exprs.remove(0);
            proof {
                assert(r == Expr::Name(rs[0]));
            }
            Ok(r)
        } else {
            let r = Expr::Choice(exprs);
            proof {
                lemma_children_view(r, n as int);
                assert(children_view(r, n as int) =~= vs);
                assert forall|q: int| 0 <= q < exprs@.len() implies seqs_nonempty(#[trigger] exprs@[q]) by {
                    assert(exprs@[q] == Expr::Name(rs[q]));
                }
            }
            Ok(r)
        }
    } else {
        Err(err_tok(tk, "Unexpected token '", token, "'"))
    }
}

/// Once the inline fold fails on a prefix, it fails on the whole list.
proof fn lemma_inline_fold_none(ts: Seq<Arc<NodeType>>, inl: Option<bool>, k: int)
    requires
        0 <= k <= ts.len(),
        inline_fold(ts.subrange(0, k), inl) is None,
    ensures
        inline_fold(ts, inl) is None,
    decreases ts.len() - k,
{
    if k < ts.len() {
        assert(ts.subrange(0, k + 1).drop_last() =~= ts.subrange(0, k));
        lemma_inline_fold_none(ts, inl, k + 1);
    } else {
        assert(ts.subrange(0, k) =~= ts);
    }
}

/// Reads an atom and its postfix operators.
fn parse_expr_subscript(tk: &Tokens, st: &mut PState) -> (r: Result<Expr, String>)
    requires
        old(st).pos <= tk.toks@.len(),
    ensures
        r matches Ok(e) ==> expr_view(e) == t_sub(tk.ts(), tk.types@, tk.ex@, old(st).pos as int, old(st).inline) && seqs_nonempty(e),
        r matches Ok(e) ==> expr_types_in(e, tk.types@),
        agrees(r, p_sub(tk.ts(), tk.types@, tk.ex@, old(st).pos as int, old(st).inline), *final(st), tk.toks@.len() as int),
        r is Ok ==> old(st).pos < final(st).pos,
    decreases tk.toks@.len() - old(st).pos, 1int,
{
    let mut expr = match parse_expr_atom(tk, st) {
        Ok(e) => e,
        Err(m) => return Err(m),
    };
    let ghost p0 = old(st).pos;
    proof {
        assert(after(p_atom(tk.ts(), tk.types@, tk.ex@, p0 as int, old(st).inline), p0 as int, old(st).inline) == (st.pos as int, st.inline));
    }
    loop
        invariant
            p0 == old(st).pos,
            p0 < st.pos <= tk.toks@.len(),
            expr_types_in(expr, tk.types@),
            p_sub(tk.ts(), tk.types@, tk.ex@, p0 as int, old(st).inline) == p_post(tk.ts(), tk.ex@, st.pos as int, st.inline),
            t_sub(tk.ts(), tk.types@, tk.ex@, p0 as int, old(st).inline) == t_post(tk.ts(), tk.ex@, st.pos as int, expr_view(expr)),
            seqs_nonempty(expr),
        decreases tk.toks@.len() - st.pos,
    {
        if tok_is_exec(tk, st.pos, '+') {
            st.pos = st.pos + 1;
            expr = Expr::Plus(Box::new(expr));
        } else if tok_is_exec(tk, st.pos, '*') {
            st.pos = st.pos + 1;
            expr = Expr::Star(Box::new(expr));
        } else if tok_is_exec(tk, st.pos, '?') {
            st.pos = st.pos + 1;
            expr = Expr::Opt(Box::new(expr));
        } else if tok_is_exec(tk, st.pos, '{') {
            st.pos = st.pos + 1;
            expr = match parse_expr_range(tk, st, expr) {
                Ok(e) => e,
                Err(m) => return Err(m),
            };
        } else {
            return Ok(expr);
        }
    }
}

/// Reads a sequence: subscripted atoms up to the end, `)` or `|`.
fn parse_expr_seq(tk: &Tokens, st: &mut PState) -> (r: Result<Expr, String>)
    requires
        old(st).pos <= tk.toks@.len(),
    ensures
        r matches Ok(e) ==> expr_view(e) == t_seq(tk.ts(), tk.types@, tk.ex@, old(st).pos as int, old(st).inline) && seqs_nonempty(e),
        r matches Ok(e) ==> expr_types_in(e, tk.types@),
        agrees(r, p_seq(tk.ts(), tk.types@, tk.ex@, old(st).pos as int, old(st).inline), *final(st), tk.toks@.len() as int),
        r is Ok ==> old(st).pos < final(st).pos,
    decreases tk.toks@.len() - old(st).pos, 2int,
{
    let first = match parse_expr_subscript(tk, st) {
        Ok(e) => e,
        Err(m) => return Err(m),
    };
    let mut exprs: Vec<Expr> = Vec::new();
    exprs.push(first);
    assert(exprs@[0] == first);
    let ghost p0 = old(st).pos;
    proof {
        assert(after(p_sub(tk.ts(), tk.types@, tk.ex@, p0 as int, old(st).inline), p0 as int, old(st).inline) == (st.pos as int, st.inline));
        assert(views(exprs@) =~= seq![expr_view(first)]);
    }
    while st.pos < tk.toks.len() && !tok_is_exec(tk, st.pos, ')') && !tok_is_exec(tk, st.pos, '|')
        invariant
            p0 == old(st).pos,
            p0 < st.pos <= tk.toks@.len(),
            exprs@.len() >= 1,
            forall|q: int| 0 <= q < exprs@.len() ==> expr_types_in(#[trigger] exprs@[q], tk.types@),
            forall|q: int| 0 <= q < exprs@.len() ==> seqs_nonempty(#[trigger] exprs@[q]),
            p_seq(tk.ts(), tk.types@, tk.ex@, p0 as int, old(st).inline) == p_seq_more(tk.ts(), tk.types@, tk.ex@, st.pos as int, st.inline),
            t_seq(tk.ts(), tk.types@, tk.ex@, p0 as int, old(st).inline) == combine(views(exprs@) + t_seq_more(tk.ts(), tk.types@, tk.ex@, st.pos as int, st.inline), false),
        decreases tk.toks@.len() - st.pos,
    {
        let ghost pos0 = st.pos as int;
        let ghost inl0 = st.inline;
        let e = match parse_expr_subscript(tk, st) {
            Ok(e) => e,
            Err(m) => return Err(m),
        };
        let ghost e0 = exprs@;
        exprs.push(e);
        assert forall|q: int| 0 <= q < exprs@.len() implies expr_types_in(#[trigger] exprs@[q], tk.types@) && seqs_nonempty(exprs@[q]) by {
            if q < e0.len() {
                assert(exprs@[q] == e0[q]);
            }
        }
        proof {
            let ts = tk.ts();
            assert(after(p_sub(ts, tk.types@, tk.ex@, pos0, inl0), pos0, inl0) == (st.pos as int, st.inline));
            assert(t_seq_more(ts, tk.types@, tk.ex@, pos0, inl0) == seq![expr_view(e)] + t_seq_more(ts, tk.types@, tk.ex@, st.pos as int, st.inline));
            assert(views(exprs@) =~= views(e0).push(expr_view(e)));
            assert(views(e0) + t_seq_more(ts, tk.types@, tk.ex@, pos0, inl0) =~= views(exprs@) + t_seq_more(ts, tk.types@, tk.ex@, st.pos as int, st.inline));
        }
    }
    proof {
        assert(t_seq_more(tk.ts(), tk.types@, tk.ex@, st.pos as int, st.inline) =~= Seq::<ExprV>::empty());
        assert(views(exprs@) + Seq::<ExprV>::empty() =~= views(exprs@));
    }
    if exprs.len() == 1 {
        let r = exprs.remove(0);
        Ok(r)
    } else {
        let n = exprs.len();
        let r = Expr::Sequence(exprs);
        proof {
            lemma_children_view(r, n as int);
            assert(children_view(r, n as int) =~= views(exprs@));
        }
        Ok(r)
    }
}

/// Reads an expression: sequences separated by `|`.
pub fn parse_expr(tk: &Tokens, st: &mut PState) -> (r: Result<Expr, String>)
    requires
        old(st).pos <= tk.toks@.len(),
    ensures
        r matches Ok(e) ==> expr_view(e) == t_expr(tk.ts(), tk.types@, tk.ex@, old(st).pos as int, old(st).inline) && seqs_nonempty(e),
        r matches Ok(e) ==> expr_types_in(e, tk.types@),
        agrees(r, p_expr(tk.ts(), tk.types@, tk.ex@, old(st).pos as int, old(st).inline), *final(st), tk.toks@.len() as int),
        r is Ok ==> old(st).pos < final(st).pos,
    decreases tk.toks@.len() - old(st).pos, 4int,
{
    let first = match parse_expr_seq(tk, st) {
        Ok(e) => e,
        Err(m) => return Err(m),
    };
    let mut exprs: Vec<Expr> = Vec::new();
    exprs.push(first);
    assert(exprs@[0] == first);
    let ghost p0 = old(st).pos;
    proof {
        assert(after(p_seq(tk.ts(), tk.types@, tk.ex@, p0 as int, old(st).inline), p0 as int, old(st).inline) == (st.pos as int, st.inline));
        assert(views(exprs@) =~= seq![expr_view(first)]);
    }
    while tok_is_exec(tk, st.pos, '|')
        invariant
            p0 == old(st).pos,
            p0 < st.pos <= tk.toks@.len(),
            exprs@.len() >= 1,
            forall|q: int| 0 <= q < exprs@.len() ==> expr_types_in(#[trigger] exprs@[q], tk.types@),
            forall|q: int| 0 <= q < exprs@.len() ==> seqs_nonempty(#[trigger] exprs@[q]),
            p_expr(tk.ts(), tk.types@, tk.ex@, p0 as int, old(st).inline) == p_alts(tk.ts(), tk.types@, tk.ex@, st.pos as int, st.inline),
            t_expr(tk.ts(), tk.types@, tk.ex@, p0 as int, old(st).inline) == combine(views(exprs@) + t_alts(tk.ts(), tk.types@, tk.ex@, st.pos as int, st.inline), true),
        decreases tk.toks@.len() - st.pos,
    {
        let ghost pos0 = st.pos as int;
        let ghost inl0 = st.inline;
        st.pos = st.pos + 1;
        let e = match parse_expr_seq(tk, st) {
            Ok(e) => e,
            Err(m) => return Err(m),
        };
        let ghost e0 = exprs@;
        exprs.push(e);
        assert forall|q: int| 0 <= q < exprs@.len() implies expr_types_in(#[trigger] exprs@[q], tk.types@) && seqs_nonempty(exprs@[q]) by {
            if q < e0.len() {
                assert(exprs@[q] == e0[q]);
            }
        }
        proof {
            let ts = tk.ts();
            assert(after(p_seq(ts, tk.types@, tk.ex@, pos0 + 1, inl0), pos0 + 1, inl0) == (st.pos as int, st.inline));
            assert(t_alts(ts, tk.types@, tk.ex@, pos0, inl0) == seq![expr_view(e)] + t_alts(ts, tk.types@, tk.ex@, st.pos as int, st.inline));
            assert(views(exprs@) =~= views(e0).push(expr_view(e)));
            assert(views(e0) + t_alts(ts, tk.types@, tk.ex@, pos0, inl0) =~= views(exprs@) + t_alts(ts, tk.types@, tk.ex@, st.pos as int, st.inline));
        }
    }
    proof {
        assert(t_alts(tk.ts(), tk.types@, tk.ex@, st.pos as int, st.inline) =~= Seq::<ExprV>::empty());
        assert(views(exprs@) + Seq::<ExprV>::empty() =~= views(exprs@));
    }
    if exprs.len() == 1 {
        let r = exprs.remove(0);
        Ok(r)
    } else {
        let n = exprs.len();
        let r = Expr::Choice(exprs);
        proof {
            lemma_children_view(r, n as int);
            assert(children_view(r, n as int) =~= views(exprs@));
        }
        Ok(r)
    }
}

} // verus!
