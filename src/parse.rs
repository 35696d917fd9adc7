use vstd::prelude::*;
use vstd::std_specs::iter::IteratorSpec;

use crate::grammar::{
    char_at, digits_value, in_class, is_digit, lemma_arg, lemma_call, lemma_opt_int, lemma_query, lemma_span, span_end, spec_arg, spec_args, spec_args_rest, spec_array_query, spec_call, spec_calls_rest, spec_int, spec_name, spec_opt_int, spec_parse, spec_query, spec_selector, spec_selector_rest, CharClass,
};
use crate::script::{
    ActionExpr, ActionMode, ArraySlice, CallView, ExprView, Function, Jop, JopView, ObjectSelector, ParseError, Script, ScriptView,
};

verus! {

/// `r` is the executable form of the grammar's answer `p`.
pub open spec fn agrees<T: View>(r: Result<(T, usize), usize>, p: Result<(T::V, int), int>) -> bool {
    match r {
        Ok((v, j)) => p == Ok::<_, int>((v@, j as int)),
        Err(e) => p == Err::<(T::V, int), int>(e as int),
    }
}

pub open spec fn jops_view(v: Seq<Jop>) -> Seq<JopView> {
    v.map_values(|j: Jop| j@)
}

pub open spec fn exprs_view(v: Seq<ActionExpr>) -> Seq<ExprView> {
    v.map_values(|e: ActionExpr| e@)
}

pub open spec fn calls_view(v: Seq<Function>) -> Seq<CallView> {
    v.map_values(|f: Function| f@)
}

/// The characters of `text`, in order.
fn text_chars(text: &str) -> (r: Vec<char>)
    ensures
        r@ == text@,
{
    broadcast use vstd::string::group_string_axioms;

    let mut it = text.chars();
    let mut r: Vec<char> = Vec::new();
    loop
        invariant
            r@ + it.remaining() == text@,
            it.decrease() is Some,
        ensures
            r@ == text@,
        decreases it.decrease()->0,
    {
        let ghost rem = it.remaining();
        match it.next() {
            Some(c) => {
                proof {
                    assert(r@.push(c) + it.remaining() =~= r@ + rem);
                }
                r.push(c);
            },
            None => {
                proof {
                    assert(rem.len() == 0);
                    assert(r@ =~= text@);
                }
                break ;
            },
        }
    }
    r
}

fn class_has(k: CharClass, c: char) -> (r: bool)
    ensures
        r == in_class(k, c),
{
    match k {
        CharClass::Space => c == ' ' || c == '\t' || c == '\n' || c == '\r',
        CharClass::Name => !(c == ' ' || c == '\t' || c == '\n' || c == '\r') && c != '.' && c
            != '{' && c != '}' && c != '[' && c != ']' && c != '*' && c != '@' && c != '(' && c
            != ')' && c != ',',
        CharClass::Digit => '0' <= c && c <= '9',
        CharClass::Text => c != '"',
    }
}

fn span(s: &Vec<char>, i: usize, k: CharClass) -> (r: usize)
    requires
        i <= s.len(),
    ensures
        r == span_end(s@, i as int, k),
{
    let mut j = i;
    while j < s.len() && class_has(k, s[j])
        invariant
            i <= j <= s.len(),
            span_end(s@, j as int, k) == span_end(s@, i as int, k),
        decreases s.len() - j,
    {
        j = j + 1;
    }
    j
}

fn next_is(s: &Vec<char>, i: usize, c: char) -> (r: bool)
    ensures
        r == char_at(s@, i as int, c),
{
    i < s.len() && s[i] == c
}

fn parse_int(s: &Vec<char>, i: usize) -> (r: Result<(i64, usize), usize>)
    requires
        i <= s.len(),
    ensures
        agrees(r, spec_int(s@, i as int)),
{
    let neg = next_is(s, i, '-');
    let j = if neg || next_is(s, i, '+') {
        i + 1
    } else {
        i
    };
    let k = span(s, j, CharClass::Digit);
    if k == j {
        return Err(j);
    }
    proof {
        lemma_span(s@, j as int, CharClass::Digit);
    }
    let mut acc: u64 = 0;
    let mut over = false;
    let mut m = j;
    while m < k
        invariant
            j <= m <= k <= s.len(),
            forall|q: int| j <= q < k ==> is_digit(#[trigger] s@[q]),
            over ==> digits_value(s@, j as int, m as int) > 9223372036854775808,
            !over ==> acc as int == digits_value(s@, j as int, m as int) && acc
                <= 9223372036854775808u64,
        decreases k - m,
    {
        let c = s[m];
        assert(is_digit(s@[m as int]));
        let d: u64 = (c as u32 - '0' as u32) as u64;
        if !over {
            if acc < 922337203685477580 || (acc == 922337203685477580 && d <= 8) {
                acc = acc * 10 + d;
            } else {
                over = true;
            }
        }
        m = m + 1;
    }
    if over {
        return Err(i);
    }
    if neg {
        if acc == 9223372036854775808 {
            Ok((i64::MIN, k))
        } else {
            Ok((-(acc as i64), k))
        }
    } else {
        if acc > 9223372036854775807 {
            Err(i)
        } else {
            Ok((acc as i64, k))
        }
    }
}

fn parse_opt_int(s: &Vec<char>, i: usize) -> (r: Result<(Option<i64>, usize), usize>)
    requires
        i <= s.len(),
    ensures
        agrees(r, spec_opt_int(s@, i as int)),
{
    if i < s.len() && (s[i] == '-' || s[i] == '+' || class_has(CharClass::Digit, s[i])) {
        match parse_int(s, i) {
            Ok((v, k)) => Ok((Some(v), k)),
            Err(e) => Err(e),
        }
    } else {
        Ok((None, i))
    }
}

fn parse_name(text: &str, s: &Vec<char>, i: usize) -> (r: Result<(String, usize), usize>)
    requires
        s@ == text@,
        i <= s.len(),
    ensures
        agrees(r, spec_name(s@, i as int)),
{
    let j = span(s, i, CharClass::Name);
    if j == i {
        Err(i)
    } else {
        proof {
            lemma_span(s@, i as int, CharClass::Name);
        }
        let n = text.substring_char(i, j).to_owned();
        Ok((n, j))
    }
}

fn parse_array_query(s: &Vec<char>, i: usize) -> (r: Result<(Jop, usize), usize>)
    requires
        i < s.len(),
    ensures
        agrees(r, spec_array_query(s@, i as int)),
{
    proof {
        lemma_opt_int(s@, i + 1);
    }
    let (a, j) = match parse_opt_int(s, i + 1) {
        Err(e) => return Err(e),
        Ok(p) => p,
    };
    if a.is_some() && next_is(s, j, ']') {
        return Ok((Jop::ArrayIndex(a.unwrap()), j + 1));
    }
    if !next_is(s, j, ':') {
        return Err(j);
    }
    proof {
        lemma_opt_int(s@, j + 1);
    }
    let (b, k) = match parse_opt_int(s, j + 1) {
        Err(e) => return Err(e),
        Ok(p) => p,
    };
    if next_is(s, k, ']') {
        return Ok((Jop::ArraySlice(ArraySlice::new(a, b, None)), k + 1));
    }
    if !next_is(s, k, ':') {
        return Err(k);
    }
    proof {
        lemma_opt_int(s@, k + 1);
    }
    let (c, m) = match parse_opt_int(s, k + 1) {
        Err(e) => return Err(e),
        Ok(p) => p,
    };
    if next_is(s, m, ']') {
        Ok((Jop::ArraySlice(ArraySlice::new(a, b, c)), m + 1))
    } else {
        Err(m)
    }
}

fn parse_query(text: &str, s: &Vec<char>, i: usize) -> (r: Result<(Jop, usize), usize>)
    requires
        s@ == text@,
        i <= s.len(),
    ensures
        agrees(r, spec_query(s@, i as int)),
{
    if next_is(s, i, '[') {
        parse_array_query(s, i)
    } else if next_is(s, i, '*') {
        Ok((Jop::Object(ObjectSelector::Wildcard), i + 1))
    } else {
        match parse_name(text, s, i) {
            Ok((n, j)) => Ok((Jop::Object(ObjectSelector::Exact(n)), j)),
            Err(e) => Err(e),
        }
    }
}

fn parse_selector(text: &str, s: &Vec<char>) -> (r: Result<(Vec<Jop>, usize), usize>)
    requires
        s@ == text@,
    ensures
        match r {
            Ok((v, j)) => spec_selector(s@, 0) == Ok::<_, int>((jops_view(v@), j as int)) && j
                <= s.len(),
            Err(e) => spec_selector(s@, 0) == Err::<(Seq<JopView>, int), int>(e as int),
        },
{
    let j0: usize = if next_is(s, 0, '.') {
        1
    } else {
        0
    };
    let (q, mut i) = match parse_query(text, s, j0) {
        Err(e) => return Err(e),
        Ok(p) => p,
    };
    proof {
        lemma_query(s@, j0 as int);
    }
    let mut acc: Vec<Jop> = Vec::new();
    acc.push(q);
    proof {
        assert(jops_view(acc@) =~= seq![q@]);
    }
    while next_is(s, i, '.')
        invariant
            s@ == text@,
            i <= s.len(),
            spec_selector_rest(s@, i as int, jops_view(acc@)) == spec_selector(s@, 0),
        decreases s.len() - i,
    {
        proof {
            lemma_query(s@, i + 1);
        }
        let (q, j) = match parse_query(text, s, i + 1) {
            Err(e) => return Err(e),
            Ok(p) => p,
        };
        proof {
            assert(jops_view(acc@.push(q)) =~= jops_view(acc@).push(q@));
        }
        acc.push(q);
        i = j;
    }
    Ok((acc, i))
}

fn parse_arg(text: &str, s: &Vec<char>, i: usize) -> (r: Result<(ActionExpr, usize), usize>)
    requires
        s@ == text@,
        i <= s.len(),
    ensures
        agrees(r, spec_arg(s@, i as int)),
{
    if next_is(s, i, '"') {
        let j = span(s, i + 1, CharClass::Text);
        proof {
            lemma_span(s@, i + 1, CharClass::Text);
        }
        if j < s.len() {
            let t = text.substring_char(i + 1, j).to_owned();
            Ok((ActionExpr::String(t), j + 1))
        } else {
            Err(j)
        }
    } else if next_is(s, i, '.') {
        match parse_name(text, s, i + 1) {
            Ok((n, j)) => Ok((ActionExpr::ObjectIndex(n), j)),
            Err(e) => Err(e),
        }
    } else if next_is(s, i, '$') {
        match parse_name(text, s, i + 1) {
            Ok((n, j)) => Ok((ActionExpr::Variable(n), j)),
            Err(e) => Err(e),
        }
    } else {
        match parse_int(s, i) {
            Ok((v, j)) => Ok((ActionExpr::Integer(v), j)),
            Err(e) => Err(e),
        }
    }
}

/// The arguments of a call; `i` is just after the opening parenthesis.
fn parse_args(text: &str, s: &Vec<char>, i: usize) -> (r: Result<(Vec<ActionExpr>, usize), usize>)
    requires
        s@ == text@,
        i <= s.len(),
    ensures
        match r {
            Ok((v, j)) => spec_args(s@, i as int) == Ok::<_, int>((exprs_view(v@), j as int)),
            Err(e) => spec_args(s@, i as int) == Err::<(Seq<ExprView>, int), int>(e as int),
        },
{
    let mut acc: Vec<ActionExpr> = Vec::new();
    if next_is(s, i, ')') {
        proof {
            assert(exprs_view(acc@) =~= Seq::<ExprView>::empty());
        }
        return Ok((acc, i + 1));
    }
    proof {
        lemma_arg(s@, i as int);
    }
    let (a, mut j) = match parse_arg(text, s, i) {
        Err(e) => return Err(e),
        Ok(p) => p,
    };
    acc.push(a);
    proof {
        assert(exprs_view(acc@) =~= seq![a@]);
    }
    while next_is(s, j, ',')
        invariant
            s@ == text@,
            j <= s.len(),
            spec_args_rest(s@, j as int, exprs_view(acc@)) == spec_args(s@, i as int),
        decreases s.len() - j,
    {
        proof {
            lemma_arg(s@, j + 1);
        }
        let (a, k) = match parse_arg(text, s, j + 1) {
            Err(e) => return Err(e),
            Ok(p) => p,
        };
        proof {
            assert(exprs_view(acc@.push(a)) =~= exprs_view(acc@).push(a@));
        }
        acc.push(a);
        j = k;
    }
    if next_is(s, j, ')') {
        Ok((acc, j + 1))
    } else {
        Err(j)
    }
}

fn parse_call(text: &str, s: &Vec<char>, i: usize) -> (r: Result<(Function, usize), usize>)
    requires
        s@ == text@,
        i <= s.len(),
    ensures
        agrees(r, spec_call(s@, i as int)),
{
    let (name, j) = match parse_name(text, s, i) {
        Err(e) => return Err(e),
        Ok(p) => p,
    };
    proof {
        lemma_span(s@, i as int, CharClass::Name);
    }
    if !next_is(s, j, '(') {
        return Err(j);
    }
    match parse_args(text, s, j + 1) {
        Err(e) => Err(e),
        Ok((args, k)) => {
            let f = Function { name: name, args: args };
            proof {
                assert(f@.args == exprs_view(args@));
            }
            Ok((f, k))
        },
    }
}

/// Reads a program text into a script. The text must follow the grammar to
/// its end; where it does not, the error gives the character position at
/// which it stops following it.
pub fn parse(text: &str) -> (r: Result<Script, ParseError>)
    ensures
        match r {
            Ok(script) => spec_parse(text@) == Ok::<_, int>(script@),
            Err(e) => spec_parse(text@) == Err::<ScriptView, int>(e.offset as int),
        },
{
    let s = text_chars(text);
    let (selector, i) = match parse_selector(text, &s) {
        Err(e) => return Err(ParseError { offset: e }),
        Ok(p) => p,
    };
    proof {
        lemma_span(s@, i as int, CharClass::Space);
    }
    let j = span(&s, i, CharClass::Space);
    if !next_is(&s, j, '@') {
        return Err(ParseError { offset: j });
    }
    let k = span(&s, j + 1, CharClass::Space);
    proof {
        lemma_span(s@, j + 1, CharClass::Space);
        lemma_call(s@, k as int);
    }
    let (c, mut m) = match parse_call(text, &s, k) {
        Err(e) => return Err(ParseError { offset: e }),
        Ok(p) => p,
    };
    let mut action: Vec<Function> = Vec::new();
    action.push(c);
    proof {
        assert(calls_view(action@) =~= seq![c@]);
    }
    while m < s.len()
        invariant
            s@ == text@,
            m <= s.len(),
            match spec_calls_rest(s@, m as int, calls_view(action@)) {
                Ok(calls) => spec_parse(text@) == Ok::<_, int>(
                    ScriptView { selector: jops_view(selector@), mode: ActionMode::ForEach, action: calls },
                ),
                Err(e) => spec_parse(text@) == Err::<ScriptView, int>(e),
            },
        decreases s.len() - m,
    {
        if !class_has(CharClass::Space, s[m]) {
            return Err(ParseError { offset: m });
        }
        let n = span(&s, m, CharClass::Space);
        proof {
            lemma_span(s@, m as int, CharClass::Space);
            lemma_call(s@, n as int);
        }
        let (f, p) = match parse_call(text, &s, n) {
            Err(e) => return Err(ParseError { offset: e }),
            Ok(p) => p,
        };
        proof {
            assert(calls_view(action@.push(f)) =~= calls_view(action@).push(f@));
        }
        action.push(f);
        m = p;
    }
    let script = Script { selector: selector, mode: ActionMode::ForEach, action: action };
    proof {
        assert(script@.selector == jops_view(selector@));
        assert(script@.action == calls_view(action@));
    }
    Ok(script)
}

} // verus!
