use vstd::prelude::*;

use crate::script::{ActionMode, ArraySlice, CallView, ExprView, JopView, ScriptView};

verus! {

// The grammar of programs, as functions from a text and a position to what is
// read there and the position after it, or to the position where reading
// fails.
//
//   script   := selector ws? '@' ws? call (ws call)*
//   selector := '.'? query ('.' query)*
//   query    := '[' int ']' | '[' int? ':' int? (':' int?)? ']' | '*' | name
//   call     := name '(' (arg (',' arg)*)? ')'
//   arg      := int | '"' (not '"')* '"' | '.' name | '$' name
//   int      := ('+' | '-')? digit+
pub open spec fn is_ws(c: char) -> bool {
    c == ' ' || c == '\t' || c == '\n' || c == '\r'
}

pub open spec fn is_digit(c: char) -> bool {
    '0' <= c && c <= '9'
}

pub open spec fn is_name_char(c: char) -> bool {
    !is_ws(c) && c != '.' && c != '{' && c != '}' && c != '[' && c != ']' && c != '*' && c != '@'
        && c != '(' && c != ')' && c != ','
}

pub open spec fn is_string_char(c: char) -> bool {
    c != '"'
}

/// The classes of characters that the grammar reads in runs.
#[derive(Clone, Copy)]
pub enum CharClass {
    Space,
    Name,
    Digit,
    Text,
}

pub open spec fn in_class(k: CharClass, c: char) -> bool {
    match k {
        CharClass::Space => is_ws(c),
        CharClass::Name => is_name_char(c),
        CharClass::Digit => is_digit(c),
        CharClass::Text => is_string_char(c),
    }
}

pub open spec fn char_at(s: Seq<char>, i: int, c: char) -> bool {
    0 <= i < s.len() && s[i] == c
}

/// The end of the longest run, from `i`, of characters of class `k`.
pub open spec fn span_end(s: Seq<char>, i: int, k: CharClass) -> int
    decreases s.len() - i,
{
    if 0 <= i < s.len() && in_class(k, s[i]) {
        span_end(s, i + 1, k)
    } else {
        i
    }
}

pub open spec fn ws_end(s: Seq<char>, i: int) -> int {
    span_end(s, i, CharClass::Space)
}

pub open spec fn name_end(s: Seq<char>, i: int) -> int {
    span_end(s, i, CharClass::Name)
}

pub open spec fn digits_end(s: Seq<char>, i: int) -> int {
    span_end(s, i, CharClass::Digit)
}

pub open spec fn string_end(s: Seq<char>, i: int) -> int {
    span_end(s, i, CharClass::Text)
}

pub open spec fn digit_value(c: char) -> int {
    (c as u32) as int - ('0' as u32) as int
}

/// The number that the decimal digits `s[i..j]` write.
pub open spec fn digits_value(s: Seq<char>, i: int, j: int) -> int
    decreases j - i,
{
    if j <= i {
        0
    } else {
        digits_value(s, i, j - 1) * 10 + digit_value(s[j - 1])
    }
}

pub open spec fn starts_int(s: Seq<char>, i: int) -> bool {
    0 <= i < s.len() && (s[i] == '-' || s[i] == '+' || is_digit(s[i]))
}

pub open spec fn spec_int(s: Seq<char>, i: int) -> Result<(i64, int), int> {
    let j = if char_at(s, i, '-') || char_at(s, i, '+') {
        i + 1
    } else {
        i
    };
    let k = digits_end(s, j);
    if k == j {
        Err(j)
    } else {
        let m = digits_value(s, j, k);
        let v = if char_at(s, i, '-') {
            -m
        } else {
            m
        };
        if i64::MIN <= v <= i64::MAX {
            Ok((v as i64, k))
        } else {
            Err(i)
        }
    }
}

pub open spec fn spec_opt_int(s: Seq<char>, i: int) -> Result<(Option<i64>, int), int> {
    if starts_int(s, i) {
        match spec_int(s, i) {
            Ok((v, k)) => Ok((Some(v), k)),
            Err(e) => Err(e),
        }
    } else {
        Ok((None, i))
    }
}

pub open spec fn spec_name(s: Seq<char>, i: int) -> Result<(Seq<char>, int), int> {
    let j = name_end(s, i);
    if j == i {
        Err(i)
    } else {
        Ok((s.subrange(i, j), j))
    }
}

/// A bracketed query; `s[i]` is the opening bracket.
pub open spec fn spec_array_query(s: Seq<char>, i: int) -> Result<(JopView, int), int> {
    match spec_opt_int(s, i + 1) {
        Err(e) => Err(e),
        Ok((a, j)) => {
            if a is Some && char_at(s, j, ']') {
                Ok((JopView::Index(a->0), j + 1))
            } else if char_at(s, j, ':') {
                match spec_opt_int(s, j + 1) {
                    Err(e) => Err(e),
                    Ok((b, k)) => {
                        if char_at(s, k, ']') {
                            Ok((JopView::Slice(ArraySlice { start: a, end: b, step: None }), k + 1))
                        } else if char_at(s, k, ':') {
                            match spec_opt_int(s, k + 1) {
                                Err(e) => Err(e),
                                Ok((c, m)) => {
                                    if char_at(s, m, ']') {
                                        Ok(
                                            (
                                                JopView::Slice(
                                                    ArraySlice { start: a, end: b, step: c },
                                                ),
                                                m + 1,
                                            ),
                                        )
                                    } else {
                                        Err(m)
                                    }
                                },
                            }
                        } else {
                            Err(k)
                        }
                    },
                }
            } else {
                Err(j)
            }
        },
    }
}

pub open spec fn spec_query(s: Seq<char>, i: int) -> Result<(JopView, int), int> {
    if char_at(s, i, '[') {
        spec_array_query(s, i)
    } else if char_at(s, i, '*') {
        Ok((JopView::Wildcard, i + 1))
    } else {
        match spec_name(s, i) {
            Ok((n, j)) => Ok((JopView::Key(n), j)),
            Err(e) => Err(e),
        }
    }
}

/// The queries `('.' query)*` from `i`, appended to `acc`.
pub open spec fn spec_selector_rest(s: Seq<char>, i: int, acc: Seq<JopView>) -> Result<
    (Seq<JopView>, int),
    int,
>
    decreases s.len() - i,
{
    if char_at(s, i, '.') {
        match spec_query(s, i + 1) {
            Err(e) => Err(e),
            Ok((q, j)) => {
                proof {
                    lemma_query(s, i + 1);
                }
                spec_selector_rest(s, j, acc.push(q))
            },
        }
    } else {
        Ok((acc, i))
    }
}

pub open spec fn spec_selector(s: Seq<char>, i: int) -> Result<(Seq<JopView>, int), int> {
    let j = if char_at(s, i, '.') {
        i + 1
    } else {
        i
    };
    match spec_query(s, j) {
        Err(e) => Err(e),
        Ok((q, k)) => spec_selector_rest(s, k, seq![q]),
    }
}

pub open spec fn spec_arg(s: Seq<char>, i: int) -> Result<(ExprView, int), int> {
    if char_at(s, i, '"') {
        let j = string_end(s, i + 1);
        if j < s.len() {
            Ok((ExprView::Str(s.subrange(i + 1, j)), j + 1))
        } else {
            Err(j)
        }
    } else if char_at(s, i, '.') {
        match spec_name(s, i + 1) {
            Ok((n, j)) => Ok((ExprView::Field(n), j)),
            Err(e) => Err(e),
        }
    } else if char_at(s, i, '$') {
        match spec_name(s, i + 1) {
            Ok((n, j)) => Ok((ExprView::Variable(n), j)),
            Err(e) => Err(e),
        }
    } else {
        match spec_int(s, i) {
            Ok((v, j)) => Ok((ExprView::Integer(v), j)),
            Err(e) => Err(e),
        }
    }
}

/// The arguments `(',' arg)* ')'` from `i`, appended to `acc`.
pub open spec fn spec_args_rest(s: Seq<char>, i: int, acc: Seq<ExprView>) -> Result<
    (Seq<ExprView>, int),
    int,
>
    decreases s.len() - i,
{
    if char_at(s, i, ',') {
        match spec_arg(s, i + 1) {
            Err(e) => Err(e),
            Ok((a, j)) => {
                proof {
                    lemma_arg(s, i + 1);
                }
                spec_args_rest(s, j, acc.push(a))
            },
        }
    } else if char_at(s, i, ')') {
        Ok((acc, i + 1))
    } else {
        Err(i)
    }
}

/// The arguments of a call; `i` is just after the opening parenthesis.
pub open spec fn spec_args(s: Seq<char>, i: int) -> Result<(Seq<ExprView>, int), int> {
    if char_at(s, i, ')') {
        Ok((Seq::empty(), i + 1))
    } else {
        match spec_arg(s, i) {
            Err(e) => Err(e),
            Ok((a, j)) => spec_args_rest(s, j, seq![a]),
        }
    }
}

pub open spec fn spec_call(s: Seq<char>, i: int) -> Result<(CallView, int), int> {
    match spec_name(s, i) {
        Err(e) => Err(e),
        Ok((n, j)) => {
            if char_at(s, j, '(') {
                match spec_args(s, j + 1) {
                    Err(e) => Err(e),
                    Ok((a, k)) => Ok((CallView { name: n, args: a }, k)),
                }
            } else {
                Err(j)
            }
        },
    }
}

/// The calls `(ws call)*` from `i` to the end of the text, appended to `acc`.
pub open spec fn spec_calls_rest(s: Seq<char>, i: int, acc: Seq<CallView>) -> Result<
    Seq<CallView>,
    int,
>
    decreases s.len() - i,
{
    if i == s.len() {
        Ok(acc)
    } else if 0 <= i < s.len() && is_ws(s[i]) {
        match spec_call(s, ws_end(s, i)) {
            Err(e) => Err(e),
            Ok((c, k)) => {
                proof {
                    lemma_span(s, i, CharClass::Space);
                    lemma_call(s, ws_end(s, i));
                }
                spec_calls_rest(s, k, acc.push(c))
            },
        }
    } else {
        Err(i)
    }
}

/// What a program text means, or the position at which it stops following
/// the grammar.
pub open spec fn spec_parse(s: Seq<char>) -> Result<ScriptView, int> {
    match spec_selector(s, 0) {
        Err(e) => Err(e),
        Ok((sel, i)) => {
            let j = ws_end(s, i);
            if char_at(s, j, '@') {
                match spec_call(s, ws_end(s, j + 1)) {
                    Err(e) => Err(e),
                    Ok((c, k)) => match spec_calls_rest(s, k, seq![c]) {
                        Err(e) => Err(e),
                        Ok(calls) => Ok(
                            ScriptView { selector: sel, mode: ActionMode::ForEach, action: calls },
                        ),
                    },
                }
            } else {
                Err(j)
            }
        },
    }
}

// Well-formedness of what the grammar reads: the shapes that a text can give.
pub open spec fn name_wf(n: Seq<char>) -> bool {
    n.len() > 0 && forall|k: int| 0 <= k < n.len() ==> is_name_char(#[trigger] n[k])
}

pub open spec fn query_wf(q: JopView) -> bool {
    match q {
        JopView::Key(n) => name_wf(n),
        _ => true,
    }
}

pub open spec fn arg_wf(a: ExprView) -> bool {
    match a {
        ExprView::Str(t) => forall|k: int| 0 <= k < t.len() ==> is_string_char(#[trigger] t[k]),
        ExprView::Field(n) => name_wf(n),
        ExprView::Variable(n) => name_wf(n),
        ExprView::Integer(_) => true,
        ExprView::Element(_) => false,
    }
}

pub open spec fn call_wf(c: CallView) -> bool {
    name_wf(c.name) && forall|k: int| 0 <= k < c.args.len() ==> arg_wf(#[trigger] c.args[k])
}

pub open spec fn script_wf(sv: ScriptView) -> bool {
    &&& sv.mode == ActionMode::ForEach
    &&& sv.selector.len() > 0
    &&& forall|k: int| 0 <= k < sv.selector.len() ==> query_wf(#[trigger] sv.selector[k])
    &&& sv.action.len() > 0
    &&& forall|k: int| 0 <= k < sv.action.len() ==> call_wf(#[trigger] sv.action[k])
}

pub proof fn lemma_span(s: Seq<char>, i: int, k: CharClass)
    requires
        0 <= i <= s.len(),
    ensures
        i <= span_end(s, i, k) <= s.len(),
        forall|m: int| i <= m < span_end(s, i, k) ==> in_class(k, #[trigger] s[m]),
        span_end(s, i, k) < s.len() ==> !in_class(k, s[span_end(s, i, k)]),
    decreases s.len() - i,
{
    if i < s.len() && in_class(k, s[i]) {
        lemma_span(s, i + 1, k);
    }
}

pub proof fn lemma_int(s: Seq<char>, i: int)
    requires
        0 <= i <= s.len(),
    ensures
        spec_int(s, i) matches Ok((_, k)) ==> i < k <= s.len(),
{
    let j = if char_at(s, i, '-') || char_at(s, i, '+') {
        i + 1
    } else {
        i
    };
    lemma_span(s, j, CharClass::Digit);
}

pub proof fn lemma_opt_int(s: Seq<char>, i: int)
    requires
        0 <= i <= s.len(),
    ensures
        spec_opt_int(s, i) matches Ok((_, k)) ==> i <= k <= s.len(),
{
    lemma_int(s, i);
}

pub proof fn lemma_name(s: Seq<char>, i: int)
    requires
        0 <= i <= s.len(),
    ensures
        spec_name(s, i) matches Ok((n, k)) ==> i < k <= s.len() && name_wf(n),
{
    lemma_span(s, i, CharClass::Name);
}

pub proof fn lemma_query(s: Seq<char>, i: int)
    requires
        0 <= i <= s.len(),
    ensures
        spec_query(s, i) matches Ok((q, k)) ==> i < k <= s.len() && query_wf(q),
{
    lemma_name(s, i);
    if char_at(s, i, '[') {
        lemma_opt_int(s, i + 1);
        if let Ok((_, j)) = spec_opt_int(s, i + 1) {
            if char_at(s, j, ':') {
                lemma_opt_int(s, j + 1);
                if let Ok((_, k)) = spec_opt_int(s, j + 1) {
                    if char_at(s, k, ':') {
                        lemma_opt_int(s, k + 1);
                    }
                }
            }
        }
    }
}

pub proof fn lemma_arg(s: Seq<char>, i: int)
    requires
        0 <= i <= s.len(),
    ensures
        spec_arg(s, i) matches Ok((a, k)) ==> i < k <= s.len() && arg_wf(a),
{
    lemma_int(s, i);
    if i < s.len() {
        lemma_name(s, i + 1);
        lemma_span(s, i + 1, CharClass::Text);
    }
}

pub proof fn lemma_args_rest(s: Seq<char>, i: int, acc: Seq<ExprView>)
    requires
        0 <= i <= s.len(),
        forall|k: int| 0 <= k < acc.len() ==> arg_wf(#[trigger] acc[k]),
    ensures
        spec_args_rest(s, i, acc) matches Ok((r, k)) ==> i < k <= s.len() && forall|m: int|
            0 <= m < r.len() ==> arg_wf(#[trigger] r[m]),
    decreases s.len() - i,
{
    if char_at(s, i, ',') {
        lemma_arg(s, i + 1);
        if let Ok((a, j)) = spec_arg(s, i + 1) {
            let acc2 = acc.push(a);
            assert forall|k: int| 0 <= k < acc2.len() implies arg_wf(#[trigger] acc2[k]) by {
                if k < acc.len() {
                    assert(acc2[k] == acc[k]);
                }
            }
            lemma_args_rest(s, j, acc2);
        }
    }
}

pub proof fn lemma_call(s: Seq<char>, i: int)
    requires
        0 <= i <= s.len(),
    ensures
        spec_call(s, i) matches Ok((c, k)) ==> i < k <= s.len() && call_wf(c),
{
    lemma_name(s, i);
    if let Ok((_, j)) = spec_name(s, i) {
        if char_at(s, j, '(') && !char_at(s, j + 1, ')') {
            lemma_arg(s, j + 1);
            if let Ok((a, k)) = spec_arg(s, j + 1) {
                lemma_args_rest(s, k, seq![a]);
            }
        }
    }
}

pub proof fn lemma_selector_rest(s: Seq<char>, i: int, acc: Seq<JopView>)
    requires
        0 <= i <= s.len(),
        acc.len() > 0,
        forall|k: int| 0 <= k < acc.len() ==> query_wf(#[trigger] acc[k]),
    ensures
        spec_selector_rest(s, i, acc) matches Ok((r, k)) ==> i <= k <= s.len() && r.len() > 0
            && forall|m: int| 0 <= m < r.len() ==> query_wf(#[trigger] r[m]),
    decreases s.len() - i,
{
    if char_at(s, i, '.') {
        lemma_query(s, i + 1);
        if let Ok((q, j)) = spec_query(s, i + 1) {
            let acc2 = acc.push(q);
            assert forall|k: int| 0 <= k < acc2.len() implies query_wf(#[trigger] acc2[k]) by {
                if k < acc.len() {
                    assert(acc2[k] == acc[k]);
                }
            }
            lemma_selector_rest(s, j, acc2);
        }
    }
}

pub proof fn lemma_calls_rest(s: Seq<char>, i: int, acc: Seq<CallView>)
    requires
        0 <= i <= s.len(),
        acc.len() > 0,
        forall|k: int| 0 <= k < acc.len() ==> call_wf(#[trigger] acc[k]),
    ensures
        spec_calls_rest(s, i, acc) matches Ok(r) ==> r.len() > 0 && forall|m: int|
            0 <= m < r.len() ==> call_wf(#[trigger] r[m]),
    decreases s.len() - i,
{
    if 0 <= i < s.len() && is_ws(s[i]) {
        lemma_span(s, i, CharClass::Space);
        lemma_call(s, ws_end(s, i));
        if let Ok((c, k)) = spec_call(s, ws_end(s, i)) {
            let acc2 = acc.push(c);
            assert forall|k: int| 0 <= k < acc2.len() implies call_wf(#[trigger] acc2[k]) by {
                if k < acc.len() {
                    assert(acc2[k] == acc[k]);
                }
            }
            lemma_calls_rest(s, k, acc2);
        }
    }
}

/// Every script that the grammar reads is well formed.
pub proof fn lemma_parse_wf(s: Seq<char>)
    ensures
        spec_parse(s) matches Ok(sv) ==> script_wf(sv),
{
    let j0 = if char_at(s, 0, '.') {
        1int
    } else {
        0
    };
    lemma_query(s, j0);
    if let Ok((q, k)) = spec_query(s, j0) {
        lemma_selector_rest(s, k, seq![q]);
        if let Ok((sel, i)) = spec_selector(s, 0) {
            lemma_span(s, i, CharClass::Space);
            let j = ws_end(s, i);
            if char_at(s, j, '@') {
                lemma_span(s, j + 1, CharClass::Space);
                lemma_call(s, ws_end(s, j + 1));
                if let Ok((c, k2)) = spec_call(s, ws_end(s, j + 1)) {
                    lemma_calls_rest(s, k2, seq![c]);
                }
            }
        }
    }
}

} // verus!
