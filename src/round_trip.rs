use vstd::prelude::*;

use crate::grammar::{
    arg_wf, call_wf, char_at, digit_value, digits_value, in_class, is_digit, is_name_char, lemma_parse_wf, query_wf, script_wf, span_end, spec_arg, spec_args, spec_args_rest, spec_array_query, spec_call, spec_calls_rest, spec_int, spec_name, spec_opt_int, spec_parse, spec_query, spec_selector, spec_selector_rest, starts_int, ws_end, CharClass,
};
use crate::render::{
    arg_text, args_text, call_text, calls_text, digit_char, int_text, nat_text, opt_int_text, query_text, script_text, selector_text,
};
use crate::engine::{lemma_execute_view, outcome_view, spec_execute, Builtin};
use crate::value::JsonView;
use crate::script::{
    Script, ArraySlice, CallView, ExprView, JopView, ScriptView,
};

verus! {

/// `t` stands in `s` from position `i`.
pub open spec fn occurs(s: Seq<char>, i: int, t: Seq<char>) -> bool {
    0 <= i && i + t.len() <= s.len() && forall|k: int| 0 <= k < t.len() ==> s[i + k] == #[trigger] t[k]
}

proof fn lemma_occurs_split(s: Seq<char>, i: int, a: Seq<char>, b: Seq<char>)
    requires
        occurs(s, i, a + b),
    ensures
        occurs(s, i, a),
        occurs(s, i + a.len(), b),
{
    assert forall|k: int| 0 <= k < a.len() implies s[i + k] == #[trigger] a[k] by {
        assert((a + b)[k] == a[k]);
    }
    assert forall|k: int| 0 <= k < b.len() implies s[i + a.len() + k] == #[trigger] b[k] by {
        assert((a + b)[a.len() + k] == b[k]);
    }
}

proof fn lemma_span_exact(s: Seq<char>, i: int, j: int, k: CharClass)
    requires
        0 <= i <= j <= s.len(),
        forall|m: int| i <= m < j ==> in_class(k, #[trigger] s[m]),
        j == s.len() || !in_class(k, s[j]),
    ensures
        span_end(s, i, k) == j,
    decreases j - i,
{
    if i < j {
        lemma_span_exact(s, i + 1, j, k);
    }
}

proof fn lemma_digit_char(d: int)
    requires
        0 <= d < 10,
    ensures
        is_digit(digit_char(d)),
        digit_value(digit_char(d)) == d,
{
}

proof fn lemma_nat_text_digits(n: nat)
    ensures
        nat_text(n).len() >= 1,
        forall|k: int| 0 <= k < nat_text(n).len() ==> is_digit(#[trigger] nat_text(n)[k]),
    decreases n,
{
    lemma_digit_char(n as int % 10);
    if n >= 10 {
        lemma_nat_text_digits(n / 10);
        let a = nat_text(n / 10);
        let b = seq![digit_char(n as int % 10)];
        assert forall|k: int| 0 <= k < (a + b).len() implies is_digit(#[trigger] (a + b)[k]) by {
            if k < a.len() {
                assert((a + b)[k] == a[k]);
            } else {
                assert((a + b)[k] == b[k - a.len()]);
            }
        }
    } else {
        lemma_digit_char(n as int);
    }
}

proof fn lemma_nat_value(s: Seq<char>, j: int, n: nat)
    requires
        occurs(s, j, nat_text(n)),
    ensures
        digits_value(s, j, j + nat_text(n).len()) == n,
    decreases n,
{
    if n < 10 {
        lemma_digit_char(n as int);
        assert(s[j + 0] == nat_text(n)[0]);
        assert(digits_value(s, j, j) == 0);
    } else {
        let a = nat_text(n / 10);
        let b = seq![digit_char(n as int % 10)];
        lemma_occurs_split(s, j, a, b);
        lemma_nat_value(s, j, n / 10);
        lemma_digit_char(n as int % 10);
        assert(s[j + a.len() + 0] == b[0]);
        assert(digits_value(s, j, j + a.len() + 1) == digits_value(s, j, j + a.len()) * 10
            + digit_value(s[j + a.len()]));
    }
}

/// The text of an integer reads back as that integer, where no digit
/// follows it.
proof fn lemma_int_rt(s: Seq<char>, i: int, v: i64)
    requires
        occurs(s, i, int_text(v as int)),
        !(i + int_text(v as int).len() < s.len() && is_digit(s[i + int_text(v as int).len()])),
    ensures
        spec_int(s, i) == Ok::<_, int>((v, i + int_text(v as int).len())),
        starts_int(s, i),
{
    let e = i + int_text(v as int).len();
    if v < 0 {
        let t = nat_text((-v) as nat);
        lemma_occurs_split(s, i, seq!['-'], t);
        lemma_nat_text_digits((-v) as nat);
        assert(s[i + 0] == seq!['-'][0]);
        assert forall|m: int| i + 1 <= m < e implies in_class(CharClass::Digit, #[trigger] s[m]) by {
            assert(s[i + 1 + (m - i - 1)] == t[m - i - 1]);
        }
        lemma_span_exact(s, i + 1, e, CharClass::Digit);
        lemma_nat_value(s, i + 1, (-v) as nat);
    } else {
        let t = nat_text(v as nat);
        lemma_nat_text_digits(v as nat);
        assert(s[i + 0] == t[0]);
        assert forall|m: int| i <= m < e implies in_class(CharClass::Digit, #[trigger] s[m]) by {
            assert(s[i + (m - i)] == t[m - i]);
        }
        lemma_span_exact(s, i, e, CharClass::Digit);
        lemma_nat_value(s, i, v as nat);
    }
}

/// The text of an optional integer reads back as it, where what follows
/// cannot start an integer.
proof fn lemma_opt_int_rt(s: Seq<char>, i: int, o: Option<i64>)
    requires
        occurs(s, i, opt_int_text(o)),
        !starts_int(s, i + opt_int_text(o).len()),
    ensures
        spec_opt_int(s, i) == Ok::<_, int>((o, i + opt_int_text(o).len())),
{
    if let Some(v) = o {
        lemma_int_rt(s, i, v);
    }
}

/// A well-formed name reads back as itself, where no name character follows
/// it.
proof fn lemma_name_rt(s: Seq<char>, i: int, n: Seq<char>)
    requires
        n.len() > 0,
        forall|k: int| 0 <= k < n.len() ==> is_name_char(#[trigger] n[k]),
        occurs(s, i, n),
        i + n.len() == s.len() || !is_name_char(s[i + n.len()]),
    ensures
        spec_name(s, i) == Ok::<_, int>((n, i + n.len())),
{
    let e = i + n.len();
    assert forall|m: int| i <= m < e implies in_class(CharClass::Name, #[trigger] s[m]) by {
        assert(s[i + (m - i)] == n[m - i]);
    }
    lemma_span_exact(s, i, e, CharClass::Name);
    assert(s.subrange(i, e) =~= n) by {
        assert forall|k: int| 0 <= k < n.len() implies s.subrange(i, e)[k] == n[k] by {
            assert(s[i + k] == n[k]);
        }
    }
}

proof fn lemma_occurs_char(s: Seq<char>, i: int, c: char)
    requires
        occurs(s, i, seq![c]),
    ensures
        0 <= i < s.len(),
        s[i] == c,
{
    assert(s[i + 0] == seq![c][0]);
}

/// The text of a well-formed query reads back as it, where no name
/// character follows it.
proof fn lemma_query_rt(s: Seq<char>, i: int, q: JopView)
    requires
        query_wf(q),
        occurs(s, i, query_text(q)),
        i + query_text(q).len() == s.len() || !is_name_char(s[i + query_text(q).len()]),
    ensures
        spec_query(s, i) == Ok::<_, int>((q, i + query_text(q).len())),
{
    match q {
        JopView::Key(n) => {
            assert(s[i + 0] == n[0]);
            lemma_name_rt(s, i, n);
        },
        JopView::Wildcard => {
            lemma_occurs_char(s, i, '*');
        },
        JopView::Index(v) => {
            let a = seq!['['];
            let b = int_text(v as int);
            let c = seq![']'];
            lemma_occurs_split(s, i, a + b, c);
            lemma_occurs_split(s, i, a, b);
            lemma_occurs_char(s, i, '[');
            lemma_occurs_char(s, i + 1 + b.len(), ']');
            lemma_opt_int_rt(s, i + 1, Some(v));
        },
        JopView::Slice(sl) => {
            let l = seq!['['];
            let a = opt_int_text(sl.start);
            let colon = seq![':'];
            let b = opt_int_text(sl.end);
            let c = match sl.step {
                Some(st) => seq![':'] + int_text(st as int),
                None => Seq::empty(),
            };
            let r = seq![']'];
            assert(query_text(q) == l + a + colon + b + c + r);
            lemma_occurs_split(s, i, l + a + colon + b + c, r);
            lemma_occurs_split(s, i, l + a + colon + b, c);
            lemma_occurs_split(s, i, l + a + colon, b);
            lemma_occurs_split(s, i, l + a, colon);
            lemma_occurs_split(s, i, l, a);
            let start_at = i + 1;
            let colon_at = start_at + a.len();
            let end_at = colon_at + 1;
            let step_at = end_at + b.len();
            let close_at = step_at + c.len();
            lemma_occurs_char(s, i, '[');
            lemma_occurs_char(s, colon_at, ':');
            lemma_occurs_char(s, close_at, ']');
            lemma_opt_int_rt(s, start_at, sl.start);
            assert(!char_at(s, colon_at, ']'));
            match sl.step {
                Some(st) => {
                    lemma_occurs_split(s, step_at, seq![':'], int_text(st as int));
                    lemma_occurs_char(s, step_at, ':');
                    lemma_opt_int_rt(s, end_at, sl.end);
                    lemma_opt_int_rt(s, step_at + 1, Some(st));
                    assert(spec_array_query(s, i) == Ok::<_, int>(
                        (JopView::Slice(ArraySlice { start: sl.start, end: sl.end, step: Some(st) }), close_at + 1),
                    ));
                },
                None => {
                    assert(c.len() == 0);
                    lemma_opt_int_rt(s, end_at, sl.end);
                    assert(spec_array_query(s, i) == Ok::<_, int>(
                        (JopView::Slice(ArraySlice { start: sl.start, end: sl.end, step: None }), step_at + 1),
                    ));
                },
            }
        },
    }
}

/// From the query `k` of a rendered selector on, the rest of the selector
/// reads back.
proof fn lemma_selector_rest_rt(s: Seq<char>, i: int, qs: Seq<JopView>, k: int)
    requires
        forall|m: int| 0 <= m < qs.len() ==> query_wf(#[trigger] qs[m]),
        occurs(s, i, selector_text(qs)),
        i + selector_text(qs).len() == s.len() || (!is_name_char(s[i + selector_text(qs).len()])
            && s[i + selector_text(qs).len()] != '.'),
        0 <= k <= qs.len(),
    ensures
        spec_selector_rest(s, i + selector_text(qs.take(k)).len(), qs.take(k)) == Ok::<_, int>(
            (qs, i + selector_text(qs).len()),
        ),
    decreases qs.len() - k,
{
    let e = i + selector_text(qs).len();
    if k == qs.len() {
        assert(qs.take(k) =~= qs);
    } else {
        lemma_selector_prefix(s, i, qs, k + 1);
        let pre = selector_text(qs.take(k));
        let qt = query_text(qs[k]);
        assert(qs.take(k + 1).drop_last() =~= qs.take(k));
        assert(qs.take(k + 1).last() == qs[k]);
        assert(selector_text(qs.take(k + 1)) == pre + seq!['.'] + qt);
        lemma_occurs_split(s, i, pre + seq!['.'], qt);
        lemma_occurs_split(s, i, pre, seq!['.']);
        let p = i + pre.len();
        lemma_occurs_char(s, p, '.');
        let next_at = p + 1 + qt.len();
        if k + 1 < qs.len() {
            lemma_selector_prefix(s, i, qs, k + 2);
            assert(qs.take(k + 2).drop_last() =~= qs.take(k + 1));
            lemma_occurs_split(s, i, selector_text(qs.take(k + 1)) + seq!['.'], query_text(qs[k + 1]));
            lemma_occurs_split(s, i, selector_text(qs.take(k + 1)), seq!['.']);
            lemma_occurs_char(s, next_at, '.');
        } else {
            assert(qs.take(k + 1) =~= qs);
        }
        lemma_query_rt(s, p + 1, qs[k]);
        assert(qs.take(k).push(qs[k]) =~= qs.take(k + 1));
        lemma_selector_rest_rt(s, i, qs, k + 1);
    }
}

/// Each prefix of a rendered selector stands where the selector does.
proof fn lemma_selector_prefix(s: Seq<char>, i: int, qs: Seq<JopView>, k: int)
    requires
        occurs(s, i, selector_text(qs)),
        0 <= k <= qs.len(),
    ensures
        occurs(s, i, selector_text(qs.take(k))),
    decreases qs.len() - k,
{
    if k == qs.len() {
        assert(qs.take(k) =~= qs);
    } else {
        lemma_selector_prefix(s, i, qs, k + 1);
        assert(qs.take(k + 1).drop_last() =~= qs.take(k));
        lemma_occurs_split(s, i, selector_text(qs.take(k)) + seq!['.'], query_text(qs[k]));
        lemma_occurs_split(s, i, selector_text(qs.take(k)), seq!['.']);
    }
}

/// A rendered selector at the start of a text reads back.
proof fn lemma_selector_rt(s: Seq<char>, qs: Seq<JopView>)
    requires
        qs.len() > 0,
        forall|m: int| 0 <= m < qs.len() ==> query_wf(#[trigger] qs[m]),
        occurs(s, 0, selector_text(qs)),
        selector_text(qs).len() == s.len() || (!is_name_char(s[selector_text(qs).len() as int])
            && s[selector_text(qs).len() as int] != '.'),
    ensures
        spec_selector(s, 0) == Ok::<_, int>((qs, selector_text(qs).len() as int)),
{
    lemma_selector_prefix(s, 0, qs, 1);
    assert(qs.take(1).drop_last() =~= Seq::<JopView>::empty());
    assert(qs.take(1).last() == qs[0]);
    let qt = query_text(qs[0]);
    assert(selector_text(qs.take(1).drop_last()) == Seq::<char>::empty());
    assert(selector_text(qs.take(1)) =~= seq!['.'] + qt);
    lemma_occurs_split(s, 0, seq!['.'], qt);
    lemma_occurs_char(s, 0, '.');
    if qs.len() > 1 {
        lemma_selector_prefix(s, 0, qs, 2);
        assert(qs.take(2).drop_last() =~= qs.take(1));
        lemma_occurs_split(s, 0, selector_text(qs.take(1)) + seq!['.'], query_text(qs[1]));
        lemma_occurs_split(s, 0, selector_text(qs.take(1)), seq!['.']);
        lemma_occurs_char(s, 1 + qt.len() as int, '.');
    } else {
        assert(qs.take(1) =~= qs);
    }
    lemma_query_rt(s, 1, qs[0]);
    assert(seq![qs[0]] =~= qs.take(1));
    lemma_selector_rest_rt(s, 0, qs, 1);
}

/// The text of a well-formed argument reads back as it, where a comma or a
/// closing parenthesis follows it.
proof fn lemma_arg_rt(s: Seq<char>, i: int, a: ExprView)
    requires
        arg_wf(a),
        occurs(s, i, arg_text(a)),
        i + arg_text(a).len() < s.len(),
        s[i + arg_text(a).len()] == ',' || s[i + arg_text(a).len()] == ')',
    ensures
        spec_arg(s, i) == Ok::<_, int>((a, i + arg_text(a).len())),
        s[i] != ')',
{
    match a {
        ExprView::Integer(v) => {
            lemma_int_rt(s, i, v);
        },
        ExprView::Str(t) => {
            lemma_occurs_split(s, i, seq!['"'] + t, seq!['"']);
            lemma_occurs_split(s, i, seq!['"'], t);
            lemma_occurs_char(s, i, '"');
            let j = i + 1 + t.len();
            lemma_occurs_char(s, j, '"');
            assert forall|m: int| i + 1 <= m < j implies in_class(CharClass::Text, #[trigger] s[m]) by {
                assert(s[i + 1 + (m - i - 1)] == t[m - i - 1]);
            }
            lemma_span_exact(s, i + 1, j, CharClass::Text);
            assert(s.subrange(i + 1, j) =~= t) by {
                assert forall|k: int| 0 <= k < t.len() implies s.subrange(i + 1, j)[k] == t[k] by {
                    assert(s[i + 1 + k] == t[k]);
                }
            }
        },
        ExprView::Field(n) => {
            lemma_occurs_split(s, i, seq!['.'], n);
            lemma_occurs_char(s, i, '.');
            lemma_name_rt(s, i + 1, n);
        },
        ExprView::Variable(n) => {
            lemma_occurs_split(s, i, seq!['$'], n);
            lemma_occurs_char(s, i, '$');
            lemma_name_rt(s, i + 1, n);
        },
        ExprView::Element(_) => {},
    }
}

proof fn lemma_args_step(args: Seq<ExprView>, k: int)
    requires
        1 <= k < args.len(),
    ensures
        args_text(args.take(k + 1)) == args_text(args.take(k)) + seq![','] + arg_text(args[k]),
{
    assert(args.take(k + 1).drop_last() =~= args.take(k));
    assert(args.take(k + 1).last() == args[k]);
}

proof fn lemma_args_prefix(s: Seq<char>, i: int, args: Seq<ExprView>, k: int)
    requires
        occurs(s, i, args_text(args)),
        1 <= k <= args.len(),
    ensures
        occurs(s, i, args_text(args.take(k))),
    decreases args.len() - k,
{
    if k == args.len() {
        assert(args.take(k) =~= args);
    } else {
        lemma_args_prefix(s, i, args, k + 1);
        lemma_args_step(args, k);
        lemma_occurs_split(s, i, args_text(args.take(k)) + seq![','], arg_text(args[k]));
        lemma_occurs_split(s, i, args_text(args.take(k)), seq![',']);
    }
}

proof fn lemma_args_rest_rt(s: Seq<char>, i: int, args: Seq<ExprView>, k: int)
    requires
        forall|m: int| 0 <= m < args.len() ==> arg_wf(#[trigger] args[m]),
        occurs(s, i, args_text(args)),
        char_at(s, i + args_text(args).len(), ')'),
        1 <= k <= args.len(),
    ensures
        spec_args_rest(s, i + args_text(args.take(k)).len(), args.take(k)) == Ok::<_, int>(
            (args, i + args_text(args).len() + 1),
        ),
    decreases args.len() - k,
{
    if k == args.len() {
        assert(args.take(k) =~= args);
    } else {
        lemma_args_prefix(s, i, args, k + 1);
        lemma_args_step(args, k);
        let pre = args_text(args.take(k));
        let at = arg_text(args[k]);
        lemma_occurs_split(s, i, pre + seq![','], at);
        lemma_occurs_split(s, i, pre, seq![',']);
        let p = i + pre.len();
        lemma_occurs_char(s, p, ',');
        let next_at = p + 1 + at.len();
        if k + 1 < args.len() {
            lemma_args_prefix(s, i, args, k + 2);
            lemma_args_step(args, k + 1);
            lemma_occurs_split(s, i, args_text(args.take(k + 1)) + seq![','], arg_text(args[k + 1]));
            lemma_occurs_split(s, i, args_text(args.take(k + 1)), seq![',']);
            lemma_occurs_char(s, next_at, ',');
        } else {
            assert(args.take(k + 1) =~= args);
        }
        lemma_arg_rt(s, p + 1, args[k]);
        assert(args.take(k).push(args[k]) =~= args.take(k + 1));
        lemma_args_rest_rt(s, i, args, k + 1);
    }
}

proof fn lemma_args_rt(s: Seq<char>, i: int, args: Seq<ExprView>)
    requires
        forall|m: int| 0 <= m < args.len() ==> arg_wf(#[trigger] args[m]),
        occurs(s, i, args_text(args)),
        char_at(s, i + args_text(args).len(), ')'),
    ensures
        spec_args(s, i) == Ok::<_, int>((args, i + args_text(args).len() + 1)),
{
    if args.len() == 0 {
        assert(args =~= Seq::<ExprView>::empty());
    } else {
        lemma_args_prefix(s, i, args, 1);
        assert(args.take(1).len() == 1);
        assert(args.take(1)[0] == args[0]);
        let at = arg_text(args[0]);
        if args.len() > 1 {
            lemma_args_prefix(s, i, args, 2);
            lemma_args_step(args, 1);
            lemma_occurs_split(s, i, args_text(args.take(1)) + seq![','], arg_text(args[1]));
            lemma_occurs_split(s, i, args_text(args.take(1)), seq![',']);
            lemma_occurs_char(s, i + at.len(), ',');
        } else {
            assert(args.take(1) =~= args);
        }
        lemma_arg_rt(s, i, args[0]);
        assert(seq![args[0]] =~= args.take(1));
        lemma_args_rest_rt(s, i, args, 1);
    }
}

/// The text of a well-formed call reads back as it.
proof fn lemma_call_rt(s: Seq<char>, i: int, c: CallView)
    requires
        call_wf(c),
        occurs(s, i, call_text(c)),
    ensures
        spec_call(s, i) == Ok::<_, int>((c, i + call_text(c).len())),
        is_name_char(s[i]),
{
    let n = c.name;
    let a = args_text(c.args);
    lemma_occurs_split(s, i, n + seq!['('] + a, seq![')']);
    lemma_occurs_split(s, i, n + seq!['('], a);
    lemma_occurs_split(s, i, n, seq!['(']);
    let j = i + n.len();
    lemma_occurs_char(s, j, '(');
    lemma_occurs_char(s, j + 1 + a.len(), ')');
    assert(s[i + 0] == n[0]);
    lemma_name_rt(s, i, n);
    lemma_args_rt(s, j + 1, c.args);
}

proof fn lemma_calls_step(cs: Seq<CallView>, k: int)
    requires
        1 <= k < cs.len(),
    ensures
        calls_text(cs.take(k + 1)) == calls_text(cs.take(k)) + seq![' '] + call_text(cs[k]),
{
    assert(cs.take(k + 1).drop_last() =~= cs.take(k));
    assert(cs.take(k + 1).last() == cs[k]);
}

proof fn lemma_calls_prefix(s: Seq<char>, i: int, cs: Seq<CallView>, k: int)
    requires
        occurs(s, i, calls_text(cs)),
        1 <= k <= cs.len(),
    ensures
        occurs(s, i, calls_text(cs.take(k))),
    decreases cs.len() - k,
{
    if k == cs.len() {
        assert(cs.take(k) =~= cs);
    } else {
        lemma_calls_prefix(s, i, cs, k + 1);
        lemma_calls_step(cs, k);
        lemma_occurs_split(s, i, calls_text(cs.take(k)) + seq![' '], call_text(cs[k]));
        lemma_occurs_split(s, i, calls_text(cs.take(k)), seq![' ']);
    }
}

proof fn lemma_calls_rest_rt(s: Seq<char>, i: int, cs: Seq<CallView>, k: int)
    requires
        forall|m: int| 0 <= m < cs.len() ==> call_wf(#[trigger] cs[m]),
        occurs(s, i, calls_text(cs)),
        i + calls_text(cs).len() == s.len(),
        1 <= k <= cs.len(),
    ensures
        spec_calls_rest(s, i + calls_text(cs.take(k)).len(), cs.take(k)) == Ok::<_, int>(cs),
    decreases cs.len() - k,
{
    if k == cs.len() {
        assert(cs.take(k) =~= cs);
    } else {
        lemma_calls_prefix(s, i, cs, k + 1);
        lemma_calls_step(cs, k);
        let pre = calls_text(cs.take(k));
        let ct = call_text(cs[k]);
        lemma_occurs_split(s, i, pre + seq![' '], ct);
        lemma_occurs_split(s, i, pre, seq![' ']);
        let p = i + pre.len();
        lemma_occurs_char(s, p, ' ');
        lemma_call_rt(s, p + 1, cs[k]);
        lemma_span_exact(s, p, p + 1, CharClass::Space);
        assert(ws_end(s, p) == p + 1);
        assert(cs.take(k).push(cs[k]) =~= cs.take(k + 1));
        lemma_calls_rest_rt(s, i, cs, k + 1);
    }
}

/// The text of a well-formed script reads back as it.
proof fn lemma_script_rt(sv: ScriptView)
    requires
        script_wf(sv),
    ensures
        spec_parse(script_text(sv)) == Ok::<_, int>(sv),
{
    let s = script_text(sv);
    let st = selector_text(sv.selector);
    let ct = calls_text(sv.action);
    assert(occurs(s, 0, s)) by {
        assert forall|k: int| 0 <= k < s.len() implies s[0 + k] == #[trigger] s[k] by {}
    }
    lemma_occurs_split(s, 0, st + seq!['@'], ct);
    lemma_occurs_split(s, 0, st, seq!['@']);
    let i = st.len() as int;
    lemma_occurs_char(s, i, '@');
    lemma_selector_rt(s, sv.selector);
    lemma_span_exact(s, i, i, CharClass::Space);
    lemma_calls_prefix(s, i + 1, sv.action, 1);
    assert(sv.action.take(1).len() == 1);
    assert(sv.action.take(1)[0] == sv.action[0]);
    lemma_call_rt(s, i + 1, sv.action[0]);
    lemma_span_exact(s, i + 1, i + 1, CharClass::Space);
    assert(seq![sv.action[0]] =~= sv.action.take(1));
    lemma_calls_rest_rt(s, i + 1, sv.action, 1);
}

/// Parsing the rendering of a parsed program gives back the same script:
/// the same selector steps and the same calls, field for field.
pub proof fn law_parse_render(text: Seq<char>)
    ensures
        spec_parse(text) matches Ok(sv) ==> spec_parse(script_text(sv)) == Ok::<_, int>(sv),
{
    lemma_parse_wf(text);
    if let Ok(sv) = spec_parse(text) {
        lemma_script_rt(sv);
    }
}

/// A script parsed from a program and the script parsed from its
/// rendering are the same field for field, and run alike on every document:
/// the same effects, and the same result up to the view of a failure.
pub proof fn law_parse_render_runs_alike(
    text: Seq<char>,
    s: Script,
    s2: Script,
    reg: Map<Seq<char>, Builtin>,
    root: JsonView,
)
    requires
        spec_parse(text) == Ok::<_, int>(s@),
        spec_parse(script_text(s@)) == Ok::<_, int>(s2@),
    ensures
        s2@ == s@,
        outcome_view(spec_execute(reg, root, s2)) == outcome_view(spec_execute(reg, root, s)),
{
    law_parse_render(text);
    lemma_execute_view(reg, root, s2, s);
}

} // verus!
