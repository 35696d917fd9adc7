use vstd::prelude::*;

use crate::parse::{calls_view, exprs_view, jops_view};
use crate::script::{
    ActionExpr, CallView, ExprView, Function, Jop, JopView, ObjectSelector, Script, ScriptView,
};

verus! {

pub open spec fn digit_char(d: int) -> char {
    if d == 0 {
        '0'
    } else if d == 1 {
        '1'
    } else if d == 2 {
        '2'
    } else if d == 3 {
        '3'
    } else if d == 4 {
        '4'
    } else if d == 5 {
        '5'
    } else if d == 6 {
        '6'
    } else if d == 7 {
        '7'
    } else if d == 8 {
        '8'
    } else {
        '9'
    }
}

/// The decimal digits of `n`, without leading zeros.
pub open spec fn nat_text(n: nat) -> Seq<char>
    decreases n,
{
    if n < 10 {
        seq![digit_char(n as int)]
    } else {
        nat_text(n / 10) + seq![digit_char(n as int % 10)]
    }
}

pub open spec fn int_text(v: int) -> Seq<char> {
    if v < 0 {
        seq!['-'] + nat_text((-v) as nat)
    } else {
        nat_text(v as nat)
    }
}

pub open spec fn opt_int_text(o: Option<i64>) -> Seq<char> {
    match o {
        Some(v) => int_text(v as int),
        None => Seq::empty(),
    }
}

pub open spec fn query_text(q: JopView) -> Seq<char> {
    match q {
        JopView::Index(i) => seq!['['] + int_text(i as int) + seq![']'],
        JopView::Slice(sl) => seq!['['] + opt_int_text(sl.start) + seq![':'] + opt_int_text(sl.end)
            + match sl.step {
            Some(c) => seq![':'] + int_text(c as int),
            None => Seq::empty(),
        } + seq![']'],
        JopView::Wildcard => seq!['*'],
        JopView::Key(n) => n,
    }
}

/// Each query after a dot.
pub open spec fn selector_text(qs: Seq<JopView>) -> Seq<char>
    decreases qs.len(),
{
    if qs.len() == 0 {
        Seq::empty()
    } else {
        selector_text(qs.drop_last()) + seq!['.'] + query_text(qs.last())
    }
}

/// Argument expressions that the grammar has no form for come out as
/// `.[i]`, which it does not read back.
pub open spec fn arg_text(a: ExprView) -> Seq<char> {
    match a {
        ExprView::Integer(v) => int_text(v as int),
        ExprView::Str(t) => seq!['"'] + t + seq!['"'],
        ExprView::Variable(n) => seq!['$'] + n,
        ExprView::Field(n) => seq!['.'] + n,
        ExprView::Element(i) => seq!['.', '['] + int_text(i as int) + seq![']'],
    }
}

/// The arguments separated by commas.
pub open spec fn args_text(args: Seq<ExprView>) -> Seq<char>
    decreases args.len(),
{
    if args.len() == 0 {
        Seq::empty()
    } else if args.len() == 1 {
        arg_text(args[0])
    } else {
        args_text(args.drop_last()) + seq![','] + arg_text(args.last())
    }
}

pub open spec fn call_text(c: CallView) -> Seq<char> {
    c.name + seq!['('] + args_text(c.args) + seq![')']
}

/// The calls separated by single spaces.
pub open spec fn calls_text(cs: Seq<CallView>) -> Seq<char>
    decreases cs.len(),
{
    if cs.len() == 0 {
        Seq::empty()
    } else if cs.len() == 1 {
        call_text(cs[0])
    } else {
        calls_text(cs.drop_last()) + seq![' '] + call_text(cs.last())
    }
}

/// The program text of a script.
pub open spec fn script_text(sv: ScriptView) -> Seq<char> {
    selector_text(sv.selector) + seq!['@'] + calls_text(sv.action)
}

pub open spec fn is_symbol(c: char) -> bool {
    c == '.' || c == '[' || c == ']' || c == ':' || c == '*' || c == '@' || c == '(' || c == ')'
        || c == ',' || c == '"' || c == '$' || c == '-' || c == ' ' || c == '\n' || ('0' <= c
        && c <= '9')
}

/// Appends one of the characters that the renderer writes by itself.
pub(crate) fn push_symbol(out: &mut String, c: char)
    requires
        is_symbol(c),
    ensures
        final(out)@ == old(out)@.push(c),
{
    proof {
        reveal_strlit(".");
        reveal_strlit("[");
        reveal_strlit("]");
        reveal_strlit(":");
        reveal_strlit("*");
        reveal_strlit("@");
        reveal_strlit("(");
        reveal_strlit(")");
        reveal_strlit(",");
        reveal_strlit("\"");
        reveal_strlit("$");
        reveal_strlit("-");
        reveal_strlit(" ");
        reveal_strlit("\n");
        reveal_strlit("0");
        reveal_strlit("1");
        reveal_strlit("2");
        reveal_strlit("3");
        reveal_strlit("4");
        reveal_strlit("5");
        reveal_strlit("6");
        reveal_strlit("7");
        reveal_strlit("8");
        reveal_strlit("9");
    }
    let s: &str = if c == '.' {
        "."
    } else if c == '[' {
        "["
    } else if c == ']' {
        "]"
    } else if c == ':' {
        ":"
    } else if c == '*' {
        "*"
    } else if c == '@' {
        "@"
    } else if c == '(' {
        "("
    } else if c == ')' {
        ")"
    } else if c == ',' {
        ","
    } else if c == '"' {
        "\""
    } else if c == '$' {
        "$"
    } else if c == '-' {
        "-"
    } else if c == ' ' {
        " "
    } else if c == '\n' {
        "\n"
    } else if c == '0' {
        "0"
    } else if c == '1' {
        "1"
    } else if c == '2' {
        "2"
    } else if c == '3' {
        "3"
    } else if c == '4' {
        "4"
    } else if c == '5' {
        "5"
    } else if c == '6' {
        "6"
    } else if c == '7' {
        "7"
    } else if c == '8' {
        "8"
    } else {
        "9"
    };
    proof {
        assert(s@ =~= seq![c]);
    }
    out.append(s);
}

fn digit(d: u64) -> (r: char)
    requires
        d < 10,
    ensures
        r == digit_char(d as int),
        is_symbol(r),
{
    if d == 0 {
        '0'
    } else if d == 1 {
        '1'
    } else if d == 2 {
        '2'
    } else if d == 3 {
        '3'
    } else if d == 4 {
        '4'
    } else if d == 5 {
        '5'
    } else if d == 6 {
        '6'
    } else if d == 7 {
        '7'
    } else if d == 8 {
        '8'
    } else {
        '9'
    }
}

fn push_nat(out: &mut String, n: u64)
    ensures
        final(out)@ == old(out)@ + nat_text(n as nat),
    decreases n,
{
    if n >= 10 {
        push_nat(out, n / 10);
    }
    push_symbol(out, digit(n % 10));
    proof {
        if n < 10 {
            assert(nat_text(n as nat) == seq![digit_char(n as int)]);
        }
        assert(final(out)@ =~= old(out)@ + nat_text(n as nat));
    }
}

fn push_int(out: &mut String, v: i64)
    ensures
        final(out)@ == old(out)@ + int_text(v as int),
{
    if v < 0 {
        push_symbol(out, '-');
        let m: u64 = if v == i64::MIN {
            9223372036854775808
        } else {
            (-v) as u64
        };
        push_nat(out, m);
        proof {
            assert(final(out)@ =~= old(out)@ + int_text(v as int));
        }
    } else {
        push_nat(out, v as u64);
    }
}

fn push_opt_int(out: &mut String, o: Option<i64>)
    ensures
        final(out)@ == old(out)@ + opt_int_text(o),
{
    match o {
        Some(v) => push_int(out, v),
        None => {
            proof {
                assert(old(out)@ + opt_int_text(o) =~= old(out)@);
            }
        },
    }
}

fn render_query(out: &mut String, q: &Jop)
    ensures
        final(out)@ == old(out)@ + query_text(q@),
{
    match q {
        Jop::ArrayIndex(i) => {
            push_symbol(out, '[');
            push_int(out, *i);
            push_symbol(out, ']');
        },
        Jop::ArraySlice(sl) => {
            push_symbol(out, '[');
            push_opt_int(out, sl.start);
            push_symbol(out, ':');
            push_opt_int(out, sl.end);
            match sl.step {
                Some(c) => {
                    push_symbol(out, ':');
                    push_int(out, c);
                },
                None => {},
            }
            push_symbol(out, ']');
        },
        Jop::Object(ObjectSelector::Wildcard) => {
            push_symbol(out, '*');
        },
        Jop::Object(ObjectSelector::Exact(n)) => {
            out.append(n.as_str());
        },
    }
    proof {
        assert(final(out)@ =~= old(out)@ + query_text(q@));
    }
}

fn render_arg(out: &mut String, a: &ActionExpr)
    ensures
        final(out)@ == old(out)@ + arg_text(a@),
{
    match a {
        ActionExpr::Integer(v) => {
            push_int(out, *v);
        },
        ActionExpr::String(t) => {
            push_symbol(out, '"');
            out.append(t.as_str());
            push_symbol(out, '"');
        },
        ActionExpr::Variable(n) => {
            push_symbol(out, '$');
            out.append(n.as_str());
        },
        ActionExpr::ObjectIndex(n) => {
            push_symbol(out, '.');
            out.append(n.as_str());
        },
        ActionExpr::ArrayIndex(i) => {
            push_symbol(out, '.');
            push_symbol(out, '[');
            push_int(out, *i);
            push_symbol(out, ']');
        },
    }
    proof {
        assert(final(out)@ =~= old(out)@ + arg_text(a@));
    }
}

fn render_call(out: &mut String, f: &Function)
    ensures
        final(out)@ == old(out)@ + call_text(f@),
{
    out.append(f.name.as_str());
    push_symbol(out, '(');
    let ghost start = out@;
    let mut i: usize = 0;
    proof {
        assert(exprs_view(f.args@.take(0)) =~= Seq::<ExprView>::empty());
        assert(out@ =~= start + args_text(exprs_view(f.args@.take(0))));
    }
    while i < f.args.len()
        invariant
            i <= f.args.len(),
            out@ == start + args_text(exprs_view(f.args@.take(i as int))),
        decreases f.args.len() - i,
    {
        let ghost xs = exprs_view(f.args@.take(i + 1));
        proof {
            assert(xs.drop_last() =~= exprs_view(f.args@.take(i as int)));
            assert(xs.last() == f.args@[i as int]@);
        }
        if i > 0 {
            push_symbol(out, ',');
        }
        render_arg(out, &f.args[i]);
        proof {
            if i == 0 {
                assert(xs =~= seq![f.args@[0]@]);
            }
            assert(out@ =~= start + args_text(xs));
        }
        i = i + 1;
    }
    push_symbol(out, ')');
    proof {
        assert(f.args@.take(f.args.len() as int) =~= f.args@);
        assert(final(out)@ =~= old(out)@ + call_text(f@));
    }
}

/// The program text of a script, in the form that `parse` reads: each
/// query after a dot, `@`, then the calls separated by single spaces.
pub fn render(script: &Script) -> (r: String)
    ensures
        r@ == script_text(script@),
{
    let mut out = String::new();
    let mut i: usize = 0;
    proof {
        assert(jops_view(script.selector@.take(0)) =~= Seq::<JopView>::empty());
    }
    while i < script.selector.len()
        invariant
            i <= script.selector.len(),
            out@ == selector_text(jops_view(script.selector@.take(i as int))),
        decreases script.selector.len() - i,
    {
        let ghost xs = jops_view(script.selector@.take(i + 1));
        proof {
            assert(xs.drop_last() =~= jops_view(script.selector@.take(i as int)));
            assert(xs.last() == script.selector@[i as int]@);
        }
        push_symbol(&mut out, '.');
        render_query(&mut out, &script.selector[i]);
        proof {
            assert(out@ =~= selector_text(xs));
        }
        i = i + 1;
    }
    proof {
        assert(script.selector@.take(script.selector.len() as int) =~= script.selector@);
    }
    push_symbol(&mut out, '@');
    let ghost start = out@;
    let mut j: usize = 0;
    proof {
        assert(calls_view(script.action@.take(0)) =~= Seq::<CallView>::empty());
        assert(out@ =~= start + calls_text(calls_view(script.action@.take(0))));
    }
    while j < script.action.len()
        invariant
            j <= script.action.len(),
            out@ == start + calls_text(calls_view(script.action@.take(j as int))),
        decreases script.action.len() - j,
    {
        let ghost xs = calls_view(script.action@.take(j + 1));
        proof {
            assert(xs.drop_last() =~= calls_view(script.action@.take(j as int)));
            assert(xs.last() == script.action@[j as int]@);
        }
        if j > 0 {
            push_symbol(&mut out, ' ');
        }
        render_call(&mut out, &script.action[j]);
        proof {
            if j == 0 {
                assert(xs =~= seq![script.action@[0]@]);
            }
            assert(out@ =~= start + calls_text(xs));
        }
        j = j + 1;
    }
    proof {
        assert(script.action@.take(script.action.len() as int) =~= script.action@);
        assert(out@ =~= script_text(script@));
    }
    out
}

} // verus!
