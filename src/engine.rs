use vstd::prelude::*;

use crate::render::push_symbol;
use crate::runtime::Runtime;
use crate::script::{
    ActionError, ActionExpr, ActionMode, EvalError, EvalErrorView, Function, JkError, JkErrorView,
    Script,
};
use crate::select::{find_entry, lemma_select_view, obj_get, query_result_view, select, spec_select};
use crate::value::{
    entries_view, items_view, json_view, lemma_entries_view, lemma_items_view, JsonNumber,
    JsonValue, JsonView,
};

verus! {

/// The builtin functions that actions can call.
#[derive(Debug, Clone, Copy, PartialEq, Eq)]
pub enum Builtin {
    /// Writes its arguments on one line: strings as they are, other values
    /// in their JSON text, separated by single spaces (see `print_line`).
    Print,
}

/// What a name of the registry stands for.
#[derive(Debug, Clone, Copy, PartialEq, Eq)]
pub struct FunctionPrototype {
    pub func: Builtin,
}

/// The registry of builtin functions, by name. It is built once and only
/// read after that.
pub struct BuiltinFuncs {
    entries: Vec<(String, FunctionPrototype)>,
}

/// The builtin bound to `k` by the first entry for it.
pub open spec fn funcs_get(entries: Seq<(String, FunctionPrototype)>, k: Seq<char>) -> Option<
    Builtin,
>
    decreases entries.len(),
{
    if entries.len() == 0 {
        None
    } else if entries[0].0@ == k {
        Some(entries[0].1.func)
    } else {
        funcs_get(entries.drop_first(), k)
    }
}

impl View for BuiltinFuncs {
    type V = Map<Seq<char>, Builtin>;

    closed spec fn view(&self) -> Map<Seq<char>, Builtin> {
        Map::new(
            |k: Seq<char>| funcs_get(self.entries@, k) is Some,
            |k: Seq<char>| funcs_get(self.entries@, k)->Some_0,
        )
    }
}

impl BuiltinFuncs {
    /// The builtin registered under `name`.
    pub fn get(&self, name: &String) -> (r: Option<FunctionPrototype>)
        ensures
            r == (if self@.contains_key(name@) {
                Some(FunctionPrototype { func: self@[name@] })
            } else {
                None::<FunctionPrototype>
            }),
    {
        let mut i: usize = 0;
        proof {
            assert(self.entries@.skip(0) =~= self.entries@);
        }
        while i < self.entries.len()
            invariant
                i <= self.entries.len(),
                funcs_get(self.entries@.skip(i as int), name@) == funcs_get(
                    self.entries@,
                    name@,
                ),
            decreases self.entries.len() - i,
        {
            proof {
                assert(self.entries@.skip(i as int).drop_first() =~= self.entries@.skip(i + 1));
            }
            if self.entries[i].0 == *name {
                return Some(self.entries[i].1);
            }
            i = i + 1;
        }
        None
    }
}

/// The name of the printing builtin.
pub open spec fn print_name() -> Seq<char> {
    seq!['p']
}

/// The registry of all builtins: `p` prints.
pub fn make_builtin_funcs() -> (r: BuiltinFuncs)
    ensures
        r@ == map![print_name() => Builtin::Print],
{
    proof {
        reveal_strlit("p");
    }
    let mut entries: Vec<(String, FunctionPrototype)> = Vec::new();
    entries.push(("p".to_owned(), FunctionPrototype { func: Builtin::Print }));
    let r = BuiltinFuncs { entries: entries };
    proof {
        assert(r.entries@[0].0@ =~= print_name());
        assert(r.entries@.drop_first().len() == 0);
        assert forall|k: Seq<char>| #[trigger] funcs_get(r.entries@, k) == (if k == print_name() {
            Some(Builtin::Print)
        } else {
            None::<Builtin>
        }) by {
            assert(r.entries@[0].1.func == Builtin::Print);
            assert(funcs_get(r.entries@.drop_first(), k) is None);
        }
        assert(r@ =~= map![print_name() => Builtin::Print]);
    }
    r
}

/// One call of a builtin, with its evaluated arguments, for the caller to
/// carry out.
#[derive(Debug, PartialEq, Eq)]
pub struct Effect {
    pub func: Builtin,
    pub args: Vec<JsonValue>,
}

pub struct EffectView {
    pub func: Builtin,
    pub args: Seq<JsonView>,
}

impl View for Effect {
    type V = EffectView;

    open spec fn view(&self) -> EffectView {
        EffectView { func: self.func, args: items_view(self.args@) }
    }
}

pub open spec fn effects_view(s: Seq<Effect>) -> Seq<EffectView> {
    s.map_values(|e: Effect| e@)
}

/// What a builtin does with its arguments: the effects it asks for and the
/// value it returns.
pub open spec fn spec_invoke(b: Builtin, args: Seq<JsonView>) -> (Seq<EffectView>, Result<
    JsonView,
    JkError,
>) {
    match b {
        Builtin::Print => (seq![EffectView { func: Builtin::Print, args: args }], Ok(JsonView::Null)),
    }
}

pub open spec fn key_var() -> Seq<char> {
    seq!['_', 'k']
}

pub open spec fn value_var() -> Seq<char> {
    seq!['_', 'v']
}

/// The variables while the actions run on element `i` of an array: those
/// of `base`, with `_k` bound to the index and `_v` to the element.
pub open spec fn item_env(base: Map<Seq<char>, JsonView>, i: int, x: JsonView) -> Map<
    Seq<char>,
    JsonView,
> {
    base.insert(key_var(), JsonView::Number(JsonNumber::Int(i as i64))).insert(value_var(), x)
}

/// The variables while the actions run on the entry `k` of an object: those
/// of `base`, with `_k` bound to the key and `_v` to the value.
pub open spec fn entry_env(base: Map<Seq<char>, JsonView>, k: Seq<char>, x: JsonView) -> Map<
    Seq<char>,
    JsonView,
> {
    base.insert(key_var(), JsonView::Str(k)).insert(value_var(), x)
}

/// The variables while the actions run once on a value.
pub open spec fn self_env(x: JsonView) -> Map<Seq<char>, JsonView> {
    map![value_var() => x]
}

/// An argument expression evaluated against the current value `cur`.
pub open spec fn spec_eval(env: Map<Seq<char>, JsonView>, cur: JsonView, e: ActionExpr) -> Result<
    JsonView,
    EvalError,
> {
    match e {
        ActionExpr::Integer(i) => Ok(JsonView::Number(JsonNumber::Int(i))),
        ActionExpr::String(s) => Ok(JsonView::Str(s@)),
        ActionExpr::Variable(n) => Ok(
            if env.contains_key(n@) {
                env[n@]
            } else {
                JsonView::Null
            },
        ),
        ActionExpr::ObjectIndex(n) => match cur {
            JsonView::Object(es) => match obj_get(es, n@) {
                Some(x) => Ok(x),
                None => Err(EvalError::FieldMissing(n)),
            },
            _ => Err(EvalError::NotAnObject),
        },
        ActionExpr::ArrayIndex(i) => match cur {
            JsonView::Array(xs) => {
                if 0 <= i < xs.len() {
                    Ok(xs[i as int])
                } else {
                    Err(EvalError::IndexOutOfRange(i))
                }
            },
            _ => Err(EvalError::NotAnArray),
        },
    }
}

/// Argument expressions evaluated in order, stopping at the first failure.
pub open spec fn spec_eval_all(
    env: Map<Seq<char>, JsonView>,
    cur: JsonView,
    es: Seq<ActionExpr>,
) -> Result<Seq<JsonView>, EvalError>
    decreases es.len(),
{
    if es.len() == 0 {
        Ok(Seq::empty())
    } else {
        match spec_eval_all(env, cur, es.drop_last()) {
            Err(e) => Err(e),
            Ok(xs) => match spec_eval(env, cur, es.last()) {
                Ok(x) => Ok(xs.push(x)),
                Err(e) => Err(e),
            },
        }
    }
}

/// One action call: its arguments are evaluated first, then the builtin of
/// its name is looked up and run.
pub open spec fn spec_run_function(
    reg: Map<Seq<char>, Builtin>,
    env: Map<Seq<char>, JsonView>,
    cur: JsonView,
    f: Function,
) -> (Seq<EffectView>, Result<(), JkError>) {
    match spec_eval_all(env, cur, f.args@) {
        Err(e) => (Seq::empty(), Err(JkError::Eval(e))),
        Ok(args) => {
            if reg.contains_key(f.name@) {
                let done = spec_invoke(reg[f.name@], args);
                (
                    done.0,
                    match done.1 {
                        Ok(_) => Ok(()),
                        Err(e) => Err(e),
                    },
                )
            } else {
                (Seq::empty(), Err(JkError::Action(ActionError::FunctionNotFound(f.name))))
            }
        },
    }
}

/// The action calls run in order on one value, stopping at the first
/// failure; the effects asked for before it stay.
pub open spec fn spec_run_functions(
    reg: Map<Seq<char>, Builtin>,
    env: Map<Seq<char>, JsonView>,
    cur: JsonView,
    fs: Seq<Function>,
) -> (Seq<EffectView>, Result<(), JkError>)
    decreases fs.len(),
{
    if fs.len() == 0 {
        (Seq::empty(), Ok(()))
    } else {
        let prev = spec_run_functions(reg, env, cur, fs.drop_last());
        match prev.1 {
            Err(e) => prev,
            Ok(_) => {
                let last = spec_run_function(reg, env, cur, fs.last());
                (prev.0 + last.0, last.1)
            },
        }
    }
}

/// The actions run once per element of an array, in order, over the
/// variables `base`.
pub open spec fn spec_run_items(
    reg: Map<Seq<char>, Builtin>,
    base: Map<Seq<char>, JsonView>,
    items: Seq<JsonView>,
    fs: Seq<Function>,
) -> (
    Seq<EffectView>,
    Result<(), JkError>,
)
    decreases items.len(),
{
    if items.len() == 0 {
        (Seq::empty(), Ok(()))
    } else {
        let prev = spec_run_items(reg, base, items.drop_last(), fs);
        match prev.1 {
            Err(e) => prev,
            Ok(_) => {
                let i = items.len() - 1;
                let last = spec_run_functions(reg, item_env(base, i, items[i]), items[i], fs);
                (prev.0 + last.0, last.1)
            },
        }
    }
}

/// The actions run once per entry of an object, in order, over the
/// variables `base`.
pub open spec fn spec_run_entries(
    reg: Map<Seq<char>, Builtin>,
    base: Map<Seq<char>, JsonView>,
    entries: Seq<(Seq<char>, JsonView)>,
    fs: Seq<Function>,
) -> (Seq<EffectView>, Result<(), JkError>)
    decreases entries.len(),
{
    if entries.len() == 0 {
        (Seq::empty(), Ok(()))
    } else {
        let prev = spec_run_entries(reg, base, entries.drop_last(), fs);
        match prev.1 {
            Err(e) => prev,
            Ok(_) => {
                let x = entries.last();
                let last = spec_run_functions(reg, entry_env(base, x.0, x.1), x.1, fs);
                (prev.0 + last.0, last.1)
            },
        }
    }
}

/// The actions run on a selected value in the given mode.
pub open spec fn spec_run(
    reg: Map<Seq<char>, Builtin>,
    v: JsonView,
    mode: ActionMode,
    fs: Seq<Function>,
) -> (Seq<EffectView>, Result<(), JkError>) {
    match mode {
        ActionMode::ForSelf => spec_run_functions(reg, self_env(v), v, fs),
        ActionMode::ForEach => match v {
            JsonView::Array(items) => spec_run_items(reg, Map::empty(), items, fs),
            JsonView::Object(entries) => spec_run_entries(reg, Map::empty(), entries, fs),
            _ => spec_run_functions(reg, self_env(v), v, fs),
        },
    }
}

/// A whole script run on a document: selection, then the actions.
pub open spec fn spec_execute(reg: Map<Seq<char>, Builtin>, root: JsonView, script: Script) -> (
    Seq<EffectView>,
    Result<(), JkError>,
) {
    match spec_select(root, script.selector@) {
        Err(e) => (Seq::empty(), Err(JkError::Query(e))),
        Ok(x) => spec_run(reg, x, script.mode, script.action@),
    }
}

/// What `p` writes for one argument: a string's own characters, any other
/// value's JSON text `text`.
pub open spec fn print_part(a: JsonView, text: Seq<char>) -> Seq<char> {
    match a {
        JsonView::Str(s) => s,
        _ => text,
    }
}

/// The texts of the first `n` arguments, separated by single spaces.
pub open spec fn print_parts(args: Seq<JsonView>, texts: Seq<Seq<char>>, n: int) -> Seq<char>
    decreases n,
{
    if n <= 0 {
        Seq::empty()
    } else if n == 1 {
        print_part(args[0], texts[0])
    } else {
        print_parts(args, texts, n - 1) + seq![' '] + print_part(args[n - 1], texts[n - 1])
    }
}

/// The line that `p` writes for `args`, where `texts[i]` is the JSON text
/// of `args[i]`: the arguments' texts, strings without quotes, separated by
/// single spaces and followed by a newline.
pub open spec fn print_line_text(args: Seq<JsonView>, texts: Seq<Seq<char>>) -> Seq<char> {
    print_parts(args, texts, args.len() as int) + seq!['\n']
}

/// Builds the line that `p` writes for its arguments. `texts[i]` is the
/// JSON text of `args[i]`; it is used for every argument that is not a
/// string.
pub fn print_line(args: &Vec<JsonValue>, texts: &Vec<String>) -> (r: String)
    requires
        texts.len() == args.len(),
    ensures
        r@ == print_line_text(items_view(args@), texts@.map_values(|t: String| t@)),
{
    let ghost xs = items_view(args@);
    let ghost ts = texts@.map_values(|t: String| t@);
    proof {
        lemma_items_view(args@);
    }
    let mut out = String::new();
    let mut i: usize = 0;
    while i < args.len()
        invariant
            xs == items_view(args@),
            ts == texts@.map_values(|t: String| t@),
            xs.len() == args.len(),
            texts.len() == args.len(),
            forall|j: int| 0 <= j < args.len() ==> #[trigger] xs[j] == json_view(args@[j]),
            i <= args.len(),
            out@ == print_parts(xs, ts, i as int),
        decreases args.len() - i,
    {
        if i > 0 {
            push_symbol(&mut out, ' ');
        }
        assert(ts[i as int] == texts@[i as int]@);
        match &args[i] {
            JsonValue::String(s) => out.append(s.as_str()),
            _ => out.append(texts[i].as_str()),
        }
        proof {
            if i == 0 {
                assert(out@ =~= print_parts(xs, ts, 1));
            } else {
                assert(out@ =~= print_parts(xs, ts, i + 1));
            }
        }
        i = i + 1;
    }
    push_symbol(&mut out, '\n');
    out
}

fn builtin_print(args: Vec<JsonValue>, effects: &mut Vec<Effect>) -> (r: Result<JsonValue, JkError>)
    ensures
        effects_view(final(effects)@) == effects_view(old(effects)@) + spec_invoke(
            Builtin::Print,
            items_view(args@),
        ).0,
        match r {
            Ok(x) => spec_invoke(Builtin::Print, items_view(args@)).1 == Ok::<_, JkError>(x@),
            Err(e) => spec_invoke(Builtin::Print, items_view(args@)).1 == Err::<JsonView, _>(e),
        },
{
    let ghost a = items_view(args@);
    effects.push(Effect { func: Builtin::Print, args: args });
    proof {
        assert(effects_view(final(effects)@) =~= effects_view(old(effects)@).push(
            EffectView { func: Builtin::Print, args: a },
        ));
    }
    Ok(JsonValue::Null)
}

fn evaluate_object_index(v: &JsonValue, index: &String) -> (r: Result<JsonValue, EvalError>)
    ensures
        match r {
            Ok(x) => spec_eval(Map::empty(), v@, ActionExpr::ObjectIndex(*index)) == Ok::<
                _,
                EvalError,
            >(x@),
            Err(e) => spec_eval(Map::empty(), v@, ActionExpr::ObjectIndex(*index)) == Err::<
                JsonView,
                _,
            >(e),
        },
{
    match v {
        JsonValue::Object(o) => match find_entry(o, index) {
            Some(i) => Ok(o[i].1.deep_copy()),
            None => Err(EvalError::FieldMissing(index.clone())),
        },
        _ => Err(EvalError::NotAnObject),
    }
}

fn evaluate_array_index(v: &JsonValue, index: i64) -> (r: Result<JsonValue, EvalError>)
    ensures
        match r {
            Ok(x) => spec_eval(Map::empty(), v@, ActionExpr::ArrayIndex(index)) == Ok::<
                _,
                EvalError,
            >(x@),
            Err(e) => spec_eval(Map::empty(), v@, ActionExpr::ArrayIndex(index)) == Err::<
                JsonView,
                _,
            >(e),
        },
{
    match v {
        JsonValue::Array(a) => {
            proof {
                lemma_items_view(a@);
            }
            if index < 0 || index as u64 >= a.len() as u64 {
                Err(EvalError::IndexOutOfRange(index))
            } else {
                Ok(a[index as usize].deep_copy())
            }
        },
        _ => Err(EvalError::NotAnArray),
    }
}

/// Evaluates one argument expression against the current value `v`.
pub fn evaluate(runtime: &Runtime, v: &JsonValue, e: &ActionExpr) -> (r: Result<JsonValue, EvalError>)
    ensures
        match r {
            Ok(x) => spec_eval(runtime@, v@, *e) == Ok::<_, EvalError>(x@),
            Err(err) => spec_eval(runtime@, v@, *e) == Err::<JsonView, _>(err),
        },
{
    match e {
        ActionExpr::Integer(i) => Ok(JsonValue::Number(JsonNumber::Int(*i))),
        ActionExpr::String(s) => Ok(JsonValue::String(s.clone())),
        ActionExpr::Variable(name) => Ok(runtime.var_get(name)),
        ActionExpr::ObjectIndex(idx) => evaluate_object_index(v, idx),
        ActionExpr::ArrayIndex(idx) => evaluate_array_index(v, *idx),
    }
}

/// Evaluates argument expressions in order; the first that fails ends the
/// evaluation with its error.
pub fn batch_evaluate(runtime: &Runtime, v: &JsonValue, expressions: &Vec<ActionExpr>) -> (r: Result<
    Vec<JsonValue>,
    EvalError,
>)
    ensures
        match r {
            Ok(xs) => spec_eval_all(runtime@, v@, expressions@) == Ok::<_, EvalError>(
                items_view(xs@),
            ),
            Err(err) => spec_eval_all(runtime@, v@, expressions@) == Err::<Seq<JsonView>, _>(err),
        },
{
    let mut evector: Vec<JsonValue> = Vec::new();
    let mut i: usize = 0;
    proof {
        assert(expressions@.take(0) =~= Seq::<ActionExpr>::empty());
    }
    while i < expressions.len()
        invariant
            i <= expressions.len(),
            spec_eval_all(runtime@, v@, expressions@.take(i as int)) == Ok::<_, EvalError>(
                items_view(evector@),
            ),
        decreases expressions.len() - i,
    {
        proof {
            assert(expressions@.take(i + 1).drop_last() =~= expressions@.take(i as int));
            assert(expressions@.take(i + 1).last() == expressions@[i as int]);
        }
        match evaluate(runtime, v, &expressions[i]) {
            Ok(x) => {
                proof {
                    assert(evector@.push(x).drop_last() =~= evector@);
                }
                evector.push(x);
            },
            Err(err) => {
                proof {
                    lemma_eval_all_err(runtime@, v@, expressions@, i + 1);
                }
                return Err(err);
            },
        }
        i = i + 1;
    }
    proof {
        assert(expressions@.take(expressions.len() as int) =~= expressions@);
    }
    Ok(evector)
}

proof fn lemma_eval_all_err(
    env: Map<Seq<char>, JsonView>,
    cur: JsonView,
    es: Seq<ActionExpr>,
    m: int,
)
    requires
        0 <= m <= es.len(),
        spec_eval_all(env, cur, es.take(m)) is Err,
    ensures
        spec_eval_all(env, cur, es) == spec_eval_all(env, cur, es.take(m)),
    decreases es.len() - m,
{
    if m < es.len() {
        assert(es.take(m + 1).drop_last() =~= es.take(m));
        lemma_eval_all_err(env, cur, es, m + 1);
    } else {
        assert(es.take(m) =~= es);
    }
}

/// Runs the builtin that `proto` stands for.
fn invoke(proto: FunctionPrototype, args: Vec<JsonValue>, effects: &mut Vec<Effect>) -> (r: Result<
    JsonValue,
    JkError,
>)
    ensures
        effects_view(final(effects)@) == effects_view(old(effects)@) + spec_invoke(
            proto.func,
            items_view(args@),
        ).0,
        match r {
            Ok(x) => spec_invoke(proto.func, items_view(args@)).1 == Ok::<_, JkError>(x@),
            Err(e) => spec_invoke(proto.func, items_view(args@)).1 == Err::<JsonView, _>(e),
        },
{
    match proto.func {
        Builtin::Print => builtin_print(args, effects),
    }
}

/// Runs one action call on the current value `v`: evaluates its arguments,
/// then calls the builtin of its name.
pub fn run_function(
    runtime: &Runtime,
    funcs: &BuiltinFuncs,
    v: &JsonValue,
    func: &Function,
    effects: &mut Vec<Effect>,
) -> (r: Result<(), JkError>)
    ensures
        effects_view(final(effects)@) == effects_view(old(effects)@) + spec_run_function(
            funcs@,
            runtime@,
            v@,
            *func,
        ).0,
        r == spec_run_function(funcs@, runtime@, v@, *func).1,
{
    let args = match batch_evaluate(runtime, v, &func.args) {
        Ok(a) => a,
        Err(e) => {
            proof {
                assert(effects_view(effects@) =~= effects_view(old(effects)@) + Seq::<
                    EffectView,
                >::empty());
            }
            return Err(JkError::Eval(e));
        },
    };
    match funcs.get(&func.name) {
        Some(proto) => match invoke(proto, args, effects) {
            Ok(_) => Ok(()),
            Err(e) => Err(e),
        },
        None => {
            proof {
                assert(effects_view(effects@) =~= effects_view(old(effects)@) + Seq::<
                    EffectView,
                >::empty());
            }
            Err(JkError::Action(ActionError::FunctionNotFound(func.name.clone())))
        },
    }
}

proof fn lemma_run_functions_err(
    reg: Map<Seq<char>, Builtin>,
    env: Map<Seq<char>, JsonView>,
    cur: JsonView,
    fs: Seq<Function>,
    m: int,
)
    requires
        0 <= m <= fs.len(),
        spec_run_functions(reg, env, cur, fs.take(m)).1 is Err,
    ensures
        spec_run_functions(reg, env, cur, fs) == spec_run_functions(reg, env, cur, fs.take(m)),
    decreases fs.len() - m,
{
    if m < fs.len() {
        assert(fs.take(m + 1).drop_last() =~= fs.take(m));
        lemma_run_functions_err(reg, env, cur, fs, m + 1);
    } else {
        assert(fs.take(m) =~= fs);
    }
}

proof fn lemma_run_items_err(
    reg: Map<Seq<char>, Builtin>,
    base: Map<Seq<char>, JsonView>,
    items: Seq<JsonView>,
    fs: Seq<Function>,
    m: int,
)
    requires
        0 <= m <= items.len(),
        spec_run_items(reg, base, items.take(m), fs).1 is Err,
    ensures
        spec_run_items(reg, base, items, fs) == spec_run_items(reg, base, items.take(m), fs),
    decreases items.len() - m,
{
    if m < items.len() {
        assert(items.take(m + 1).drop_last() =~= items.take(m));
        lemma_run_items_err(reg, base, items, fs, m + 1);
    } else {
        assert(items.take(m) =~= items);
    }
}

proof fn lemma_run_entries_err(
    reg: Map<Seq<char>, Builtin>,
    base: Map<Seq<char>, JsonView>,
    entries: Seq<(Seq<char>, JsonView)>,
    fs: Seq<Function>,
    m: int,
)
    requires
        0 <= m <= entries.len(),
        spec_run_entries(reg, base, entries.take(m), fs).1 is Err,
    ensures
        spec_run_entries(reg, base, entries, fs) == spec_run_entries(reg, base, entries.take(m), fs),
    decreases entries.len() - m,
{
    if m < entries.len() {
        assert(entries.take(m + 1).drop_last() =~= entries.take(m));
        lemma_run_entries_err(reg, base, entries, fs, m + 1);
    } else {
        assert(entries.take(m) =~= entries);
    }
}

/// Runs the action calls in order on the current value `v`; the first that
/// fails ends the run with its error.
fn run_actions(
    runtime: &Runtime,
    funcs: &BuiltinFuncs,
    v: &JsonValue,
    action: &Vec<Function>,
    effects: &mut Vec<Effect>,
) -> (r: Result<(), JkError>)
    ensures
        effects_view(final(effects)@) == effects_view(old(effects)@) + spec_run_functions(
            funcs@,
            runtime@,
            v@,
            action@,
        ).0,
        r == spec_run_functions(funcs@, runtime@, v@, action@).1,
{
    let mut i: usize = 0;
    proof {
        assert(action@.take(0) =~= Seq::<Function>::empty());
        assert(effects_view(effects@) =~= effects_view(old(effects)@) + Seq::<EffectView>::empty());
    }
    while i < action.len()
        invariant
            i <= action.len(),
            effects_view(effects@) == effects_view(old(effects)@) + spec_run_functions(
                funcs@,
                runtime@,
                v@,
                action@.take(i as int),
            ).0,
            spec_run_functions(funcs@, runtime@, v@, action@.take(i as int)).1 is Ok,
        decreases action.len() - i,
    {
        proof {
            assert(action@.take(i + 1).drop_last() =~= action@.take(i as int));
            assert(action@.take(i + 1).last() == action@[i as int]);
        }
        let ghost before = effects_view(effects@);
        let r = run_function(runtime, funcs, v, &action[i], effects);
        proof {
            let prev = spec_run_functions(funcs@, runtime@, v@, action@.take(i as int));
            let last = spec_run_function(funcs@, runtime@, v@, action@[i as int]);
            assert(effects_view(effects@) =~= effects_view(old(effects)@) + (prev.0 + last.0));
        }
        if r.is_err() {
            proof {
                lemma_run_functions_err(funcs@, runtime@, v@, action@, i + 1);
            }
            return r;
        }
        i = i + 1;
    }
    proof {
        assert(action@.take(action.len() as int) =~= action@);
    }
    Ok(())
}

fn key_name() -> (r: String)
    ensures
        r@ == key_var(),
{
    proof {
        reveal_strlit("_k");
    }
    let r = "_k".to_owned();
    proof {
        assert(r@ =~= key_var());
    }
    r
}

fn value_name() -> (r: String)
    ensures
        r@ == value_var(),
{
    proof {
        reveal_strlit("_v");
    }
    let r = "_v".to_owned();
    proof {
        assert(r@ =~= value_var());
    }
    r
}

/// Runs the actions once on `v`, with `_v` bound to it.
pub fn run_single_action(
    runtime: &mut Runtime,
    funcs: &BuiltinFuncs,
    v: &JsonValue,
    action: &Vec<Function>,
    effects: &mut Vec<Effect>,
) -> (r: Result<(), JkError>)
    ensures
        effects_view(final(effects)@) == effects_view(old(effects)@) + spec_run_functions(
            funcs@,
            old(runtime)@.insert(value_var(), v@),
            v@,
            action@,
        ).0,
        r == spec_run_functions(funcs@, old(runtime)@.insert(value_var(), v@), v@, action@).1,
        final(runtime)@ == old(runtime)@.remove(value_var()),
{
    let var_value = value_name();
    runtime.var_set(&var_value, v.deep_copy());
    let r = run_actions(runtime, funcs, v, action, effects);
    runtime.var_delete(&var_value);
    proof {
        assert(runtime@ =~= old(runtime)@.remove(value_var()));
    }
    r
}

/// Two sets of variables that agree but for `_k` and `_v` agree everywhere
/// once both are bound.
proof fn lemma_rebind(
    m: Map<Seq<char>, JsonView>,
    base: Map<Seq<char>, JsonView>,
    a: JsonView,
    b: JsonView,
)
    requires
        m.remove(key_var()).remove(value_var()) == base.remove(key_var()).remove(value_var()),
    ensures
        m.insert(key_var(), a).insert(value_var(), b) == base.insert(key_var(), a).insert(
            value_var(),
            b,
        ),
{
    assert(key_var()[1] != value_var()[1]);
    let l = m.insert(key_var(), a).insert(value_var(), b);
    let r = base.insert(key_var(), a).insert(value_var(), b);
    let mr = m.remove(key_var()).remove(value_var());
    let br = base.remove(key_var()).remove(value_var());
    assert forall|k: Seq<char>| #[trigger] l.contains_key(k) == r.contains_key(k) by {
        if k != key_var() && k != value_var() {
            assert(mr.contains_key(k) == m.contains_key(k));
            assert(br.contains_key(k) == base.contains_key(k));
        }
    }
    assert forall|k: Seq<char>| l.contains_key(k) implies #[trigger] l[k] == r[k] by {
        if k != key_var() && k != value_var() {
            assert(mr.contains_key(k) == m.contains_key(k));
            assert(mr[k] == m[k]);
            assert(br[k] == base[k]);
        }
    }
    assert(l =~= r);
}

/// Runs the actions once per element of `values`, in order, with `_k` bound
/// to the index and `_v` to the element.
pub fn run_array_action(
    runtime: &mut Runtime,
    funcs: &BuiltinFuncs,
    values: &Vec<JsonValue>,
    action: &Vec<Function>,
    effects: &mut Vec<Effect>,
) -> (r: Result<(), JkError>)
    ensures
        effects_view(final(effects)@) == effects_view(old(effects)@) + spec_run_items(
            funcs@,
            old(runtime)@,
            items_view(values@),
            action@,
        ).0,
        r == spec_run_items(funcs@, old(runtime)@, items_view(values@), action@).1,
        final(runtime)@ == old(runtime)@.remove(key_var()).remove(value_var()),
{
    let ghost base = runtime@;
    let var_key = key_name();
    let var_value = value_name();
    let ghost xs = items_view(values@);
    proof {
        lemma_items_view(values@);
        assert(xs.take(0) =~= Seq::<JsonView>::empty());
        assert(effects_view(effects@) =~= effects_view(old(effects)@) + Seq::<EffectView>::empty());
    }
    let mut i: usize = 0;
    while i < values.len()
        invariant
            var_key@ == key_var(),
            var_value@ == value_var(),
            xs == items_view(values@),
            xs.len() == values.len(),
            forall|j: int| 0 <= j < values.len() ==> #[trigger] xs[j] == json_view(values@[j]),
            base == old(runtime)@,
            runtime@.remove(key_var()).remove(value_var()) == base.remove(key_var()).remove(
                value_var(),
            ),
            i <= values.len(),
            effects_view(effects@) == effects_view(old(effects)@) + spec_run_items(
                funcs@,
                base,
                xs.take(i as int),
                action@,
            ).0,
            spec_run_items(funcs@, base, xs.take(i as int), action@).1 is Ok,
        decreases values.len() - i,
    {
        let ghost prev_vars = runtime@;
        runtime.var_set(&var_key, JsonValue::Number(JsonNumber::Int(i as i64)));
        runtime.var_set(&var_value, values[i].deep_copy());
        proof {
            lemma_rebind(
                prev_vars,
                base,
                JsonView::Number(JsonNumber::Int(i as i64)),
                xs[i as int],
            );
            assert(runtime@ == item_env(base, i as int, xs[i as int]));
            assert(xs.take(i + 1).drop_last() =~= xs.take(i as int));
            assert(xs.take(i + 1).last() == xs[i as int]);
        }
        let r = run_actions(runtime, funcs, &values[i], action, effects);
        proof {
            let prev = spec_run_items(funcs@, base, xs.take(i as int), action@);
            let last = spec_run_functions(
                funcs@,
                item_env(base, i as int, xs[i as int]),
                xs[i as int],
                action@,
            );
            assert(effects_view(effects@) =~= effects_view(old(effects)@) + (prev.0 + last.0));
        }
        if r.is_err() {
            runtime.var_delete(&var_key);
            runtime.var_delete(&var_value);
            proof {
                lemma_run_items_err(funcs@, base, xs, action@, i + 1);
                assert(runtime@ =~= base.remove(key_var()).remove(value_var()));
            }
            return r;
        }
        i = i + 1;
    }
    runtime.var_delete(&var_key);
    runtime.var_delete(&var_value);
    proof {
        assert(xs.take(values.len() as int) =~= xs);
        assert(runtime@ =~= base.remove(key_var()).remove(value_var()));
    }
    Ok(())
}

/// Runs the actions once per entry of `object`, in order, with `_k` bound
/// to the key and `_v` to the value.
pub fn run_object_action(
    runtime: &mut Runtime,
    funcs: &BuiltinFuncs,
    object: &Vec<(String, JsonValue)>,
    action: &Vec<Function>,
    effects: &mut Vec<Effect>,
) -> (r: Result<(), JkError>)
    ensures
        effects_view(final(effects)@) == effects_view(old(effects)@) + spec_run_entries(
            funcs@,
            old(runtime)@,
            entries_view(object@),
            action@,
        ).0,
        r == spec_run_entries(funcs@, old(runtime)@, entries_view(object@), action@).1,
        final(runtime)@ == old(runtime)@.remove(key_var()).remove(value_var()),
{
    let ghost base = runtime@;
    let var_key = key_name();
    let var_value = value_name();
    let ghost xs = entries_view(object@);
    proof {
        lemma_entries_view(object@);
        assert(xs.take(0) =~= Seq::<(Seq<char>, JsonView)>::empty());
        assert(effects_view(effects@) =~= effects_view(old(effects)@) + Seq::<EffectView>::empty());
    }
    let mut i: usize = 0;
    while i < object.len()
        invariant
            var_key@ == key_var(),
            var_value@ == value_var(),
            xs == entries_view(object@),
            xs.len() == object.len(),
            forall|j: int|
                0 <= j < object.len() ==> #[trigger] xs[j] == (
                    object@[j].0@,
                    json_view(object@[j].1),
                ),
            base == old(runtime)@,
            runtime@.remove(key_var()).remove(value_var()) == base.remove(key_var()).remove(
                value_var(),
            ),
            i <= object.len(),
            effects_view(effects@) == effects_view(old(effects)@) + spec_run_entries(
                funcs@,
                base,
                xs.take(i as int),
                action@,
            ).0,
            spec_run_entries(funcs@, base, xs.take(i as int), action@).1 is Ok,
        decreases object.len() - i,
    {
        let ghost prev_vars = runtime@;
        runtime.var_set(&var_key, JsonValue::String(object[i].0.clone()));
        runtime.var_set(&var_value, object[i].1.deep_copy());
        proof {
            lemma_rebind(prev_vars, base, JsonView::Str(xs[i as int].0), xs[i as int].1);
            assert(runtime@ == entry_env(base, xs[i as int].0, xs[i as int].1));
            assert(xs.take(i + 1).drop_last() =~= xs.take(i as int));
            assert(xs.take(i + 1).last() == xs[i as int]);
        }
        let r = run_actions(runtime, funcs, &object[i].1, action, effects);
        proof {
            let prev = spec_run_entries(funcs@, base, xs.take(i as int), action@);
            let last = spec_run_functions(
                funcs@,
                entry_env(base, xs[i as int].0, xs[i as int].1),
                xs[i as int].1,
                action@,
            );
            assert(effects_view(effects@) =~= effects_view(old(effects)@) + (prev.0 + last.0));
        }
        if r.is_err() {
            runtime.var_delete(&var_key);
            runtime.var_delete(&var_value);
            proof {
                lemma_run_entries_err(funcs@, base, xs, action@, i + 1);
                assert(runtime@ =~= base.remove(key_var()).remove(value_var()));
            }
            return r;
        }
        i = i + 1;
    }
    runtime.var_delete(&var_key);
    runtime.var_delete(&var_value);
    proof {
        assert(xs.take(object.len() as int) =~= xs);
        assert(runtime@ =~= base.remove(key_var()).remove(value_var()));
    }
    Ok(())
}

/// Runs the actions once per element of an array or entry of an object, or
/// once on any other value.
pub fn run_foreach_action(
    value: &JsonValue,
    action: &Vec<Function>,
    funcs: &BuiltinFuncs,
    effects: &mut Vec<Effect>,
) -> (r: Result<(), JkError>)
    ensures
        effects_view(final(effects)@) == effects_view(old(effects)@) + spec_run(
            funcs@,
            value@,
            ActionMode::ForEach,
            action@,
        ).0,
        r == spec_run(funcs@, value@, ActionMode::ForEach, action@).1,
{
    let mut runtime = Runtime::new();
    match value {
        JsonValue::Array(vector) => run_array_action(&mut runtime, funcs, vector, action, effects),
        JsonValue::Object(object) => run_object_action(&mut runtime, funcs, object, action, effects),
        _ => {
            let r = run_single_action(&mut runtime, funcs, value, action, effects);
            proof {
                assert(Map::<Seq<char>, JsonView>::empty().insert(value_var(), value@) =~= self_env(
                    value@,
                ));
            }
            r
        },
    }
}

/// Runs the actions once on the value.
pub fn run_forself_action(
    value: &JsonValue,
    action: &Vec<Function>,
    funcs: &BuiltinFuncs,
    effects: &mut Vec<Effect>,
) -> (r: Result<(), JkError>)
    ensures
        effects_view(final(effects)@) == effects_view(old(effects)@) + spec_run(
            funcs@,
            value@,
            ActionMode::ForSelf,
            action@,
        ).0,
        r == spec_run(funcs@, value@, ActionMode::ForSelf, action@).1,
{
    let mut runtime = Runtime::new();
    let r = run_single_action(&mut runtime, funcs, value, action, effects);
    proof {
        assert(Map::<Seq<char>, JsonView>::empty().insert(value_var(), value@) =~= self_env(
            value@,
        ));
    }
    r
}

/// Runs a script on a document: the selector chain picks a value, then the
/// actions run on it in the script's mode. The effects that the builtins
/// ask for are appended to `effects`, in order; those asked for before a
/// failure stay.
pub fn execute(
    script: &Script,
    root: &JsonValue,
    funcs: &BuiltinFuncs,
    effects: &mut Vec<Effect>,
) -> (r: Result<(), JkError>)
    ensures
        effects_view(final(effects)@) == effects_view(old(effects)@) + spec_execute(
            funcs@,
            root@,
            *script,
        ).0,
        r == spec_execute(funcs@, root@, *script).1,
{
    let json_curr = match select(root, &script.selector) {
        Ok(v) => v,
        Err(e) => {
            proof {
                assert(effects_view(effects@) =~= effects_view(old(effects)@) + Seq::<
                    EffectView,
                >::empty());
            }
            return Err(JkError::Query(e));
        },
    };
    match script.mode {
        ActionMode::ForEach => run_foreach_action(&json_curr, &script.action, funcs, effects),
        ActionMode::ForSelf => run_forself_action(&json_curr, &script.action, funcs, effects),
    }
}

/// Over an object, `ForEach` evaluates a field argument against each
/// entry's value, not against the object: where the first entry's value is
/// not an object, or is one without the field, the run fails with
/// `NotAnObject` or `FieldMissing` before any builtin runs.
pub proof fn law_foreach_object_fields_of_entries(
    reg: Map<Seq<char>, Builtin>,
    entries: Seq<(Seq<char>, JsonView)>,
    f: Function,
    n: String,
)
    requires
        entries.len() > 0,
        f.args@ == seq![ActionExpr::ObjectIndex(n)],
    ensures
        !(entries[0].1 is Object) ==> spec_run(
            reg,
            JsonView::Object(entries),
            ActionMode::ForEach,
            seq![f],
        ) == (Seq::<EffectView>::empty(), Err::<(), _>(JkError::Eval(EvalError::NotAnObject))),
        (entries[0].1 matches JsonView::Object(inner) && obj_get(inner, n@) is None) ==> spec_run(
            reg,
            JsonView::Object(entries),
            ActionMode::ForEach,
            seq![f],
        ) == (Seq::<EffectView>::empty(), Err::<(), _>(
            JkError::Eval(EvalError::FieldMissing(n)),
        )),
{
    let fs = seq![f];
    let x = entries[0];
    let env = entry_env(Map::empty(), x.0, x.1);
    let first = entries.take(1);
    assert(first.drop_last() =~= Seq::<(Seq<char>, JsonView)>::empty());
    assert(first.last() == x);
    assert(fs.drop_last() =~= Seq::<Function>::empty());
    assert(f.args@.drop_last() =~= Seq::<ActionExpr>::empty());
    assert(spec_eval_all(env, x.1, f.args@.drop_last()) == Ok::<_, EvalError>(
        Seq::<JsonView>::empty(),
    ));
    assert(spec_run_functions(reg, env, x.1, fs.drop_last()) == (
        Seq::<EffectView>::empty(),
        Ok::<(), JkError>(()),
    ));
    assert(spec_run_entries(reg, Map::empty(), first.drop_last(), fs) == (
        Seq::<EffectView>::empty(),
        Ok::<(), JkError>(()),
    ));
    if spec_eval(env, x.1, ActionExpr::ObjectIndex(n)) is Err {
        assert(Seq::<EffectView>::empty() + (Seq::<EffectView>::empty() + Seq::<
            EffectView,
        >::empty()) =~= Seq::<EffectView>::empty());
        lemma_run_entries_err(reg, Map::empty(), entries, fs, 1);
    }
}

/// The effects of a run and its result, with a failure taken by its view.
pub open spec fn outcome_view(o: (Seq<EffectView>, Result<(), JkError>)) -> (
    Seq<EffectView>,
    Result<(), JkErrorView>,
) {
    (
        o.0,
        match o.1 {
            Ok(_) => Ok(()),
            Err(e) => Err(e@),
        },
    )
}

pub open spec fn eval_results_view(r: Result<Seq<JsonView>, EvalError>) -> Result<
    Seq<JsonView>,
    EvalErrorView,
> {
    match r {
        Ok(x) => Ok(x),
        Err(e) => Err(e@),
    }
}

proof fn lemma_eval_all_view(
    env: Map<Seq<char>, JsonView>,
    cur: JsonView,
    a: Seq<ActionExpr>,
    b: Seq<ActionExpr>,
)
    requires
        a.map_values(|e: ActionExpr| e@) == b.map_values(|e: ActionExpr| e@),
    ensures
        eval_results_view(spec_eval_all(env, cur, a)) == eval_results_view(
            spec_eval_all(env, cur, b),
        ),
    decreases a.len(),
{
    assert(a.len() == a.map_values(|e: ActionExpr| e@).len());
    assert(b.len() == b.map_values(|e: ActionExpr| e@).len());
    if a.len() > 0 {
        assert(a.drop_last().map_values(|e: ActionExpr| e@) =~= a.map_values(|e: ActionExpr| e@).drop_last());
        assert(b.drop_last().map_values(|e: ActionExpr| e@) =~= b.map_values(|e: ActionExpr| e@).drop_last());
        assert(a.map_values(|e: ActionExpr| e@)[a.len() - 1] == a.last()@);
        assert(b.map_values(|e: ActionExpr| e@)[a.len() - 1] == b.last()@);
        lemma_eval_all_view(env, cur, a.drop_last(), b.drop_last());
    }
}

proof fn lemma_run_function_view(
    reg: Map<Seq<char>, Builtin>,
    env: Map<Seq<char>, JsonView>,
    cur: JsonView,
    f: Function,
    g: Function,
)
    requires
        f@ == g@,
    ensures
        outcome_view(spec_run_function(reg, env, cur, f)) == outcome_view(
            spec_run_function(reg, env, cur, g),
        ),
{
    lemma_eval_all_view(env, cur, f.args@, g.args@);
}

proof fn lemma_run_functions_view(
    reg: Map<Seq<char>, Builtin>,
    env: Map<Seq<char>, JsonView>,
    cur: JsonView,
    a: Seq<Function>,
    b: Seq<Function>,
)
    requires
        a.map_values(|f: Function| f@) == b.map_values(|f: Function| f@),
    ensures
        outcome_view(spec_run_functions(reg, env, cur, a)) == outcome_view(
            spec_run_functions(reg, env, cur, b),
        ),
    decreases a.len(),
{
    assert(a.len() == a.map_values(|f: Function| f@).len());
    assert(b.len() == b.map_values(|f: Function| f@).len());
    if a.len() > 0 {
        assert(a.drop_last().map_values(|f: Function| f@) =~= a.map_values(|f: Function| f@).drop_last());
        assert(b.drop_last().map_values(|f: Function| f@) =~= b.map_values(|f: Function| f@).drop_last());
        assert(a.map_values(|f: Function| f@)[a.len() - 1] == a.last()@);
        assert(b.map_values(|f: Function| f@)[a.len() - 1] == b.last()@);
        lemma_run_functions_view(reg, env, cur, a.drop_last(), b.drop_last());
        lemma_run_function_view(reg, env, cur, a.last(), b.last());
    }
}

proof fn lemma_run_items_view(
    reg: Map<Seq<char>, Builtin>,
    base: Map<Seq<char>, JsonView>,
    items: Seq<JsonView>,
    a: Seq<Function>,
    b: Seq<Function>,
)
    requires
        a.map_values(|f: Function| f@) == b.map_values(|f: Function| f@),
    ensures
        outcome_view(spec_run_items(reg, base, items, a)) == outcome_view(
            spec_run_items(reg, base, items, b),
        ),
    decreases items.len(),
{
    if items.len() > 0 {
        let i = items.len() - 1;
        lemma_run_items_view(reg, base, items.drop_last(), a, b);
        lemma_run_functions_view(reg, item_env(base, i, items[i]), items[i], a, b);
    }
}

proof fn lemma_run_entries_view(
    reg: Map<Seq<char>, Builtin>,
    base: Map<Seq<char>, JsonView>,
    entries: Seq<(Seq<char>, JsonView)>,
    a: Seq<Function>,
    b: Seq<Function>,
)
    requires
        a.map_values(|f: Function| f@) == b.map_values(|f: Function| f@),
    ensures
        outcome_view(spec_run_entries(reg, base, entries, a)) == outcome_view(
            spec_run_entries(reg, base, entries, b),
        ),
    decreases entries.len(),
{
    if entries.len() > 0 {
        let x = entries.last();
        lemma_run_entries_view(reg, base, entries.drop_last(), a, b);
        lemma_run_functions_view(reg, entry_env(base, x.0, x.1), x.1, a, b);
    }
}

/// Scripts with the same view run alike on every document: the same
/// effects, and the same result up to the view of a failure.
pub proof fn lemma_execute_view(reg: Map<Seq<char>, Builtin>, root: JsonView, s: Script, t: Script)
    requires
        s@ == t@,
    ensures
        outcome_view(spec_execute(reg, root, s)) == outcome_view(spec_execute(reg, root, t)),
{
    lemma_select_view(root, s.selector@, t.selector@);
    if let Ok(x) = spec_select(root, s.selector@) {
        assert(query_result_view(spec_select(root, t.selector@)) == Ok::<_, crate::script::QueryErrorView>(x));
        match x {
            JsonView::Array(items) => {
                lemma_run_items_view(reg, Map::empty(), items, s.action@, t.action@);
                lemma_run_functions_view(reg, self_env(x), x, s.action@, t.action@);
            },
            JsonView::Object(entries) => {
                lemma_run_entries_view(reg, Map::empty(), entries, s.action@, t.action@);
                lemma_run_functions_view(reg, self_env(x), x, s.action@, t.action@);
            },
            _ => {
                lemma_run_functions_view(reg, self_env(x), x, s.action@, t.action@);
            },
        }
    }
}

/// `ForEach` over an object runs the actions entry by entry, in order: the
/// run over the first `j + 1` entries is the run over the first `j`, then,
/// if that succeeded, the actions on entry `j`'s value (not the object),
/// with `_k` bound to its key and `_v` to its value. Its effects follow
/// those before it, and the first failure ends the run.
pub proof fn law_foreach_object_runs_per_entry(
    reg: Map<Seq<char>, Builtin>,
    entries: Seq<(Seq<char>, JsonView)>,
    fs: Seq<Function>,
    j: int,
)
    requires
        0 <= j < entries.len(),
    ensures
        spec_run(reg, JsonView::Object(entries), ActionMode::ForEach, fs) == spec_run_entries(
            reg,
            Map::empty(),
            entries,
            fs,
        ),
        ({
            let prev = spec_run_entries(reg, Map::empty(), entries.take(j), fs);
            let here = spec_run_functions(
                reg,
                entry_env(Map::empty(), entries[j].0, entries[j].1),
                entries[j].1,
                fs,
            );
            spec_run_entries(reg, Map::empty(), entries.take(j + 1), fs) == if prev.1 is Err {
                prev
            } else {
                (prev.0 + here.0, here.1)
            }
        }),
{
    assert(entries.take(j + 1).drop_last() =~= entries.take(j));
    assert(entries.take(j + 1).last() == entries[j]);
}

} // verus!
