//! The scope chain: an arena of binding frames, each with a link to the frame
//! that encloses it, together with the interpreter's ports (what it has
//! written, and what the host has handed it to read).
//!
//! A frame is named by its index in the arena. A frame is given up when the
//! call or the `let` that opened it is over, unless a closure has captured it
//! or a frame opened after it: those frames are pinned, and they and all
//! frames before them stay for as long as the arena lives.

use crate::ast::{copy_expr, views, Builtin, Expr, Sexp};
use crate::error::EvalError;
use vstd::prelude::*;

verus! {

/// One scope: its bindings and the index of the enclosing scope.
pub struct FrameModel {
    pub parent: Option<nat>,
    pub bindings: Map<Seq<char>, Sexp>,
}

/// The state of the interpreter.
pub struct EnvModel {
    /// The scopes, the global one first.
    pub frames: Seq<FrameModel>,
    /// What `display` has written, oldest first.
    pub output: Seq<Seq<char>>,
    /// The lines that wait for `read`, the next one first.
    pub input: Seq<Seq<char>>,
    /// The texts that the host has supplied for `load`, each with its path.
    pub sources: Seq<(Seq<char>, Seq<char>)>,
    /// The path that `load` last asked the host for.
    pub wanted: Option<Seq<char>>,
    /// How many frames, counted from the first, are never given up: the
    /// global frame and every frame up to the last that a closure captured.
    pub pinned: nat,
}

/// The handle of the global frame.
pub const GLOBAL: usize = 0;

/// The value bound to `name` as seen from `frame`: that of the innermost
/// enclosing frame that binds it.
pub open spec fn lookup(env: EnvModel, frame: nat, name: Seq<char>) -> Option<Sexp>
    decreases frame,
{
    if frame >= env.frames.len() {
        None
    } else if env.frames[frame as int].bindings.contains_key(name) {
        Some(env.frames[frame as int].bindings[name])
    } else {
        match env.frames[frame as int].parent {
            Some(p) => if p < frame {
                lookup(env, p, name)
            } else {
                None
            },
            None => None,
        }
    }
}

/// The innermost frame, from `frame` outward, that binds `name`.
pub open spec fn binding_frame(env: EnvModel, frame: nat, name: Seq<char>) -> Option<nat>
    decreases frame,
{
    if frame >= env.frames.len() {
        None
    } else if env.frames[frame as int].bindings.contains_key(name) {
        Some(frame)
    } else {
        match env.frames[frame as int].parent {
            Some(p) => if p < frame {
                binding_frame(env, p, name)
            } else {
                None
            },
            None => None,
        }
    }
}

/// The state after binding `name` to `value` in `frame` itself.
pub open spec fn define(env: EnvModel, frame: nat, name: Seq<char>, value: Sexp) -> EnvModel {
    if frame >= env.frames.len() {
        env
    } else {
        EnvModel {
            frames: env.frames.update(
                frame as int,
                FrameModel {
                    parent: env.frames[frame as int].parent,
                    bindings: env.frames[frame as int].bindings.insert(name, value),
                },
            ),
            ..env
        }
    }
}

/// The state after overwriting the binding of `name` that is visible from
/// `frame`, where there is one.
pub open spec fn assign(env: EnvModel, frame: nat, name: Seq<char>, value: Sexp) -> Option<
    EnvModel,
> {
    match binding_frame(env, frame, name) {
        Some(f) => Some(define(env, f, name, value)),
        None => None,
    }
}

/// The state after opening a fresh, empty frame inside `parent`. The new
/// frame's handle is the number of frames before.
pub open spec fn extend(env: EnvModel, parent: nat) -> EnvModel {
    EnvModel {
        frames: env.frames.push(FrameModel { parent: Some(parent), bindings: Map::empty() }),
        ..env
    }
}

/// The state after a closure has captured `frame`: that frame and all frames
/// before it are pinned.
pub open spec fn pin(env: EnvModel, frame: nat) -> EnvModel {
    if frame < env.frames.len() && env.pinned <= frame {
        EnvModel { pinned: frame + 1, ..env }
    } else {
        env
    }
}

/// The state after the scope that opened the frame `child` is over: that
/// frame and all frames opened after it are given up, unless one of them is
/// pinned.
pub open spec fn release(env: EnvModel, child: nat) -> EnvModel {
    if env.pinned <= child <= env.frames.len() {
        EnvModel { frames: env.frames.take(child as int), ..env }
    } else {
        env
    }
}

/// The state after writing one more line.
pub open spec fn emit(env: EnvModel, line: Seq<char>) -> EnvModel {
    EnvModel { output: env.output.push(line), ..env }
}

/// The text that the host supplied last for `path`.
pub open spec fn find_source(sources: Seq<(Seq<char>, Seq<char>)>, path: Seq<char>) -> Option<
    Seq<char>,
>
    decreases sources.len(),
{
    if sources.len() == 0 {
        None
    } else if sources.last().0 == path {
        Some(sources.last().1)
    } else {
        find_source(sources.drop_last(), path)
    }
}

/// The native procedures under their names, as the global frame binds them
/// at the start.
pub open spec fn initial_bindings() -> Map<Seq<char>, Sexp> {
    Map::<Seq<char>, Sexp>::empty().insert(
        "="@,
        Sexp::Builtin(Builtin::Equal),
    ).insert(
        "<"@,
        Sexp::Builtin(Builtin::Lt),
    ).insert(
        "<="@,
        Sexp::Builtin(Builtin::Lte),
    ).insert(
        ">"@,
        Sexp::Builtin(Builtin::Gt),
    ).insert(
        ">="@,
        Sexp::Builtin(Builtin::Gte),
    ).insert(
        "+"@,
        Sexp::Builtin(Builtin::Add),
    ).insert(
        "-"@,
        Sexp::Builtin(Builtin::Sub),
    ).insert(
        "*"@,
        Sexp::Builtin(Builtin::Mul),
    ).insert(
        "list"@,
        Sexp::Builtin(Builtin::List),
    ).insert(
        "car"@,
        Sexp::Builtin(Builtin::Car),
    ).insert(
        "cdr"@,
        Sexp::Builtin(Builtin::Cdr),
    ).insert(
        "cons"@,
        Sexp::Builtin(Builtin::Cons),
    ).insert(
        "append"@,
        Sexp::Builtin(Builtin::Append),
    ).insert(
        "length"@,
        Sexp::Builtin(Builtin::Length),
    ).insert(
        "reverse"@,
        Sexp::Builtin(Builtin::Reverse),
    ).insert(
        "equal?"@,
        Sexp::Builtin(Builtin::Equalp),
    ).insert(
        "list?"@,
        Sexp::Builtin(Builtin::Listp),
    ).insert(
        "null?"@,
        Sexp::Builtin(Builtin::Nullp),
    ).insert(
        "number?"@,
        Sexp::Builtin(Builtin::Numberp),
    ).insert(
        "procedure?"@,
        Sexp::Builtin(Builtin::Procedurep),
    ).insert(
        "symbol?"@,
        Sexp::Builtin(Builtin::Symbolp),
    ).insert(
        "pair?"@,
        Sexp::Builtin(Builtin::Pairp),
    ).insert(
        "apply"@,
        Sexp::Builtin(Builtin::Apply),
    ).insert(
        "load"@,
        Sexp::Builtin(Builtin::Load),
    ).insert(
        "read"@,
        Sexp::Builtin(Builtin::Read),
    ).insert(
        "display"@,
        Sexp::Builtin(Builtin::Display),
    )
}

/// At the start the global frame binds native procedures and nothing else.
pub proof fn lemma_initial_procedures(name: Seq<char>)
    ensures
        initial_bindings().contains_key(name) ==> initial_bindings()[name] is Builtin,
{
}

/// At the start every native procedure is found under its name from the
/// global frame.
pub proof fn lemma_initial_bindings()
    ensures
        lookup(initial_env(), 0, "="@) == Some(Sexp::Builtin(Builtin::Equal)),
        lookup(initial_env(), 0, "<"@) == Some(Sexp::Builtin(Builtin::Lt)),
        lookup(initial_env(), 0, "<="@) == Some(Sexp::Builtin(Builtin::Lte)),
        lookup(initial_env(), 0, ">"@) == Some(Sexp::Builtin(Builtin::Gt)),
        lookup(initial_env(), 0, ">="@) == Some(Sexp::Builtin(Builtin::Gte)),
        lookup(initial_env(), 0, "+"@) == Some(Sexp::Builtin(Builtin::Add)),
        lookup(initial_env(), 0, "-"@) == Some(Sexp::Builtin(Builtin::Sub)),
        lookup(initial_env(), 0, "*"@) == Some(Sexp::Builtin(Builtin::Mul)),
        lookup(initial_env(), 0, "list"@) == Some(Sexp::Builtin(Builtin::List)),
        lookup(initial_env(), 0, "car"@) == Some(Sexp::Builtin(Builtin::Car)),
        lookup(initial_env(), 0, "cdr"@) == Some(Sexp::Builtin(Builtin::Cdr)),
        lookup(initial_env(), 0, "cons"@) == Some(Sexp::Builtin(Builtin::Cons)),
        lookup(initial_env(), 0, "append"@) == Some(Sexp::Builtin(Builtin::Append)),
        lookup(initial_env(), 0, "length"@) == Some(Sexp::Builtin(Builtin::Length)),
        lookup(initial_env(), 0, "reverse"@) == Some(Sexp::Builtin(Builtin::Reverse)),
        lookup(initial_env(), 0, "equal?"@) == Some(Sexp::Builtin(Builtin::Equalp)),
        lookup(initial_env(), 0, "list?"@) == Some(Sexp::Builtin(Builtin::Listp)),
        lookup(initial_env(), 0, "null?"@) == Some(Sexp::Builtin(Builtin::Nullp)),
        lookup(initial_env(), 0, "number?"@) == Some(Sexp::Builtin(Builtin::Numberp)),
        lookup(initial_env(), 0, "procedure?"@) == Some(Sexp::Builtin(Builtin::Procedurep)),
        lookup(initial_env(), 0, "symbol?"@) == Some(Sexp::Builtin(Builtin::Symbolp)),
        lookup(initial_env(), 0, "pair?"@) == Some(Sexp::Builtin(Builtin::Pairp)),
        lookup(initial_env(), 0, "apply"@) == Some(Sexp::Builtin(Builtin::Apply)),
        lookup(initial_env(), 0, "load"@) == Some(Sexp::Builtin(Builtin::Load)),
        lookup(initial_env(), 0, "read"@) == Some(Sexp::Builtin(Builtin::Read)),
        lookup(initial_env(), 0, "display"@) == Some(Sexp::Builtin(Builtin::Display)),
{
    reveal_strlit("=");
    assert("="@.len() == 1 && "="@[0] == '=');
    reveal_strlit("<");
    assert("<"@.len() == 1 && "<"@[0] == '<');
    reveal_strlit("<=");
    assert("<="@.len() == 2 && "<="@[0] == '<' && "<="@[1] == '=');
    reveal_strlit(">");
    assert(">"@.len() == 1 && ">"@[0] == '>');
    reveal_strlit(">=");
    assert(">="@.len() == 2 && ">="@[0] == '>' && ">="@[1] == '=');
    reveal_strlit("+");
    assert("+"@.len() == 1 && "+"@[0] == '+');
    reveal_strlit("-");
    assert("-"@.len() == 1 && "-"@[0] == '-');
    reveal_strlit("*");
    assert("*"@.len() == 1 && "*"@[0] == '*');
    reveal_strlit("list");
    assert("list"@.len() == 4 && "list"@[0] == 'l' && "list"@[1] == 'i');
    reveal_strlit("car");
    assert("car"@.len() == 3 && "car"@[0] == 'c' && "car"@[1] == 'a');
    reveal_strlit("cdr");
    assert("cdr"@.len() == 3 && "cdr"@[0] == 'c' && "cdr"@[1] == 'd');
    reveal_strlit("cons");
    assert("cons"@.len() == 4 && "cons"@[0] == 'c' && "cons"@[1] == 'o');
    reveal_strlit("append");
    assert("append"@.len() == 6 && "append"@[0] == 'a' && "append"@[1] == 'p');
    reveal_strlit("length");
    assert("length"@.len() == 6 && "length"@[0] == 'l' && "length"@[1] == 'e');
    reveal_strlit("reverse");
    assert("reverse"@.len() == 7 && "reverse"@[0] == 'r' && "reverse"@[1] == 'e');
    reveal_strlit("equal?");
    assert("equal?"@.len() == 6 && "equal?"@[0] == 'e' && "equal?"@[1] == 'q');
    reveal_strlit("list?");
    assert("list?"@.len() == 5 && "list?"@[0] == 'l' && "list?"@[1] == 'i');
    reveal_strlit("null?");
    assert("null?"@.len() == 5 && "null?"@[0] == 'n' && "null?"@[1] == 'u');
    reveal_strlit("number?");
    assert("number?"@.len() == 7 && "number?"@[0] == 'n' && "number?"@[1] == 'u');
    reveal_strlit("procedure?");
    assert("procedure?"@.len() == 10 && "procedure?"@[0] == 'p' && "procedure?"@[1] == 'r');
    reveal_strlit("symbol?");
    assert("symbol?"@.len() == 7 && "symbol?"@[0] == 's' && "symbol?"@[1] == 'y');
    reveal_strlit("pair?");
    assert("pair?"@.len() == 5 && "pair?"@[0] == 'p' && "pair?"@[1] == 'a');
    reveal_strlit("apply");
    assert("apply"@.len() == 5 && "apply"@[0] == 'a' && "apply"@[1] == 'p');
    reveal_strlit("load");
    assert("load"@.len() == 4 && "load"@[0] == 'l' && "load"@[1] == 'o');
    reveal_strlit("read");
    assert("read"@.len() == 4 && "read"@[0] == 'r' && "read"@[1] == 'e');
    reveal_strlit("display");
    assert("display"@.len() == 7 && "display"@[0] == 'd' && "display"@[1] == 'i');
}

/// The state at start: one global frame that binds the native procedures,
/// nothing written, nothing to read.
pub open spec fn initial_env() -> EnvModel {
    EnvModel {
        frames: seq![FrameModel { parent: None, bindings: initial_bindings() }],
        output: Seq::empty(),
        input: Seq::empty(),
        sources: Seq::empty(),
        wanted: None,
        pinned: 1,
    }
}

/// A state with one global frame that binds nothing.
pub open spec fn empty_env() -> EnvModel {
    EnvModel {
        frames: seq![FrameModel { parent: None, bindings: Map::empty() }],
        output: Seq::empty(),
        input: Seq::empty(),
        sources: Seq::empty(),
        wanted: None,
        pinned: 1,
    }
}

/// The mapping that parallel runs of names and values stand for; a later
/// entry wins over an earlier one of the same name.
pub open spec fn table(names: Seq<Seq<char>>, values: Seq<Sexp>) -> Map<Seq<char>, Sexp>
    decreases names.len(),
{
    if names.len() == 0 || values.len() != names.len() {
        Map::empty()
    } else {
        table(names.drop_last(), values.drop_last()).insert(names.last(), values.last())
    }
}

/// The texts of a run of strings.
pub open spec fn texts(s: Seq<String>) -> Seq<Seq<char>> {
    Seq::new(s.len(), |i: int| s[i]@)
}

/// No name occurs twice.
pub open spec fn distinct(names: Seq<Seq<char>>) -> bool {
    forall|i: int, j: int| 0 <= i < j < names.len() ==> names[i] != names[j]
}

proof fn lemma_table_domain(names: Seq<Seq<char>>, values: Seq<Sexp>, key: Seq<char>)
    requires
        names.len() == values.len(),
    ensures
        table(names, values).contains_key(key) <==> exists|i: int|
            0 <= i < names.len() && names[i] == key,
    decreases names.len(),
{
    if names.len() > 0 {
        lemma_table_domain(names.drop_last(), values.drop_last(), key);
        if names.last() == key {
            assert(names[names.len() - 1] == key);
        } else if table(names, values).contains_key(key) {
            let i = choose|i: int| 0 <= i < names.len() - 1 && names.drop_last()[i] == key;
            assert(names[i] == key);
        } else if exists|i: int| 0 <= i < names.len() && names[i] == key {
            let i = choose|i: int| 0 <= i < names.len() && names[i] == key;
            assert(names.drop_last()[i] == key);
        }
    }
}

proof fn lemma_table_value(names: Seq<Seq<char>>, values: Seq<Sexp>, i: int)
    requires
        names.len() == values.len(),
        distinct(names),
        0 <= i < names.len(),
    ensures
        table(names, values).contains_key(names[i]),
        table(names, values)[names[i]] == values[i],
    decreases names.len(),
{
    if i < names.len() - 1 {
        assert(names.drop_last()[i] == names[i]);
        assert(values.drop_last()[i] == values[i]);
        assert(distinct(names.drop_last())) by {
            assert forall|a: int, b: int| 0 <= a < b < names.drop_last().len() implies names.drop_last()[a]
                != names.drop_last()[b] by {
                assert(names[a] != names[b]);
            }
        }
        lemma_table_value(names.drop_last(), values.drop_last(), i);
    }
}

proof fn lemma_table_update(names: Seq<Seq<char>>, values: Seq<Sexp>, i: int, v: Sexp)
    requires
        names.len() == values.len(),
        distinct(names),
        0 <= i < names.len(),
    ensures
        table(names, values.update(i, v)) == table(names, values).insert(names[i], v),
    decreases names.len(),
{
    let n = names.len() - 1;
    if i < n {
        assert(distinct(names.drop_last())) by {
            assert forall|a: int, b: int| 0 <= a < b < names.drop_last().len() implies names.drop_last()[a]
                != names.drop_last()[b] by {
                assert(names[a] != names[b]);
            }
        }
        lemma_table_update(names.drop_last(), values.drop_last(), i, v);
        assert(values.update(i, v).drop_last() =~= values.drop_last().update(i, v));
        assert(names.drop_last()[i] == names[i]);
        assert(names[i] != names[n]);
        assert(table(names, values.update(i, v)) =~= table(names, values).insert(names[i], v));
    } else {
        assert(values.update(i, v).drop_last() =~= values.drop_last());
        assert(table(names, values.update(i, v)) =~= table(names, values).insert(names[i], v));
    }
}

proof fn lemma_table_push(names: Seq<Seq<char>>, values: Seq<Sexp>, k: Seq<char>, v: Sexp)
    requires
        names.len() == values.len(),
    ensures
        table(names.push(k), values.push(v)) == table(names, values).insert(k, v),
{
    assert(names.push(k).drop_last() =~= names);
    assert(values.push(v).drop_last() =~= values);
}

/// One scope of the arena.
#[derive(Debug)]
struct Frame {
    parent: Option<usize>,
    names: Vec<String>,
    values: Vec<Expr>,
}

impl Frame {
    /// The bindings and the parent of the frame.
    spec fn model(&self) -> FrameModel {
        FrameModel {
            parent: match self.parent {
                Some(p) => Some(p as nat),
                None => None,
            },
            bindings: table(texts(self.names@), views(self.values@)),
        }
    }

    /// Names and values come in pairs, no name occurs twice, and the parent was
    /// made before the frame.
    spec fn ok(&self, index: int) -> bool {
        &&& self.names.len() == self.values.len()
        &&& distinct(texts(self.names@))
        &&& (self.parent matches Some(p) ==> p < index)
    }
}

/// A text that the host supplied for `load`.
#[derive(Debug)]
struct Source {
    path: String,
    text: String,
}

/// The arena of frames and the interpreter's ports.
#[derive(Debug)]
pub struct Env {
    frames: Vec<Frame>,
    output: Vec<String>,
    input: Vec<String>,
    cursor: usize,
    sources: Vec<Source>,
    wanted: Option<String>,
    pinned: usize,
}

impl View for Env {
    type V = EnvModel;

    closed spec fn view(&self) -> EnvModel {
        EnvModel {
            frames: Seq::new(self.frames@.len(), |i: int| self.frames@[i].model()),
            output: texts(self.output@),
            input: texts(self.input@).skip(self.cursor as int),
            sources: Seq::new(
                self.sources@.len(),
                |i: int| (self.sources@[i].path@, self.sources@[i].text@),
            ),
            wanted: match self.wanted {
                Some(p) => Some(p@),
                None => None,
            },
            pinned: self.pinned as nat,
        }
    }
}

/// The position of `key` among `names`.
fn find_name(names: &Vec<String>, key: &String) -> (r: Option<usize>)
    ensures
        match r {
            Some(i) => i < names.len() && names@[i as int]@ == key@,
            None => forall|j: int| 0 <= j < names.len() ==> names@[j]@ != key@,
        },
{
    let mut i: usize = 0;
    while i < names.len()
        invariant
            i <= names.len(),
            forall|j: int| 0 <= j < i ==> names@[j]@ != key@,
        decreases names.len() - i,
    {
        if names[i] == *key {
            return Some(i);
        }
        i += 1;
    }
    None
}

impl Env {
    /// What every arena upholds: there is a global frame, each frame's parent
    /// was made before it, no frame binds a name twice.
    pub closed spec fn wf(&self) -> bool {
        &&& self.frames.len() > 0
        &&& 1 <= self.pinned <= self.frames.len()
        &&& self.cursor <= self.input.len()
        &&& forall|i: int| 0 <= i < self.frames.len() ==> (#[trigger] self.frames@[i]).ok(i)
    }

    /// In a well-formed arena there is a global frame and every parent link
    /// points to an earlier frame.
    pub proof fn lemma_wf(&self)
        requires
            self.wf(),
        ensures
            self@.frames.len() > 0,
            1 <= self@.pinned <= self@.frames.len(),
            forall|i: int|
                0 <= i < self@.frames.len() ==> (#[trigger] self@.frames[i].parent matches Some(p)
                    ==> p < i),
    {
        assert forall|i: int| 0 <= i < self@.frames.len() implies (
        #[trigger] self@.frames[i].parent matches Some(p) ==> p < i) by {
            assert(self.frames@[i].ok(i));
        }
    }

    /// A fresh interpreter state: the global frame with the native procedures.
    pub fn new() -> (env: Env)
        ensures
            env.wf(),
            env@ == initial_env(),
    {
        let mut env = Env::default();
        env.insert(GLOBAL, String::from_str("="), Expr::Builtin(Builtin::Equal));
        env.insert(GLOBAL, String::from_str("<"), Expr::Builtin(Builtin::Lt));
        env.insert(GLOBAL, String::from_str("<="), Expr::Builtin(Builtin::Lte));
        env.insert(GLOBAL, String::from_str(">"), Expr::Builtin(Builtin::Gt));
        env.insert(GLOBAL, String::from_str(">="), Expr::Builtin(Builtin::Gte));
        env.insert(GLOBAL, String::from_str("+"), Expr::Builtin(Builtin::Add));
        env.insert(GLOBAL, String::from_str("-"), Expr::Builtin(Builtin::Sub));
        env.insert(GLOBAL, String::from_str("*"), Expr::Builtin(Builtin::Mul));
        env.insert(GLOBAL, String::from_str("list"), Expr::Builtin(Builtin::List));
        env.insert(GLOBAL, String::from_str("car"), Expr::Builtin(Builtin::Car));
        env.insert(GLOBAL, String::from_str("cdr"), Expr::Builtin(Builtin::Cdr));
        env.insert(GLOBAL, String::from_str("cons"), Expr::Builtin(Builtin::Cons));
        env.insert(GLOBAL, String::from_str("append"), Expr::Builtin(Builtin::Append));
        env.insert(GLOBAL, String::from_str("length"), Expr::Builtin(Builtin::Length));
        env.insert(GLOBAL, String::from_str("reverse"), Expr::Builtin(Builtin::Reverse));
        env.insert(GLOBAL, String::from_str("equal?"), Expr::Builtin(Builtin::Equalp));
        env.insert(GLOBAL, String::from_str("list?"), Expr::Builtin(Builtin::Listp));
        env.insert(GLOBAL, String::from_str("null?"), Expr::Builtin(Builtin::Nullp));
        env.insert(GLOBAL, String::from_str("number?"), Expr::Builtin(Builtin::Numberp));
        env.insert(GLOBAL, String::from_str("procedure?"), Expr::Builtin(Builtin::Procedurep));
        env.insert(GLOBAL, String::from_str("symbol?"), Expr::Builtin(Builtin::Symbolp));
        env.insert(GLOBAL, String::from_str("pair?"), Expr::Builtin(Builtin::Pairp));
        env.insert(GLOBAL, String::from_str("apply"), Expr::Builtin(Builtin::Apply));
        env.insert(GLOBAL, String::from_str("load"), Expr::Builtin(Builtin::Load));
        env.insert(GLOBAL, String::from_str("read"), Expr::Builtin(Builtin::Read));
        env.insert(GLOBAL, String::from_str("display"), Expr::Builtin(Builtin::Display));
        proof {
            assert(env@.frames =~= initial_env().frames);
        }
        env
    }

    /// Whether `frame` names a frame of this arena.
    pub fn has_frame(&self, frame: usize) -> (r: bool)
        ensures
            r == (frame < self@.frames.len()),
    {
        frame < self.frames.len()
    }

    /// The value bound to `key` as seen from `frame`.
    pub fn get(&self, frame: usize, key: &String) -> (r: Option<Expr>)
        requires
            self.wf(),
        ensures
            match r {
                Some(v) => lookup(self@, frame as nat, key@) == Some(v@),
                None => lookup(self@, frame as nat, key@) is None,
            },
    {
        let mut f = frame;
        loop
            invariant
                self.wf(),
                lookup(self@, f as nat, key@) == lookup(self@, frame as nat, key@),
            decreases f,
        {
            if f >= self.frames.len() {
                return None;
            }
            let fr = &self.frames[f];
            proof {
                assert(fr.ok(f as int));
                assert(self@.frames[f as int] == fr.model());
                lemma_table_domain(texts(fr.names@), views(fr.values@), key@);
            }
            match find_name(&fr.names, key) {
                Some(i) => {
                    proof {
                        assert(texts(fr.names@)[i as int] == key@);
                        lemma_table_value(texts(fr.names@), views(fr.values@), i as int);
                    }
                    return Some(copy_expr(&fr.values[i]));
                },
                None => {
                    proof {
                        assert(!fr.model().bindings.contains_key(key@)) by {
                            if exists|j: int|
                                0 <= j < texts(fr.names@).len() && texts(fr.names@)[j] == key@ {
                                let j = choose|j: int|
                                    0 <= j < texts(fr.names@).len() && texts(fr.names@)[j] == key@;
                                assert(fr.names@[j]@ == key@);
                            }
                        }
                    }
                    match fr.parent {
                        Some(p) => {
                            f = p;
                        },
                        None => {
                            return None;
                        },
                    }
                },
            }
        }
    }

    /// Binds `key` to `value` in `frame` itself, over any binding it has
    /// there. Where there is no such frame nothing is bound.
    pub fn insert(&mut self, frame: usize, key: String, value: Expr)
        requires
            old(self).wf(),
        ensures
            final(self).wf(),
            final(self)@ == define(old(self)@, frame as nat, key@, value@),
    {
        if frame >= self.frames.len() {
            return ;
        }
        let ghost before = *self;
        let ghost names = texts(self.frames@[frame as int].names@);
        let ghost values = views(self.frames@[frame as int].values@);
        assert(self.frames@[frame as int].ok(frame as int));
        let found = find_name(&self.frames[frame].names, &key);
        match found {
            Some(i) => {
                self.frames[frame].values[i] = value;
                proof {
                    assert(names[i as int] == key@);
                    lemma_table_update(names, values, i as int, value@);
                    assert(texts(self.frames@[frame as int].names@) =~= names);
                    assert(views(self.frames@[frame as int].values@) =~= values.update(
                        i as int,
                        value@,
                    ));
                }
            },
            None => {
                self.frames[frame].names.push(key);
                self.frames[frame].values.push(value);
                proof {
                    lemma_table_push(names, values, key@, value@);
                    assert(texts(self.frames@[frame as int].names@) =~= names.push(key@));
                    assert(views(self.frames@[frame as int].values@) =~= values.push(value@));
                    assert(distinct(names.push(key@))) by {
                        assert forall|a: int, b: int|
                            0 <= a < b < names.push(key@).len() implies names.push(key@)[a]
                            != names.push(key@)[b] by {
                            if b < names.len() {
                                assert(names[a] != names[b]);
                            } else {
                                assert(before.frames@[frame as int].names@[a]@ != key@);
                            }
                        }
                    }
                }
            },
        }
        proof {
            assert forall|i: int| 0 <= i < self.frames.len() implies (
            #[trigger] self.frames@[i]).ok(i) by {
                if i != frame {
                    assert(before.frames@[i].ok(i));
                }
            }
            assert(self@.frames =~= define(before@, frame as nat, key@, value@).frames);
        }
    }

    /// Overwrites the binding of `key` that is visible from `frame`.
    pub fn set(&mut self, frame: usize, key: String, value: Expr) -> (r: Result<(), EvalError>)
        requires
            old(self).wf(),
        ensures
            final(self).wf(),
            match r {
                Ok(()) => assign(old(self)@, frame as nat, key@, value@) == Some(final(self)@),
                Err(e) => e == EvalError::KeyNotFound && assign(
                    old(self)@,
                    frame as nat,
                    key@,
                    value@,
                ) is None && final(self)@ == old(self)@,
            },
    {
        let mut f = frame;
        loop
            invariant
                self.wf(),
                *self == *old(self),
                binding_frame(self@, f as nat, key@) == binding_frame(self@, frame as nat, key@),
            decreases f,
        {
            if f >= self.frames.len() {
                return Err(EvalError::KeyNotFound);
            }
            proof {
                let fr = self.frames@[f as int];
                assert(fr.ok(f as int));
                assert(self@.frames[f as int] == fr.model());
                lemma_table_domain(texts(fr.names@), views(fr.values@), key@);
            }
            match find_name(&self.frames[f].names, &key) {
                Some(i) => {
                    proof {
                        let fr = self.frames@[f as int];
                        assert(texts(fr.names@)[i as int] == key@);
                    }
                    self.insert(f, key, value);
                    return Ok(());
                },
                None => {
                    proof {
                        let fr = self.frames@[f as int];
                        assert(!fr.model().bindings.contains_key(key@)) by {
                            if exists|j: int|
                                0 <= j < texts(fr.names@).len() && texts(fr.names@)[j] == key@ {
                                let j = choose|j: int|
                                    0 <= j < texts(fr.names@).len() && texts(fr.names@)[j] == key@;
                                assert(fr.names@[j]@ == key@);
                            }
                        }
                    }
                    match self.frames[f].parent {
                        Some(p) => {
                            f = p;
                        },
                        None => {
                            return Err(EvalError::KeyNotFound);
                        },
                    }
                },
            }
        }
    }

    /// Opens a fresh frame inside `parent` and returns its handle.
    pub fn extend_env(&mut self, parent: usize) -> (child: usize)
        requires
            old(self).wf(),
            parent < old(self)@.frames.len(),
        ensures
            final(self).wf(),
            final(self)@ == extend(old(self)@, parent as nat),
            child == old(self)@.frames.len(),
    {
        let ghost before = *self;
        let child = self.frames.len();
        self.frames.push(Frame { parent: Some(parent), names: Vec::new(), values: Vec::new() });
        proof {
            assert forall|i: int| 0 <= i < self.frames.len() implies (
            #[trigger] self.frames@[i]).ok(i) by {
                if i < child {
                    assert(before.frames@[i].ok(i));
                }
            }
            assert(self@.frames =~= extend(before@, parent as nat).frames);
        }
        child
    }

    /// The number of frames that the arena holds.
    pub fn frame_count(&self) -> (n: usize)
        ensures
            n == self@.frames.len(),
    {
        self.frames.len()
    }

    /// Pins `frame` and all frames before it, for a closure that captures it.
    pub fn pin(&mut self, frame: usize)
        requires
            old(self).wf(),
        ensures
            final(self).wf(),
            final(self)@ == pin(old(self)@, frame as nat),
    {
        if frame < self.frames.len() && self.pinned <= frame {
            self.pinned = frame + 1;
        }
        proof {
            assert(self@.frames =~= old(self)@.frames);
            assert(self@.sources =~= old(self)@.sources);
        }
    }

    /// Gives up the frame `child` and all frames after it, unless one of
    /// them is pinned.
    pub fn release(&mut self, child: usize)
        requires
            old(self).wf(),
        ensures
            final(self).wf(),
            final(self)@ == release(old(self)@, child as nat),
    {
        if self.pinned <= child && child <= self.frames.len() {
            self.frames.truncate(child);
            proof {
                assert forall|i: int| 0 <= i < self.frames.len() implies (
                #[trigger] self.frames@[i]).ok(i) by {
                    assert(old(self).frames@[i].ok(i));
                }
                assert(self@.frames =~= old(self)@.frames.take(child as int));
            }
        } else {
            proof {
                assert(self@.frames =~= old(self)@.frames);
            }
        }
        proof {
            assert(self@.sources =~= old(self)@.sources);
        }
    }

    /// Records one more line of output.
    pub fn write_line(&mut self, line: String)
        requires
            old(self).wf(),
        ensures
            final(self).wf(),
            final(self)@ == emit(old(self)@, line@),
    {
        self.output.push(line);
        proof {
            assert(self@.output =~= old(self)@.output.push(line@));
            assert(self@.frames =~= old(self)@.frames);
            assert(self@.sources =~= old(self)@.sources);
        }
    }

    /// Hands over what was written since the last call, oldest first.
    pub fn take_output(&mut self) -> (lines: Vec<String>)
        requires
            old(self).wf(),
        ensures
            final(self).wf(),
            texts(lines@) == old(self)@.output,
            final(self)@ == (EnvModel { output: Seq::empty(), ..old(self)@ }),
    {
        let mut lines: Vec<String> = Vec::new();
        std::mem::swap(&mut lines, &mut self.output);
        proof {
            assert(self@.output =~= Seq::empty());
            assert(self@.frames =~= old(self)@.frames);
            assert(self@.sources =~= old(self)@.sources);
        }
        lines
    }

    /// Queues a line for `read`, behind those that wait already.
    pub fn push_input(&mut self, line: String)
        requires
            old(self).wf(),
        ensures
            final(self).wf(),
            final(self)@ == (EnvModel { input: old(self)@.input.push(line@), ..old(self)@ }),
    {
        self.input.push(line);
        proof {
            assert(self@.input =~= old(self)@.input.push(line@));
            assert(self@.frames =~= old(self)@.frames);
            assert(self@.sources =~= old(self)@.sources);
        }
    }

    /// Takes the next line that waits for `read`.
    pub fn next_input(&mut self) -> (line: Option<String>)
        requires
            old(self).wf(),
        ensures
            final(self).wf(),
            match line {
                Some(l) => old(self)@.input.len() > 0 && l@ == old(self)@.input[0] && final(self)@
                    == (EnvModel { input: old(self)@.input.drop_first(), ..old(self)@ }),
                None => old(self)@.input.len() == 0 && final(self)@ == old(self)@,
            },
    {
        if self.cursor < self.input.len() {
            let line = self.input[self.cursor].clone();
            self.cursor = self.cursor + 1;
            proof {
                assert(self@.input =~= old(self)@.input.drop_first());
                assert(self@.frames =~= old(self)@.frames);
                assert(self@.sources =~= old(self)@.sources);
            }
            Some(line)
        } else {
            None
        }
    }

    /// Supplies the text of the file at `path` for `load`.
    pub fn add_source(&mut self, path: String, text: String)
        requires
            old(self).wf(),
        ensures
            final(self).wf(),
            final(self)@ == (EnvModel {
                sources: old(self)@.sources.push((path@, text@)),
                ..old(self)@
            }),
    {
        self.sources.push(Source { path, text });
        proof {
            assert(self@.sources =~= old(self)@.sources.push((path@, text@)));
            assert(self@.frames =~= old(self)@.frames);
        }
    }

    /// The text that was supplied last for `path`.
    pub fn source(&self, path: &String) -> (r: Option<String>)
        ensures
            match r {
                Some(text) => find_source(self@.sources, path@) == Some(text@),
                None => find_source(self@.sources, path@) is None,
            },
    {
        let mut i: usize = self.sources.len();
        proof {
            assert(self@.sources.take(i as int) =~= self@.sources);
        }
        while i > 0
            invariant
                i <= self.sources.len(),
                find_source(self@.sources, path@) == find_source(
                    self@.sources.take(i as int),
                    path@,
                ),
            decreases i,
        {
            proof {
                assert(self@.sources.take(i as int).drop_last() =~= self@.sources.take(i - 1));
                assert(self@.sources.take(i as int).last() == self@.sources[i - 1]);
            }
            if self.sources[i - 1].path == *path {
                return Some(self.sources[i - 1].text.clone());
            }
            i -= 1;
        }
        None
    }

    /// Notes the path that `load` could not find a text for.
    pub fn want_source(&mut self, path: String)
        requires
            old(self).wf(),
        ensures
            final(self).wf(),
            final(self)@ == (EnvModel { wanted: Some(path@), ..old(self)@ }),
    {
        self.wanted = Some(path);
        proof {
            assert(self@.frames =~= old(self)@.frames);
            assert(self@.sources =~= old(self)@.sources);
        }
    }

    /// The path that `load` last asked for.
    pub fn wanted_source(&self) -> (r: Option<String>)
        ensures
            match r {
                Some(p) => self@.wanted == Some(p@),
                None => self@.wanted is None,
            },
    {
        match &self.wanted {
            Some(p) => Some(p.clone()),
            None => None,
        }
    }
}

impl Default for Env {
    /// A state whose global frame binds nothing, not even the native
    /// procedures.
    fn default() -> (env: Env)
        ensures
            env.wf(),
            env@ == empty_env(),
    {
        let mut env = Env {
            frames: Vec::new(),
            output: Vec::new(),
            input: Vec::new(),
            cursor: 0,
            sources: Vec::new(),
            wanted: None,
            pinned: 1,
        };
        env.frames.push(Frame { parent: None, names: Vec::new(), values: Vec::new() });
        proof {
            assert(env.frames@[0].ok(0));
            assert(env@.frames =~= empty_env().frames);
            assert(env@.output =~= Seq::empty());
            assert(env@.input =~= Seq::empty());
            assert(env@.sources =~= Seq::empty());
        }
        env
    }
}

/// Copies of the strings of `items`.
fn copy_strings(items: &Vec<String>) -> (out: Vec<String>)
    ensures
        texts(out@) == texts(items@),
{
    let mut out: Vec<String> = Vec::new();
    let mut i: usize = 0;
    while i < items.len()
        invariant
            i <= items.len(),
            out.len() == i,
            forall|k: int| 0 <= k < i ==> (#[trigger] out@[k])@ == items@[k]@,
        decreases items.len() - i,
    {
        out.push(items[i].clone());
        i += 1;
    }
    proof {
        assert(texts(out@) =~= texts(items@));
    }
    out
}

impl Frame {
    fn copy(&self) -> (res: Self)
        ensures
            res.parent == self.parent,
            texts(res.names@) == texts(self.names@),
            views(res.values@) == views(self.values@),
    {
        Frame {
            parent: self.parent,
            names: copy_strings(&self.names),
            values: crate::ast::copy_all(&self.values),
        }
    }
}

impl Source {
    fn copy(&self) -> (res: Self)
        ensures
            res.path@ == self.path@,
            res.text@ == self.text@,
    {
        Source { path: self.path.clone(), text: self.text.clone() }
    }
}

impl Clone for Env {
    /// A copy of the whole state, with the same frames under the same handles.
    fn clone(&self) -> (res: Self)
        ensures
            res@ == self@,
            self.wf() ==> res.wf(),
    {
        let mut frames: Vec<Frame> = Vec::new();
        let mut i: usize = 0;
        while i < self.frames.len()
            invariant
                i <= self.frames.len(),
                frames.len() == i,
                forall|k: int|
                    0 <= k < i ==> {
                        &&& (#[trigger] frames@[k]).parent == self.frames@[k].parent
                        &&& texts(frames@[k].names@) == texts(self.frames@[k].names@)
                        &&& views(frames@[k].values@) == views(self.frames@[k].values@)
                    },
            decreases self.frames.len() - i,
        {
            frames.push(self.frames[i].copy());
            i += 1;
        }
        let mut sources: Vec<Source> = Vec::new();
        let mut j: usize = 0;
        while j < self.sources.len()
            invariant
                j <= self.sources.len(),
                sources.len() == j,
                forall|k: int|
                    0 <= k < j ==> (#[trigger] sources@[k]).path@ == self.sources@[k].path@
                        && sources@[k].text@ == self.sources@[k].text@,
            decreases self.sources.len() - j,
        {
            sources.push(self.sources[j].copy());
            j += 1;
        }
        let res = Env {
            frames,
            output: copy_strings(&self.output),
            input: copy_strings(&self.input),
            cursor: self.cursor,
            sources,
            wanted: match &self.wanted {
                Some(p) => Some(p.clone()),
                None => None,
            },
            pinned: self.pinned,
        };
        proof {
            assert(res@.frames =~= self@.frames) by {
                assert forall|k: int| 0 <= k < res.frames@.len() implies res.frames@[k].model()
                    == self.frames@[k].model() by {
                    assert(res.frames@[k].parent == self.frames@[k].parent);
                }
            }
            assert(res@.sources =~= self@.sources);
            assert(texts(res.input@).len() == res.input@.len());
            assert(texts(self.input@).len() == self.input@.len());
            if self.wf() {
                assert forall|k: int| 0 <= k < res.frames.len() implies (
                #[trigger] res.frames@[k]).ok(k) by {
                    assert(self.frames@[k].ok(k));
                    assert(texts(res.frames@[k].names@).len() == res.frames@[k].names.len());
                    assert(texts(self.frames@[k].names@).len() == self.frames@[k].names.len());
                    assert(views(res.frames@[k].values@).len() == res.frames@[k].values.len());
                    assert(views(self.frames@[k].values@).len() == self.frames@[k].values.len());
                }
            }
        }
        res
    }
}

} // verus!
