//! Evaluator: walks an expression tree against an environment of named
//! values and produces a value.
//!
//! Environments are value-like: a closure captures a copy of the scope at
//! its definition site, and each call extends a fresh copy, so no two live
//! evaluations ever share bindings. Numbers are 64-bit signed integers
//! with wrapping two's-complement addition, subtraction, multiplication
//! and negation, and truncating division and remainder; division or
//! remainder by zero is the `division by zero` error value.
//!
//! Evaluation takes a fuel bound on call nesting, so that it is total:
//! `None` means the fuel ran out before a result was reached.

use vstd::prelude::*;
use vstd::string::StringExecFns;
use vstd::string::StrSliceExecFns;
use vstd::wrapping::i64_specs;
use crate::lexer::is_digit_char;
use crate::lexer::digit_char;
use crate::parser::{Expression, SpecExpr, Declaration, Module, expr_view};

verus! {

/// A run-time value: a number, a text, a function with its captured
/// environment, or an error carried as an ordinary value.
pub enum Value {
    Number(i64),
    String(String),
    Function(Expression, String, Scope),
    Error(String),
}

/// A mapping from names to values, owned outright: copying it, not
/// sharing it, is what gives closures their snapshot semantics.
pub struct Scope {
    entries: Vec<(String, Value)>,
}

/// The mathematical image of an environment: name/value pairs in binding
/// order, earlier entries shadowing later ones.
pub type SpecEnv = Seq<(Seq<char>, SpecValue)>;

/// The mathematical image of a value.
pub ghost enum SpecValue {
    Number(i64),
    Str(Seq<char>),
    Closure { body: SpecExpr, param: Seq<char>, env: SpecEnv },
    Error(Seq<char>),
}

/// The image of the first `n` entries of an entry vector.
pub open spec fn env_entries_view(es: Seq<(String, Value)>, n: int) -> SpecEnv
    decreases es, n,
{
    if n <= 0 || n > es.len() {
        Seq::empty()
    } else {
        proof {
            assert(decreases_to!(es => es[n - 1].1));
        }
        env_entries_view(es, n - 1).push((es[n - 1].0@, value_view(es[n - 1].1)))
    }
}

/// The mathematical image of a scope: its entries in binding order.
pub closed spec fn scope_view(s: Scope) -> SpecEnv
    decreases s, 1int,
{
    env_entries_view(s.entries@, s.entries@.len() as int)
}

/// The mathematical image of a value.
pub open spec fn value_view(v: Value) -> SpecValue
    decreases v, 0int,
{
    match v {
        Value::Number(n) => SpecValue::Number(n),
        Value::String(s) => SpecValue::Str(s@),
        Value::Function(body, argn, sc) => SpecValue::Closure {
            body: expr_view(body),
            param: argn@,
            env: scope_view(sc),
        },
        Value::Error(m) => SpecValue::Error(m@),
    }
}

impl View for Value {
    type V = SpecValue;

    open spec fn view(&self) -> SpecValue {
        value_view(*self)
    }
}

impl View for Scope {
    type V = SpecEnv;

    open spec fn view(&self) -> SpecEnv {
        scope_view(*self)
    }
}

/// The position of the first entry bound to `name`, or the length of the
/// environment when none is.
pub open spec fn env_index_of(env: SpecEnv, name: Seq<char>) -> int
    decreases env.len(),
{
    if env.len() == 0 {
        0
    } else if env[0].0 == name {
        0
    } else {
        1 + env_index_of(env.drop_first(), name)
    }
}

/// The value bound to `name`: that of its first entry.
pub open spec fn env_lookup(env: SpecEnv, name: Seq<char>) -> Option<SpecValue> {
    let k = env_index_of(env, name);
    if k < env.len() {
        Some(env[k].1)
    } else {
        None
    }
}

/// Binds `name` only when it is not yet bound: how module-level
/// declarations enter a scope, first declaration winning.
pub open spec fn env_define_if_absent(env: SpecEnv, name: Seq<char>, v: SpecValue) -> SpecEnv {
    if env_index_of(env, name) < env.len() {
        env
    } else {
        env.push((name, v))
    }
}

/// Binds `name` unconditionally, overwriting any present binding: how a
/// call binds the parameter in the callee's environment.
pub open spec fn env_bind(env: SpecEnv, name: Seq<char>, v: SpecValue) -> SpecEnv {
    let k = env_index_of(env, name);
    if k < env.len() {
        env.update(k, (name, v))
    } else {
        env.push((name, v))
    }
}

pub proof fn lemma_env_index_of(env: SpecEnv, name: Seq<char>)
    ensures
        0 <= env_index_of(env, name) <= env.len(),
        env_index_of(env, name) < env.len() ==> env[env_index_of(env, name)].0 == name,
        forall|j: int| 0 <= j < env_index_of(env, name) ==> env[j].0 != name,
    decreases env.len(),
{
    if env.len() > 0 && env[0].0 != name {
        lemma_env_index_of(env.drop_first(), name);
        assert forall|j: int| 0 <= j < env_index_of(env, name) implies env[j].0 != name by {
            if j > 0 {
                assert(env.drop_first()[j - 1] == env[j]);
            }
        }
    }
}

/// The message of the error value an operator produces when an operand is
/// not a number. An `Error` operand is swallowed the same way: its own
/// message is not preserved through the operator.
pub open spec fn op_error_text() -> Seq<char> {
    "Operation on non-number"@
}

/// The message of the error value a call of a non-function produces.
pub open spec fn call_error_text() -> Seq<char> {
    "Call to non-function"@
}

/// The message of the error value division or remainder by zero produces.
pub open spec fn div_zero_text() -> Seq<char> {
    "division by zero"@
}

/// The suffix of the error message an unbound identifier produces.
pub open spec fn not_defined_text() -> Seq<char> {
    " is not defined"@
}

/// The message of the error value a malformed number literal produces.
pub open spec fn bad_number_text() -> Seq<char> {
    "malformed number literal"@
}

/// Whether every character of `tx` is a decimal digit.
pub open spec fn all_digits(tx: Seq<char>) -> bool {
    forall|k: int| 0 <= k < tx.len() ==> is_digit_char(#[trigger] tx[k])
}

/// The number a digit sequence spells.
pub open spec fn digits_value(tx: Seq<char>) -> nat
    decreases tx.len(),
{
    if tx.len() == 0 {
        0
    } else {
        digits_value(tx.drop_last()) * 10 + (tx.last() as u32 - 48) as nat
    }
}

/// The 64-bit signed integer a number literal stands for: a nonempty
/// run of decimal digits whose value fits; anything else is malformed.
pub open spec fn spec_parse_i64(tx: Seq<char>) -> Option<i64> {
    if tx.len() > 0 && all_digits(tx) && digits_value(tx) <= i64::MAX {
        Some(digits_value(tx) as i64)
    } else {
        None
    }
}

/// What a binary operator yields on two numbers. Addition, subtraction
/// and multiplication wrap at 64 bits; division and remainder truncate
/// toward zero, wrap on the one overflowing pair, and are the division-
/// by-zero error on a zero divisor; a unary operator here yields the
/// placeholder error.
pub open spec fn spec_apply_binary(op: crate::parser::Operator, a: i64, b: i64) -> SpecValue {
    match op {
        crate::parser::Operator::Add => SpecValue::Number(i64_specs::wrapping_add(a, b)),
        crate::parser::Operator::Subtract => SpecValue::Number(i64_specs::wrapping_sub(a, b)),
        crate::parser::Operator::Multiply => SpecValue::Number(i64_specs::wrapping_mul(a, b)),
        crate::parser::Operator::Divide => if b == 0 {
            SpecValue::Error(div_zero_text())
        } else {
            match a.checked_div(b) {
                Some(q) => SpecValue::Number(q),
                None => SpecValue::Number(i64::MIN),
            }
        },
        crate::parser::Operator::Modulo => if b == 0 {
            SpecValue::Error(div_zero_text())
        } else {
            match a.checked_rem(b) {
                Some(m) => SpecValue::Number(m),
                None => SpecValue::Number(0),
            }
        },
        _ => SpecValue::Error("no"@),
    }
}

/// What a unary operator yields on a number: plus is identity, minus is
/// wrapping negation; a binary operator here yields the placeholder error.
pub open spec fn spec_apply_unary(op: crate::parser::Operator, n: i64) -> SpecValue {
    match op {
        crate::parser::Operator::UnaryPlus => SpecValue::Number(n),
        crate::parser::Operator::UnaryMinus => SpecValue::Number(i64_specs::wrapping_sub(0, n)),
        _ => SpecValue::Error("no"@),
    }
}

/// Evaluation of an expression against an environment, bounded by `fuel`
/// nested calls: `None` means the bound was reached.
///
/// An operand that is not a number makes an operator yield the operation
/// error, whatever the operand was: an error value's own message is lost
/// there. Calling a non-function yields the call error; the argument of a
/// well-formed call is evaluated in the caller's environment, and the body
/// in the callee's captured environment with the parameter bound over it.
/// An unbound identifier yields an error naming it. A function literal
/// captures the whole current environment. The block placeholder is the
/// number zero.
pub open spec fn spec_eval(fuel: nat, e: SpecExpr, env: SpecEnv) -> Option<SpecValue>
    decreases fuel, e,
{
    match e {
        SpecExpr::Ident(name) => Some(
            match env_lookup(env, name) {
                Some(v) => v,
                None => SpecValue::Error(name + not_defined_text()),
            },
        ),
        SpecExpr::Num(tx) => Some(
            match spec_parse_i64(tx) {
                Some(n) => SpecValue::Number(n),
                None => SpecValue::Error(bad_number_text()),
            },
        ),
        SpecExpr::Str(tx) => Some(SpecValue::Str(tx)),
        SpecExpr::Func(param, body) => Some(
            SpecValue::Closure { body: *body, param, env },
        ),
        SpecExpr::Call(f, a) => match spec_eval(fuel, *f, env) {
            None => None,
            Some(fv) => match fv {
                SpecValue::Closure { body, param, env: cenv } => match spec_eval(fuel, *a, env) {
                    None => None,
                    Some(av) => if fuel == 0 {
                        None
                    } else {
                        spec_eval((fuel - 1) as nat, body, env_bind(cenv, param, av))
                    },
                },
                _ => Some(SpecValue::Error(call_error_text())),
            },
        },
        SpecExpr::Binary(op, l, r) => match spec_eval(fuel, *l, env) {
            None => None,
            Some(lv) => match lv {
                SpecValue::Number(a) => match spec_eval(fuel, *r, env) {
                    None => None,
                    Some(rv) => match rv {
                        SpecValue::Number(b) => Some(spec_apply_binary(op, a, b)),
                        _ => Some(SpecValue::Error(op_error_text())),
                    },
                },
                _ => Some(SpecValue::Error(op_error_text())),
            },
        },
        SpecExpr::Unary(op, o) => match spec_eval(fuel, *o, env) {
            None => None,
            Some(ov) => match ov {
                SpecValue::Number(n) => Some(spec_apply_unary(op, n)),
                _ => Some(SpecValue::Error(op_error_text())),
            },
        },
        SpecExpr::Block => Some(SpecValue::Number(0)),
    }
}

/// Fuel only bounds evaluation, it never shapes it: a result reached
/// within some bound is the result under every larger bound. Two runs
/// with different fuel can differ only in whether they finish.
pub proof fn lemma_eval_fuel_monotone(f1: nat, f2: nat, e: SpecExpr, env: SpecEnv)
    requires
        f1 <= f2,
        spec_eval(f1, e, env) is Some,
    ensures
        spec_eval(f2, e, env) == spec_eval(f1, e, env),
    decreases f1, e,
{
    match e {
        SpecExpr::Call(f, a) => {
            lemma_eval_fuel_monotone(f1, f2, *f, env);
            match spec_eval(f1, *f, env) {
                Some(SpecValue::Closure { body, param, env: cenv }) => {
                    lemma_eval_fuel_monotone(f1, f2, *a, env);
                    match spec_eval(f1, *a, env) {
                        Some(av) => {
                            lemma_eval_fuel_monotone(
                                (f1 - 1) as nat,
                                (f2 - 1) as nat,
                                body,
                                env_bind(cenv, param, av),
                            );
                        },
                        None => {},
                    }
                },
                _ => {},
            }
        },
        SpecExpr::Binary(op, l, r) => {
            lemma_eval_fuel_monotone(f1, f2, *l, env);
            match spec_eval(f1, *l, env) {
                Some(SpecValue::Number(_)) => {
                    lemma_eval_fuel_monotone(f1, f2, *r, env);
                },
                _ => {},
            }
        },
        SpecExpr::Unary(op, o) => {
            lemma_eval_fuel_monotone(f1, f2, *o, env);
        },
        _ => {},
    }
}

/// Evaluation of one declaration: the initializer is evaluated in the
/// environment as it stands, and its value enters the environment only
/// when the name is not yet bound.
pub open spec fn spec_eval_declaration(fuel: nat, d: crate::parser::SpecDecl, env: SpecEnv) -> Option<
    (SpecValue, SpecEnv),
> {
    match spec_eval(fuel, d.init, env) {
        None => None,
        Some(v) => Some((v, env_define_if_absent(env, d.name, v))),
    }
}

/// Evaluation of the declarations from `i` on, in source order, each
/// against the environment the previous ones produced.
pub open spec fn spec_eval_decls(fuel: nat, ds: Seq<crate::parser::SpecDecl>, i: int, env: SpecEnv) -> Option<
    SpecEnv,
>
    decreases ds.len() - i,
{
    if i < 0 || i >= ds.len() {
        Some(env)
    } else {
        match spec_eval_declaration(fuel, ds[i], env) {
            None => None,
            Some((_v, env2)) => spec_eval_decls(fuel, ds, i + 1, env2),
        }
    }
}

/// Evaluation of a whole module, from the empty environment.
pub open spec fn spec_eval_module(fuel: nat, ds: Seq<crate::parser::SpecDecl>) -> Option<SpecEnv> {
    spec_eval_decls(fuel, ds, 0, Seq::empty())
}

proof fn lemma_eval_decls_fuel_monotone(
    f1: nat,
    f2: nat,
    ds: Seq<crate::parser::SpecDecl>,
    i: int,
    env: SpecEnv,
)
    requires
        f1 <= f2,
        spec_eval_decls(f1, ds, i, env) is Some,
    ensures
        spec_eval_decls(f2, ds, i, env) == spec_eval_decls(f1, ds, i, env),
    decreases ds.len() - i,
{
    if 0 <= i && i < ds.len() {
        match spec_eval_declaration(f1, ds[i], env) {
            Some(p) => {
                lemma_eval_fuel_monotone(f1, f2, ds[i].init, env);
                lemma_eval_decls_fuel_monotone(f1, f2, ds, i + 1, p.1);
            },
            None => {},
        }
    }
}

/// Fuel only bounds a module's evaluation too: an environment reached
/// within some bound is the environment under every larger bound.
pub proof fn lemma_eval_module_fuel_monotone(f1: nat, f2: nat, ds: Seq<crate::parser::SpecDecl>)
    requires
        f1 <= f2,
        spec_eval_module(f1, ds) is Some,
    ensures
        spec_eval_module(f2, ds) == spec_eval_module(f1, ds),
{
    lemma_eval_decls_fuel_monotone(f1, f2, ds, 0, Seq::empty());
}

pub proof fn lemma_env_entries_view(es: Seq<(String, Value)>, n: int)
    requires
        0 <= n <= es.len(),
    ensures
        env_entries_view(es, n).len() == n,
        forall|k: int|
            0 <= k < n ==> #[trigger] env_entries_view(es, n)[k] == (
                es[k].0@,
                value_view(es[k].1),
            ),
    decreases n,
{
    if n > 0 {
        lemma_env_entries_view(es, n - 1);
    }
}

/// The quotient of `a` by `b`, rounded toward zero: the quotient of the
/// absolute values, negative exactly when the operands' signs differ.
pub open spec fn trunc_div(a: int, b: int) -> int
    recommends
        b != 0,
{
    if a == 0 {
        0
    } else if a > 0 && b > 0 {
        a / b
    } else if a < 0 && b < 0 {
        (a * -1) / (b * -1)
    } else if a < 0 {
        ((a * -1) / b) * -1
    } else {
        (a / (b * -1)) * -1
    }
}

/// The remainder matching `trunc_div`: the remainder of the absolute
/// values, carrying the sign of the dividend.
pub open spec fn trunc_rem(a: int, b: int) -> int
    recommends
        b != 0,
{
    if a == 0 {
        0
    } else if a > 0 && b > 0 {
        a % b
    } else if a < 0 && b < 0 {
        ((a * -1) % (b * -1)) * -1
    } else if a < 0 {
        ((a * -1) % b) * -1
    } else {
        a % (b * -1)
    }
}

/// Division and remainder truncate toward zero: on every pair of numbers
/// with a nonzero divisor, short of the one wrapping pair, the division
/// operator yields the truncated quotient and the remainder operator the
/// matching remainder.
pub proof fn lemma_division_truncates(a: i64, b: i64)
    requires
        b != 0,
        !(a == i64::MIN && b == -1),
    ensures
        spec_apply_binary(crate::parser::Operator::Divide, a, b) == SpecValue::Number(
            trunc_div(a as int, b as int) as i64,
        ),
        spec_apply_binary(crate::parser::Operator::Modulo, a, b) == SpecValue::Number(
            trunc_rem(a as int, b as int) as i64,
        ),
{
    let x = a as int;
    let d = b as int;
    if x == 0 {
    } else if x > 0 && d > 0 {
        vstd::arithmetic::div_mod::lemma_div_pos_is_pos(x, d);
        vstd::arithmetic::div_mod::lemma_div_nonincreasing(x, d);
        vstd::arithmetic::div_mod::lemma_mod_bound(x, d);
    } else if x < 0 && d < 0 {
        let xa = x * -1;
        let db = d * -1;
        vstd::arithmetic::div_mod::lemma_div_pos_is_pos(xa, db);
        vstd::arithmetic::div_mod::lemma_div_nonincreasing(xa, db);
        vstd::arithmetic::div_mod::lemma_mod_bound(xa, db);
        if a == i64::MIN {
            vstd::arithmetic::div_mod::lemma_div_is_ordered_by_denominator(xa, 2, db);
            assert(xa / 2 == 0x4000_0000_0000_0000int);
        }
    } else if x < 0 {
        let xa = x * -1;
        vstd::arithmetic::div_mod::lemma_div_pos_is_pos(xa, d);
        vstd::arithmetic::div_mod::lemma_div_nonincreasing(xa, d);
        vstd::arithmetic::div_mod::lemma_mod_bound(xa, d);
    } else {
        let db = d * -1;
        vstd::arithmetic::div_mod::lemma_div_pos_is_pos(x, db);
        vstd::arithmetic::div_mod::lemma_div_nonincreasing(x, db);
        vstd::arithmetic::div_mod::lemma_mod_bound(x, db);
    }
}

/// The truncated quotient and remainder reassemble the dividend:
/// `b * q + r == a`, the remainder is smaller in magnitude than the
/// divisor, and it carries the dividend's sign. These four facts pin
/// the pair down, so together with `lemma_division_truncates` they fix
/// what the division and remainder operators return on every allowed
/// pair of numbers.
pub proof fn lemma_division_identity(a: i64, b: i64)
    requires
        b != 0,
        !(a == i64::MIN && b == -1),
    ensures
        ({
            let q = trunc_div(a as int, b as int);
            let r = trunc_rem(a as int, b as int);
            &&& (b as int) * q + r == a as int
            &&& vstd::math::abs(r) < vstd::math::abs(b as int)
            &&& (a as int >= 0 ==> r >= 0)
            &&& (a as int <= 0 ==> r <= 0)
        }),
{
    let x = a as int;
    let d = b as int;
    if x == 0 {
        assert(d * 0 + 0 == 0) by (nonlinear_arith);
    } else if x > 0 && d > 0 {
        vstd::arithmetic::div_mod::lemma_fundamental_div_mod(x, d);
        vstd::arithmetic::div_mod::lemma_mod_bound(x, d);
    } else if x < 0 && d < 0 {
        let xa = x * -1;
        let db = d * -1;
        let t = xa / db;
        let m = xa % db;
        vstd::arithmetic::div_mod::lemma_fundamental_div_mod(xa, db);
        vstd::arithmetic::div_mod::lemma_mod_bound(xa, db);
        assert((xa == x * -1 && db == d * -1 && xa == db * t + m) ==> x == d * t + m * -1)
            by (nonlinear_arith);
    } else if x < 0 {
        let xa = x * -1;
        let t = xa / d;
        let m = xa % d;
        vstd::arithmetic::div_mod::lemma_fundamental_div_mod(xa, d);
        vstd::arithmetic::div_mod::lemma_mod_bound(xa, d);
        assert((xa == x * -1 && xa == d * t + m) ==> x == d * (t * -1) + m * -1)
            by (nonlinear_arith);
    } else {
        let db = d * -1;
        let t = x / db;
        let m = x % db;
        vstd::arithmetic::div_mod::lemma_fundamental_div_mod(x, db);
        vstd::arithmetic::div_mod::lemma_mod_bound(x, db);
        assert((db == d * -1 && x == db * t + m) ==> x == d * (t * -1) + m)
            by (nonlinear_arith);
    }
}

/// Division or remainder by zero is never a crash: it is the
/// division-by-zero error value, whatever the dividend.
pub proof fn lemma_division_by_zero(a: i64)
    ensures
        spec_apply_binary(crate::parser::Operator::Divide, a, 0) == SpecValue::Error(
            div_zero_text(),
        ),
        spec_apply_binary(crate::parser::Operator::Modulo, a, 0) == SpecValue::Error(
            div_zero_text(),
        ),
{
}

/// First declaration wins: defining a name that is already bound leaves
/// the whole environment unchanged, so the earlier binding keeps
/// resolving, whatever value the later declaration produced.
pub proof fn lemma_first_declaration_wins(env: SpecEnv, name: Seq<char>, v: SpecValue)
    requires
        env_lookup(env, name) is Some,
    ensures
        env_define_if_absent(env, name, v) == env,
{
}

proof fn lemma_env_index_of_push(env: SpecEnv, x: (Seq<char>, SpecValue), m: Seq<char>)
    ensures
        env_index_of(env.push(x), m) == (if env_index_of(env, m) < env.len() {
            env_index_of(env, m)
        } else if x.0 == m {
            env.len() as int
        } else {
            env.len() as int + 1
        }),
    decreases env.len(),
{
    lemma_env_index_of(env, m);
    if env.len() == 0 {
        assert(env.push(x)[0] == x);
        assert(env.push(x).drop_first() =~= Seq::<(Seq<char>, SpecValue)>::empty());
        if x.0 == m {
            assert(env_index_of(env.push(x), m) == 0);
        } else {
            assert(env_index_of(env.push(x).drop_first(), m) == 0);
            assert(env_index_of(env.push(x), m) == 1);
        }
        assert(env_index_of(env, m) == 0);
    } else {
        assert(env.push(x)[0] == env[0]);
        if env[0].0 != m {
            assert(env.push(x).drop_first() =~= env.drop_first().push(x));
            lemma_env_index_of_push(env.drop_first(), x, m);
            lemma_env_index_of(env.drop_first(), m);
            assert(env.drop_first().len() == env.len() - 1);
            assert(env_index_of(env.push(x), m) == 1 + env_index_of(env.drop_first().push(x), m));
        }
    }
}

proof fn lemma_env_index_of_same_names(e1: SpecEnv, e2: SpecEnv, m: Seq<char>)
    requires
        e1.len() == e2.len(),
        forall|j: int| 0 <= j < e1.len() ==> (#[trigger] e1[j]).0 == e2[j].0,
    ensures
        env_index_of(e1, m) == env_index_of(e2, m),
    decreases e1.len(),
{
    if e1.len() > 0 {
        assert(e1[0].0 == e2[0].0);
        if e1[0].0 != m {
            assert forall|j: int|
                0 <= j < e1.drop_first().len() implies (#[trigger] e1.drop_first()[j]).0
                == e2.drop_first()[j].0 by {
                assert(e1.drop_first()[j] == e1[j + 1]);
                assert(e2.drop_first()[j] == e2[j + 1]);
            }
            lemma_env_index_of_same_names(e1.drop_first(), e2.drop_first(), m);
        }
    }
}

/// A name declared into an environment where it was absent resolves to
/// the declared value, and every other name resolves as before.
pub proof fn lemma_define_binds_when_absent(env: SpecEnv, name: Seq<char>, v: SpecValue)
    requires
        env_lookup(env, name) is None,
    ensures
        env_lookup(env_define_if_absent(env, name, v), name) == Some(v),
        forall|m: Seq<char>|
            m != name ==> env_lookup(env_define_if_absent(env, name, v), m) == env_lookup(env, m),
{
    lemma_env_index_of(env, name);
    let e2 = env.push((name, v));
    lemma_env_index_of_push(env, (name, v), name);
    assert forall|m: Seq<char>| m != name implies env_lookup(e2, m) == env_lookup(env, m) by {
        lemma_env_index_of_push(env, (name, v), m);
        lemma_env_index_of(env, m);
    }
}

/// Binding a parameter makes it resolve to the bound value, and every
/// other name resolves as before: the overwrite touches nothing else.
pub proof fn lemma_bind_resolves(env: SpecEnv, name: Seq<char>, v: SpecValue)
    ensures
        env_lookup(env_bind(env, name, v), name) == Some(v),
        forall|m: Seq<char>|
            m != name ==> env_lookup(env_bind(env, name, v), m) == env_lookup(env, m),
{
    lemma_env_index_of(env, name);
    let k = env_index_of(env, name);
    if k < env.len() {
        let e2 = env.update(k, (name, v));
        assert forall|j: int| 0 <= j < env.len() implies (#[trigger] env[j]).0 == e2[j].0 by {
            if j != k {
                assert(e2[j] == env[j]);
            }
        }
        lemma_env_index_of_same_names(env, e2, name);
        assert forall|m: Seq<char>| m != name implies env_lookup(env_bind(env, name, v), m)
            == env_lookup(env, m) by {
            lemma_env_index_of_same_names(env, e2, m);
            lemma_env_index_of(env, m);
            if env_index_of(env, m) < env.len() {
                assert(env[env_index_of(env, m)].0 == m);
                assert(env_index_of(env, m) != k);
            }
        }
    } else {
        let e2 = env.push((name, v));
        lemma_env_index_of_push(env, (name, v), name);
        assert forall|m: Seq<char>| m != name implies env_lookup(env_bind(env, name, v), m)
            == env_lookup(env, m) by {
            lemma_env_index_of_push(env, (name, v), m);
            lemma_env_index_of(env, m);
        }
    }
}

/// An operator swallows the message of a failed operand: whenever the
/// left operand of a binary operator evaluates to any value that is not
/// a number — an error value with its own message included — the whole
/// operation evaluates to the generic operation error, and the operand's
/// message is lost. The same holds of a non-number right operand under a
/// number-valued left one, and of the operand of a unary operator.
pub proof fn lemma_operator_discards_operand_error(
    fuel: nat,
    op: crate::parser::Operator,
    l: SpecExpr,
    r: SpecExpr,
    env: SpecEnv,
)
    ensures
        (match spec_eval(fuel, l, env) {
            Some(lv) => !(lv is Number) ==> spec_eval(
                fuel,
                SpecExpr::Binary(op, Box::new(l), Box::new(r)),
                env,
            ) == Some(SpecValue::Error(op_error_text())),
            None => true,
        }),
        (match (spec_eval(fuel, l, env), spec_eval(fuel, r, env)) {
            (Some(lv), Some(rv)) => (lv is Number && !(rv is Number)) ==> spec_eval(
                fuel,
                SpecExpr::Binary(op, Box::new(l), Box::new(r)),
                env,
            ) == Some(SpecValue::Error(op_error_text())),
            _ => true,
        }),
        (match spec_eval(fuel, l, env) {
            Some(lv) => !(lv is Number) ==> spec_eval(
                fuel,
                SpecExpr::Unary(op, Box::new(l)),
                env,
            ) == Some(SpecValue::Error(op_error_text())),
            None => true,
        }),
{
}

impl Value {
    /// A structurally identical copy of this value.
    pub fn dup(&self) -> (r: Value)
        ensures
            r@ == self@,
        decreases self, 0int,
    {
        match self {
            Value::Number(n) => Value::Number(*n),
            Value::String(s) => Value::String(s.clone()),
            Value::Function(body, argn, sc) => Value::Function(
                body.dup(),
                argn.clone(),
                sc.dup(),
            ),
            Value::Error(m) => Value::Error(m.clone()),
        }
    }
}

impl Scope {
    /// The empty environment.
    pub fn new() -> (s: Scope)
        ensures
            s@ == Seq::<(Seq<char>, SpecValue)>::empty(),
    {
        Scope { entries: Vec::new() }
    }

    /// The position of the first entry bound to `name`, if any.
    fn find(&self, name: &String) -> (r: Option<usize>)
        ensures
            match r {
                Some(k) => k as int == env_index_of(self@, name@) && (k as int) < self@.len(),
                None => env_index_of(self@, name@) == self@.len() as int,
            },
    {
        proof {
            lemma_env_entries_view(self.entries@, self.entries@.len() as int);
            lemma_env_index_of(self@, name@);
        }
        let n = self.entries.len();
        let mut k: usize = 0;
        while k < n
            invariant
                k <= n,
                n == self.entries@.len(),
                self@.len() == n,
                env_index_of(self@, name@) >= k,
                forall|j: int|
                    0 <= j < n ==> #[trigger] self@[j] == (
                        self.entries@[j].0@,
                        value_view(self.entries@[j].1),
                    ),
                0 <= env_index_of(self@, name@) <= self@.len(),
                env_index_of(self@, name@) < self@.len() ==> self@[env_index_of(self@, name@)].0
                    == name@,
                forall|j: int| 0 <= j < env_index_of(self@, name@) ==> self@[j].0 != name@,
            decreases n - k,
        {
            if self.entries[k].0 == *name {
                proof {
                    assert(self@[k as int].0 == name@);
                    if env_index_of(self@, name@) > k as int {
                        assert(self@[k as int].0 != name@);
                    }
                }
                return Some(k);
            }
            k = k + 1;
        }
        None
    }

    /// The value bound to `name`, if any: that of its first entry.
    pub fn get(&self, name: &String) -> (r: Option<&Value>)
        ensures
            match (r, env_lookup(self@, name@)) {
                (Some(v), Some(sv)) => v@ == sv,
                (None, None) => true,
                _ => false,
            },
    {
        proof {
            lemma_env_entries_view(self.entries@, self.entries@.len() as int);
        }
        match self.find(name) {
            Some(k) => Some(&self.entries[k].1),
            None => None,
        }
    }

    /// Binds `name` only when it is not yet bound: module declarations
    /// enter this way, and the first declaration of a name wins.
    pub fn define_if_absent(&mut self, name: String, v: Value)
        ensures
            final(self)@ == env_define_if_absent(old(self)@, name@, v@),
    {
        let found = self.find(&name);
        match found {
            Some(_) => {},
            None => {
                let ghost es = self.entries@;
                let ghost n = es.len() as int;
                self.entries.push((name, v));
                proof {
                    lemma_env_entries_view(es, n);
                    lemma_env_entries_view(self.entries@, n + 1);
                    assert(scope_view(*self) =~= env_entries_view(es, n).push(
                        (self.entries@[n].0@, value_view(self.entries@[n].1)),
                    ));
                }
            },
        }
    }

    /// Binds `name` unconditionally, overwriting any present binding:
    /// calls bind their parameter this way.
    pub fn bind(&mut self, name: String, v: Value)
        ensures
            final(self)@ == env_bind(old(self)@, name@, v@),
    {
        let found = self.find(&name);
        match found {
            Some(k) => {
                let ghost es = self.entries@;
                let ghost n = es.len() as int;
                proof {
                    lemma_env_entries_view(es, n);
                }
                self.entries[k] = (name, v);
                proof {
                    lemma_env_entries_view(es, n);
                    lemma_env_entries_view(self.entries@, n);
                    assert(scope_view(*self) =~= env_entries_view(es, n).update(
                        k as int,
                        (self.entries@[k as int].0@, value_view(self.entries@[k as int].1)),
                    ));
                }
            },
            None => {
                let ghost es = self.entries@;
                let ghost n = es.len() as int;
                self.entries.push((name, v));
                proof {
                    lemma_env_entries_view(es, n);
                    lemma_env_entries_view(self.entries@, n + 1);
                    assert(scope_view(*self) =~= env_entries_view(es, n).push(
                        (self.entries@[n].0@, value_view(self.entries@[n].1)),
                    ));
                }
            },
        }
    }

    /// How many bindings the environment holds.
    pub fn len(&self) -> (n: usize)
        ensures
            n == self@.len(),
    {
        proof {
            lemma_env_entries_view(self.entries@, self.entries@.len() as int);
        }
        self.entries.len()
    }

    /// The name of the binding at position `i`.
    pub fn name_at(&self, i: usize) -> (name: &String)
        requires
            i < self@.len(),
        ensures
            name@ == self@[i as int].0,
    {
        proof {
            lemma_env_entries_view(self.entries@, self.entries@.len() as int);
        }
        &self.entries[i].0
    }

    /// The value of the binding at position `i`.
    pub fn value_at(&self, i: usize) -> (v: &Value)
        requires
            i < self@.len(),
        ensures
            v@ == self@[i as int].1,
    {
        proof {
            lemma_env_entries_view(self.entries@, self.entries@.len() as int);
        }
        &self.entries[i].1
    }

    /// A copy of this environment with structurally identical entries.
    pub fn dup(&self) -> (r: Scope)
        ensures
            r@ == self@,
        decreases self, 1int,
    {
        let n = self.entries.len();
        let mut es: Vec<(String, Value)> = Vec::new();
        let mut k: usize = 0;
        while k < n
            invariant
                k <= n,
                n == self.entries@.len(),
                es@.len() == k,
                forall|j: int|
                    0 <= j < k ==> (#[trigger] es@[j]).0@ == self.entries@[j].0@ && value_view(
                        es@[j].1,
                    ) == value_view(self.entries@[j].1),
            decreases n - k,
        {
            proof {
                assert(decreases_to!(*self => self.entries));
                assert(decreases_to!(self.entries => self.entries@[k as int]));
                assert(decreases_to!(self.entries@[k as int] => self.entries@[k as int].1));
            }
            let name = self.entries[k].0.clone();
            let v = self.entries[k].1.dup();
            es.push((name, v));
            k = k + 1;
        }
        let ghost esv = es@;
        let r = Scope { entries: es };
        proof {
            lemma_env_entries_view(esv, n as int);
            lemma_env_entries_view(self.entries@, n as int);
            assert(scope_view(r) =~= scope_view(*self));
        }
        r
    }
}

fn parse_i64(tx: &String) -> (r: Option<i64>)
    ensures
        r == spec_parse_i64(tx@),
{
    let n = tx.as_str().unicode_len();
    if n == 0 {
        return None;
    }
    let mut acc: i64 = 0;
    let mut k: usize = 0;
    while k < n
        invariant
            0 < n,
            n == tx@.len(),
            k <= n,
            all_digits(tx@.subrange(0, k as int)),
            0 <= acc,
            acc as nat == digits_value(tx@.subrange(0, k as int)),
        decreases n - k,
    {
        let c = tx.as_str().get_char(k);
        if !digit_char(c) {
            proof {
                assert(!all_digits(tx@));
            }
            return None;
        }
        let d: i64 = (c as u32) as i64 - 48;
        proof {
            let p = tx@.subrange(0, k as int + 1);
            assert(p.drop_last() =~= tx@.subrange(0, k as int));
            assert(p.last() == tx@[k as int]);
            assert(digits_value(p) == digits_value(tx@.subrange(0, k as int)) * 10 + (tx@[k as int]
                as u32 - 48) as nat);
        }
        let prod = acc.checked_mul(10);
        let next = match prod {
            Some(p) => p.checked_add(d),
            None => None,
        };
        match next {
            Some(a2) => {
                acc = a2;
                k = k + 1;
            },
            None => {
                proof {
                    assert(digits_value(tx@.subrange(0, k as int + 1)) > i64::MAX as nat);
                    lemma_digits_prefix(tx@, k as int + 1);
                }
                return None;
            },
        }
    }
    proof {
        assert(tx@.subrange(0, n as int) =~= tx@);
    }
    Some(acc)
}

proof fn lemma_digits_prefix(s: Seq<char>, m: int)
    requires
        0 <= m <= s.len(),
    ensures
        digits_value(s.subrange(0, m)) <= digits_value(s),
    decreases s.len(),
{
    if m == s.len() {
        assert(s.subrange(0, m) =~= s);
    } else {
        lemma_digits_prefix(s.drop_last(), m);
        assert(s.drop_last().subrange(0, m) =~= s.subrange(0, m));
    }
}

fn apply_binary(op: crate::parser::Operator, a: i64, b: i64) -> (v: Value)
    ensures
        v@ == spec_apply_binary(op, a, b),
{
    match op {
        crate::parser::Operator::Add => Value::Number(a.wrapping_add(b)),
        crate::parser::Operator::Subtract => Value::Number(a.wrapping_sub(b)),
        crate::parser::Operator::Multiply => Value::Number(a.wrapping_mul(b)),
        crate::parser::Operator::Divide => if b == 0 {
            Value::Error("division by zero".to_owned())
        } else {
            match a.checked_div(b) {
                Some(q) => Value::Number(q),
                None => Value::Number(i64::MIN),
            }
        },
        crate::parser::Operator::Modulo => if b == 0 {
            Value::Error("division by zero".to_owned())
        } else {
            match a.checked_rem(b) {
                Some(m) => Value::Number(m),
                None => Value::Number(0),
            }
        },
        crate::parser::Operator::UnaryPlus => Value::Error("no".to_owned()),
        crate::parser::Operator::UnaryMinus => Value::Error("no".to_owned()),
    }
}

fn apply_unary(op: crate::parser::Operator, n: i64) -> (v: Value)
    ensures
        v@ == spec_apply_unary(op, n),
{
    match op {
        crate::parser::Operator::UnaryPlus => Value::Number(n),
        crate::parser::Operator::UnaryMinus => Value::Number(0i64.wrapping_sub(n)),
        _ => Value::Error("no".to_owned()),
    }
}

/// How an executable evaluation outcome corresponds to the specified one.
pub open spec fn eval_matches(r: Option<Value>, m: Option<SpecValue>) -> bool {
    match (r, m) {
        (Some(v), Some(sv)) => v@ == sv,
        (None, None) => true,
        _ => false,
    }
}

/// Evaluates an expression against an environment, with at most `fuel`
/// nested calls; `None` means the bound was reached.
pub fn eval_expression(expr: &Expression, scope: &Scope, fuel: u64) -> (r: Option<Value>)
    ensures
        eval_matches(r, spec_eval(fuel as nat, expr@, scope@)),
    decreases fuel, expr,
{
    match expr {
        Expression::IdentifierExpression(id) => {
            match scope.get(id) {
                Some(v) => Some(v.dup()),
                None => {
                    let mut msg = id.clone();
                    msg.append(" is not defined");
                    Some(Value::Error(msg))
                },
            }
        },
        Expression::NumberExpression(tx) => {
            match parse_i64(tx) {
                Some(nv) => Some(Value::Number(nv)),
                None => Some(Value::Error("malformed number literal".to_owned())),
            }
        },
        Expression::StringExpression(tx) => Some(Value::String(tx.clone())),
        Expression::FunctionExpression(argn, body) => Some(
            Value::Function((**body).dup(), argn.clone(), scope.dup()),
        ),
        Expression::CallExpression(func, arg) => {
            match eval_expression(&**func, scope, fuel) {
                None => None,
                Some(fv) => match fv {
                    Value::Function(body, argn, mut inner) => {
                        match eval_expression(&**arg, scope, fuel) {
                            None => None,
                            Some(av) => {
                                if fuel == 0 {
                                    None
                                } else {
                                    inner.bind(argn, av);
                                    eval_expression(&body, &inner, fuel - 1)
                                }
                            },
                        }
                    },
                    _ => Some(Value::Error("Call to non-function".to_owned())),
                },
            }
        },
        Expression::BinaryExpression(op, l, r0) => {
            match eval_expression(&**l, scope, fuel) {
                None => None,
                Some(lv) => match lv {
                    Value::Number(a) => match eval_expression(&**r0, scope, fuel) {
                        None => None,
                        Some(rv) => match rv {
                            Value::Number(b) => Some(apply_binary(*op, a, b)),
                            _ => Some(Value::Error("Operation on non-number".to_owned())),
                        },
                    },
                    _ => Some(Value::Error("Operation on non-number".to_owned())),
                },
            }
        },
        Expression::UnaryExpression(op, o) => {
            match eval_expression(&**o, scope, fuel) {
                None => None,
                Some(ov) => match ov {
                    Value::Number(nv) => Some(apply_unary(*op, nv)),
                    _ => Some(Value::Error("Operation on non-number".to_owned())),
                },
            }
        },
        Expression::BlockExpression => Some(Value::Number(0)),
    }
}

/// Evaluates one declaration against `scope`: the initializer in the
/// scope as it stands, the binding entering only when the name is free.
/// Returns the initializer's value.
pub fn eval_declaration(decl: &Declaration, scope: &mut Scope, fuel: u64) -> (r: Option<Value>)
    ensures
        ({
            let m = spec_eval_declaration(fuel as nat, decl@, old(scope)@);
            match (r, m) {
                (Some(rv), Some(p)) => rv@ == p.0 && final(scope)@ == p.1,
                (None, None) => final(scope)@ == old(scope)@,
                _ => false,
            }
        }),
{
    let val = eval_expression(&decl.initializer, scope, fuel);
    match val {
        None => None,
        Some(v) => {
            let stored = v.dup();
            scope.define_if_absent(decl.identifier.clone(), stored);
            Some(v)
        },
    }
}

/// Evaluates a whole module from the empty environment, declaration by
/// declaration in source order.
pub fn eval_module(module: &Module, fuel: u64) -> (r: Option<Scope>)
    ensures
        ({
            let m = spec_eval_module(fuel as nat, module@);
            match (r, m) {
                (Some(sc), Some(env)) => sc@ == env,
                (None, None) => true,
                _ => false,
            }
        }),
{
    let mut scope = Scope::new();
    let n = module.declarations.len();
    let mut k: usize = 0;
    while k < n
        invariant
            k <= n,
            n == module.declarations@.len(),
            spec_eval_decls(fuel as nat, module@, k as int, scope@) == spec_eval_module(
                fuel as nat,
                module@,
            ),
        decreases n - k,
    {
        proof {
            assert(module@[k as int] == module.declarations@[k as int]@);
        }
        let r = eval_declaration(&module.declarations[k], &mut scope, fuel);
        match r {
            None => {
                return None;
            },
            Some(_) => {
                k = k + 1;
            },
        }
    }
    Some(scope)
}

} // verus!
