//! The config-expression engine: evaluation of the conditional-compilation
//! guards that gate a dependency's inclusion, against a fixed target
//! descriptor. A guard beginning with `cfg` is parsed as a boolean expression
//! over target predicates with the combinators `all`, `any` and `not`; any
//! other guard is a literal target triple compared to the descriptor's.

use vstd::prelude::*;

use crate::bytestr::{bytes_eq, bytes_range, find_byte, scan_byte};

verus! {

/// The fixed build-target parameters guards are evaluated against.
pub struct Target {
    pub family: Vec<u8>,
    pub os: Vec<u8>,
    pub env: Vec<u8>,
    pub arch: Vec<u8>,
    pub pointer_width: Vec<u8>,
    pub endian: Vec<u8>,
    /// The target-feature set. `target_feature` predicates are assumed true
    /// --- the mirror assumes the build will enable a feature if needed ---
    /// so the set does not influence evaluation; it completes the
    /// descriptor.
    pub features: Vec<Vec<u8>>,
    pub triple: Vec<u8>,
}

/// A space or a tab.
pub open spec fn is_ws(b: u8) -> bool {
    b == 32 || b == 9
}

/// A letter, digit or underscore: the bytes an identifier is made of.
pub open spec fn is_ident_byte(b: u8) -> bool {
    (('a' as u8) <= b <= ('z' as u8)) || (('A' as u8) <= b <= ('Z' as u8)) || (('0' as u8) <= b
        <= ('9' as u8)) || b == ('_' as u8)
}

/// The first position at or after `i` that holds no whitespace.
pub open spec fn skip_ws(s: Seq<u8>, i: int) -> int
    decreases s.len() - i,
{
    if 0 <= i < s.len() && is_ws(s[i]) {
        skip_ws(s, i + 1)
    } else {
        i
    }
}

/// The first position at or after `i` that holds no identifier byte.
pub open spec fn ident_end(s: Seq<u8>, i: int) -> int
    decreases s.len() - i,
{
    if 0 <= i < s.len() && is_ident_byte(s[i]) {
        ident_end(s, i + 1)
    } else {
        i
    }
}

/// The bytes of the word `cfg`.
pub open spec fn kw_cfg() -> Seq<u8> {
    seq![('c' as u8), ('f' as u8), ('g' as u8)]
}

/// The bytes of the word `all`.
pub open spec fn kw_all() -> Seq<u8> {
    seq![('a' as u8), ('l' as u8), ('l' as u8)]
}

/// The bytes of the word `any`.
pub open spec fn kw_any() -> Seq<u8> {
    seq![('a' as u8), ('n' as u8), ('y' as u8)]
}

/// The bytes of the word `not`.
pub open spec fn kw_not() -> Seq<u8> {
    seq![('n' as u8), ('o' as u8), ('t' as u8)]
}

/// The bytes of the word `target_os`.
pub open spec fn kw_target_os() -> Seq<u8> {
    seq![('t' as u8), ('a' as u8), ('r' as u8), ('g' as u8), ('e' as u8), ('t' as u8), ('_' as u8), ('o' as u8), ('s' as u8)]
}

/// The bytes of the word `target_family`.
pub open spec fn kw_target_family() -> Seq<u8> {
    seq![('t' as u8), ('a' as u8), ('r' as u8), ('g' as u8), ('e' as u8), ('t' as u8), ('_' as u8), ('f' as u8), ('a' as u8), ('m' as u8), ('i' as u8), ('l' as u8), ('y' as u8)]
}

/// The bytes of the word `target_env`.
pub open spec fn kw_target_env() -> Seq<u8> {
    seq![('t' as u8), ('a' as u8), ('r' as u8), ('g' as u8), ('e' as u8), ('t' as u8), ('_' as u8), ('e' as u8), ('n' as u8), ('v' as u8)]
}

/// The bytes of the word `target_arch`.
pub open spec fn kw_target_arch() -> Seq<u8> {
    seq![('t' as u8), ('a' as u8), ('r' as u8), ('g' as u8), ('e' as u8), ('t' as u8), ('_' as u8), ('a' as u8), ('r' as u8), ('c' as u8), ('h' as u8)]
}

/// The bytes of the word `target_pointer_width`.
pub open spec fn kw_target_pointer_width() -> Seq<u8> {
    seq![('t' as u8), ('a' as u8), ('r' as u8), ('g' as u8), ('e' as u8), ('t' as u8), ('_' as u8), ('p' as u8), ('o' as u8), ('i' as u8), ('n' as u8), ('t' as u8), ('e' as u8), ('r' as u8), ('_' as u8), ('w' as u8), ('i' as u8), ('d' as u8), ('t' as u8), ('h' as u8)]
}

/// The bytes of the word `target_endian`.
pub open spec fn kw_target_endian() -> Seq<u8> {
    seq![('t' as u8), ('a' as u8), ('r' as u8), ('g' as u8), ('e' as u8), ('t' as u8), ('_' as u8), ('e' as u8), ('n' as u8), ('d' as u8), ('i' as u8), ('a' as u8), ('n' as u8)]
}

/// The bytes of the word `target_feature`.
pub open spec fn kw_target_feature() -> Seq<u8> {
    seq![('t' as u8), ('a' as u8), ('r' as u8), ('g' as u8), ('e' as u8), ('t' as u8), ('_' as u8), ('f' as u8), ('e' as u8), ('a' as u8), ('t' as u8), ('u' as u8), ('r' as u8), ('e' as u8)]
}

/// The bytes of the word `target`.
pub open spec fn kw_target() -> Seq<u8> {
    seq![('t' as u8), ('a' as u8), ('r' as u8), ('g' as u8), ('e' as u8), ('t' as u8)]
}

/// What a `key = "value"` predicate evaluates to against the descriptor:
/// the `target_*` keys compare to the descriptor's fields; `target_feature`
/// is assumed true; the key `target` compares to the full triple; any other
/// key is assumed false.
pub open spec fn pred_value(key: Seq<u8>, val: Seq<u8>, t: Target) -> bool {
    if key == kw_target_os() {
        val == t.os@
    } else if key == kw_target_family() {
        val == t.family@
    } else if key == kw_target_env() {
        val == t.env@
    } else if key == kw_target_arch() {
        val == t.arch@
    } else if key == kw_target_pointer_width() {
        val == t.pointer_width@
    } else if key == kw_target_endian() {
        val == t.endian@
    } else if key == kw_target_feature() {
        true
    } else if key == kw_target() {
        val == t.triple@
    } else {
        false
    }
}

/// One step of the recursive descent: failure, or a value with the position
/// after what was consumed.
pub enum EvalStep {
    Fail,
    Val(bool, int),
}

/// Parses and evaluates one expression of the guard language at position
/// `i`: `all(...)`, `any(...)`, `not(...)`, a `key = "value"` predicate, or
/// a bare flag, which is assumed false. The fuel only bounds the recursion;
/// `eval_guard_model` supplies more than any guard can consume.
pub open spec fn parse_expr(s: Seq<u8>, t: Target, i: int, fuel: nat) -> EvalStep
    decreases fuel,
{
    if fuel == 0 {
        EvalStep::Fail
    } else {
        let j = skip_ws(s, i);
        let k = ident_end(s, j);
        if k == j {
            EvalStep::Fail
        } else {
            let id = s.subrange(j, k);
            if id == kw_all() || id == kw_any() {
                let m = skip_ws(s, k);
                if m < s.len() && s[m] == ('(' as u8) {
                    parse_list(s, t, m + 1, (fuel - 1) as nat, id == kw_all())
                } else {
                    EvalStep::Fail
                }
            } else if id == kw_not() {
                let m = skip_ws(s, k);
                if m < s.len() && s[m] == ('(' as u8) {
                    match parse_expr(s, t, m + 1, (fuel - 1) as nat) {
                        EvalStep::Fail => EvalStep::Fail,
                        EvalStep::Val(v, p) => {
                            let q = skip_ws(s, p);
                            if q < s.len() && s[q] == (')' as u8) {
                                EvalStep::Val(!v, q + 1)
                            } else {
                                EvalStep::Fail
                            }
                        },
                    }
                } else {
                    EvalStep::Fail
                }
            } else {
                let m = skip_ws(s, k);
                if m < s.len() && s[m] == ('=' as u8) {
                    let q = skip_ws(s, m + 1);
                    if q < s.len() && s[q] == ('"' as u8) {
                        let z = find_byte(s, ('"' as u8), q + 1);
                        if z == s.len() {
                            EvalStep::Fail
                        } else {
                            EvalStep::Val(pred_value(id, s.subrange(q + 1, z), t), z + 1)
                        }
                    } else {
                        EvalStep::Fail
                    }
                } else {
                    EvalStep::Val(false, k)
                }
            }
        }
    }
}

/// Parses and evaluates a comma-separated expression list up to its closing
/// parenthesis; `conj` folds it with `&&` (for `all`, empty gives true),
/// otherwise with `||` (for `any`, empty gives false).
pub open spec fn parse_list(s: Seq<u8>, t: Target, i: int, fuel: nat, conj: bool) -> EvalStep
    decreases fuel,
{
    if fuel == 0 {
        EvalStep::Fail
    } else {
        let j = skip_ws(s, i);
        if j < s.len() && s[j] == (')' as u8) {
            EvalStep::Val(conj, j + 1)
        } else {
            match parse_expr(s, t, j, (fuel - 1) as nat) {
                EvalStep::Fail => EvalStep::Fail,
                EvalStep::Val(v, p) => {
                    let q = skip_ws(s, p);
                    if q < s.len() && s[q] == (')' as u8) {
                        EvalStep::Val(v, q + 1)
                    } else if q < s.len() && s[q] == (',' as u8) {
                        match parse_list(s, t, q + 1, (fuel - 1) as nat, conj) {
                            EvalStep::Fail => EvalStep::Fail,
                            EvalStep::Val(v2, p2) => EvalStep::Val(
                                if conj {
                                    v && v2
                                } else {
                                    v || v2
                                },
                                p2,
                            ),
                        }
                    } else {
                        EvalStep::Fail
                    }
                },
            }
        }
    }
}

/// True when the guard begins with the word `cfg`.
pub open spec fn begins_with_cfg(g: Seq<u8>) -> bool {
    g.len() >= 3 && g[0] == ('c' as u8) && g[1] == ('f' as u8) && g[2] == ('g' as u8)
}

/// How a target guard evaluates against the descriptor: a guard beginning
/// with `cfg` must be `cfg( expression )` and evaluates to the expression's
/// value, with `None` for a parse error; any other guard is a literal
/// triple and compares for byte equality with the descriptor's triple.
pub open spec fn eval_guard_model(g: Seq<u8>, t: Target) -> Option<bool> {
    if begins_with_cfg(g) {
        let m = skip_ws(g, 3);
        if m < g.len() && g[m] == ('(' as u8) {
            match parse_expr(g, t, m + 1, (2 * g.len() + 2) as nat) {
                EvalStep::Fail => None,
                EvalStep::Val(v, p) => {
                    let q = skip_ws(g, p);
                    if q < g.len() && g[q] == (')' as u8) && skip_ws(g, q + 1) == g.len() {
                        Some(v)
                    } else {
                        None
                    }
                },
            }
        } else {
            None
        }
    } else {
        Some(g == t.triple@)
    }
}

/// Scans past whitespace.
fn skip_ws_exec(s: &Vec<u8>, i: usize) -> (r: usize)
    requires
        i <= s@.len(),
    ensures
        r == skip_ws(s@, i as int),
        i <= r <= s@.len(),
{
    let mut j: usize = i;
    while j < s.len() && (s[j] == 32 || s[j] == 9)
        invariant
            i <= j <= s@.len(),
            skip_ws(s@, i as int) == skip_ws(s@, j as int),
        decreases s@.len() - j,
    {
        j += 1;
    }
    j
}

/// Scans past identifier bytes.
fn ident_end_exec(s: &Vec<u8>, i: usize) -> (r: usize)
    requires
        i <= s@.len(),
    ensures
        r == ident_end(s@, i as int),
        i <= r <= s@.len(),
{
    let mut j: usize = i;
    while j < s.len() && ((('a' as u8) <= s[j] && s[j] <= ('z' as u8)) || (('A' as u8) <= s[j]
        && s[j] <= ('Z' as u8)) || (('0' as u8) <= s[j] && s[j] <= ('9' as u8)) || s[j] == ('_' as u8))
        invariant
            i <= j <= s@.len(),
            ident_end(s@, i as int) == ident_end(s@, j as int),
        decreases s@.len() - j,
    {
        j += 1;
    }
    j
}

fn kw_bytes_cfg() -> (r: Vec<u8>)
    ensures
        r@ == kw_cfg(),
{
    let mut r: Vec<u8> = Vec::new();
    r.push('c' as u8);
    r.push('f' as u8);
    r.push('g' as u8);
    proof {
        assert(r@ =~= kw_cfg());
    }
    r
}

fn kw_bytes_all() -> (r: Vec<u8>)
    ensures
        r@ == kw_all(),
{
    let mut r: Vec<u8> = Vec::new();
    r.push('a' as u8);
    r.push('l' as u8);
    r.push('l' as u8);
    proof {
        assert(r@ =~= kw_all());
    }
    r
}

fn kw_bytes_any() -> (r: Vec<u8>)
    ensures
        r@ == kw_any(),
{
    let mut r: Vec<u8> = Vec::new();
    r.push('a' as u8);
    r.push('n' as u8);
    r.push('y' as u8);
    proof {
        assert(r@ =~= kw_any());
    }
    r
}

fn kw_bytes_not() -> (r: Vec<u8>)
    ensures
        r@ == kw_not(),
{
    let mut r: Vec<u8> = Vec::new();
    r.push('n' as u8);
    r.push('o' as u8);
    r.push('t' as u8);
    proof {
        assert(r@ =~= kw_not());
    }
    r
}

fn kw_bytes_target_os() -> (r: Vec<u8>)
    ensures
        r@ == kw_target_os(),
{
    let mut r: Vec<u8> = Vec::new();
    r.push('t' as u8);
    r.push('a' as u8);
    r.push('r' as u8);
    r.push('g' as u8);
    r.push('e' as u8);
    r.push('t' as u8);
    r.push('_' as u8);
    r.push('o' as u8);
    r.push('s' as u8);
    proof {
        assert(r@ =~= kw_target_os());
    }
    r
}

fn kw_bytes_target_family() -> (r: Vec<u8>)
    ensures
        r@ == kw_target_family(),
{
    let mut r: Vec<u8> = Vec::new();
    r.push('t' as u8);
    r.push('a' as u8);
    r.push('r' as u8);
    r.push('g' as u8);
    r.push('e' as u8);
    r.push('t' as u8);
    r.push('_' as u8);
    r.push('f' as u8);
    r.push('a' as u8);
    r.push('m' as u8);
    r.push('i' as u8);
    r.push('l' as u8);
    r.push('y' as u8);
    proof {
        assert(r@ =~= kw_target_family());
    }
    r
}

fn kw_bytes_target_env() -> (r: Vec<u8>)
    ensures
        r@ == kw_target_env(),
{
    let mut r: Vec<u8> = Vec::new();
    r.push('t' as u8);
    r.push('a' as u8);
    r.push('r' as u8);
    r.push('g' as u8);
    r.push('e' as u8);
    r.push('t' as u8);
    r.push('_' as u8);
    r.push('e' as u8);
    r.push('n' as u8);
    r.push('v' as u8);
    proof {
        assert(r@ =~= kw_target_env());
    }
    r
}

fn kw_bytes_target_arch() -> (r: Vec<u8>)
    ensures
        r@ == kw_target_arch(),
{
    let mut r: Vec<u8> = Vec::new();
    r.push('t' as u8);
    r.push('a' as u8);
    r.push('r' as u8);
    r.push('g' as u8);
    r.push('e' as u8);
    r.push('t' as u8);
    r.push('_' as u8);
    r.push('a' as u8);
    r.push('r' as u8);
    r.push('c' as u8);
    r.push('h' as u8);
    proof {
        assert(r@ =~= kw_target_arch());
    }
    r
}

fn kw_bytes_target_pointer_width() -> (r: Vec<u8>)
    ensures
        r@ == kw_target_pointer_width(),
{
    let mut r: Vec<u8> = Vec::new();
    r.push('t' as u8);
    r.push('a' as u8);
    r.push('r' as u8);
    r.push('g' as u8);
    r.push('e' as u8);
    r.push('t' as u8);
    r.push('_' as u8);
    r.push('p' as u8);
    r.push('o' as u8);
    r.push('i' as u8);
    r.push('n' as u8);
    r.push('t' as u8);
    r.push('e' as u8);
    r.push('r' as u8);
    r.push('_' as u8);
    r.push('w' as u8);
    r.push('i' as u8);
    r.push('d' as u8);
    r.push('t' as u8);
    r.push('h' as u8);
    proof {
        assert(r@ =~= kw_target_pointer_width());
    }
    r
}

fn kw_bytes_target_endian() -> (r: Vec<u8>)
    ensures
        r@ == kw_target_endian(),
{
    let mut r: Vec<u8> = Vec::new();
    r.push('t' as u8);
    r.push('a' as u8);
    r.push('r' as u8);
    r.push('g' as u8);
    r.push('e' as u8);
    r.push('t' as u8);
    r.push('_' as u8);
    r.push('e' as u8);
    r.push('n' as u8);
    r.push('d' as u8);
    r.push('i' as u8);
    r.push('a' as u8);
    r.push('n' as u8);
    proof {
        assert(r@ =~= kw_target_endian());
    }
    r
}

fn kw_bytes_target_feature() -> (r: Vec<u8>)
    ensures
        r@ == kw_target_feature(),
{
    let mut r: Vec<u8> = Vec::new();
    r.push('t' as u8);
    r.push('a' as u8);
    r.push('r' as u8);
    r.push('g' as u8);
    r.push('e' as u8);
    r.push('t' as u8);
    r.push('_' as u8);
    r.push('f' as u8);
    r.push('e' as u8);
    r.push('a' as u8);
    r.push('t' as u8);
    r.push('u' as u8);
    r.push('r' as u8);
    r.push('e' as u8);
    proof {
        assert(r@ =~= kw_target_feature());
    }
    r
}

fn kw_bytes_target() -> (r: Vec<u8>)
    ensures
        r@ == kw_target(),
{
    let mut r: Vec<u8> = Vec::new();
    r.push('t' as u8);
    r.push('a' as u8);
    r.push('r' as u8);
    r.push('g' as u8);
    r.push('e' as u8);
    r.push('t' as u8);
    proof {
        assert(r@ =~= kw_target());
    }
    r
}

/// Evaluates a `key = "value"` predicate.
fn pred_value_exec(key: &Vec<u8>, val: &Vec<u8>, t: &Target) -> (r: bool)
    ensures
        r == pred_value(key@, val@, *t),
{
    if bytes_eq(key, &kw_bytes_target_os()) {
        bytes_eq(val, &t.os)
    } else if bytes_eq(key, &kw_bytes_target_family()) {
        bytes_eq(val, &t.family)
    } else if bytes_eq(key, &kw_bytes_target_env()) {
        bytes_eq(val, &t.env)
    } else if bytes_eq(key, &kw_bytes_target_arch()) {
        bytes_eq(val, &t.arch)
    } else if bytes_eq(key, &kw_bytes_target_pointer_width()) {
        bytes_eq(val, &t.pointer_width)
    } else if bytes_eq(key, &kw_bytes_target_endian()) {
        bytes_eq(val, &t.endian)
    } else if bytes_eq(key, &kw_bytes_target_feature()) {
        true
    } else if bytes_eq(key, &kw_bytes_target()) {
        bytes_eq(val, &t.triple)
    } else {
        false
    }
}

/// Parses and evaluates one expression, exactly as `parse_expr` describes.
fn parse_expr_exec(s: &Vec<u8>, t: &Target, i: usize, fuel: u128) -> (r: Option<(bool, usize)>)
    requires
        i <= s@.len(),
    ensures
        match r {
            Some(vp) => parse_expr(s@, *t, i as int, fuel as nat) == EvalStep::Val(
                vp.0,
                vp.1 as int,
            ) && vp.1 <= s@.len(),
            None => parse_expr(s@, *t, i as int, fuel as nat) is Fail,
        },
    decreases fuel,
{
    if fuel == 0 {
        return None;
    }
    let j = skip_ws_exec(s, i);
    let k = ident_end_exec(s, j);
    if k == j {
        return None;
    }
    let id = bytes_range(s, j, k);
    let is_all = bytes_eq(&id, &kw_bytes_all());
    let is_any = bytes_eq(&id, &kw_bytes_any());
    if is_all || is_any {
        let m = skip_ws_exec(s, k);
        if m < s.len() && s[m] == ('(' as u8) {
            parse_list_exec(s, t, m + 1, fuel - 1, is_all)
        } else {
            None
        }
    } else if bytes_eq(&id, &kw_bytes_not()) {
        let m = skip_ws_exec(s, k);
        if m < s.len() && s[m] == ('(' as u8) {
            match parse_expr_exec(s, t, m + 1, fuel - 1) {
                None => None,
                Some((v, p)) => {
                    let q = skip_ws_exec(s, p);
                    if q < s.len() && s[q] == (')' as u8) {
                        Some((!v, q + 1))
                    } else {
                        None
                    }
                },
            }
        } else {
            None
        }
    } else {
        let m = skip_ws_exec(s, k);
        if m < s.len() && s[m] == ('=' as u8) {
            let q = skip_ws_exec(s, m + 1);
            if q < s.len() && s[q] == ('"' as u8) {
                let z = scan_byte(s, ('"' as u8), q + 1);
                if z == s.len() {
                    None
                } else {
                    let val = bytes_range(s, q + 1, z);
                    Some((pred_value_exec(&id, &val, t), z + 1))
                }
            } else {
                None
            }
        } else {
            Some((false, k))
        }
    }
}

/// Parses and evaluates an expression list, exactly as `parse_list`
/// describes.
fn parse_list_exec(s: &Vec<u8>, t: &Target, i: usize, fuel: u128, conj: bool) -> (r: Option<
    (bool, usize),
>)
    requires
        i <= s@.len(),
    ensures
        match r {
            Some(vp) => parse_list(s@, *t, i as int, fuel as nat, conj) == EvalStep::Val(
                vp.0,
                vp.1 as int,
            ) && vp.1 <= s@.len(),
            None => parse_list(s@, *t, i as int, fuel as nat, conj) is Fail,
        },
    decreases fuel,
{
    if fuel == 0 {
        return None;
    }
    let j = skip_ws_exec(s, i);
    if j < s.len() && s[j] == (')' as u8) {
        return Some((conj, j + 1));
    }
    match parse_expr_exec(s, t, j, fuel - 1) {
        None => None,
        Some((v, p)) => {
            let q = skip_ws_exec(s, p);
            if q < s.len() && s[q] == (')' as u8) {
                Some((v, q + 1))
            } else if q < s.len() && s[q] == (',' as u8) {
                match parse_list_exec(s, t, q + 1, fuel - 1, conj) {
                    None => None,
                    Some((v2, p2)) => Some(
                        (
                            if conj {
                                v && v2
                            } else {
                                v || v2
                            },
                            p2,
                        ),
                    ),
                }
            } else {
                None
            }
        },
    }
}

/// Evaluates a target guard against the descriptor, exactly as
/// `eval_guard_model` describes: `None` is a parse error, which the
/// resolver treats as fatal.
pub fn eval_guard(g: &Vec<u8>, t: &Target) -> (r: Option<bool>)
    ensures
        r == eval_guard_model(g@, *t),
{
    let begins = g.len() >= 3 && g[0] == ('c' as u8) && g[1] == ('f' as u8) && g[2] == ('g' as u8);
    if begins {
        let m = skip_ws_exec(g, 3);
        if m < g.len() && g[m] == ('(' as u8) {
            let ghost fuel0 = (2 * g@.len() + 2) as nat;
            let fuel: u128 = 2 * (g.len() as u128) + 2;
            match parse_expr_exec(g, t, m + 1, fuel) {
                None => None,
                Some((v, p)) => {
                    let q = skip_ws_exec(g, p);
                    if q < g.len() && g[q] == (')' as u8) {
                        let w = skip_ws_exec(g, q + 1);
                        if w == g.len() {
                            Some(v)
                        } else {
                            None
                        }
                    } else {
                        None
                    }
                },
            }
        } else {
            None
        }
    } else {
        let lit = bytes_eq(g, &t.triple);
        Some(lit)
    }
}

} // verus!
