use vstd::prelude::*;

use crate::error::DataLoaderError;
use crate::rule_engine::{Condition, LeafOperator, Value};
use crate::text::{chars_of, string_from_chars};

verus! {

broadcast use vstd::std_specs::vec::group_vec_axioms;

/// What `unescape::unescape` makes of the characters between the quotes of a
/// string literal: the unescaped text, or nothing when an escape is malformed.
pub uninterp spec fn unescaped(raw: Seq<char>) -> Option<Seq<char>>;

/// Relies on `unescape::unescape`: its result depends on the characters alone, and
/// text without a backslash comes back unchanged.
#[verifier::external_body]
fn unescape_literal(raw: &Vec<char>) -> (r: Option<String>)
    ensures
        r is None <==> unescaped(raw@) is None,
        r matches Some(t) ==> unescaped(raw@) == Some(t@),
        !raw@.contains('\\') ==> (r is Some && r->Some_0@ == raw@),
{
    let s: String = raw.iter().collect();
    unescape::unescape(&s)
}

/// A value as the grammar sees it.
pub enum ValueV {
    Str(Seq<char>),
    Int(int),
    Float(u64),
    Bool(bool),
    List(Seq<ValueV>),
    Null,
}

/// A condition as the grammar sees it.
pub enum CondV {
    And(Seq<CondV>),
    Or(Seq<CondV>),
    Not(Box<CondV>),
    Leaf(Seq<char>, LeafOperator, Option<ValueV>),
}

/// The grammar's view of a value.
pub open spec fn value_view(v: Value) -> ValueV
    decreases v, 0nat,
{
    match v {
        Value::Str(s) => ValueV::Str(s@),
        Value::Int(i) => ValueV::Int(i as int),
        Value::Float(f) => ValueV::Float(f),
        Value::Bool(b) => ValueV::Bool(b),
        Value::List(xs) => ValueV::List(values_view(xs, xs.len() as nat)),
        Value::Null => ValueV::Null,
    }
}

/// The grammar's view of the first `n` values of `xs`.
pub open spec fn values_view(xs: Vec<Value>, n: nat) -> Seq<ValueV>
    decreases xs, n,
{
    if n == 0 || n > xs.len() {
        seq![]
    } else {
        values_view(xs, (n - 1) as nat).push(value_view(xs[n - 1]))
    }
}

/// The grammar's view of a condition.
pub open spec fn cond_view(c: Condition) -> CondV
    decreases c, 0nat,
{
    match c {
        Condition::And(cs) => CondV::And(conds_view(cs, cs.len() as nat)),
        Condition::Or(cs) => CondV::Or(conds_view(cs, cs.len() as nat)),
        Condition::Not(inner) => CondV::Not(Box::new(cond_view(*inner))),
        Condition::Leaf { lhs, op, rhs } => CondV::Leaf(
            lhs@,
            op,
            match rhs {
                Some(v) => Some(value_view(v)),
                None => None,
            },
        ),
    }
}

/// The grammar's view of the first `n` conditions of `cs`.
pub open spec fn conds_view(cs: Vec<Condition>, n: nat) -> Seq<CondV>
    decreases cs, n,
{
    if n == 0 || n > cs.len() {
        seq![]
    } else {
        conds_view(cs, (n - 1) as nat).push(cond_view(cs[n - 1]))
    }
}

/// How far position `i` is from the end of `s` (a measure for recursion).
pub open spec fn rem(s: Seq<char>, i: int) -> nat {
    if i <= s.len() {
        (s.len() + 1 - i) as nat
    } else {
        0
    }
}

/// `s[i]` exists and is `c`.
pub open spec fn at(s: Seq<char>, i: int, c: char) -> bool {
    0 <= i < s.len() && s[i] == c
}

pub open spec fn is_ws(c: char) -> bool {
    c == ' ' || c == '\t' || c == '\n' || c == '\r'
}

pub open spec fn is_digit(c: char) -> bool {
    '0' <= c <= '9'
}

pub open spec fn is_ident_start(c: char) -> bool {
    ('a' <= c <= 'z') || ('A' <= c <= 'Z') || c == '_'
}

pub open spec fn is_ident_char(c: char) -> bool {
    is_ident_start(c) || is_digit(c)
}

pub open spec fn is_hex(c: char) -> bool {
    is_digit(c) || ('a' <= c <= 'f') || ('A' <= c <= 'F')
}

/// How many whitespace characters start at `i`.
pub open spec fn ws_len(s: Seq<char>, i: int) -> nat
    decreases s.len() - i,
{
    if 0 <= i < s.len() && is_ws(s[i]) {
        1 + ws_len(s, i + 1)
    } else {
        0
    }
}

/// How many identifier characters start at `i`.
pub open spec fn ident_len(s: Seq<char>, i: int) -> nat
    decreases s.len() - i,
{
    if 0 <= i < s.len() && is_ident_char(s[i]) {
        1 + ident_len(s, i + 1)
    } else {
        0
    }
}

/// How many decimal digits start at `i`.
pub open spec fn digits_len(s: Seq<char>, i: int) -> nat
    decreases s.len() - i,
{
    if 0 <= i < s.len() && is_digit(s[i]) {
        1 + digits_len(s, i + 1)
    } else {
        0
    }
}

/// The number written by the `n` digits from `i`.
pub open spec fn digits_value(s: Seq<char>, i: int, n: nat) -> int
    decreases n,
{
    if n == 0 {
        0
    } else {
        digits_value(s, i, (n - 1) as nat) * 10 + (s[i + n - 1] as int - '0' as int)
    }
}

/// The comparison operator at `i`, with its length.
pub open spec fn op_at(s: Seq<char>, i: int) -> Option<(LeafOperator, nat)> {
    if at(s, i, '=') && at(s, i + 1, '=') {
        Some((LeafOperator::Eq, 2))
    } else if at(s, i, '!') && at(s, i + 1, '=') {
        Some((LeafOperator::Ne, 2))
    } else if at(s, i, '>') && at(s, i + 1, '=') {
        Some((LeafOperator::Gte, 2))
    } else if at(s, i, '>') {
        Some((LeafOperator::Gt, 1))
    } else if at(s, i, '<') && at(s, i + 1, '=') {
        Some((LeafOperator::Lte, 2))
    } else if at(s, i, '<') {
        Some((LeafOperator::Lt, 1))
    } else if at(s, i, 'i') && at(s, i + 1, 'n') {
        Some((LeafOperator::InList, 2))
    } else {
        None
    }
}

/// The body of a string literal from `i` (after the opening quote), with `acc`
/// read so far: the text to unescape and the length up to and including the
/// closing quote. Escapes are `\" \\ \/ \b \f \n \r \t \uXXXX`; `\/` stands for
/// `/`; control characters are refused.
pub open spec fn string_body(s: Seq<char>, i: int, acc: Seq<char>) -> Option<(Seq<char>, nat)>
    decreases rem(s, i),
{
    if i < 0 || i >= s.len() {
        None
    } else if s[i] == '"' {
        Some((acc, 1))
    } else if s[i] == '\\' {
        if at(s, i + 1, '/') {
            match string_body(s, i + 2, acc.push('/')) {
                Some((t, n)) => Some((t, n + 2)),
                None => None,
            }
        } else if at(s, i + 1, '"') || at(s, i + 1, '\\') || at(s, i + 1, 'b') || at(s, i + 1, 'f')
            || at(s, i + 1, 'n') || at(s, i + 1, 'r') || at(s, i + 1, 't') {
            match string_body(s, i + 2, acc.push('\\').push(s[i + 1])) {
                Some((t, n)) => Some((t, n + 2)),
                None => None,
            }
        } else if at(s, i + 1, 'u') && i + 5 < s.len() && is_hex(s[i + 2]) && is_hex(s[i + 3])
            && is_hex(s[i + 4]) && is_hex(s[i + 5]) {
            match string_body(s, i + 6, acc + s.subrange(i, i + 6)) {
                Some((t, n)) => Some((t, n + 6)),
                None => None,
            }
        } else {
            None
        }
    } else if s[i] < '\u{20}' || s[i] == '\u{7f}' {
        None
    } else {
        match string_body(s, i + 1, acc.push(s[i])) {
            Some((t, n)) => Some((t, n + 1)),
            None => None,
        }
    }
}

/// An integer literal at `i`: an optional `-` and decimal digits, within the
/// range of `i64`, not followed by a fraction (fractions are not supported).
pub open spec fn int_lit(s: Seq<char>, i: int) -> Option<(ValueV, nat)> {
    let neg = at(s, i, '-');
    let k = if neg {
        i + 1
    } else {
        i
    };
    let n = digits_len(s, k);
    let v = digits_value(s, k, n);
    let val = if neg {
        -v
    } else {
        v
    };
    if n == 0 || at(s, k + n, '.') || val < i64::MIN || val > i64::MAX {
        None
    } else {
        Some((ValueV::Int(val), (k + n - i) as nat))
    }
}

/// `s` holds the word `w` at `i`.
pub open spec fn word_at(s: Seq<char>, i: int, w: Seq<char>) -> bool {
    0 <= i && i + w.len() <= s.len() && s.subrange(i, i + w.len()) == w
}

/// A literal at `i`: a string, a list, `true`, `false`, or an integer.
pub open spec fn value_at(s: Seq<char>, i: int) -> Option<(ValueV, nat)>
    decreases rem(s, i), 0nat,
{
    if i < 0 || i > s.len() {
        None
    } else if at(s, i, '"') {
        match string_body(s, i + 1, seq![]) {
            Some((raw, n)) => match unescaped(raw) {
                Some(t) => Some((ValueV::Str(t), n + 1)),
                None => None,
            },
            None => None,
        }
    } else if at(s, i, '[') {
        let j = i + 1 + ws_len(s, i + 1);
        if at(s, j, ']') {
            Some((ValueV::List(seq![]), (j + 1 - i) as nat))
        } else {
            match list_elems(s, j, seq![]) {
                Some((v, n)) => Some((v, (j + n - i) as nat)),
                None => None,
            }
        }
    } else if word_at(s, i, seq!['t', 'r', 'u', 'e']) {
        Some((ValueV::Bool(true), 4))
    } else if word_at(s, i, seq!['f', 'a', 'l', 's', 'e']) {
        Some((ValueV::Bool(false), 5))
    } else {
        int_lit(s, i)
    }
}

/// The elements of a list from `i` on, after `acc`: values separated by `,`, up
/// to the closing `]`.
pub open spec fn list_elems(s: Seq<char>, i: int, acc: Seq<ValueV>) -> Option<(ValueV, nat)>
    decreases rem(s, i), 1nat,
{
    if i < 0 || i > s.len() {
        None
    } else {
        match value_at(s, i) {
            Some((v, n)) => {
                let k = i + n + ws_len(s, i + n);
                if at(s, k, ',') {
                    let j = k + 1 + ws_len(s, k + 1);
                    match list_elems(s, j, acc.push(v)) {
                        Some((l, m)) => Some((l, (j + m - i) as nat)),
                        None => None,
                    }
                } else if at(s, k, ']') {
                    Some((ValueV::List(acc.push(v)), (k + 1 - i) as nat))
                } else {
                    None
                }
            },
            None => None,
        }
    }
}

/// A leaf `ident op literal`, or a parenthesised expression, at `i` (leading
/// whitespace included).
pub open spec fn atom(s: Seq<char>, i: int) -> Option<(CondV, nat)>
    decreases rem(s, i), 2nat,
{
    if i < 0 || i > s.len() {
        None
    } else {
        let a = i + ws_len(s, i);
        if at(s, a, '(') {
            match cond_or(s, a + 1) {
                Some((c, n)) => {
                    let k = a + 1 + n + ws_len(s, a + 1 + n);
                    if at(s, k, ')') {
                        Some((c, (k + 1 - i) as nat))
                    } else {
                        None
                    }
                },
                None => None,
            }
        } else if 0 <= a < s.len() && is_ident_start(s[a]) {
            let e = a + ident_len(s, a);
            let o = e + ws_len(s, e);
            match op_at(s, o) {
                Some((op, m)) => {
                    let l = o + m + ws_len(s, o + m);
                    match value_at(s, l) {
                        Some((v, n)) => Some(
                            (CondV::Leaf(s.subrange(a, e), op, Some(v)), (l + n - i) as nat),
                        ),
                        None => None,
                    }
                },
                None => None,
            }
        } else {
            None
        }
    }
}

/// An atom, possibly negated by a leading `!`.
pub open spec fn cond_not(s: Seq<char>, i: int) -> Option<(CondV, nat)>
    decreases rem(s, i), 3nat,
{
    if i < 0 || i > s.len() {
        None
    } else {
        let a = i + ws_len(s, i);
        if at(s, a, '!') {
            match atom(s, a + 1) {
                Some((c, n)) => Some((CondV::Not(Box::new(c)), (a + 1 + n - i) as nat)),
                None => None,
            }
        } else {
            atom(s, i)
        }
    }
}

/// Further `&& operand` parts from `i` on, after the operands `acc`.
pub open spec fn and_tail(s: Seq<char>, i: int, acc: Seq<CondV>) -> (Seq<CondV>, nat)
    decreases rem(s, i), 4nat,
{
    if i < 0 || i > s.len() {
        (acc, 0)
    } else {
        let k = i + ws_len(s, i);
        if at(s, k, '&') && at(s, k + 1, '&') {
            match cond_not(s, k + 2) {
                Some((c, n)) => {
                    let (all, m) = and_tail(s, k + 2 + n, acc.push(c));
                    (all, (k + 2 + n + m - i) as nat)
                },
                None => (acc, 0),
            }
        } else {
            (acc, 0)
        }
    }
}

/// Operands joined by `&&`; a single operand stands alone.
pub open spec fn cond_and(s: Seq<char>, i: int) -> Option<(CondV, nat)>
    decreases rem(s, i), 5nat,
{
    if i < 0 || i > s.len() {
        None
    } else {
        match cond_not(s, i) {
            Some((first, n)) => {
                let (all, m) = and_tail(s, i + n, seq![first]);
                if all.len() == 1 {
                    Some((first, n))
                } else {
                    Some((CondV::And(all), n + m))
                }
            },
            None => None,
        }
    }
}

/// Further `|| operand` parts from `i` on, after the operands `acc`.
pub open spec fn or_tail(s: Seq<char>, i: int, acc: Seq<CondV>) -> (Seq<CondV>, nat)
    decreases rem(s, i), 6nat,
{
    if i < 0 || i > s.len() {
        (acc, 0)
    } else {
        let k = i + ws_len(s, i);
        if at(s, k, '|') && at(s, k + 1, '|') {
            match cond_and(s, k + 2) {
                Some((c, n)) => {
                    let (all, m) = or_tail(s, k + 2 + n, acc.push(c));
                    (all, (k + 2 + n + m - i) as nat)
                },
                None => (acc, 0),
            }
        } else {
            (acc, 0)
        }
    }
}

/// A rule expression at `i`: operands joined by `||`, a single one standing alone.
pub open spec fn cond_or(s: Seq<char>, i: int) -> Option<(CondV, nat)>
    decreases rem(s, i), 7nat,
{
    if i < 0 || i > s.len() {
        None
    } else {
        match cond_and(s, i) {
            Some((first, n)) => {
                let (all, m) = or_tail(s, i + n, seq![first]);
                if all.len() == 1 {
                    Some((first, n))
                } else {
                    Some((CondV::Or(all), n + m))
                }
            },
            None => None,
        }
    }
}

/// The rule that the whole text `s` states, if it is one expression with nothing
/// but whitespace after it.
pub open spec fn rule_of(s: Seq<char>) -> Option<CondV> {
    match cond_or(s, 0) {
        Some((c, n)) => if n + ws_len(s, n as int) == s.len() {
            Some(c)
        } else {
            None
        },
        None => None,
    }
}

} // verus!

verus! {

/// `o` with its consumed length increased by `d`.
pub open spec fn shifted<T>(o: Option<(T, nat)>, d: int) -> Option<(T, nat)> {
    match o {
        Some((t, n)) => Some((t, (n + d) as nat)),
        None => None,
    }
}

proof fn lemma_values_view_prefix(v: Vec<Value>, w: Vec<Value>, n: nat)
    requires
        n <= v.len(),
        n <= w.len(),
        forall|i: int| 0 <= i < n ==> v[i] == w[i],
    ensures
        values_view(v, n) == values_view(w, n),
    decreases n,
{
    if n > 0 {
        lemma_values_view_prefix(v, w, (n - 1) as nat);
    }
}

proof fn lemma_values_view_push(v: Vec<Value>, w: Vec<Value>, x: Value)
    requires
        w@ == v@.push(x),
    ensures
        values_view(w, w.len() as nat) == values_view(v, v.len() as nat).push(value_view(x)),
{
    lemma_values_view_prefix(v, w, v.len() as nat);
    assert(w[v.len() as int] == x);
}

proof fn lemma_and_tail_prefix(s: Seq<char>, i: int, acc: Seq<CondV>)
    ensures
        and_tail(s, i, acc).0.len() >= acc.len(),
        and_tail(s, i, acc).0.subrange(0, acc.len() as int) == acc,
    decreases rem(s, i),
{
    if 0 <= i <= s.len() {
        let k = i + ws_len(s, i);
        if at(s, k, '&') && at(s, k + 1, '&') {
            match cond_not(s, k + 2) {
                Some((c, n)) => {
                    lemma_and_tail_prefix(s, k + 2 + n, acc.push(c));
                    let all = and_tail(s, k + 2 + n, acc.push(c)).0;
                    assert(all.subrange(0, acc.len() as int) =~= all.subrange(0, acc.len() + 1 as int).subrange(
                        0,
                        acc.len() as int,
                    ));
                    assert(acc.push(c).subrange(0, acc.len() as int) =~= acc);
                },
                None => {},
            }
        }
    }
    assert(acc.subrange(0, acc.len() as int) =~= acc);
}

proof fn lemma_or_tail_prefix(s: Seq<char>, i: int, acc: Seq<CondV>)
    ensures
        or_tail(s, i, acc).0.len() >= acc.len(),
        or_tail(s, i, acc).0.subrange(0, acc.len() as int) == acc,
    decreases rem(s, i),
{
    if 0 <= i <= s.len() {
        let k = i + ws_len(s, i);
        if at(s, k, '|') && at(s, k + 1, '|') {
            match cond_and(s, k + 2) {
                Some((c, n)) => {
                    lemma_or_tail_prefix(s, k + 2 + n, acc.push(c));
                    let all = or_tail(s, k + 2 + n, acc.push(c)).0;
                    assert(all.subrange(0, acc.len() as int) =~= all.subrange(0, acc.len() + 1 as int).subrange(
                        0,
                        acc.len() as int,
                    ));
                    assert(acc.push(c).subrange(0, acc.len() as int) =~= acc);
                },
                None => {},
            }
        }
    }
    assert(acc.subrange(0, acc.len() as int) =~= acc);
}

proof fn lemma_conds_view_len(v: Vec<Condition>, n: nat)
    requires
        n <= v.len(),
    ensures
        conds_view(v, n).len() == n,
    decreases n,
{
    if n > 0 {
        lemma_conds_view_len(v, (n - 1) as nat);
    }
}

proof fn lemma_conds_view_prefix(v: Vec<Condition>, w: Vec<Condition>, n: nat)
    requires
        n <= v.len(),
        n <= w.len(),
        forall|i: int| 0 <= i < n ==> v[i] == w[i],
    ensures
        conds_view(v, n) == conds_view(w, n),
    decreases n,
{
    if n > 0 {
        lemma_conds_view_prefix(v, w, (n - 1) as nat);
    }
}

proof fn lemma_conds_view_push(v: Vec<Condition>, w: Vec<Condition>, x: Condition)
    requires
        w@ == v@.push(x),
    ensures
        conds_view(w, w.len() as nat) == conds_view(v, v.len() as nat).push(cond_view(x)),
{
    lemma_conds_view_prefix(v, w, v.len() as nat);
    assert(w[v.len() as int] == x);
}

fn char_at(s: &Vec<char>, i: usize, c: char) -> (r: bool)
    ensures
        r == at(s@, i as int, c),
{
    i < s.len() && s[i] == c
}

fn skip_ws(s: &Vec<char>, i: usize) -> (r: usize)
    requires
        i <= s.len(),
    ensures
        r == i + ws_len(s@, i as int),
        r <= s.len(),
{
    let mut j = i;
    while j < s.len() && (s[j] == ' ' || s[j] == '\t' || s[j] == '\n' || s[j] == '\r')
        invariant
            i <= j <= s.len(),
            i + ws_len(s@, i as int) == j + ws_len(s@, j as int),
        decreases s.len() - j,
    {
        j = j + 1;
    }
    j
}

fn scan_ident(s: &Vec<char>, i: usize) -> (r: usize)
    requires
        i <= s.len(),
    ensures
        r == i + ident_len(s@, i as int),
        r <= s.len(),
{
    let mut j = i;
    while j < s.len() && (('a' <= s[j] && s[j] <= 'z') || ('A' <= s[j] && s[j] <= 'Z') || s[j] == '_' || (
    '0' <= s[j] && s[j] <= '9'))
        invariant
            i <= j <= s.len(),
            i + ident_len(s@, i as int) == j + ident_len(s@, j as int),
        decreases s.len() - j,
    {
        j = j + 1;
    }
    j
}

fn scan_digits(s: &Vec<char>, i: usize) -> (r: usize)
    requires
        i <= s.len(),
    ensures
        r == i + digits_len(s@, i as int),
        r <= s.len(),
{
    let mut j = i;
    while j < s.len() && '0' <= s[j] && s[j] <= '9'
        invariant
            i <= j <= s.len(),
            i + digits_len(s@, i as int) == j + digits_len(s@, j as int),
        decreases s.len() - j,
    {
        j = j + 1;
    }
    j
}

/// Whether `s` holds `a` then `b` at `i`.
fn pair_at(s: &Vec<char>, i: usize, a: char, b: char) -> (r: bool)
    ensures
        r == (at(s@, i as int, a) && at(s@, i + 1, b)),
{
    i < s.len() && s[i] == a && i + 1 < s.len() && s[i + 1] == b
}

fn parse_op(s: &Vec<char>, i: usize) -> (r: Option<(LeafOperator, usize)>)
    ensures
        match op_at(s@, i as int) {
            Some((op, m)) => r == Some((op, m as usize)),
            None => r is None,
        },
{
    if pair_at(s, i, '=', '=') {
        Some((LeafOperator::Eq, 2))
    } else if pair_at(s, i, '!', '=') {
        Some((LeafOperator::Ne, 2))
    } else if pair_at(s, i, '>', '=') {
        Some((LeafOperator::Gte, 2))
    } else if char_at(s, i, '>') {
        Some((LeafOperator::Gt, 1))
    } else if pair_at(s, i, '<', '=') {
        Some((LeafOperator::Lte, 2))
    } else if char_at(s, i, '<') {
        Some((LeafOperator::Lt, 1))
    } else if pair_at(s, i, 'i', 'n') {
        Some((LeafOperator::InList, 2))
    } else {
        None
    }
}

fn is_hex_char(c: char) -> (r: bool)
    ensures
        r == is_hex(c),
{
    ('0' <= c && c <= '9') || ('a' <= c && c <= 'f') || ('A' <= c && c <= 'F')
}

/// Reads the body of a string literal, as `string_body` states.
fn parse_string_body(s: &Vec<char>, i0: usize) -> (r: Option<(Vec<char>, usize)>)
    requires
        i0 <= s.len(),
    ensures
        r matches Some((_, e)) ==> e <= s@.len(),
        match string_body(s@, i0 as int, seq![]) {
            Some((t, n)) => r matches Some((v, e)) && v@ == t && e == i0 + n,
            None => r is None,
        },
{
    let mut acc: Vec<char> = Vec::new();
    let mut i = i0;
    while i < s.len()
        invariant
            i0 <= i <= s.len(),
            string_body(s@, i0 as int, seq![]) == shifted(string_body(s@, i as int, acc@), i - i0),
        decreases s.len() - i,
    {
        let c = s[i];
        if c == '"' {
            return Some((acc, i + 1));
        } else if c == '\\' {
            if char_at(s, i + 1, '/') {
                acc.push('/');
                i = i + 2;
            } else if char_at(s, i + 1, '"') || char_at(s, i + 1, '\\') || char_at(s, i + 1, 'b')
                || char_at(s, i + 1, 'f') || char_at(s, i + 1, 'n') || char_at(s, i + 1, 'r')
                || char_at(s, i + 1, 't') {
                acc.push('\\');
                acc.push(s[i + 1]);
                i = i + 2;
            } else if char_at(s, i + 1, 'u') && s.len() - i > 5 && is_hex_char(s[i + 2]) && is_hex_char(
                s[i + 3],
            ) && is_hex_char(s[i + 4]) && is_hex_char(s[i + 5]) {
                let ghost before = acc@;
                let mut k = i;
                while k < i + 6
                    invariant
                        i + 5 < s.len(),
                        i <= k <= i + 6,
                        acc@ == before + s@.subrange(i as int, k as int),
                    decreases i + 6 - k,
                {
                    acc.push(s[k]);
                    assert(acc@ =~= before + s@.subrange(i as int, k + 1));
                    k = k + 1;
                }
                i = i + 6;
            } else {
                return None;
            }
        } else if c < '\u{20}' || c == '\u{7f}' {
            return None;
        } else {
            acc.push(c);
            i = i + 1;
        }
    }
    None
}

/// Reads an integer literal, as `int_lit` states.
fn parse_int(s: &Vec<char>, i: usize) -> (r: Option<(i64, usize)>)
    requires
        i <= s.len(),
    ensures
        r matches Some((_, e)) ==> e <= s@.len(),
        match int_lit(s@, i as int) {
            Some((v, n)) => r matches Some((x, e)) && v == ValueV::Int(x as int) && e == i + n,
            None => r is None,
        },
{
    let neg = char_at(s, i, '-');
    let k = if neg {
        i + 1
    } else {
        i
    };
    let e = scan_digits(s, k);
    if e == k || char_at(s, e, '.') {
        return None;
    }
    let ghost n = (e - k) as nat;
    let mut v: u128 = 0;
    let mut over = false;
    let mut j = k;
    while j < e
        invariant
            k <= j <= e,
            e == k + digits_len(s@, k as int),
            e <= s.len(),
            forall|x: int| k <= x < j ==> is_digit(#[trigger] s@[x]),
            !over ==> v == digits_value(s@, k as int, (j - k) as nat) && v <= 0x8000_0000_0000_0000,
            over ==> digits_value(s@, k as int, (j - k) as nat) > 0x8000_0000_0000_0000,
        decreases e - j,
    {
        proof {
            lemma_digits_within(s@, k as int, (j - k) as nat);
            lemma_digits_value_nonneg(s@, k as int, (j - k) as nat);
        }
        assert(is_digit(s@[j as int]));
        let d = (s[j] as u32 - '0' as u32) as u128;
        if !over {
            let nv = v * 10 + d;
            if nv > 0x8000_0000_0000_0000 {
                over = true;
            } else {
                v = nv;
            }
        }
        j = j + 1;
    }
    if over {
        return None;
    }
    if neg {
        Some(((0 - (v as i128)) as i64, e))
    } else if v > 0x7fff_ffff_ffff_ffff {
        None
    } else {
        Some((v as i64, e))
    }
}

proof fn lemma_digits_within(s: Seq<char>, k: int, m: nat)
    requires
        k + m < s.len(),
        m < digits_len(s, k),
    ensures
        is_digit(s[k + m]),
    decreases m,
{
    if m > 0 {
        lemma_digits_within(s, k + 1, (m - 1) as nat);
    }
}

proof fn lemma_digits_value_nonneg(s: Seq<char>, k: int, m: nat)
    requires
        forall|j: int| k <= j < k + m ==> is_digit(#[trigger] s[j]),
    ensures
        digits_value(s, k, m) >= 0,
    decreases m,
{
    if m > 0 {
        lemma_digits_value_nonneg(s, k, (m - 1) as nat);
    }
}

} // verus!

verus! {

/// `r` is what the exec parser returns for a spec result `o` at position `i`.
pub open spec fn value_result(r: Option<(Value, usize)>, i: int, o: Option<(ValueV, nat)>) -> bool {
    match o {
        Some((v, n)) => r matches Some((x, e)) && value_view(x) == v && e == i + n,
        None => r is None,
    }
}

pub open spec fn cond_result(r: Option<(Condition, usize)>, i: int, o: Option<(CondV, nat)>) -> bool {
    match o {
        Some((c, n)) => r matches Some((x, e)) && cond_view(x) == c && e == i + n,
        None => r is None,
    }
}

fn word_at_exec(s: &Vec<char>, i: usize, w: &[char]) -> (r: bool)
    ensures
        r == word_at(s@, i as int, w@),
{
    if i > s.len() || s.len() - i < w.len() {
        return false;
    }
    let n = w.len();
    let mut k: usize = 0;
    while k < n
        invariant
            n == w@.len(),
            i <= s@.len(),
            n <= s.len() - i,
            k <= n,
            forall|x: int| 0 <= x < k ==> s@[i + x] == w@[x],
        decreases w@.len() - k,
    {
        let idx = i + k;
        if s[idx] != w[k] {
            assert(s@.subrange(i as int, i + w@.len())[k as int] != w@[k as int]);
            return false;
        }
        k = k + 1;
    }
    assert(s@.subrange(i as int, i + w@.len()) =~= w@);
    true
}

/// Reads a literal, as `value_at` states.
fn parse_value(s: &Vec<char>, i: usize) -> (r: Option<(Value, usize)>)
    ensures
        value_result(r, i as int, value_at(s@, i as int)),
        r matches Some((_, e)) ==> e <= s@.len(),
    decreases rem(s@, i as int), 0nat,
{
    if i > s.len() {
        return None;
    }
    if char_at(s, i, '"') {
        match parse_string_body(s, i + 1) {
            Some((raw, e)) => match unescape_literal(&raw) {
                Some(t) => Some((Value::Str(t), e)),
                None => None,
            },
            None => None,
        }
    } else if char_at(s, i, '[') {
        let j = skip_ws(s, i + 1);
        if char_at(s, j, ']') {
            let empty: Vec<Value> = Vec::new();
            let r = Value::List(empty);
            assert(value_view(r) == ValueV::List(seq![]));
            Some((r, j + 1))
        } else {
            parse_list_elems(s, j, Vec::new())
        }
    } else if word_at_exec(s, i, &['t', 'r', 'u', 'e']) {
        proof {
            assert(seq!['t', 'r', 'u', 'e'] =~= ['t', 'r', 'u', 'e']@);
        }
        Some((Value::Bool(true), i + 4))
    } else if word_at_exec(s, i, &['f', 'a', 'l', 's', 'e']) {
        proof {
            assert(seq!['f', 'a', 'l', 's', 'e'] =~= ['f', 'a', 'l', 's', 'e']@);
            assert(seq!['t', 'r', 'u', 'e'] =~= ['t', 'r', 'u', 'e']@);
        }
        Some((Value::Bool(false), i + 5))
    } else {
        proof {
            assert(seq!['f', 'a', 'l', 's', 'e'] =~= ['f', 'a', 'l', 's', 'e']@);
            assert(seq!['t', 'r', 'u', 'e'] =~= ['t', 'r', 'u', 'e']@);
        }
        match parse_int(s, i) {
            Some((x, e)) => Some((Value::Int(x), e)),
            None => None,
        }
    }
}

/// Reads list elements after `acc`, as `list_elems` states.
fn parse_list_elems(s: &Vec<char>, i: usize, acc: Vec<Value>) -> (r: Option<(Value, usize)>)
    ensures
        value_result(r, i as int, list_elems(s@, i as int, values_view(acc, acc.len() as nat))),
        r matches Some((_, e)) ==> e <= s@.len(),
    decreases rem(s@, i as int), 1nat,
{
    if i > s.len() {
        return None;
    }
    match parse_value(s, i) {
        Some((v, e)) => {
            let k = skip_ws(s, e);
            let ghost vv = value_view(v);
            let ghost old_acc = acc;
            let mut acc = acc;
            acc.push(v);
            proof {
                lemma_values_view_push(old_acc, acc, v);
            }
            if char_at(s, k, ',') {
                let j = skip_ws(s, k + 1);
                parse_list_elems(s, j, acc)
            } else if char_at(s, k, ']') {
                Some((Value::List(acc), k + 1))
            } else {
                None
            }
        },
        None => None,
    }
}

/// Reads an atom, as `atom` states.
#[verifier::rlimit(50)]
fn parse_atom(s: &Vec<char>, i: usize) -> (r: Option<(Condition, usize)>)
    ensures
        cond_result(r, i as int, atom(s@, i as int)),
        r matches Some((_, e)) ==> e <= s@.len(),
    decreases rem(s@, i as int), 2nat,
{
    if i > s.len() {
        return None;
    }
    let a = skip_ws(s, i);
    if char_at(s, a, '(') {
        match parse_or(s, a + 1) {
            Some((c, e)) => {
                let k = skip_ws(s, e);
                if char_at(s, k, ')') {
                    Some((c, k + 1))
                } else {
                    None
                }
            },
            None => None,
        }
    } else if a < s.len() && (('a' <= s[a] && s[a] <= 'z') || ('A' <= s[a] && s[a] <= 'Z') || s[a] == '_') {
        let e = scan_ident(s, a);
        let o = skip_ws(s, e);
        match parse_op(s, o) {
            Some((op, m)) => {
                let l = skip_ws(s, o + m);
                match parse_value(s, l) {
                    Some((v, n)) => {
                        let lhs = string_from_chars(slice_of(s, a, e));
                        Some((Condition::Leaf { lhs, op, rhs: Some(v) }, n))
                    },
                    None => None,
                }
            },
            None => None,
        }
    } else {
        None
    }
}

/// The characters of `s` from `a` up to `e`.
fn slice_of(s: &Vec<char>, a: usize, e: usize) -> (r: &[char])
    requires
        a <= e <= s.len(),
    ensures
        r@ == s@.subrange(a as int, e as int),
{
    vstd::slice::slice_subrange(s.as_slice(), a, e)
}

/// Reads a possibly negated atom, as `cond_not` states.
fn parse_not(s: &Vec<char>, i: usize) -> (r: Option<(Condition, usize)>)
    ensures
        cond_result(r, i as int, cond_not(s@, i as int)),
        r matches Some((_, e)) ==> e <= s@.len(),
    decreases rem(s@, i as int), 3nat,
{
    if i > s.len() {
        return None;
    }
    let a = skip_ws(s, i);
    if char_at(s, a, '!') {
        match parse_atom(s, a + 1) {
            Some((c, e)) => Some((Condition::Not(Box::new(c)), e)),
            None => None,
        }
    } else {
        parse_atom(s, i)
    }
}

/// Reads further `&&` operands after `acc`, as `and_tail` states.
fn parse_and_tail(s: &Vec<char>, i: usize, acc: Vec<Condition>) -> (r: (Vec<Condition>, usize))
    ensures
        ({
            let (all, m) = and_tail(s@, i as int, conds_view(acc, acc.len() as nat));
            conds_view(r.0, r.0.len() as nat) == all && r.1 == i + m
        }),
        i <= s@.len() ==> r.1 <= s@.len(),
        r.0@.len() >= acc@.len(),
    decreases rem(s@, i as int), 4nat,
{
    if i > s.len() {
        return (acc, i);
    }
    let k = skip_ws(s, i);
    if pair_at(s, k, '&', '&') {
        match parse_not(s, k + 2) {
            Some((c, e)) => {
                let ghost old_acc = acc;
                let mut acc = acc;
                acc.push(c);
                proof {
                    lemma_conds_view_push(old_acc, acc, c);
                }
                parse_and_tail(s, e, acc)
            },
            None => (acc, i),
        }
    } else {
        (acc, i)
    }
}

/// Reads operands joined by `&&`, as `cond_and` states.
fn parse_and(s: &Vec<char>, i: usize) -> (r: Option<(Condition, usize)>)
    ensures
        cond_result(r, i as int, cond_and(s@, i as int)),
        r matches Some((_, e)) ==> e <= s@.len(),
    decreases rem(s@, i as int), 5nat,
{
    if i > s.len() {
        return None;
    }
    match parse_not(s, i) {
        Some((first, e)) => {
            let ghost fv = cond_view(first);
            let mut acc: Vec<Condition> = Vec::new();
            let ghost empty = acc;
            acc.push(first);
            proof {
                lemma_conds_view_push(empty, acc, first);
                assert(conds_view(acc, acc.len() as nat) =~= seq![fv]);
            }
            let (mut all, end) = parse_and_tail(s, e, acc);
            proof {
                lemma_conds_view_len(all, all.len() as nat);
                lemma_and_tail_prefix(s@, e as int, seq![fv]);
            }
            let ghost tail = and_tail(s@, e as int, seq![fv]);
            assert(cond_not(s@, i as int) == Some((fv, (e - i) as nat)));
            assert(conds_view(all, all.len() as nat) == tail.0);
            if all.len() == 1 {
                proof {
                    lemma_conds_view_len(all, 1);
                    assert(conds_view(all, 0) =~= Seq::<CondV>::empty());
                    assert(conds_view(all, 1) == conds_view(all, 0).push(cond_view(all[0])));
                    assert(conds_view(all, 1)[0] == cond_view(all[0]));
                    assert(tail.0.len() == 1);
                    assert(tail.0.subrange(0, 1) == seq![fv]);
                    assert(tail.0.subrange(0, 1)[0] == tail.0[0]);
                    assert(tail.0[0] == fv);
                }
                let c = all.pop().unwrap();
                assert(cond_view(c) == fv);
                assert(cond_and(s@, i as int) == Some((fv, (e - i) as nat)));
                Some((c, e))
            } else {
                assert(cond_and(s@, i as int) == Some((CondV::And(tail.0), (e - i + tail.1) as nat)));
                Some((Condition::And(all), end))
            }
        },
        None => None,
    }
}

/// Reads further `||` operands after `acc`, as `or_tail` states.
fn parse_or_tail(s: &Vec<char>, i: usize, acc: Vec<Condition>) -> (r: (Vec<Condition>, usize))
    ensures
        ({
            let (all, m) = or_tail(s@, i as int, conds_view(acc, acc.len() as nat));
            conds_view(r.0, r.0.len() as nat) == all && r.1 == i + m
        }),
        i <= s@.len() ==> r.1 <= s@.len(),
        r.0@.len() >= acc@.len(),
    decreases rem(s@, i as int), 6nat,
{
    if i > s.len() {
        return (acc, i);
    }
    let k = skip_ws(s, i);
    if pair_at(s, k, '|', '|') {
        match parse_and(s, k + 2) {
            Some((c, e)) => {
                let ghost old_acc = acc;
                let mut acc = acc;
                acc.push(c);
                proof {
                    lemma_conds_view_push(old_acc, acc, c);
                }
                parse_or_tail(s, e, acc)
            },
            None => (acc, i),
        }
    } else {
        (acc, i)
    }
}

/// Reads a rule expression, as `cond_or` states.
#[verifier::rlimit(50)]
fn parse_or(s: &Vec<char>, i: usize) -> (r: Option<(Condition, usize)>)
    ensures
        cond_result(r, i as int, cond_or(s@, i as int)),
        r matches Some((_, e)) ==> e <= s@.len(),
    decreases rem(s@, i as int), 7nat,
{
    if i > s.len() {
        return None;
    }
    match parse_and(s, i) {
        Some((first, e)) => {
            let ghost fv = cond_view(first);
            let mut acc: Vec<Condition> = Vec::new();
            let ghost empty = acc;
            acc.push(first);
            proof {
                lemma_conds_view_push(empty, acc, first);
                assert(conds_view(acc, acc.len() as nat) =~= seq![fv]);
            }
            let (mut all, end) = parse_or_tail(s, e, acc);
            proof {
                lemma_conds_view_len(all, all.len() as nat);
                lemma_or_tail_prefix(s@, e as int, seq![fv]);
            }
            let ghost tail = or_tail(s@, e as int, seq![fv]);
            assert(cond_and(s@, i as int) == Some((fv, (e - i) as nat)));
            assert(conds_view(all, all.len() as nat) == tail.0);
            if all.len() == 1 {
                proof {
                    lemma_conds_view_len(all, 1);
                    assert(conds_view(all, 0) =~= Seq::<CondV>::empty());
                    assert(conds_view(all, 1) == conds_view(all, 0).push(cond_view(all[0])));
                    assert(conds_view(all, 1)[0] == cond_view(all[0]));
                    assert(tail.0.subrange(0, 1) == seq![fv]);
                    assert(tail.0.subrange(0, 1)[0] == tail.0[0]);
                }
                let c = all.pop().unwrap();
                Some((c, e))
            } else {
                Some((Condition::Or(all), end))
            }
        },
        None => None,
    }
}

} // verus!

verus! {

/// Reads a rule expression from the start of `i`: the condition, and how many
/// characters it takes.
pub fn do_parse(i: &str) -> (r: Option<(Condition, usize)>)
    ensures
        cond_result(r, 0, cond_or(i@, 0)),
{
    let s = chars_of(i);
    parse_or(&s, 0)
}

/// Reads a literal from the start of `i`: the value, and how many characters it takes.
pub fn rhs_literal(i: &str) -> (r: Option<(Value, usize)>)
    ensures
        value_result(r, 0, value_at(i@, 0)),
{
    let s = chars_of(i);
    parse_value(&s, 0)
}

/// The identifier at the start of `input`, if one starts there.
pub fn identifier(input: &str) -> (r: Option<String>)
    ensures
        input@.len() > 0 && is_ident_start(input@[0]) ==> (r matches Some(t) && t@ == input@.subrange(
            0,
            ident_len(input@, 0) as int,
        )),
        !(input@.len() > 0 && is_ident_start(input@[0])) ==> r is None,
{
    let s = chars_of(input);
    if s.len() > 0 && (('a' <= s[0] && s[0] <= 'z') || ('A' <= s[0] && s[0] <= 'Z') || s[0] == '_') {
        let e = scan_ident(&s, 0);
        Some(string_from_chars(slice_of(&s, 0, e)))
    } else {
        None
    }
}

/// Parses a whole rule text: one expression with nothing but whitespace after it.
pub fn parse_rule(text: &str) -> (r: Result<Condition, DataLoaderError>)
    ensures
        match rule_of(text@) {
            Some(c) => r matches Ok(x) && cond_view(x) == c,
            None => r matches Err(e) && e is SpecParseError,
        },
{
    let s = chars_of(text);
    match parse_or(&s, 0) {
        Some((c, e)) => {
            let k = skip_ws(&s, e);
            if k == s.len() {
                Ok(c)
            } else {
                Err(DataLoaderError::SpecParseError("syntax error in rule, some part not recognised".to_string()))
            }
        },
        None => Err(DataLoaderError::SpecParseError("rule is not a valid expression".to_string())),
    }
}

} // verus!
