use vstd::prelude::*;

use crate::text::{chars_of, str_eq};

verus! {

broadcast use vstd::std_specs::vec::group_vec_axioms;

/// Comparison operators that may appear in a rule leaf.
#[derive(Debug, PartialEq, Eq, Structural, Clone, Copy)]
pub enum LeafOperator {
    Eq,
    Ne,
    Gt,
    Gte,
    Lt,
    Lte,
    InList,
    Exist,
}

/// A value held by a WhoAmI attribute or by the right-hand side of a rule leaf.
#[derive(Debug, PartialEq)]
pub enum Value {
    Str(String),
    Int(i64),
    /// A double-precision float, as its bit pattern.
    Float(u64),
    Bool(bool),
    List(Vec<Value>),
    Null,
}

/// A boolean predicate over a WhoAmI.
#[derive(Debug, PartialEq)]
pub enum Condition {
    And(Vec<Condition>),
    Or(Vec<Condition>),
    Not(Box<Condition>),
    Leaf { lhs: String, op: LeafOperator, rhs: Option<Value> },
}

/// Deep equality of two values: same tag and equal contents.
pub open spec fn value_eq(a: Value, b: Value) -> bool
    decreases a, 0nat,
{
    match (a, b) {
        (Value::Str(x), Value::Str(y)) => x@ == y@,
        (Value::Int(x), Value::Int(y)) => x == y,
        (Value::Float(x), Value::Float(y)) => x == y,
        (Value::Bool(x), Value::Bool(y)) => x == y,
        (Value::Null, Value::Null) => true,
        (Value::List(xs), Value::List(ys)) => xs.len() == ys.len() && list_eq_upto(xs, ys, xs.len() as nat),
        _ => false,
    }
}

/// The first `n` elements of `xs` and `ys` are pairwise deeply equal.
pub open spec fn list_eq_upto(xs: Vec<Value>, ys: Vec<Value>, n: nat) -> bool
    decreases xs, n,
{
    if n == 0 {
        true
    } else if n > xs.len() || n > ys.len() {
        false
    } else {
        list_eq_upto(xs, ys, (n - 1) as nat) && value_eq(xs[n - 1], ys[n - 1])
    }
}

/// Some element among the first `n` of `xs` is deeply equal to `v`.
pub open spec fn list_has_upto(xs: Vec<Value>, v: Value, n: nat) -> bool
    decreases n,
{
    if n == 0 || n > xs.len() {
        false
    } else {
        list_has_upto(xs, v, (n - 1) as nat) || value_eq(xs[n - 1], v)
    }
}

/// Both values carry the same tag.
pub open spec fn same_tag(a: Value, b: Value) -> bool {
    match (a, b) {
        (Value::Str(_), Value::Str(_)) => true,
        (Value::Int(_), Value::Int(_)) => true,
        (Value::Float(_), Value::Float(_)) => true,
        (Value::Bool(_), Value::Bool(_)) => true,
        (Value::List(_), Value::List(_)) => true,
        (Value::Null, Value::Null) => true,
        _ => false,
    }
}

/// A double-precision bit pattern is a NaN: all-ones exponent, non-zero fraction.
pub open spec fn float_is_nan(bits: u64) -> bool {
    bits & 0x7ff0_0000_0000_0000u64 == 0x7ff0_0000_0000_0000u64 && bits & 0x000f_ffff_ffff_ffffu64 != 0
}

/// The rank of a double that is not a NaN: such doubles compare as their
/// sign-magnitude integers do, and `+0.0` and `-0.0` share rank zero.
pub open spec fn float_rank(bits: u64) -> int {
    let mag = (bits & 0x7fff_ffff_ffff_ffffu64) as int;
    if bits & 0x8000_0000_0000_0000u64 != 0 {
        -mag
    } else {
        mag
    }
}

/// An ordering operator applied to two numbers.
pub open spec fn compare_holds(op: LeafOperator, a: int, b: int) -> bool {
    match op {
        LeafOperator::Gt => a > b,
        LeafOperator::Gte => a >= b,
        LeafOperator::Lt => a < b,
        LeafOperator::Lte => a <= b,
        _ => false,
    }
}

/// Lexicographic comparison of two strings by character: negative, zero or
/// positive as `a` sorts before, with or after `b`.
pub open spec fn str_cmp(a: Seq<char>, b: Seq<char>) -> int
    decreases a.len(),
{
    if a.len() == 0 && b.len() == 0 {
        0
    } else if a.len() == 0 {
        -1
    } else if b.len() == 0 {
        1
    } else if a[0] < b[0] {
        -1
    } else if a[0] > b[0] {
        1
    } else {
        str_cmp(a.drop_first(), b.drop_first())
    }
}

/// An ordering operator applied to two values: integers compare as integers,
/// floats by value (never when either is a NaN), strings lexicographically by
/// character; other values are unordered.
pub open spec fn ordered_holds(op: LeafOperator, l: Value, r: Value) -> bool {
    match (l, r) {
        (Value::Str(a), Value::Str(b)) => compare_holds(op, str_cmp(a@, b@), 0),
        (Value::Int(a), Value::Int(b)) => compare_holds(op, a as int, b as int),
        (Value::Float(a), Value::Float(b)) => !float_is_nan(a) && !float_is_nan(b) && compare_holds(
            op,
            float_rank(a),
            float_rank(b),
        ),
        _ => false,
    }
}

/// Outcome of a binary operator applied to a present attribute value `l` and a
/// literal `r`.
pub open spec fn binary_holds(op: LeafOperator, l: Value, r: Value) -> bool {
    match op {
        LeafOperator::Eq => value_eq(l, r),
        LeafOperator::Ne => same_tag(l, r) && !value_eq(l, r),
        LeafOperator::Gt | LeafOperator::Gte | LeafOperator::Lt | LeafOperator::Lte => ordered_holds(op, l, r),
        LeafOperator::InList => match r {
            Value::List(xs) => list_has_upto(xs, l, xs.len() as nat),
            _ => false,
        },
        LeafOperator::Exist => true,
    }
}

/// Outcome of one leaf: `Exist` asks only for presence; the other operators are
/// false when the attribute is absent or the literal is missing.
pub open spec fn leaf_holds(
    ctx: MatchContext,
    lhs: Seq<char>,
    op: LeafOperator,
    rhs: Option<Value>,
) -> bool {
    match ctx.spec_get(lhs) {
        None => false,
        Some(l) => if op == LeafOperator::Exist {
            true
        } else {
            match rhs {
                None => false,
                Some(r) => binary_holds(op, l, r),
            }
        },
    }
}

/// Whether condition `c` holds for the WhoAmI `ctx`.
pub open spec fn holds(c: Condition, ctx: MatchContext) -> bool
    decreases c, 0nat,
{
    match c {
        Condition::And(cs) => all_hold_upto(cs, ctx, cs.len() as nat),
        Condition::Or(cs) => any_holds_upto(cs, ctx, cs.len() as nat),
        Condition::Not(inner) => !holds(*inner, ctx),
        Condition::Leaf { lhs, op, rhs } => leaf_holds(ctx, lhs@, op, rhs),
    }
}

/// Every one of the first `n` conditions of `cs` holds.
pub open spec fn all_hold_upto(cs: Vec<Condition>, ctx: MatchContext, n: nat) -> bool
    decreases cs, n,
{
    if n == 0 {
        true
    } else if n > cs.len() {
        false
    } else {
        all_hold_upto(cs, ctx, (n - 1) as nat) && holds(cs[n - 1], ctx)
    }
}

/// Some one of the first `n` conditions of `cs` holds.
pub open spec fn any_holds_upto(cs: Vec<Condition>, ctx: MatchContext, n: nat) -> bool
    decreases cs, n,
{
    if n == 0 || n > cs.len() {
        false
    } else {
        any_holds_upto(cs, ctx, (n - 1) as nat) || holds(cs[n - 1], ctx)
    }
}

/// Lookup in a list of attribute entries: the last entry with the key wins.
pub open spec fn entries_get(entries: Seq<(String, Value)>, k: Seq<char>) -> Option<Value>
    decreases entries.len(),
{
    if entries.len() == 0 {
        None
    } else if entries.last().0@ == k {
        Some(entries.last().1)
    } else {
        entries_get(entries.drop_last(), k)
    }
}

/// The attributes describing who is asking (WhoAmI): a map from identifier to value.
pub struct MatchContext {
    entries: Vec<(String, Value)>,
}

impl MatchContext {
    /// The value bound to `k`, if any.
    pub closed spec fn spec_get(self, k: Seq<char>) -> Option<Value> {
        entries_get(self.entries@, k)
    }

    pub fn new() -> (r: MatchContext)
        ensures
            forall|k: Seq<char>| r.spec_get(k) is None,
    {
        MatchContext { entries: Vec::new() }
    }

    /// Binds `k` to `v`, replacing any earlier binding of `k`.
    pub fn insert(&mut self, k: String, v: Value)
        ensures
            final(self).spec_get(k@) == Some(v),
            forall|x: Seq<char>| x != k@ ==> final(self).spec_get(x) == old(self).spec_get(x),
    {
        let ghost prev = self.entries@;
        self.entries.push((k, v));
        assert(self.entries@.drop_last() == prev);
    }

    pub fn get(&self, k: &str) -> (r: Option<&Value>)
        ensures
            match r {
                Some(v) => self.spec_get(k@) == Some(*v),
                None => self.spec_get(k@) is None,
            },
    {
        let mut i = self.entries.len();
        assert(self.entries@.subrange(0, i as int) == self.entries@);
        while i > 0
            invariant
                i <= self.entries@.len(),
                entries_get(self.entries@, k@) == entries_get(self.entries@.subrange(0, i as int), k@),
            decreases i,
        {
            let ghost pre = self.entries@.subrange(0, i as int);
            assert(pre.drop_last() == self.entries@.subrange(0, i - 1));
            if str_eq(self.entries[i - 1].0.as_str(), k) {
                return Some(&self.entries[i - 1].1);
            }
            i = i - 1;
        }
        None
    }
}

/// Deep equality of two values, as `value_eq` states it.
pub fn values_equal(a: &Value, b: &Value) -> (r: bool)
    ensures
        r == value_eq(*a, *b),
    decreases *a,
{
    match (a, b) {
        (Value::Str(x), Value::Str(y)) => str_eq(x.as_str(), y.as_str()),
        (Value::Int(x), Value::Int(y)) => *x == *y,
        (Value::Float(x), Value::Float(y)) => *x == *y,
        (Value::Bool(x), Value::Bool(y)) => *x == *y,
        (Value::Null, Value::Null) => true,
        (Value::List(xs), Value::List(ys)) => {
            if xs.len() != ys.len() {
                return false;
            }
            let mut i: usize = 0;
            while i < xs.len()
                invariant
                    xs.len() == ys.len(),
                    i <= xs.len(),
                    list_eq_upto(*xs, *ys, i as nat),
                    *a == Value::List(*xs),
                    *b == Value::List(*ys),
                decreases xs.len() - i,
            {
                proof {
                    assert(decreases_to!(*a => (*a)->List_0));
                    assert(decreases_to!(*xs => xs[i as int]));
                }
                if !values_equal(&xs[i], &ys[i]) {
                    proof {
                        lemma_list_eq_fails_from(*xs, *ys, i as nat, xs.len() as nat);
                    }
                    return false;
                }
                i = i + 1;
            }
            true
        },
        _ => false,
    }
}

impl Condition {
    /// Evaluates the condition against the WhoAmI `ctx`.
    pub fn eval(&self, ctx: &MatchContext) -> (r: bool)
        ensures
            r == holds(*self, *ctx),
        decreases *self,
    {
        match self {
            Condition::And(conds) => {
                let mut i: usize = 0;
                while i < conds.len()
                    invariant
                        i <= conds.len(),
                        all_hold_upto(*conds, *ctx, i as nat),
                        *self == Condition::And(*conds),
                    decreases conds.len() - i,
                {
                    proof {
                        assert(decreases_to!(*self => (*self)->And_0));
                        assert(decreases_to!(*conds => conds[i as int]));
                    }
                    if !conds[i].eval(ctx) {
                        proof {
                            lemma_all_hold_fails_from(*conds, *ctx, i as nat, conds.len() as nat);
                        }
                        return false;
                    }
                    i = i + 1;
                }
                true
            },
            Condition::Or(conds) => {
                let mut i: usize = 0;
                while i < conds.len()
                    invariant
                        i <= conds.len(),
                        !any_holds_upto(*conds, *ctx, i as nat),
                        *self == Condition::Or(*conds),
                    decreases conds.len() - i,
                {
                    proof {
                        assert(decreases_to!(*self => (*self)->Or_0));
                        assert(decreases_to!(*conds => conds[i as int]));
                    }
                    if conds[i].eval(ctx) {
                        proof {
                            lemma_any_holds_from(*conds, *ctx, i as nat, conds.len() as nat);
                        }
                        return true;
                    }
                    i = i + 1;
                }
                false
            },
            Condition::Not(cond) => !cond.eval(ctx),
            Condition::Leaf { lhs, op, rhs } => self.eval_leaf(ctx, lhs, op, rhs),
        }
    }

    fn eval_leaf(&self, ctx: &MatchContext, lhs: &String, op: &LeafOperator, rhs: &Option<Value>) -> (r:
        bool)
        ensures
            r == leaf_holds(*ctx, lhs@, *op, *rhs),
    {
        let lhs_value = match ctx.get(lhs.as_str()) {
            Some(v) => v,
            None => return false,
        };
        if *op == LeafOperator::Exist {
            return true;
        }
        let rhs_value = match rhs {
            Some(v) => v,
            None => return false,
        };
        match op {
            LeafOperator::Eq => values_equal(lhs_value, rhs_value),
            LeafOperator::Ne => same_tag_exec(lhs_value, rhs_value) && !values_equal(lhs_value, rhs_value),
            LeafOperator::Gt | LeafOperator::Gte | LeafOperator::Lt | LeafOperator::Lte => ordered(
                *op,
                lhs_value,
                rhs_value,
            ),
            LeafOperator::InList => match rhs_value {
                Value::List(xs) => list_contains(xs, lhs_value),
                _ => false,
            },
            LeafOperator::Exist => true,
        }
    }
}

/// Computes `float_is_nan`.
pub fn float_nan(bits: u64) -> (r: bool)
    ensures
        r == float_is_nan(bits),
{
    bits & 0x7ff0_0000_0000_0000u64 == 0x7ff0_0000_0000_0000u64 && bits & 0x000f_ffff_ffff_ffffu64 != 0
}

/// Computes `float_rank`.
pub fn float_order_rank(bits: u64) -> (r: i64)
    ensures
        r == float_rank(bits),
{
    let m = bits & 0x7fff_ffff_ffff_ffffu64;
    assert(m <= 0x7fff_ffff_ffff_ffffu64) by (bit_vector)
        requires
            m == bits & 0x7fff_ffff_ffff_ffffu64,
    ;
    let mag = m as i64;
    if bits & 0x8000_0000_0000_0000u64 != 0 {
        -mag
    } else {
        mag
    }
}

/// Computes `str_cmp`, as -1, 0 or 1.
pub fn compare_strings(a: &str, b: &str) -> (r: i64)
    ensures
        r == str_cmp(a@, b@),
        -1 <= r <= 1,
{
    let x = chars_of(a);
    let y = chars_of(b);
    let mut i: usize = 0;
    proof {
        assert(x@.skip(0) =~= x@);
        assert(y@.skip(0) =~= y@);
        lemma_str_cmp_range(x@, y@);
    }
    while i < x.len() && i < y.len()
        invariant
            x@ == a@,
            y@ == b@,
            i <= x@.len(),
            i <= y@.len(),
            forall|j: int| 0 <= j < i ==> x@[j] == y@[j],
            str_cmp(a@, b@) == str_cmp(x@.skip(i as int), y@.skip(i as int)),
        decreases x@.len() - i,
    {
        if x[i] < y[i] {
            return -1;
        }
        if x[i] > y[i] {
            return 1;
        }
        assert(x@.skip(i as int).drop_first() =~= x@.skip(i + 1));
        assert(y@.skip(i as int).drop_first() =~= y@.skip(i + 1));
        i = i + 1;
    }
    if x.len() == y.len() {
        0
    } else if i == x.len() {
        -1
    } else {
        1
    }
}

proof fn lemma_str_cmp_range(a: Seq<char>, b: Seq<char>)
    ensures
        -1 <= str_cmp(a, b) <= 1,
    decreases a.len(),
{
    if a.len() > 0 && b.len() > 0 && a[0] == b[0] {
        lemma_str_cmp_range(a.drop_first(), b.drop_first());
    }
}

fn compare(op: LeafOperator, a: i64, b: i64) -> (r: bool)
    ensures
        r == compare_holds(op, a as int, b as int),
{
    match op {
        LeafOperator::Gt => a > b,
        LeafOperator::Gte => a >= b,
        LeafOperator::Lt => a < b,
        LeafOperator::Lte => a <= b,
        _ => false,
    }
}

fn ordered(op: LeafOperator, l: &Value, r: &Value) -> (res: bool)
    ensures
        res == ordered_holds(op, *l, *r),
{
    match (l, r) {
        (Value::Str(a), Value::Str(b)) => compare(op, compare_strings(a.as_str(), b.as_str()), 0),
        (Value::Int(a), Value::Int(b)) => compare(op, *a, *b),
        (Value::Float(a), Value::Float(b)) => !float_nan(*a) && !float_nan(*b) && compare(
            op,
            float_order_rank(*a),
            float_order_rank(*b),
        ),
        _ => false,
    }
}

fn same_tag_exec(a: &Value, b: &Value) -> (r: bool)
    ensures
        r == same_tag(*a, *b),
{
    match (a, b) {
        (Value::Str(_), Value::Str(_)) => true,
        (Value::Int(_), Value::Int(_)) => true,
        (Value::Float(_), Value::Float(_)) => true,
        (Value::Bool(_), Value::Bool(_)) => true,
        (Value::List(_), Value::List(_)) => true,
        (Value::Null, Value::Null) => true,
        _ => false,
    }
}

fn list_contains(xs: &Vec<Value>, v: &Value) -> (r: bool)
    ensures
        r == list_has_upto(*xs, *v, xs.len() as nat),
{
    let mut i: usize = 0;
    while i < xs.len()
        invariant
            i <= xs.len(),
            !list_has_upto(*xs, *v, i as nat),
        decreases xs.len() - i,
    {
        if values_equal(&xs[i], v) {
            proof {
                lemma_value_eq_symmetric(xs[i as int], *v);
                lemma_list_has_from(*xs, *v, i as nat, xs.len() as nat);
            }
            return true;
        }
        proof {
            lemma_value_eq_symmetric(xs[i as int], *v);
        }
        i = i + 1;
    }
    false
}

/// Deep equality is symmetric.
pub proof fn lemma_value_eq_symmetric(a: Value, b: Value)
    ensures
        value_eq(a, b) == value_eq(b, a),
    decreases a,
{
    match (a, b) {
        (Value::List(xs), Value::List(ys)) => {
            if xs.len() == ys.len() {
                lemma_list_eq_symmetric(xs, ys, xs.len() as nat);
            }
        },
        _ => {},
    }
}

proof fn lemma_list_eq_symmetric(xs: Vec<Value>, ys: Vec<Value>, n: nat)
    requires
        n <= xs.len(),
        xs.len() == ys.len(),
    ensures
        list_eq_upto(xs, ys, n) == list_eq_upto(ys, xs, n),
    decreases xs, n,
{
    if n > 0 {
        assert(decreases_to!(xs => xs[n - 1]));
        lemma_list_eq_symmetric(xs, ys, (n - 1) as nat);
        lemma_value_eq_symmetric(xs[n - 1], ys[n - 1]);
    }
}

/// A condition reads the WhoAmI only through its bindings: two contexts that bind
/// every identifier alike give every condition the same outcome.
pub proof fn lemma_holds_same_bindings(c: Condition, a: MatchContext, b: MatchContext)
    requires
        forall|k: Seq<char>| a.spec_get(k) == b.spec_get(k),
    ensures
        holds(c, a) == holds(c, b),
    decreases c, 0nat,
{
    match c {
        Condition::And(cs) => {
            assert(decreases_to!(c => c->And_0));
            lemma_all_hold_same_bindings(cs, a, b, cs.len() as nat);
        },
        Condition::Or(cs) => {
            assert(decreases_to!(c => c->Or_0));
            lemma_any_holds_same_bindings(cs, a, b, cs.len() as nat);
        },
        Condition::Not(inner) => {
            lemma_holds_same_bindings(*inner, a, b);
        },
        Condition::Leaf { lhs, op, rhs } => {
            assert(a.spec_get(lhs@) == b.spec_get(lhs@));
        },
    }
}

proof fn lemma_all_hold_same_bindings(cs: Vec<Condition>, a: MatchContext, b: MatchContext, n: nat)
    requires
        forall|k: Seq<char>| a.spec_get(k) == b.spec_get(k),
    ensures
        all_hold_upto(cs, a, n) == all_hold_upto(cs, b, n),
    decreases cs, n,
{
    if n > 0 && n <= cs.len() {
        assert(decreases_to!(cs => cs[n - 1]));
        lemma_all_hold_same_bindings(cs, a, b, (n - 1) as nat);
        lemma_holds_same_bindings(cs[n - 1], a, b);
    }
}

proof fn lemma_any_holds_same_bindings(cs: Vec<Condition>, a: MatchContext, b: MatchContext, n: nat)
    requires
        forall|k: Seq<char>| a.spec_get(k) == b.spec_get(k),
    ensures
        any_holds_upto(cs, a, n) == any_holds_upto(cs, b, n),
    decreases cs, n,
{
    if n > 0 && n <= cs.len() {
        assert(decreases_to!(cs => cs[n - 1]));
        lemma_any_holds_same_bindings(cs, a, b, (n - 1) as nat);
        lemma_holds_same_bindings(cs[n - 1], a, b);
    }
}

proof fn lemma_list_eq_fails_from(xs: Vec<Value>, ys: Vec<Value>, i: nat, n: nat)
    requires
        i < n <= xs.len(),
        n <= ys.len(),
        !value_eq(xs[i as int], ys[i as int]),
    ensures
        !list_eq_upto(xs, ys, n),
    decreases n,
{
    if n > i + 1 {
        lemma_list_eq_fails_from(xs, ys, i, (n - 1) as nat);
    }
}

proof fn lemma_list_has_from(xs: Vec<Value>, v: Value, i: nat, n: nat)
    requires
        i < n <= xs.len(),
        value_eq(xs[i as int], v),
    ensures
        list_has_upto(xs, v, n),
    decreases n,
{
    if n > i + 1 {
        lemma_list_has_from(xs, v, i, (n - 1) as nat);
    }
}

proof fn lemma_all_hold_fails_from(cs: Vec<Condition>, ctx: MatchContext, i: nat, n: nat)
    requires
        i < n <= cs.len(),
        !holds(cs[i as int], ctx),
    ensures
        !all_hold_upto(cs, ctx, n),
    decreases n,
{
    if n > i + 1 {
        lemma_all_hold_fails_from(cs, ctx, i, (n - 1) as nat);
    }
}

proof fn lemma_any_holds_from(cs: Vec<Condition>, ctx: MatchContext, i: nat, n: nat)
    requires
        i < n <= cs.len(),
        holds(cs[i as int], ctx),
    ensures
        any_holds_upto(cs, ctx, n),
    decreases n,
{
    if n > i + 1 {
        lemma_any_holds_from(cs, ctx, i, (n - 1) as nat);
    }
}

} // verus!
