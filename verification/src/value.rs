//! Runtime values of the expression language and their equality.
use vstd::prelude::*;

use crate::ast::{copy_expr, copy_strings, Expr, ExprModel};
use crate::error::{copy_tag, EvalError, EvalErrorModel, TypeTag, TypeTagModel};
use crate::text::strings_view;
use crate::token::Span;

verus! {

#[derive(Debug, PartialEq)]
pub enum Value {
    Int(i64),
    Bool(bool),
    Str(String),
    Enum { type_id: String, variant: String },
    SetOf(SetValue),
    Interval(Box<IntervalValue>),
    Object(String),
    Unknown,
    Lambda(LambdaValue),
}

#[derive(Debug, PartialEq)]
pub struct SetValue {
    pub elem_type: TypeTag,
    pub elements: Vec<Value>,
}

#[derive(Debug, PartialEq)]
pub struct IntervalValue {
    pub elem_type: TypeTag,
    pub lo: BoundValue,
    pub hi: BoundValue,
}

#[derive(Debug, PartialEq)]
pub enum BoundValue {
    Open(Box<Value>),
    Closed(Box<Value>),
    NegInf,
    PosInf,
}

#[derive(Clone, Debug)]
pub struct EnumInfo {
    pub type_id: String,
    pub variants: Vec<String>,
    pub aliases: Vec<(String, String)>,
}

#[derive(Clone, Copy, Debug)]
pub enum OrderKind {
    StrictWeak,
    Total,
}

/// A named order on the values of a type; the comparison itself is `Env::order_cmp`.
#[derive(Clone, Debug)]
pub struct OrderInfo {
    pub order_id: String,
    pub type_id: String,
    pub kind: OrderKind,
}

/// A semiring; its operations are `Env::semiring_oplus` and `Env::semiring_otimes`.
#[derive(Debug)]
pub struct SemiringOps {
    pub name: String,
    pub zero: Value,
    pub one: Value,
    pub idempotent_oplus: bool,
    pub commutative_otimes: bool,
}

/// A lattice on a type; its operations are `Env::lattice_meet` and `Env::lattice_join`.
#[derive(Debug)]
pub struct LatticeOps {
    pub type_id: String,
    pub has_top: bool,
    pub has_bottom: bool,
    pub top: Option<Value>,
    pub bottom: Option<Value>,
}

/// A lambda: parameters, body, and the values of its free names when it was built.
#[derive(Debug, PartialEq)]
pub struct LambdaValue {
    pub params: Vec<String>,
    pub body: Box<Expr>,
    pub captures: Vec<(String, Value)>,
}

// ---------- Mathematical form ----------

pub enum ValueModel {
    Int(i64),
    Bool(bool),
    Str(Seq<char>),
    Enum { type_id: Seq<char>, variant: Seq<char> },
    SetOf { elem_type: TypeTagModel, elements: Seq<ValueModel> },
    Interval { elem_type: TypeTagModel, lo: BoundValueModel, hi: BoundValueModel },
    Object(Seq<char>),
    Unknown,
    Lambda { params: Seq<Seq<char>>, body: ExprModel, captures: Seq<(Seq<char>, ValueModel)> },
}

pub enum BoundValueModel {
    Open(Box<ValueModel>),
    Closed(Box<ValueModel>),
    NegInf,
    PosInf,
}

pub open spec fn value_model(v: Value) -> ValueModel
    decreases v, 0nat,
{
    match v {
        Value::Int(n) => ValueModel::Int(n),
        Value::Bool(b) => ValueModel::Bool(b),
        Value::Str(s) => ValueModel::Str(s@),
        Value::Enum { type_id, variant } => ValueModel::Enum { type_id: type_id@, variant: variant@ },
        Value::SetOf(s) => ValueModel::SetOf { elem_type: s.elem_type@, elements: values_model(s.elements@) },
        Value::Interval(iv) => ValueModel::Interval {
            elem_type: iv.elem_type@,
            lo: bound_value_model(iv.lo),
            hi: bound_value_model(iv.hi),
        },
        Value::Object(s) => ValueModel::Object(s@),
        Value::Unknown => ValueModel::Unknown,
        Value::Lambda(l) => ValueModel::Lambda {
            params: strings_view(l.params@),
            body: l.body@,
            captures: captures_model(l.captures@),
        },
    }
}

pub open spec fn bound_value_model(b: BoundValue) -> BoundValueModel
    decreases b, 0nat,
{
    match b {
        BoundValue::Open(v) => BoundValueModel::Open(Box::new(value_model(*v))),
        BoundValue::Closed(v) => BoundValueModel::Closed(Box::new(value_model(*v))),
        BoundValue::NegInf => BoundValueModel::NegInf,
        BoundValue::PosInf => BoundValueModel::PosInf,
    }
}

pub open spec fn values_model(s: Seq<Value>) -> Seq<ValueModel>
    decreases s, s.len(),
{
    if s.len() == 0 {
        Seq::empty()
    } else {
        values_model(s.subrange(0, s.len() - 1)).push(value_model(s[s.len() - 1]))
    }
}

pub open spec fn captures_model(s: Seq<(String, Value)>) -> Seq<(Seq<char>, ValueModel)>
    decreases s, s.len(),
{
    if s.len() == 0 {
        Seq::empty()
    } else {
        captures_model(s.subrange(0, s.len() - 1)).push((s[s.len() - 1].0@, value_model(s[s.len() - 1].1)))
    }
}

impl View for Value {
    type V = ValueModel;

    open spec fn view(&self) -> ValueModel {
        value_model(*self)
    }
}

impl View for BoundValue {
    type V = BoundValueModel;

    open spec fn view(&self) -> BoundValueModel {
        bound_value_model(*self)
    }
}

pub proof fn lemma_values_model(s: Seq<Value>)
    ensures
        values_model(s).len() == s.len(),
        forall|i: int| 0 <= i < s.len() ==> #[trigger] values_model(s)[i] == value_model(s[i]),
    decreases s.len(),
{
    if s.len() > 0 {
        lemma_values_model(s.subrange(0, s.len() - 1));
    }
}

pub proof fn lemma_values_model_push(s: Seq<Value>, v: Value)
    ensures
        values_model(s.push(v)) == values_model(s).push(value_model(v)),
{
    assert(s.push(v).subrange(0, s.len() as int) =~= s);
}

pub proof fn lemma_captures_model(s: Seq<(String, Value)>)
    ensures
        captures_model(s).len() == s.len(),
        forall|i: int| 0 <= i < s.len() ==> #[trigger] captures_model(s)[i] == (s[i].0@, value_model(s[i].1)),
    decreases s.len(),
{
    if s.len() > 0 {
        lemma_captures_model(s.subrange(0, s.len() - 1));
    }
}

pub proof fn lemma_captures_model_push(s: Seq<(String, Value)>, c: (String, Value))
    ensures
        captures_model(s.push(c)) == captures_model(s).push((c.0@, value_model(c.1))),
{
    assert(s.push(c).subrange(0, s.len() as int) =~= s);
}

/// The type tag of a value.
pub open spec fn tag_of(v: ValueModel) -> TypeTagModel {
    match v {
        ValueModel::Int(_) => TypeTagModel::Int,
        ValueModel::Bool(_) => TypeTagModel::Bool,
        ValueModel::Str(_) => TypeTagModel::Str,
        ValueModel::Enum { type_id, .. } => TypeTagModel::Enum(type_id),
        ValueModel::SetOf { elem_type, .. } => TypeTagModel::SetOf(Box::new(elem_type)),
        ValueModel::Interval { elem_type, .. } => TypeTagModel::Interval(Box::new(elem_type)),
        ValueModel::Object(_) => TypeTagModel::Unknown,
        ValueModel::Unknown => TypeTagModel::Unknown,
        ValueModel::Lambda { .. } => TypeTagModel::Lambda,
    }
}

// ---------- Equality of values ----------

pub open spec fn no_span() -> Span {
    Span { start: 0, end: 0 }
}

pub open spec fn vsize(v: ValueModel) -> nat
    decreases v, 0nat,
{
    match v {
        ValueModel::SetOf { elements, .. } => 1 + vsizes(elements),
        _ => 1,
    }
}

pub open spec fn vsizes(s: Seq<ValueModel>) -> nat
    decreases s, s.len(),
{
    if s.len() == 0 {
        0
    } else {
        vsizes(s.subrange(0, s.len() - 1)) + vsize(s[s.len() - 1])
    }
}

pub proof fn lemma_vsizes_elem(s: Seq<ValueModel>, i: int)
    requires
        0 <= i < s.len(),
    ensures
        vsize(s[i]) <= vsizes(s),
    decreases s.len(),
{
    if i < s.len() - 1 {
        lemma_vsizes_elem(s.subrange(0, s.len() - 1), i);
    }
}

/// Equality of values: numbers, booleans, strings and variants of one enum compare by value;
/// sets compare as sets; other pairs are not comparable.
pub open spec fn values_equal(a: ValueModel, b: ValueModel) -> Result<bool, EvalErrorModel>
    decreases vsize(a) + vsize(b), 0nat, 0nat,
{
    match (a, b) {
        (ValueModel::Int(x), ValueModel::Int(y)) => Ok(x == y),
        (ValueModel::Bool(x), ValueModel::Bool(y)) => Ok(x == y),
        (ValueModel::Str(x), ValueModel::Str(y)) => Ok(x == y),
        (ValueModel::Enum { type_id: ta, variant: va }, ValueModel::Enum { type_id: tb, variant: vb }) =>
            if ta != tb {
                Err(EvalErrorModel::EqMismatch {
                    left_ty: TypeTagModel::Enum(ta),
                    right_ty: TypeTagModel::Enum(tb),
                    span: no_span(),
                })
            } else {
                Ok(va == vb)
            },
        (ValueModel::SetOf { elements: ea, .. }, ValueModel::SetOf { elements: eb, .. }) =>
            if ea.len() != eb.len() {
                Ok(false)
            } else {
                all_contained(ea, 0, eb)
            },
        _ => Err(EvalErrorModel::EqMismatch { left_ty: tag_of(a), right_ty: tag_of(b), span: no_span() }),
    }
}

/// Whether every element of `ea[i..]` equals some element of `eb`.
pub open spec fn all_contained(ea: Seq<ValueModel>, i: int, eb: Seq<ValueModel>) -> Result<bool, EvalErrorModel>
    decreases vsizes(ea) + vsizes(eb), 2nat, ea.len() - i,
{
    if i < 0 || i >= ea.len() {
        Ok(true)
    } else {
        proof {
            lemma_vsizes_elem(ea, i);
        }
        match contained_from(eb, 0, ea[i]) {
            Err(e) => Err(e),
            Ok(false) => Ok(false),
            Ok(true) => all_contained(ea, i + 1, eb),
        }
    }
}

/// Whether some element of `hay[j..]` equals `needle`, each compared as `values_equal(element, needle)`.
pub open spec fn contained_from(hay: Seq<ValueModel>, j: int, needle: ValueModel) -> Result<bool, EvalErrorModel>
    decreases vsizes(hay) + vsize(needle), 1nat, hay.len() - j,
{
    if j < 0 || j >= hay.len() {
        Ok(false)
    } else {
        proof {
            lemma_vsizes_elem(hay, j);
        }
        match values_equal(hay[j], needle) {
            Err(e) => Err(e),
            Ok(true) => Ok(true),
            Ok(false) => contained_from(hay, j + 1, needle),
        }
    }
}

pub open spec fn contains_model(hay: Seq<ValueModel>, needle: ValueModel) -> Result<bool, EvalErrorModel> {
    contained_from(hay, 0, needle)
}

pub open spec fn err_model<T>(r: Result<T, EvalError>) -> Result<T, EvalErrorModel> {
    match r {
        Ok(x) => Ok(x),
        Err(e) => Err(e@),
    }
}

impl Value {
    pub fn type_tag(&self) -> (r: TypeTag)
        ensures
            r@ == tag_of(self@),
    {
        match self {
            Value::Int(_) => TypeTag::Int,
            Value::Bool(_) => TypeTag::Bool,
            Value::Str(_) => TypeTag::Str,
            Value::Enum { type_id, .. } => TypeTag::Enum(type_id.clone()),
            Value::SetOf(set) => TypeTag::set(copy_tag(&set.elem_type)),
            Value::Interval(interval) => TypeTag::interval(copy_tag(&interval.elem_type)),
            Value::Object(_) => TypeTag::Unknown,
            Value::Unknown => TypeTag::Unknown,
            Value::Lambda(_) => TypeTag::Lambda,
        }
    }
}

/// Compares two values for equality; pairs that are not comparable give `EqMismatch`.
pub fn value_eq(lhs: &Value, rhs: &Value) -> (r: Result<bool, EvalError>)
    ensures
        err_model(r) == values_equal(lhs@, rhs@),
    decreases vsize(lhs@) + vsize(rhs@), 1nat, 0nat,
{
    match (lhs, rhs) {
        (Value::Int(a), Value::Int(b)) => Ok(*a == *b),
        (Value::Bool(a), Value::Bool(b)) => Ok(*a == *b),
        (Value::Str(a), Value::Str(b)) => Ok(*a == *b),
        (
            Value::Enum { type_id: ty_a, variant: var_a },
            Value::Enum { type_id: ty_b, variant: var_b },
        ) => {
            if *ty_a != *ty_b {
                Err(EvalError::EqMismatch {
                    left_ty: TypeTag::Enum(ty_a.clone()),
                    right_ty: TypeTag::Enum(ty_b.clone()),
                    span: Span { start: 0, end: 0 },
                })
            } else {
                Ok(*var_a == *var_b)
            }
        },
        (Value::SetOf(a), Value::SetOf(b)) => {
            proof {
                lemma_values_model(a.elements@);
                lemma_values_model(b.elements@);
            }
            if a.elements.len() != b.elements.len() {
                return Ok(false);
            }
            let ghost ea = values_model(a.elements@);
            let ghost eb = values_model(b.elements@);
            let mut i: usize = 0;
            while i < a.elements.len()
                invariant
                    i <= a.elements@.len(),
                    ea == values_model(a.elements@),
                    eb == values_model(b.elements@),
                    ea.len() == a.elements@.len(),
                    eb.len() == b.elements@.len(),
                    forall|k: int| 0 <= k < a.elements@.len() ==> #[trigger] ea[k] == value_model(a.elements@[k]),
                    vsizes(ea) + vsizes(eb) < vsize(lhs@) + vsize(rhs@),
                    all_contained(ea, 0, eb) == all_contained(ea, i as int, eb),
                    values_equal(lhs@, rhs@) == all_contained(ea, 0, eb),
                decreases a.elements@.len() - i,
            {
                proof {
                    lemma_vsizes_elem(ea, i as int);
                }
                let found = contains_value_in(b.elements.as_slice(), &a.elements[i], Ghost(vsize(lhs@) + vsize(rhs@)));
                proof {
                    assert(ea[i as int] == value_model(a.elements@[i as int]));
                    assert(all_contained(ea, i as int, eb) == match contained_from(eb, 0, ea[i as int]) {
                        Err(e) => Err(e),
                        Ok(false) => Ok(false),
                        Ok(true) => all_contained(ea, i + 1, eb),
                    });
                }
                match found {
                    Err(e) => {
                        return Err(e);
                    },
                    Ok(false) => {
                        return Ok(false);
                    },
                    Ok(true) => {},
                }
                i = i + 1;
            }
            Ok(true)
        },
        (a, b) => Err(EvalError::EqMismatch {
            left_ty: a.type_tag(),
            right_ty: b.type_tag(),
            span: Span { start: 0, end: 0 },
        }),
    }
}

/// `contains_value` with the size bound that measures the recursion through `value_eq`.
fn contains_value_in(haystack: &[Value], needle: &Value, Ghost(bound): Ghost<nat>) -> (r: Result<bool, EvalError>)
    requires
        vsizes(values_model(haystack@)) + vsize(needle@) < bound,
    ensures
        err_model(r) == contains_model(values_model(haystack@), needle@),
    decreases bound, 0nat, 0nat,
{
    let ghost hay = values_model(haystack@);
    proof {
        lemma_values_model(haystack@);
    }
    let mut j: usize = 0;
    while j < haystack.len()
        invariant
            j <= haystack@.len(),
            hay == values_model(haystack@),
            hay.len() == haystack@.len(),
            forall|k: int| 0 <= k < haystack@.len() ==> #[trigger] hay[k] == value_model(haystack@[k]),
            vsizes(hay) + vsize(needle@) < bound,
            contains_model(hay, needle@) == contained_from(hay, j as int, needle@),
        decreases haystack@.len() - j,
    {
        proof {
            lemma_vsizes_elem(hay, j as int);
        }
        match value_eq(&haystack[j], needle) {
            Err(e) => {
                return Err(e);
            },
            Ok(true) => {
                return Ok(true);
            },
            Ok(false) => {},
        }
        j = j + 1;
    }
    Ok(false)
}

/// Whether some element of `haystack` equals `needle`, comparing each element with `value_eq`.
pub fn contains_value(haystack: &[Value], needle: &Value) -> (r: Result<bool, EvalError>)
    ensures
        err_model(r) == contains_model(values_model(haystack@), needle@),
{
    contains_value_in(haystack, needle, Ghost(vsizes(values_model(haystack@)) + vsize(needle@) + 1))
}

} // verus!

verus! {

// ---------- Copies ----------

pub fn copy_values(v: &[Value]) -> (r: Vec<Value>)
    ensures
        values_model(r@) == values_model(v@),
    decreases v@,
{
    let mut r: Vec<Value> = Vec::new();
    let mut i: usize = 0;
    while i < v.len()
        invariant
            i <= v@.len(),
            values_model(r@) == values_model(v@.take(i as int)),
        decreases v@.len() - i,
    {
        let c = copy_value(&v[i]);
        proof {
            lemma_values_model_push(r@, c);
            lemma_values_model_push(v@.take(i as int), v@[i as int]);
            assert(v@.take(i as int + 1) =~= v@.take(i as int).push(v@[i as int]));
        }
        r.push(c);
        i = i + 1;
    }
    assert(v@.take(i as int) =~= v@);
    r
}

pub fn copy_captures(v: &Vec<(String, Value)>) -> (r: Vec<(String, Value)>)
    ensures
        captures_model(r@) == captures_model(v@),
    decreases v@,
{
    let mut r: Vec<(String, Value)> = Vec::new();
    let mut i: usize = 0;
    while i < v.len()
        invariant
            i <= v@.len(),
            captures_model(r@) == captures_model(v@.take(i as int)),
        decreases v@.len() - i,
    {
        let c = (v[i].0.clone(), copy_value(&v[i].1));
        proof {
            lemma_captures_model_push(r@, c);
            lemma_captures_model_push(v@.take(i as int), v@[i as int]);
            assert(v@.take(i as int + 1) =~= v@.take(i as int).push(v@[i as int]));
        }
        r.push(c);
        i = i + 1;
    }
    assert(v@.take(i as int) =~= v@);
    r
}

pub fn copy_bound_value(b: &BoundValue) -> (r: BoundValue)
    ensures
        r@ == b@,
    decreases b,
{
    match b {
        BoundValue::Open(v) => BoundValue::Open(Box::new(copy_value(v))),
        BoundValue::Closed(v) => BoundValue::Closed(Box::new(copy_value(v))),
        BoundValue::NegInf => BoundValue::NegInf,
        BoundValue::PosInf => BoundValue::PosInf,
    }
}

pub fn copy_lambda(l: &LambdaValue) -> (r: LambdaValue)
    ensures
        value_model(Value::Lambda(r)) == value_model(Value::Lambda(*l)),
    decreases l,
{
    LambdaValue {
        params: copy_strings(&l.params),
        body: Box::new(copy_expr(&l.body)),
        captures: copy_captures(&l.captures),
    }
}

/// A copy of a value.
pub fn copy_value(v: &Value) -> (r: Value)
    ensures
        r@ == v@,
    decreases v,
{
    match v {
        Value::Int(n) => Value::Int(*n),
        Value::Bool(b) => Value::Bool(*b),
        Value::Str(s) => Value::Str(s.clone()),
        Value::Enum { type_id, variant } => Value::Enum { type_id: type_id.clone(), variant: variant.clone() },
        Value::SetOf(s) => Value::SetOf(SetValue { elem_type: copy_tag(&s.elem_type), elements: copy_values(s.elements.as_slice()) }),
        Value::Interval(iv) => Value::Interval(Box::new(IntervalValue {
            elem_type: copy_tag(&iv.elem_type),
            lo: copy_bound_value(&iv.lo),
            hi: copy_bound_value(&iv.hi),
        })),
        Value::Object(s) => Value::Object(s.clone()),
        Value::Unknown => Value::Unknown,
        Value::Lambda(l) => Value::Lambda(copy_lambda(l)),
    }
}

impl Clone for Value {
    fn clone(&self) -> (r: Self)
        ensures
            r@ == self@,
    {
        copy_value(self)
    }
}

impl Clone for SetValue {
    fn clone(&self) -> (r: Self)
        ensures
            r.elem_type == self.elem_type,
            values_model(r.elements@) == values_model(self.elements@),
    {
        SetValue { elem_type: copy_tag(&self.elem_type), elements: copy_values(self.elements.as_slice()) }
    }
}

impl Clone for IntervalValue {
    fn clone(&self) -> (r: Self)
        ensures
            r.elem_type == self.elem_type,
            r.lo@ == self.lo@,
            r.hi@ == self.hi@,
    {
        IntervalValue {
            elem_type: copy_tag(&self.elem_type),
            lo: copy_bound_value(&self.lo),
            hi: copy_bound_value(&self.hi),
        }
    }
}

impl Clone for BoundValue {
    fn clone(&self) -> (r: Self)
        ensures
            r@ == self@,
    {
        copy_bound_value(self)
    }
}

impl Clone for LambdaValue {
    fn clone(&self) -> (r: Self)
        ensures
            value_model(Value::Lambda(r)) == value_model(Value::Lambda(*self)),
    {
        copy_lambda(self)
    }
}

impl Clone for SemiringOps {
    fn clone(&self) -> (r: Self)
        ensures
            r.name@ == self.name@,
            r.zero@ == self.zero@,
            r.one@ == self.one@,
            r.idempotent_oplus == self.idempotent_oplus,
            r.commutative_otimes == self.commutative_otimes,
    {
        SemiringOps {
            name: self.name.clone(),
            zero: copy_value(&self.zero),
            one: copy_value(&self.one),
            idempotent_oplus: self.idempotent_oplus,
            commutative_otimes: self.commutative_otimes,
        }
    }
}

impl Clone for LatticeOps {
    fn clone(&self) -> (r: Self)
        ensures
            r.type_id@ == self.type_id@,
            r.has_top == self.has_top,
            r.has_bottom == self.has_bottom,
            crate::runtime::opt_value_model(r.top) == crate::runtime::opt_value_model(self.top),
            crate::runtime::opt_value_model(r.bottom) == crate::runtime::opt_value_model(self.bottom),
    {
        LatticeOps {
            type_id: self.type_id.clone(),
            has_top: self.has_top,
            has_bottom: self.has_bottom,
            top: match &self.top {
                Some(v) => Some(copy_value(v)),
                None => None,
            },
            bottom: match &self.bottom {
                Some(v) => Some(copy_value(v)),
                None => None,
            },
        }
    }
}

} // verus!
