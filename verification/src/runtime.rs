//! The environment that an evaluation consults, and the model of what it answers.
use vstd::prelude::*;

use crate::error::{EvalError, EvalErrorModel, TypeTag};
use crate::text::strings_view;
use crate::token::Span;
use crate::value::{EnumInfo, LatticeOps, OrderInfo, OrderKind, SemiringOps, Value, ValueModel};

verus! {

/// The result of comparing two values in an order.
#[derive(Clone, Copy, Debug, PartialEq, Eq)]
pub enum Comparison {
    Less,
    Equal,
    Greater,
}

/// What an evaluation asks of its surroundings: names, fields, enum types, orders, semirings,
/// lattices and finite collections, and the operations of orders, semirings and lattices.
///
/// `answers` relates each question to the answers the environment gives to it; every method
/// that an evaluation calls ensures that its answer is related to its question, so what an
/// evaluation records of its exchanges is what it asked and what it was answered. Unless an
/// implementation says more, every answer is related.
pub trait Env {
    /// Whether `a` is an answer this environment gives to the question `q`.
    open spec fn answers(&self, q: EnvQuery, a: EnvAnswer) -> bool {
        true
    }

    fn get_ident(&self, name: &str) -> (r: Option<Value>)
        ensures
            self.answers(EnvQuery::Ident(name@), EnvAnswer::Value(opt_value_model(r))),
    ;

    fn get_field(&self, base: &Value, field: &str) -> (r: Option<Value>)
        ensures
            self.answers(EnvQuery::Field(base@, field@), EnvAnswer::Value(opt_value_model(r))),
    ;

    fn enum_info(&self, type_id: &str) -> (r: Option<EnumInfo>)
        ensures
            self.answers(EnvQuery::EnumInfo(type_id@), EnvAnswer::EnumInfo(opt_view(r))),
    ;

    fn default_order(&self, type_id: &str) -> (r: Option<OrderInfo>)
        ensures
            self.answers(EnvQuery::DefaultOrder(type_id@), EnvAnswer::Order(opt_view(r))),
    ;

    fn named_order(&self, order_id: &str) -> Option<OrderInfo>;

    fn semiring(&self, name: &str) -> (r: Option<SemiringOps>)
        ensures
            self.answers(EnvQuery::Semiring(name@), EnvAnswer::Semiring(opt_view(r))),
    ;

    fn lattice_ops(&self, type_id: &str) -> (r: Option<LatticeOps>)
        ensures
            self.answers(EnvQuery::Lattice(type_id@), EnvAnswer::Lattice(opt_view(r))),
    ;

    fn capture_snapshot(&self) -> (r: Vec<(String, Value)>)
        default_ensures
            r@ == Seq::<(String, Value)>::empty(),
    {
        Vec::new()
    }

    fn current_semiring(&self) -> (r: Option<SemiringOps>)
        ensures
            self.answers(EnvQuery::CurrentSemiring, EnvAnswer::Semiring(opt_view(r))),
    ;

    /// The items of the finite collection `name`.
    fn finite_set(&self, name: &str) -> (r: Option<Vec<Value>>)
        ensures
            self.answers(EnvQuery::FiniteSet(name@), EnvAnswer::Collection(opt_values_model(r))),
    ;

    /// Compares two values in the given order.
    fn order_cmp(&self, order: &OrderInfo, a: &Value, b: &Value) -> (r: Comparison)
        ensures
            self.answers(EnvQuery::Compare(order@, a@, b@), EnvAnswer::Compare(r)),
    ;

    /// The semiring's addition.
    fn semiring_oplus(&self, ops: &SemiringOps, a: &Value, b: &Value) -> (r: Result<Value, EvalError>)
        ensures
            self.answers(EnvQuery::Oplus(ops@, a@, b@), EnvAnswer::Op(value_res(r))),
    ;

    /// The semiring's multiplication.
    fn semiring_otimes(&self, _ops: &SemiringOps, _a: &Value, _b: &Value) -> (r: Result<Value, EvalError>)
        default_ensures
            r == Err::<Value, EvalError>(EvalError::SemiringMissing { span: Span { start: 0, end: 0 } }),
    {
        Err(EvalError::SemiringMissing { span: Span { start: 0, end: 0 } })
    }

    /// The lattice's meet.
    fn lattice_meet(&self, ops: &LatticeOps, a: &Value, b: &Value) -> (r: Result<Value, EvalError>)
        ensures
            self.answers(EnvQuery::Meet(ops@, a@, b@), EnvAnswer::Op(value_res(r))),
    ;

    /// The lattice's join.
    fn lattice_join(&self, ops: &LatticeOps, a: &Value, b: &Value) -> (r: Result<Value, EvalError>)
        ensures
            self.answers(EnvQuery::Join(ops@, a@, b@), EnvAnswer::Op(value_res(r))),
    ;
}

/// A result as a model.
pub open spec fn value_res(r: Result<Value, EvalError>) -> Result<ValueModel, EvalErrorModel> {
    match r {
        Ok(v) => Ok(v@),
        Err(e) => Err(e@),
    }
}

pub open spec fn opt_values_model(o: Option<Vec<Value>>) -> Option<Seq<ValueModel>> {
    match o {
        Some(v) => Some(crate::value::values_model(v@)),
        None => None,
    }
}

/// Every reply of `t` is an answer that `env` gives to the reply's question.
pub open spec fn answered<E: Env>(env: &E, t: Seq<EnvReply>) -> bool {
    forall|i: int| 0 <= i < t.len() ==> #[trigger] env.answers(t[i].query, t[i].answer)
}

/// No exchanges followed by `rest` are `rest`.
pub broadcast proof fn lemma_empty_prefix(rest: Seq<EnvReply>)
    ensures
        #[trigger] (Seq::<EnvReply>::empty() + rest) == rest,
{
    assert(Seq::<EnvReply>::empty() + rest =~= rest);
}

/// Exchanges that `env` answered, followed by more that it answered, are all answered.
pub broadcast proof fn lemma_answered_concat<E: Env>(env: &E, a: Seq<EnvReply>, b: Seq<EnvReply>)
    ensures
        (answered(env, a) && answered(env, b)) ==> #[trigger] answered(env, a + b),
{
    if answered(env, a) && answered(env, b) {
        assert forall|i: int| 0 <= i < (a + b).len() implies #[trigger] env.answers((a + b)[i].query, (a + b)[i].answer) by {
            if i < a.len() {
                assert((a + b)[i] == a[i]);
            } else {
                assert((a + b)[i] == b[i - a.len()]);
            }
        }
    }
}

// ---------- Models of what the environment hands back ----------

pub struct EnumInfoModel {
    pub type_id: Seq<char>,
    pub variants: Seq<Seq<char>>,
    pub aliases: Seq<(Seq<char>, Seq<char>)>,
}

pub struct OrderInfoModel {
    pub order_id: Seq<char>,
    pub type_id: Seq<char>,
    pub kind: OrderKind,
}

pub struct SemiringModel {
    pub name: Seq<char>,
    pub zero: ValueModel,
    pub one: ValueModel,
    pub idempotent_oplus: bool,
    pub commutative_otimes: bool,
}

pub struct LatticeModel {
    pub type_id: Seq<char>,
    pub has_top: bool,
    pub has_bottom: bool,
    pub top: Option<ValueModel>,
    pub bottom: Option<ValueModel>,
}

pub open spec fn alias_pairs(s: Seq<(String, String)>) -> Seq<(Seq<char>, Seq<char>)> {
    s.map_values(|p: (String, String)| (p.0@, p.1@))
}

impl View for EnumInfo {
    type V = EnumInfoModel;

    open spec fn view(&self) -> EnumInfoModel {
        EnumInfoModel {
            type_id: self.type_id@,
            variants: strings_view(self.variants@),
            aliases: alias_pairs(self.aliases@),
        }
    }
}

impl View for OrderInfo {
    type V = OrderInfoModel;

    open spec fn view(&self) -> OrderInfoModel {
        OrderInfoModel { order_id: self.order_id@, type_id: self.type_id@, kind: self.kind }
    }
}

impl View for SemiringOps {
    type V = SemiringModel;

    open spec fn view(&self) -> SemiringModel {
        SemiringModel {
            name: self.name@,
            zero: self.zero@,
            one: self.one@,
            idempotent_oplus: self.idempotent_oplus,
            commutative_otimes: self.commutative_otimes,
        }
    }
}

pub open spec fn opt_view<T: View>(o: Option<T>) -> Option<T::V> {
    match o {
        Some(x) => Some(x@),
        None => None,
    }
}

pub open spec fn opt_value_model(v: Option<Value>) -> Option<ValueModel> {
    match v {
        Some(x) => Some(x@),
        None => None,
    }
}

impl View for LatticeOps {
    type V = LatticeModel;

    open spec fn view(&self) -> LatticeModel {
        LatticeModel {
            type_id: self.type_id@,
            has_top: self.has_top,
            has_bottom: self.has_bottom,
            top: opt_value_model(self.top),
            bottom: opt_value_model(self.bottom),
        }
    }
}

/// A question that an evaluation asks of its environment, with the arguments handed over.
pub enum EnvQuery {
    /// `get_ident(name)`.
    Ident(Seq<char>),
    /// `get_field(base, field)`.
    Field(ValueModel, Seq<char>),
    /// `enum_info(type_id)`.
    EnumInfo(Seq<char>),
    /// `default_order(type_id)`.
    DefaultOrder(Seq<char>),
    /// `order_cmp(order, a, b)`.
    Compare(OrderInfoModel, ValueModel, ValueModel),
    /// `semiring(name)`.
    Semiring(Seq<char>),
    /// `current_semiring()`.
    CurrentSemiring,
    /// `lattice_ops(type_id)`.
    Lattice(Seq<char>),
    /// `lattice_meet(ops, a, b)`.
    Meet(LatticeModel, ValueModel, ValueModel),
    /// `lattice_join(ops, a, b)`.
    Join(LatticeModel, ValueModel, ValueModel),
    /// `semiring_oplus(ops, a, b)`.
    Oplus(SemiringModel, ValueModel, ValueModel),
    /// `finite_set(name)`.
    FiniteSet(Seq<char>),
}

/// What the environment answered.
pub enum EnvAnswer {
    /// From `get_ident` or `get_field`.
    Value(Option<ValueModel>),
    /// From `enum_info`.
    EnumInfo(Option<EnumInfoModel>),
    /// From `default_order`.
    Order(Option<OrderInfoModel>),
    /// From `order_cmp`.
    Compare(Comparison),
    /// From `semiring` or `current_semiring`.
    Semiring(Option<SemiringModel>),
    /// From `lattice_ops`.
    Lattice(Option<LatticeModel>),
    /// From `semiring_oplus`, `lattice_meet` or `lattice_join`.
    Op(Result<ValueModel, EvalErrorModel>),
    /// From `finite_set`.
    Collection(Option<Seq<ValueModel>>),
}

/// One exchange with the environment: the question asked and the answer received.
pub struct EnvReply {
    pub query: EnvQuery,
    pub answer: EnvAnswer,
}

/// The replies after the first one, when the first one answers `q`. A reply to another
/// question, or none at all, leaves nothing to read: evaluation that asks `q` there cannot
/// give back the replies that follow.
pub open spec fn later(q: EnvQuery, t: Seq<EnvReply>) -> Seq<EnvReply> {
    if t.len() > 0 && t[0].query == q {
        t.subrange(1, t.len() as int)
    } else {
        Seq::empty()
    }
}

/// The answer of the first reply when it answers `q`.
pub open spec fn answer_to(q: EnvQuery, t: Seq<EnvReply>) -> Option<EnvAnswer> {
    if t.len() > 0 && t[0].query == q {
        Some(t[0].answer)
    } else {
        None
    }
}

// Each reading takes the first reply as the answer to the question `q`; a reply to another
// question, of another kind, or no reply, reads as the answer that the environment gives by
// default.

pub open spec fn read_value(q: EnvQuery, t: Seq<EnvReply>) -> Option<ValueModel> {
    match answer_to(q, t) {
        Some(EnvAnswer::Value(v)) => v,
        _ => None,
    }
}

pub open spec fn read_enum_info(q: EnvQuery, t: Seq<EnvReply>) -> Option<EnumInfoModel> {
    match answer_to(q, t) {
        Some(EnvAnswer::EnumInfo(v)) => v,
        _ => None,
    }
}

pub open spec fn read_order(q: EnvQuery, t: Seq<EnvReply>) -> Option<OrderInfoModel> {
    match answer_to(q, t) {
        Some(EnvAnswer::Order(v)) => v,
        _ => None,
    }
}

pub open spec fn read_compare(q: EnvQuery, t: Seq<EnvReply>) -> Option<Comparison> {
    match answer_to(q, t) {
        Some(EnvAnswer::Compare(v)) => Some(v),
        _ => None,
    }
}

pub open spec fn read_semiring(q: EnvQuery, t: Seq<EnvReply>) -> Option<SemiringModel> {
    match answer_to(q, t) {
        Some(EnvAnswer::Semiring(v)) => v,
        _ => None,
    }
}

pub open spec fn read_lattice(q: EnvQuery, t: Seq<EnvReply>) -> Option<LatticeModel> {
    match answer_to(q, t) {
        Some(EnvAnswer::Lattice(v)) => v,
        _ => None,
    }
}

pub open spec fn default_op_reply() -> Result<ValueModel, EvalErrorModel> {
    Err(EvalErrorModel::SemiringMissing { span: Span { start: 0, end: 0 } })
}

pub open spec fn read_op(q: EnvQuery, t: Seq<EnvReply>) -> Result<ValueModel, EvalErrorModel> {
    match answer_to(q, t) {
        Some(EnvAnswer::Op(v)) => v,
        _ => default_op_reply(),
    }
}

pub open spec fn read_collection(q: EnvQuery, t: Seq<EnvReply>) -> Option<Seq<ValueModel>> {
    match answer_to(q, t) {
        Some(EnvAnswer::Collection(v)) => v,
        _ => None,
    }
}

pub proof fn lemma_later_one(r: EnvReply, rest: Seq<EnvReply>)
    ensures
        later(r.query, seq![r] + rest) == rest,
        (seq![r] + rest)[0] == r,
{
    assert(later(r.query, seq![r] + rest) =~= rest);
}

} // verus!
