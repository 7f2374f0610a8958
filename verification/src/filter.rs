//! Conditions that points are filtered by.

use vstd::prelude::*;
use vstd::std_specs::ops::NotSpecImpl;

use crate::float::{
    law_wide_patterns_compare_as_numbers, wide_at_most, wide_below, wide_le, wide_lt, wide_nan,
    wide_number,
};
use crate::id::{ExternalId, IdView};
use crate::json::{double_of, field_of, same, Json, JsonView};
use crate::segment::payload_view;

verus! {

/// A condition on a point.
#[derive(Debug)]
#[allow(inconsistent_fields)]
pub enum Condition {
    /// A condition on a field of the payload.
    Field {
        /// The name of the field.
        field: String,
        /// What is asked of it.
        op: FieldOp,
    },
    /// The point has one of some identifiers.
    HasId {
        /// The identifiers.
        ids: Vec<ExternalId>,
    },
    /// All of some conditions hold; with none, this holds.
    All {
        /// The conditions.
        of: Vec<Condition>,
    },
    /// One of some conditions holds; with none, this does not hold.
    Any {
        /// The conditions.
        of: Vec<Condition>,
    },
    /// A condition does not hold.
    Not {
        /// The condition.
        of: Box<Condition>,
    },
}

/// What is asked of a field.
#[derive(Debug)]
pub enum FieldOp {
    /// It has a value, or is a list that contains it.
    Match {
        /// The value.
        value: Json,
    },
    /// It is a number within bounds, given as double-precision numbers.
    Range {
        /// It is above this.
        gt: Option<u64>,
        /// It is at or above this.
        gte: Option<u64>,
        /// It is below this.
        lt: Option<u64>,
        /// It is at or below this.
        lte: Option<u64>,
    },
    /// It is there, and not `null`.
    Exists,
}

/// The value of a field of a payload: none if there is no payload, if the payload has
/// no such field, or if the field is `null`.
pub open spec fn present(payload: Option<JsonView>, field: Seq<char>) -> Option<JsonView> {
    match payload {
        None => None,
        Some(p) => match field_of(p, field) {
            Some(v) => if v is Null {
                None
            } else {
                Some(v)
            },
            None => None,
        },
    }
}

/// Whether a value equals another, or is a list that contains it.
pub open spec fn equals_or_contains(v: JsonView, value: JsonView) -> bool {
    same(v, value) || match v {
        JsonView::Array(items) => exists|i: int|
            0 <= i < items.len() && same(#[trigger] items[i], value),
        _ => false,
    }
}

/// Whether a number is within bounds.
pub open spec fn within(
    n: u64,
    gt: Option<u64>,
    gte: Option<u64>,
    lt: Option<u64>,
    lte: Option<u64>,
) -> bool {
    &&& gt is Some ==> wide_below(gt->0, n)
    &&& gte is Some ==> wide_at_most(gte->0, n)
    &&& lt is Some ==> wide_below(n, lt->0)
    &&& lte is Some ==> wide_at_most(n, lte->0)
}

/// Whether an identifier is in a list.
pub open spec fn listed(ids: Seq<ExternalId>, id: IdView) -> bool {
    exists|i: int| 0 <= i < ids.len() && (#[trigger] ids[i])@ == id
}

impl FieldOp {
    /// Whether a field meets what is asked of it.
    pub open spec fn met(self, v: Option<JsonView>) -> bool {
        match (self, v) {
            (FieldOp::Exists, _) => v is Some,
            (_, None) => false,
            (FieldOp::Match { value }, Some(v)) => equals_or_contains(v, value@),
            (FieldOp::Range { gt, gte, lt, lte }, Some(v)) => match v {
                JsonView::Number(n, _) => within(double_of(n), gt, gte, lt, lte),
                _ => false,
            },
        }
    }
}

impl Condition {
    /// Whether the condition holds of a point.
    pub open spec fn holds(self, id: IdView, payload: Option<JsonView>) -> bool
        decreases self,
    {
        match self {
            Condition::Field { field, op } => op.met(present(payload, field@)),
            Condition::HasId { ids } => listed(ids@, id),
            Condition::All { of } => forall|i: int|
                0 <= i < of@.len() ==> (#[trigger] of@[i]).holds(id, payload),
            Condition::Any { of } => exists|i: int|
                0 <= i < of@.len() && (#[trigger] of@[i]).holds(id, payload),
            Condition::Not { of } => !of.holds(id, payload),
        }
    }

    /// A field has a value, or is a list that contains it.
    pub fn matches(field: &str, value: Json) -> (r: Self)
        ensures
            forall|id: IdView, payload: Option<JsonView>| #[trigger]
                r.holds(id, payload) == match present(payload, field@) {
                    Some(v) => equals_or_contains(v, value@),
                    None => false,
                },
    {
        Condition::Field { field: field.to_owned(), op: FieldOp::Match { value } }
    }

    /// A field is a number within bounds.
    pub fn range(
        field: &str,
        gt: Option<u64>,
        gte: Option<u64>,
        lt: Option<u64>,
        lte: Option<u64>,
    ) -> (r: Self)
        ensures
            forall|id: IdView, payload: Option<JsonView>| #[trigger]
                r.holds(id, payload) == match present(payload, field@) {
                    Some(JsonView::Number(n, _)) => within(double_of(n), gt, gte, lt, lte),
                    _ => false,
                },
    {
        Condition::Field { field: field.to_owned(), op: FieldOp::Range { gt, gte, lt, lte } }
    }

    /// A field is there, and not `null`.
    pub fn has_field(field: &str) -> (r: Self)
        ensures
            forall|id: IdView, payload: Option<JsonView>| #[trigger]
                r.holds(id, payload) == (present(payload, field@) is Some),
    {
        Condition::Field { field: field.to_owned(), op: FieldOp::Exists }
    }

    /// All of some conditions hold.
    pub fn all(of: Vec<Condition>) -> (r: Self)
        ensures
            r == (Condition::All { of }),
    {
        Condition::All { of }
    }

    /// One of some conditions holds.
    pub fn any(of: Vec<Condition>) -> (r: Self)
        ensures
            r == (Condition::Any { of }),
    {
        Condition::Any { of }
    }

    /// Whether the condition holds of a point.
    pub fn eval(&self, id: &ExternalId, payload: &Option<Json>) -> (r: bool)
        ensures
            r == self.holds(id@, payload_view(*payload)),
        decreases self,
    {
        let ghost pv = payload_view(*payload);
        match self {
            Condition::Field { field, op } => {
                let v: Option<&Json> = match payload {
                    None => None,
                    Some(p) => match p.get(field.as_str()) {
                        None => None,
                        Some(v) => if v.is_null() {
                            None
                        } else {
                            Some(v)
                        },
                    },
                };
                op.eval(v)
            },
            Condition::HasId { ids } => {
                let mut i: usize = 0;
                while i < ids.len()
                    invariant
                        i <= ids@.len(),
                        *self == (Condition::HasId { ids: *ids }),
                        forall|k: int| 0 <= k < i ==> (#[trigger] ids@[k])@ != id@,
                    decreases ids.len() - i,
                {
                    if ids[i].same(id) {
                        assert(ids@[i as int]@ == id@);
                        return true;
                    }
                    i = i + 1;
                }
                false
            },
            Condition::All { of } => {
                let mut i: usize = 0;
                while i < of.len()
                    invariant
                        i <= of@.len(),
                        *self == (Condition::All { of: *of }),
                        pv == payload_view(*payload),
                        forall|k: int| 0 <= k < i ==> (#[trigger] of@[k]).holds(id@, pv),
                    decreases of.len() - i,
                {
                    proof {
                        assert(decreases_to!(*self => self->All_of));
                        assert(decreases_to!(self->All_of => (self->All_of)@));
                        assert(decreases_to!(of@ => of@[i as int]));
                    }
                    if !of[i].eval(id, payload) {
                        return false;
                    }
                    i = i + 1;
                }
                true
            },
            Condition::Any { of } => {
                let mut i: usize = 0;
                while i < of.len()
                    invariant
                        i <= of@.len(),
                        *self == (Condition::Any { of: *of }),
                        pv == payload_view(*payload),
                        forall|k: int| 0 <= k < i ==> !(#[trigger] of@[k]).holds(id@, pv),
                    decreases of.len() - i,
                {
                    proof {
                        assert(decreases_to!(*self => self->Any_of));
                        assert(decreases_to!(self->Any_of => (self->Any_of)@));
                        assert(decreases_to!(of@ => of@[i as int]));
                    }
                    if of[i].eval(id, payload) {
                        return true;
                    }
                    i = i + 1;
                }
                false
            },
            Condition::Not { of } => !of.eval(id, payload),
        }
    }
}

impl std::ops::Not for Condition {
    type Output = Condition;

    fn not(self) -> (r: Condition) {
        Condition::Not { of: Box::new(self) }
    }
}

impl NotSpecImpl for Condition {
    open spec fn obeys_not_spec() -> bool {
        true
    }

    open spec fn not_req(self) -> bool {
        true
    }

    open spec fn not_spec(self) -> Condition {
        Condition::Not { of: Box::new(self) }
    }
}

impl FieldOp {
    fn eval(&self, v: Option<&Json>) -> (r: bool)
        ensures
            r == self.met(match v {
                Some(v) => Some(v@),
                None => None,
            }),
    {
        match (self, v) {
            (FieldOp::Exists, _) => v.is_some(),
            (_, None) => false,
            (FieldOp::Match { value }, Some(found)) => {
                let ghost goal = equals_or_contains(found@, value@);
                if found.equals(value) {
                    return true;
                }
                match found {
                    Json::Array(items) => {
                        let ghost all = found@->Array_0;
                        let mut i: usize = 0;
                        while i < items.len()
                            invariant
                                i <= items@.len(),
                                all.len() == items@.len(),
                                forall|k: int|
                                    0 <= k < all.len() ==> #[trigger] all[k] == items@[k]@,
                                forall|k: int| 0 <= k < i ==> !same(#[trigger] all[k], value@),
                                found@ == JsonView::Array(all),
                                goal == equals_or_contains(found@, value@),
                                goal == self.met(match v {
                                    Some(v) => Some(v@),
                                    None => None,
                                }),
                            decreases items.len() - i,
                        {
                            if items[i].equals(value) {
                                assert(same(all[i as int], value@));
                                return true;
                            }
                            i = i + 1;
                        }
                        false
                    },
                    _ => false,
                }
            },
            (FieldOp::Range { gt, gte, lt, lte }, Some(v)) => match v {
                Json::Number(n) => in_range(n.value.as_double(), *gt, *gte, *lt, *lte),
                _ => false,
            },
        }
    }
}

/// Whether a number is within bounds.
pub fn in_range(
    n: u64,
    gt: Option<u64>,
    gte: Option<u64>,
    lt: Option<u64>,
    lte: Option<u64>,
) -> (r: bool)
    ensures
        r == within(n, gt, gte, lt, lte),
{
    (match gt {
        Some(b) => wide_lt(b, n),
        None => true,
    }) && (match gte {
        Some(b) => wide_le(b, n),
        None => true,
    }) && (match lt {
        Some(b) => wide_lt(n, b),
        None => true,
    }) && (match lte {
        Some(b) => wide_le(n, b),
        None => true,
    })
}

/// Whether a point passes a filter; without a filter every point does.
pub open spec fn passes(
    filter: Option<Condition>,
    id: IdView,
    payload: Option<JsonView>,
) -> bool {
    match filter {
        None => true,
        Some(c) => c.holds(id, payload),
    }
}

/// Whether a point passes a filter.
pub fn filter_pass(filter: &Option<Condition>, id: &ExternalId, payload: &Option<Json>) -> (r: bool)
    ensures
        r == passes(*filter, id@, payload_view(*payload)),
{
    match filter {
        None => true,
        Some(c) => c.eval(id, payload),
    }
}

/// A condition and its negation never agree, and negating twice changes nothing. The
/// negation of "one of" is "all of" the negations, and the other way round. With no
/// conditions, "all of" holds and "one of" does not.
pub proof fn law_conditions(
    a: Condition,
    of: Vec<Condition>,
    not: Vec<Condition>,
    id: IdView,
    payload: Option<JsonView>,
)
    requires
        not@.len() == of@.len(),
        forall|i: int|
            0 <= i < of@.len() ==> #[trigger] not@[i] == (Condition::Not { of: Box::new(of@[i]) }),
    ensures
        (Condition::Not { of: Box::new(a) }).holds(id, payload) == !a.holds(id, payload),
        (Condition::Not { of: Box::new(Condition::Not { of: Box::new(a) }) }).holds(id, payload)
            == a.holds(id, payload),
        (Condition::Not { of: Box::new(Condition::Any { of }) }).holds(id, payload) == (
        Condition::All { of: not }).holds(id, payload),
        (Condition::Not { of: Box::new(Condition::All { of }) }).holds(id, payload) == (
        Condition::Any { of: not }).holds(id, payload),
        of@.len() == 0 ==> (Condition::All { of }).holds(id, payload),
        of@.len() == 0 ==> !(Condition::Any { of }).holds(id, payload),
{
    let any = Condition::Any { of };
    let all = Condition::All { of };
    let once = Condition::Not { of: Box::new(a) };
    assert(once.holds(id, payload) == !a.holds(id, payload));
    assert((Condition::Not { of: Box::new(any) }).holds(id, payload) == !any.holds(id, payload));
    assert((Condition::Not { of: Box::new(all) }).holds(id, payload) == !all.holds(id, payload));
    lemma_all(of, id, payload);
    lemma_all(not, id, payload);
    lemma_any(of, id, payload);
    lemma_any(not, id, payload);
    assert forall|i: int| 0 <= i < of@.len() implies (#[trigger] not@[i]).holds(id, payload)
        == !of@[i].holds(id, payload) by {}
    assert forall|i: int| 0 <= i < of@.len() implies (#[trigger] of@[i]).holds(id, payload)
        == !not@[i].holds(id, payload) by {}
}

proof fn lemma_all(of: Vec<Condition>, id: IdView, payload: Option<JsonView>)
    ensures
        (Condition::All { of }).holds(id, payload) == (forall|i: int|
            0 <= i < of@.len() ==> (#[trigger] of@[i]).holds(id, payload)),
{
    let c = Condition::All { of };
    if c.holds(id, payload) {
        assert(c->All_of@ == of@);
        assert forall|i: int| 0 <= i < of@.len() implies (#[trigger] of@[i]).holds(id, payload) by {
            assert(c->All_of@[i].holds(id, payload));
        }
    } else {
        assert(exists|i: int| 0 <= i < of@.len() && !(#[trigger] of@[i]).holds(id, payload));
    }
}

proof fn lemma_any(of: Vec<Condition>, id: IdView, payload: Option<JsonView>)
    ensures
        (Condition::Any { of }).holds(id, payload) == (exists|i: int|
            0 <= i < of@.len() && (#[trigger] of@[i]).holds(id, payload)),
{
    let c = Condition::Any { of };
    assert(c->Any_of@ == of@);
    if c.holds(id, payload) {
        assert(exists|i: int| 0 <= i < of@.len() && (#[trigger] of@[i]).holds(id, payload));
    } else {
        assert forall|i: int| 0 <= i < of@.len() implies !(#[trigger] of@[i]).holds(
            id,
            payload,
        ) by {
            assert(!c->Any_of@[i].holds(id, payload));
        }
    }
}

/// Whether a number meets a bound, if there is one, by the numbers that the patterns stand for.
pub open spec fn meets_bound(bound: Option<u64>, meets: spec_fn(int) -> bool) -> bool {
    bound matches Some(b) ==> !wide_nan(b) && meets(wide_number(b))
}

/// A condition on a field holds of no point whose payload does not have the field, or has `null`
/// there. Otherwise "exists" holds; "matches" holds of an equal value, and of a list with an equal
/// item; and "range" holds of a number that is within all the bounds.
pub proof fn law_field_conditions(
    c: Condition,
    id: IdView,
    payload: Option<JsonView>,
    v: JsonView,
)
    requires
        c is Field,
    ensures
        payload is None || field_of(payload->0, c->Field_field@) is None || field_of(
            payload->0,
            c->Field_field@,
        )->0 is Null ==> !c.holds(id, payload),
        payload is Some && field_of(payload->0, c->Field_field@) == Some(v) && !(v is Null)
            ==> c.holds(id, payload) == (match c->op {
            FieldOp::Exists => true,
            FieldOp::Match { value } => same(v, value@) || (v is Array && exists|i: int|
                0 <= i < v->Array_0.len() && same(#[trigger] v->Array_0[i], value@)),
            FieldOp::Range { gt, gte, lt, lte } => v is Number && {
                let d = double_of(v->Number_0);
                let n = wide_number(d);
                &&& gt is Some || gte is Some || lt is Some || lte is Some ==> !wide_nan(d)
                &&& meets_bound(gt, |b: int| n > b)
                &&& meets_bound(gte, |b: int| n >= b)
                &&& meets_bound(lt, |b: int| n < b)
                &&& meets_bound(lte, |b: int| n <= b)
            },
        }),
{
    if payload is Some && field_of(payload->0, c->Field_field@) == Some(v) && !(v is Null) {
        if let FieldOp::Range { gt, gte, lt, lte } = c->op {
            if v is Number {
                let d = double_of(v->Number_0);
                if gt is Some {
                    law_wide_patterns_compare_as_numbers(gt->0, d);
                }
                if gte is Some {
                    law_wide_patterns_compare_as_numbers(gte->0, d);
                }
                if lt is Some {
                    law_wide_patterns_compare_as_numbers(d, lt->0);
                }
                if lte is Some {
                    law_wide_patterns_compare_as_numbers(d, lte->0);
                }
            }
        }
    }
}

/// A condition on identifiers holds of just the points whose identifiers are listed. Without a
/// filter every point passes, and otherwise just those of which the condition holds.
pub proof fn law_listed_identifiers(c: Condition, id: IdView, payload: Option<JsonView>)
    ensures
        c is HasId ==> c.holds(id, payload) == (exists|i: int|
            0 <= i < c->HasId_ids@.len() && (#[trigger] c->HasId_ids@[i])@ == id),
        passes(None, id, payload),
        passes(Some(c), id, payload) == c.holds(id, payload),
{
}

/// "All of" holds exactly if each of its conditions does, and "one of" exactly if one of them does.
pub proof fn law_several_conditions(of: Vec<Condition>, id: IdView, payload: Option<JsonView>)
    ensures
        (Condition::All { of }).holds(id, payload) == (forall|i: int|
            0 <= i < of@.len() ==> (#[trigger] of@[i]).holds(id, payload)),
        (Condition::Any { of }).holds(id, payload) == (exists|i: int|
            0 <= i < of@.len() && (#[trigger] of@[i]).holds(id, payload)),
{
    lemma_all(of, id, payload);
    lemma_any(of, id, payload);
}

} // verus!
