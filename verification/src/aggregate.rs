use vstd::prelude::*;
use vstd::wrapping::u64_specs;
use crate::errors::PipelineError;
use crate::types::{Field, FieldType, Schema, copy_field, field_eq};

verus! {

/// The aggregate functions the pipeline can run.
#[derive(Clone, Copy, Debug, PartialEq, Eq, PartialOrd, Hash, Structural)]
pub enum AggregatorType {
    Avg,
    Count,
    Max,
    Min,
    Sum,
}

impl AggregatorType {
    /// The aggregator's lower-case name.
    pub fn name(&self) -> (r: String)
        ensures
            *self == AggregatorType::Avg ==> r@ == "avg"@,
            *self == AggregatorType::Count ==> r@ == "count"@,
            *self == AggregatorType::Max ==> r@ == "max"@,
            *self == AggregatorType::Min ==> r@ == "min"@,
            *self == AggregatorType::Sum ==> r@ == "sum"@,
    {
        let s = match self {
            AggregatorType::Avg => "avg",
            AggregatorType::Count => "count",
            AggregatorType::Max => "max",
            AggregatorType::Min => "min",
            AggregatorType::Sum => "sum",
        };
        s.to_owned()
    }
}

/// An aggregate function named in a query expression.
#[derive(Clone, Copy, Debug, PartialEq, Eq, Structural)]
pub enum AggregateFunctionType {
    Avg,
    Count,
    Max,
    Min,
    Sum,
}

impl AggregateFunctionType {
    /// The function's upper-case name as it appears in queries.
    pub fn name(&self) -> (r: String)
        ensures
            *self == AggregateFunctionType::Avg ==> r@ == "AVG"@,
            *self == AggregateFunctionType::Count ==> r@ == "COUNT"@,
            *self == AggregateFunctionType::Max ==> r@ == "MAX"@,
            *self == AggregateFunctionType::Min ==> r@ == "MIN"@,
            *self == AggregateFunctionType::Sum ==> r@ == "SUM"@,
    {
        let s = match self {
            AggregateFunctionType::Avg => "AVG",
            AggregateFunctionType::Count => "COUNT",
            AggregateFunctionType::Max => "MAX",
            AggregateFunctionType::Min => "MIN",
            AggregateFunctionType::Sum => "SUM",
        };
        s.to_owned()
    }
}

/// A query expression, as far as the aggregation planner reads it: a
/// column reference, a literal, or an aggregate function application.
#[derive(Debug, PartialEq)]
pub enum Expression {
    Column { index: usize },
    Literal(Field),
    AggregateFunction { fun: AggregateFunctionType, args: Vec<Expression> },
}

/// Two expressions carry the same value.
pub open spec fn expr_eq(a: Expression, b: Expression) -> bool
    decreases a,
{
    match (a, b) {
        (Expression::Column { index: i1 }, Expression::Column { index: i2 }) => i1 == i2,
        (Expression::Literal(f1), Expression::Literal(f2)) => field_eq(f1, f2),
        (
            Expression::AggregateFunction { fun: fn1, args: a1 },
            Expression::AggregateFunction { fun: fn2, args: a2 },
        ) => fn1 == fn2 && a1@.len() == a2@.len() && (forall|i: int|
            0 <= i < a1@.len() ==> expr_eq(#[trigger] a1@[i], a2@[i])),
        _ => false,
    }
}

/// A structural copy of an expression.
pub fn clone_expression(e: &Expression) -> (r: Expression)
    ensures
        expr_eq(r, *e),
    decreases *e,
{
    match e {
        Expression::Column { index } => Expression::Column { index: *index },
        Expression::Literal(f) => Expression::Literal(copy_field(f)),
        Expression::AggregateFunction { fun, args } => {
            let mut cloned: Vec<Expression> = Vec::new();
            let mut i: usize = 0;
            #[verifier::loop_isolation(false)]
            while i < args.len()
                invariant
                    i <= args@.len(),
                    cloned@.len() == i,
                    forall|j: int| 0 <= j < i ==> expr_eq(#[trigger] cloned@[j], args@[j]),
                decreases args@.len() - i,
            {
                cloned.push(clone_expression(&args[i]));
                i = i + 1;
            }
            Expression::AggregateFunction { fun: *fun, args: cloned }
        },
    }
}

impl Expression {
    /// The name of the expression's kind.
    pub fn kind_name(&self) -> (r: String)
        ensures
            self is Column ==> r@ == "Column"@,
            self is Literal ==> r@ == "Literal"@,
            self is AggregateFunction ==> r@ == "AggregateFunction"@,
    {
        let s = match self {
            Expression::Column { .. } => "Column",
            Expression::Literal(_) => "Literal",
            Expression::AggregateFunction { .. } => "AggregateFunction",
        };
        s.to_owned()
    }
}

/// The aggregator that runs an aggregate function.
pub open spec fn aggregator_of(f: AggregateFunctionType) -> AggregatorType {
    match f {
        AggregateFunctionType::Avg => AggregatorType::Avg,
        AggregateFunctionType::Count => AggregatorType::Count,
        AggregateFunctionType::Max => AggregatorType::Max,
        AggregateFunctionType::Min => AggregatorType::Min,
        AggregateFunctionType::Sum => AggregatorType::Sum,
    }
}

/// Maps an aggregation expression to its argument and aggregator kind.
///
/// Succeeds exactly on an aggregate function application with at least
/// one argument, returning a copy of the first argument; an application
/// without arguments is `NotEnoughArguments` with the function's name,
/// and any other expression is `InvalidFunction`. The `schema`
/// parameter travels with the query but does not influence the choice.
pub fn get_aggregator_type_from_aggregation_expression(e: &Expression, schema: &Schema) -> (r:
    Result<(Vec<Expression>, AggregatorType), PipelineError>)
    ensures
        match *e {
            Expression::AggregateFunction { fun, args } => {
                if args@.len() > 0 {
                    r matches Ok(p) && p.0@.len() == 1 && expr_eq(p.0@[0], args@[0]) && p.1
                        == aggregator_of(fun)
                } else {
                    r matches Err(PipelineError::NotEnoughArguments(_))
                }
            },
            _ => r matches Err(PipelineError::InvalidFunction(_)),
        },
{
    match e {
        Expression::AggregateFunction { fun, args } => {
            if args.len() == 0 {
                return Err(PipelineError::NotEnoughArguments(fun.name()));
            }
            let arg = clone_expression(&args[0]);
            let mut one: Vec<Expression> = Vec::new();
            one.push(arg);
            let t = match fun {
                AggregateFunctionType::Avg => AggregatorType::Avg,
                AggregateFunctionType::Count => AggregatorType::Count,
                AggregateFunctionType::Max => AggregatorType::Max,
                AggregateFunctionType::Min => AggregatorType::Min,
                AggregateFunctionType::Sum => AggregatorType::Sum,
            };
            Ok((one, t))
        },
        _ => Err(PipelineError::InvalidFunction(e.kind_name())),
    }
}

/// How often each non-null field value is currently held, as the
/// aggregators keep it.
pub struct FieldCountMap {
    pub entries: Vec<(Field, u64)>,
}

/// The count stored for a field value, zero when absent.
pub open spec fn count_of(entries: Seq<(Field, u64)>, f: Field) -> u64
    decreases entries.len(),
{
    if entries.len() == 0 {
        0
    } else if field_eq(entries.first().0, f) {
        entries.first().1
    } else {
        count_of(entries.drop_first(), f)
    }
}

/// One field applied to the count table: its count moves by `delta`
/// (wrapping, as the original counters do), entries that would fall
/// under one are removed, and null fields are ignored.
pub open spec fn spec_apply_field(
    entries: Seq<(Field, u64)>,
    f: Field,
    delta: u64,
    decr: bool,
) -> Seq<(Field, u64)>
    decreases entries.len(),
{
    if f is Null {
        entries
    } else {
        let prev = count_of(entries, f);
        let next = if decr {
            u64_specs::wrapping_sub(prev, delta)
        } else {
            u64_specs::wrapping_add(prev, delta)
        };
        if next < 1 {
            spec_remove_field(entries, f)
        } else {
            spec_set_field(entries, f, next)
        }
    }
}

/// The table without the entry for `f`.
pub open spec fn spec_remove_field(entries: Seq<(Field, u64)>, f: Field) -> Seq<(Field, u64)>
    decreases entries.len(),
{
    if entries.len() == 0 {
        entries
    } else if field_eq(entries.first().0, f) {
        entries.drop_first()
    } else {
        seq![entries.first()] + spec_remove_field(entries.drop_first(), f)
    }
}

/// The table with the entry for `f` set to `c`, appended when absent.
pub open spec fn spec_set_field(entries: Seq<(Field, u64)>, f: Field, c: u64) -> Seq<(Field, u64)>
    decreases entries.len(),
{
    if entries.len() == 0 {
        seq![(f, c)]
    } else if field_eq(entries.first().0, f) {
        seq![(entries.first().0, c)] + entries.drop_first()
    } else {
        seq![entries.first()] + spec_set_field(entries.drop_first(), f, c)
    }
}

/// The whole field list applied in order.
pub open spec fn spec_update_map(
    entries: Seq<(Field, u64)>,
    fields: Seq<Field>,
    delta: u64,
    decr: bool,
) -> Seq<(Field, u64)>
    decreases fields.len(),
{
    if fields.len() == 0 {
        entries
    } else {
        spec_update_map(
            spec_apply_field(entries, fields.first(), delta, decr),
            fields.drop_first(),
            delta,
            decr,
        )
    }
}

impl FieldCountMap {
    /// An empty count table.
    pub fn new() -> (r: Self)
        ensures
            r.entries@.len() == 0,
    {
        Self { entries: Vec::new() }
    }

    /// The position of the entry for `f`, if present.
    fn find(&self, f: &Field) -> (r: Option<usize>)
        ensures
            match r {
                Some(i) => i < self.entries@.len() && field_eq(self.entries@[i as int].0, *f)
                    && count_of(self.entries@, *f) == self.entries@[i as int].1 && (forall|j: int|
                    0 <= j < i ==> !field_eq((#[trigger] self.entries@[j]).0, *f)),
                None => count_of(self.entries@, *f) == 0 && (forall|j: int|
                    0 <= j < self.entries@.len() ==> !field_eq((#[trigger] self.entries@[j]).0, *f)),
            },
    {
        let mut i: usize = 0;
        while i < self.entries.len()
            invariant
                i <= self.entries@.len(),
                forall|j: int| 0 <= j < i ==> !field_eq((#[trigger] self.entries@[j]).0, *f),
            decreases self.entries@.len() - i,
        {
            if self.entries[i].0 == *f {
                proof {
                    lemma_count_at_first_match(self.entries@, *f, i as int);
                }
                return Some(i);
            }
            i = i + 1;
        }
        proof {
            lemma_count_no_match(self.entries@, *f);
        }
        None
    }
}

/// A first match determines `count_of`.
proof fn lemma_count_at_first_match(entries: Seq<(Field, u64)>, f: Field, i: int)
    requires
        0 <= i < entries.len(),
        field_eq(entries[i].0, f),
        forall|j: int| 0 <= j < i ==> !field_eq((#[trigger] entries[j]).0, f),
    ensures
        count_of(entries, f) == entries[i].1,
    decreases i,
{
    if i > 0 {
        let rest = entries.drop_first();
        assert(rest[i - 1] == entries[i]);
        assert forall|j: int| 0 <= j < i - 1 implies !field_eq((#[trigger] rest[j]).0, f) by {
            assert(rest[j] == entries[j + 1]);
        }
        lemma_count_at_first_match(rest, f, i - 1);
    }
}

/// No match anywhere makes the count zero.
proof fn lemma_count_no_match(entries: Seq<(Field, u64)>, f: Field)
    requires
        forall|j: int| 0 <= j < entries.len() ==> !field_eq((#[trigger] entries[j]).0, f),
    ensures
        count_of(entries, f) == 0,
    decreases entries.len(),
{
    if entries.len() > 0 {
        let rest = entries.drop_first();
        assert forall|j: int| 0 <= j < rest.len() implies !field_eq((#[trigger] rest[j]).0, f) by {
            assert(rest[j] == entries[j + 1]);
        }
        lemma_count_no_match(rest, f);
    }
}

/// A first match determines `spec_remove_field` as a point removal.
proof fn lemma_remove_at_first_match(entries: Seq<(Field, u64)>, f: Field, i: int)
    requires
        0 <= i < entries.len(),
        field_eq(entries[i].0, f),
        forall|j: int| 0 <= j < i ==> !field_eq((#[trigger] entries[j]).0, f),
    ensures
        spec_remove_field(entries, f) =~= entries.remove(i),
    decreases i,
{
    if i == 0 {
        assert(spec_remove_field(entries, f) =~= entries.remove(0));
    } else {
        let rest = entries.drop_first();
        assert(rest[i - 1] == entries[i]);
        assert forall|j: int| 0 <= j < i - 1 implies !field_eq((#[trigger] rest[j]).0, f) by {
            assert(rest[j] == entries[j + 1]);
        }
        lemma_remove_at_first_match(rest, f, i - 1);
        assert(spec_remove_field(entries, f) =~= entries.remove(i));
    }
}

/// A first match determines `spec_set_field` as a point update.
proof fn lemma_set_at_first_match(entries: Seq<(Field, u64)>, f: Field, c: u64, i: int)
    requires
        0 <= i < entries.len(),
        field_eq(entries[i].0, f),
        forall|j: int| 0 <= j < i ==> !field_eq((#[trigger] entries[j]).0, f),
    ensures
        spec_set_field(entries, f, c) =~= entries.update(i, (entries[i].0, c)),
    decreases i,
{
    if i == 0 {
        assert(spec_set_field(entries, f, c) =~= entries.update(0, (entries[0].0, c)));
    } else {
        let rest = entries.drop_first();
        assert(rest[i - 1] == entries[i]);
        assert forall|j: int| 0 <= j < i - 1 implies !field_eq((#[trigger] rest[j]).0, f) by {
            assert(rest[j] == entries[j + 1]);
        }
        lemma_set_at_first_match(rest, f, c, i - 1);
        assert(spec_set_field(entries, f, c) =~= entries.update(i, (entries[i].0, c)));
    }
}

/// No match makes `spec_set_field` an append.
proof fn lemma_set_no_match(entries: Seq<(Field, u64)>, f: Field, c: u64)
    requires
        forall|j: int| 0 <= j < entries.len() ==> !field_eq((#[trigger] entries[j]).0, f),
    ensures
        spec_set_field(entries, f, c) =~= entries.push((f, c)),
    decreases entries.len(),
{
    if entries.len() > 0 {
        let rest = entries.drop_first();
        assert forall|j: int| 0 <= j < rest.len() implies !field_eq((#[trigger] rest[j]).0, f) by {
            assert(rest[j] == entries[j + 1]);
        }
        lemma_set_no_match(rest, f, c);
        assert(spec_set_field(entries, f, c) =~= entries.push((f, c)));
    }
}

/// Applies each field of `fields` to the count table: the field's count
/// moves by `val_delta` (down when `decr`, wrapping as the original
/// counters do), an entry falling under one is removed, a new value
/// opens an entry, and nulls are skipped.
pub fn update_map(
    fields: &Vec<Field>,
    val_delta: u64,
    decr: bool,
    field_map: &mut FieldCountMap,
)
    ensures
        final(field_map).entries@ == spec_update_map(
            old(field_map).entries@,
            fields@,
            val_delta,
            decr,
        ),
{
    let ghost fv = fields@;
    proof {
        assert(fv.skip(0) =~= fv);
    }
    let mut i: usize = 0;
    while i < fields.len()
        invariant
            i <= fv.len(),
            fv == fields@,
            spec_update_map(old(field_map).entries@, fv, val_delta, decr) == spec_update_map(
                field_map.entries@,
                fv.skip(i as int),
                val_delta,
                decr,
            ),
        decreases fv.len() - i,
    {
        let field = &fields[i];
        proof {
            assert(fv.skip(i as int).len() > 0);
            assert(fv.skip(i as int).first() == fv[i as int]);
            assert(fv.skip(i as int).drop_first() =~= fv.skip(i as int + 1));
        }
        let ghost pre = field_map.entries@;
        if matches!(field, Field::Null) {
            proof {
                assert(spec_apply_field(pre, fv[i as int], val_delta, decr) == pre);
            }
        } else {
            let prev_count: u64 = match field_map.find(field) {
                Some(j) => field_map.entries[j].1,
                None => 0,
            };
            let new_count: u64 = if decr {
                prev_count.wrapping_sub(val_delta)
            } else {
                prev_count.wrapping_add(val_delta)
            };
            match field_map.find(field) {
                Some(j) => {
                    if new_count < 1 {
                        field_map.entries.remove(j);
                        proof {
                            lemma_remove_at_first_match(pre, fv[i as int], j as int);
                        }
                    } else {
                        let entry = field_map.entries.remove(j);
                        field_map.entries.insert(j, (entry.0, new_count));
                        proof {
                            lemma_set_at_first_match(pre, fv[i as int], new_count, j as int);
                            assert(field_map.entries@ =~= pre.remove(j as int).insert(
                                j as int,
                                (pre[j as int].0, new_count),
                            ));
                            assert(field_map.entries@ =~= pre.update(
                                j as int,
                                (pre[j as int].0, new_count),
                            ));
                        }
                    }
                },
                None => {
                    if new_count < 1 {
                        proof {
                            lemma_count_no_match(pre, fv[i as int]);
                            assert(spec_remove_field(pre, fv[i as int]) =~= pre) by {
                                lemma_remove_no_match(pre, fv[i as int]);
                            }
                        }
                    } else {
                        field_map.entries.push((copy_field(field), new_count));
                        proof {
                            lemma_set_no_match(pre, fv[i as int], new_count);
                        }
                    }
                },
            }
        }
        i = i + 1;
    }
    proof {
        assert(fv.skip(fv.len() as int).len() == 0);
    }
}

/// The unsigned value a field carries (zero for other variants).
pub open spec fn uint_val(f: Field) -> u64 {
    match f {
        Field::UInt(x) => x,
        _ => 0,
    }
}

/// The signed value a field carries (zero for other variants).
pub open spec fn int_val(f: Field) -> i64 {
    match f {
        Field::Int(x) => x,
        _ => 0,
    }
}

/// Every held value is an unsigned integer.
pub open spec fn all_uint(entries: Seq<(Field, u64)>) -> bool {
    forall|i: int| 0 <= i < entries.len() ==> (#[trigger] entries[i]).0 is UInt
}

/// Every held value is a signed integer.
pub open spec fn all_int(entries: Seq<(Field, u64)>) -> bool {
    forall|i: int| 0 <= i < entries.len() ==> (#[trigger] entries[i]).0 is Int
}

/// The largest unsigned value held.
pub open spec fn max_uint(entries: Seq<(Field, u64)>) -> u64
    decreases entries.len(),
{
    if entries.len() == 0 {
        0
    } else if entries.len() == 1 {
        uint_val(entries[0].0)
    } else {
        let m = max_uint(entries.drop_last());
        let v = uint_val(entries.last().0);
        if v >= m {
            v
        } else {
            m
        }
    }
}

/// The largest signed value held.
pub open spec fn max_int(entries: Seq<(Field, u64)>) -> i64
    decreases entries.len(),
{
    if entries.len() == 0 {
        0
    } else if entries.len() == 1 {
        int_val(entries[0].0)
    } else {
        let m = max_int(entries.drop_last());
        let v = int_val(entries.last().0);
        if v >= m {
            v
        } else {
            m
        }
    }
}

/// What computing the maximum must return: the largest held value of
/// the requested integer type; an error when nothing is held, a held
/// value has another type, or the requested type is not ordered here.
pub open spec fn spec_max_result(
    entries: Seq<(Field, u64)>,
    return_type: FieldType,
    r: Result<Field, PipelineError>,
) -> bool {
    match return_type {
        FieldType::UInt => if entries.len() > 0 && all_uint(entries) {
            r == Ok::<Field, PipelineError>(Field::UInt(max_uint(entries)))
        } else {
            r matches Err(PipelineError::InternalExecutionError(_))
        },
        FieldType::Int => if entries.len() > 0 && all_int(entries) {
            r == Ok::<Field, PipelineError>(Field::Int(max_int(entries)))
        } else {
            r matches Err(PipelineError::InternalExecutionError(_))
        },
        _ => r matches Err(PipelineError::InternalExecutionError(_)),
    }
}

/// The largest held value of the requested integer type.
pub fn get_max(field_hash: &FieldCountMap, return_type: FieldType) -> (r: Result<
    Field,
    PipelineError,
>)
    ensures
        spec_max_result(field_hash.entries@, return_type, r),
{
    let entries = &field_hash.entries;
    match return_type {
        FieldType::UInt => {
            if entries.len() == 0 {
                return Err(
                    PipelineError::InternalExecutionError("max of an empty state".to_owned()),
                );
            }
            let mut cur: u64 = match &entries[0].0 {
                Field::UInt(x) => *x,
                _ => {
                    return Err(
                        PipelineError::InternalExecutionError(
                            "a held value is not an unsigned integer".to_owned(),
                        ),
                    );
                },
            };
            let mut i: usize = 1;
            while i < entries.len()
                invariant
                    return_type == FieldType::UInt,
                    entries@ == field_hash.entries@,
                    1 <= i <= entries@.len(),
                    forall|j: int| 0 <= j < i ==> (#[trigger] entries@[j]).0 is UInt,
                    cur == max_uint(entries@.take(i as int)),
                decreases entries@.len() - i,
            {
                proof {
                    assert(entries@.take(i as int + 1).drop_last() =~= entries@.take(i as int));
                    assert(entries@.take(i as int + 1).last() == entries@[i as int]);
                }
                match &entries[i].0 {
                    Field::UInt(x) => {
                        if *x >= cur {
                            cur = *x;
                        }
                    },
                    _ => {
                        proof {
                            assert(!(entries@[i as int].0 is UInt));
                            assert(!all_uint(entries@));
                        }
                        return Err(
                            PipelineError::InternalExecutionError(
                                "a held value is not an unsigned integer".to_owned(),
                            ),
                        );
                    },
                }
                i = i + 1;
            }
            proof {
                assert(entries@.take(entries@.len() as int) =~= entries@);
            }
            Ok(Field::UInt(cur))
        },
        FieldType::Int => {
            if entries.len() == 0 {
                return Err(
                    PipelineError::InternalExecutionError("max of an empty state".to_owned()),
                );
            }
            let mut cur: i64 = match &entries[0].0 {
                Field::Int(x) => *x,
                _ => {
                    return Err(
                        PipelineError::InternalExecutionError(
                            "a held value is not a signed integer".to_owned(),
                        ),
                    );
                },
            };
            let mut i: usize = 1;
            while i < entries.len()
                invariant
                    return_type == FieldType::Int,
                    entries@ == field_hash.entries@,
                    1 <= i <= entries@.len(),
                    forall|j: int| 0 <= j < i ==> (#[trigger] entries@[j]).0 is Int,
                    cur == max_int(entries@.take(i as int)),
                decreases entries@.len() - i,
            {
                proof {
                    assert(entries@.take(i as int + 1).drop_last() =~= entries@.take(i as int));
                    assert(entries@.take(i as int + 1).last() == entries@[i as int]);
                }
                match &entries[i].0 {
                    Field::Int(x) => {
                        if *x >= cur {
                            cur = *x;
                        }
                    },
                    _ => {
                        proof {
                            assert(!(entries@[i as int].0 is Int));
                            assert(!all_int(entries@));
                        }
                        return Err(
                            PipelineError::InternalExecutionError(
                                "a held value is not a signed integer".to_owned(),
                            ),
                        );
                    },
                }
                i = i + 1;
            }
            proof {
                assert(entries@.take(entries@.len() as int) =~= entries@);
            }
            Ok(Field::Int(cur))
        },
        _ => Err(
            PipelineError::InternalExecutionError(
                "unsupported return type for max".to_owned(),
            ),
        ),
    }
}

/// The max aggregator: counts how often each value is held and reports
/// the largest one.
pub struct MaxAggregator {
    pub current_state: FieldCountMap,
    pub return_type: FieldType,
}

impl MaxAggregator {
    /// An empty aggregator; `init` sets the value type, unsigned until
    /// then.
    pub fn new() -> (r: Self)
        ensures
            r.current_state.entries@.len() == 0,
            r.return_type == FieldType::UInt,
    {
        Self { current_state: FieldCountMap::new(), return_type: FieldType::UInt }
    }

    /// Declares the type of the values this aggregator will order.
    pub fn init(&mut self, return_type: FieldType)
        ensures
            final(self).return_type == return_type,
            final(self).current_state == old(self).current_state,
    {
        self.return_type = return_type;
    }

    /// Counts the inserted values in and reports the new maximum.
    pub fn insert(&mut self, new: &Vec<Field>) -> (r: Result<Field, PipelineError>)
        ensures
            final(self).return_type == old(self).return_type,
            final(self).current_state.entries@ == spec_update_map(
                old(self).current_state.entries@,
                new@,
                1,
                false,
            ),
            spec_max_result(final(self).current_state.entries@, final(self).return_type, r),
    {
        update_map(new, 1, false, &mut self.current_state);
        get_max(&self.current_state, self.return_type)
    }

    /// Counts the deleted values out and reports the new maximum.
    pub fn delete(&mut self, old_fields: &Vec<Field>) -> (r: Result<Field, PipelineError>)
        ensures
            final(self).return_type == old(self).return_type,
            final(self).current_state.entries@ == spec_update_map(
                old(self).current_state.entries@,
                old_fields@,
                1,
                true,
            ),
            spec_max_result(final(self).current_state.entries@, final(self).return_type, r),
    {
        update_map(old_fields, 1, true, &mut self.current_state);
        get_max(&self.current_state, self.return_type)
    }

    /// Counts the old values out and the new ones in, then reports the
    /// new maximum.
    pub fn update(&mut self, old_fields: &Vec<Field>, new: &Vec<Field>) -> (r: Result<
        Field,
        PipelineError,
    >)
        ensures
            final(self).return_type == old(self).return_type,
            final(self).current_state.entries@ == spec_update_map(
                spec_update_map(old(self).current_state.entries@, old_fields@, 1, true),
                new@,
                1,
                false,
            ),
            spec_max_result(final(self).current_state.entries@, final(self).return_type, r),
    {
        update_map(old_fields, 1, true, &mut self.current_state);
        update_map(new, 1, false, &mut self.current_state);
        get_max(&self.current_state, self.return_type)
    }
}

/// No match makes `spec_remove_field` the identity.
proof fn lemma_remove_no_match(entries: Seq<(Field, u64)>, f: Field)
    requires
        forall|j: int| 0 <= j < entries.len() ==> !field_eq((#[trigger] entries[j]).0, f),
    ensures
        spec_remove_field(entries, f) =~= entries,
    decreases entries.len(),
{
    if entries.len() > 0 {
        let rest = entries.drop_first();
        assert forall|j: int| 0 <= j < rest.len() implies !field_eq((#[trigger] rest[j]).0, f) by {
            assert(rest[j] == entries[j + 1]);
        }
        lemma_remove_no_match(rest, f);
        assert(spec_remove_field(entries, f) =~= entries);
    }
}

} // verus!
