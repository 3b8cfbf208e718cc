use dozer_core::aggregate::{get_aggregator_type_from_aggregation_expression, get_max, update_map,
    AggregateFunctionType, AggregatorType, Expression, FieldCountMap, MaxAggregator};
use dozer_core::errors::PipelineError;
use dozer_core::types::{Field, FieldType, Schema};

fn schema() -> Schema {
    Schema::new(vec![])
}

#[test]
fn test_aggregator_type_names() {
    assert_eq!(AggregatorType::Avg.name(), "avg");
    assert_eq!(AggregatorType::Count.name(), "count");
    assert_eq!(AggregatorType::Max.name(), "max");
    assert_eq!(AggregatorType::Min.name(), "min");
    assert_eq!(AggregatorType::Sum.name(), "sum");
}

#[test]
fn test_expression_to_aggregator() {
    let e = Expression::AggregateFunction {
        fun: AggregateFunctionType::Sum,
        args: vec![Expression::Column { index: 0 }],
    };
    let (args, t) = get_aggregator_type_from_aggregation_expression(&e, &schema()).unwrap();
    assert_eq!(t, AggregatorType::Sum);
    assert_eq!(args.len(), 1);
    assert!(matches!(args[0], Expression::Column { index: 0 }));

    let e = Expression::AggregateFunction {
        fun: AggregateFunctionType::Max,
        args: vec![Expression::Column { index: 3 }],
    };
    let (_, t) = get_aggregator_type_from_aggregation_expression(&e, &schema()).unwrap();
    assert_eq!(t, AggregatorType::Max);
}

#[test]
fn test_expression_without_arguments() {
    let e = Expression::AggregateFunction { fun: AggregateFunctionType::Min, args: vec![] };
    let r = get_aggregator_type_from_aggregation_expression(&e, &schema());
    assert_eq!(r, Err(PipelineError::NotEnoughArguments("MIN".to_string())));
}

#[test]
fn test_non_aggregate_expression() {
    let e = Expression::Column { index: 2 };
    let r = get_aggregator_type_from_aggregation_expression(&e, &schema());
    assert!(matches!(r, Err(PipelineError::InvalidFunction(_))));
}

#[test]
fn test_update_map_counts_and_removes() {
    let mut map = FieldCountMap::new();
    update_map(&vec![Field::Int(5)], 1, false, &mut map);
    update_map(&vec![Field::Int(5)], 1, false, &mut map);
    update_map(&vec![Field::Int(7)], 1, false, &mut map);
    assert_eq!(map.entries.len(), 2);
    assert_eq!(map.entries[0], (Field::Int(5), 2));
    assert_eq!(map.entries[1], (Field::Int(7), 1));

    update_map(&vec![Field::Int(5)], 1, true, &mut map);
    assert_eq!(map.entries[0], (Field::Int(5), 1));
    update_map(&vec![Field::Int(5)], 1, true, &mut map);
    // the count fell under one, so the value left the table
    assert_eq!(map.entries, vec![(Field::Int(7), 1)]);
}

#[test]
fn test_update_map_skips_nulls() {
    let mut map = FieldCountMap::new();
    update_map(&vec![Field::Null, Field::UInt(1), Field::Null], 1, false, &mut map);
    assert_eq!(map.entries, vec![(Field::UInt(1), 1)]);
}

#[test]
fn test_get_max_uint_and_int() {
    let mut map = FieldCountMap::new();
    update_map(&vec![Field::UInt(3), Field::UInt(9), Field::UInt(4)], 1, false, &mut map);
    assert_eq!(get_max(&map, FieldType::UInt), Ok(Field::UInt(9)));

    let mut imap = FieldCountMap::new();
    update_map(&vec![Field::Int(-7), Field::Int(-3), Field::Int(-9)], 1, false, &mut imap);
    assert_eq!(get_max(&imap, FieldType::Int), Ok(Field::Int(-3)));
}

#[test]
fn test_get_max_errors() {
    let empty = FieldCountMap::new();
    assert!(matches!(
        get_max(&empty, FieldType::UInt),
        Err(PipelineError::InternalExecutionError(_))
    ));

    let mut mixed = FieldCountMap::new();
    update_map(&vec![Field::UInt(1), Field::Int(2)], 1, false, &mut mixed);
    assert!(matches!(
        get_max(&mixed, FieldType::UInt),
        Err(PipelineError::InternalExecutionError(_))
    ));

    let mut bools = FieldCountMap::new();
    update_map(&vec![Field::Boolean(true)], 1, false, &mut bools);
    assert!(matches!(
        get_max(&bools, FieldType::Boolean),
        Err(PipelineError::InternalExecutionError(_))
    ));
}

#[test]
fn test_max_aggregator_follows_inserts_and_deletes() {
    let mut agg = MaxAggregator::new();
    agg.init(FieldType::Int);
    assert_eq!(agg.insert(&vec![Field::Int(3)]), Ok(Field::Int(3)));
    assert_eq!(agg.insert(&vec![Field::Int(7)]), Ok(Field::Int(7)));
    assert_eq!(agg.insert(&vec![Field::Int(7)]), Ok(Field::Int(7)));
    // one of the two sevens leaves; the maximum stays
    assert_eq!(agg.delete(&vec![Field::Int(7)]), Ok(Field::Int(7)));
    // the last seven leaves; three is the maximum again
    assert_eq!(agg.delete(&vec![Field::Int(7)]), Ok(Field::Int(3)));
    assert_eq!(
        agg.update(&vec![Field::Int(3)], &vec![Field::Int(10)]),
        Ok(Field::Int(10))
    );
}
