use surrealdb::error::AddressError;
use surrealdb::id::Id;
use surrealdb::resource::{
    blacklist_colon, Array, Bound, Dir, Edges, IntoResource, Object, Range, RecordId, Resource, ScanRange, Table,
    Value,
};

fn record(tb: &str, id: &str) -> RecordId {
    RecordId { tb: tb.to_string(), id: Id::String(id.to_string()) }
}

fn all_ranges() -> Vec<Range> {
    vec![
        Range::from(0..5),
        Range::from(0..=5),
        Range::starting_at(Id::Number(0)),
        Range::ending_before(Id::Number(5)),
        Range::ending_at(Id::Number(5)),
        Range::full(),
        Range::from_bounds(Bound::Excluded(Id::String("a".to_string())), Bound::Included(Id::Number(9))),
    ]
}

#[test]
fn table_accepts_every_range() {
    for range in all_ranges() {
        let start = range.start.clone();
        let end = range.end.clone();
        let r = Resource::Table(Table("x".to_string())).with_range(range);
        assert_eq!(r, Ok(Value::Range(ScanRange { tb: "x".to_string(), beg: start, end })));
    }
}

#[test]
fn other_resources_refuse_ranges() {
    for range in all_ranges() {
        assert_eq!(Resource::RecordId(record("a", "b")).with_range(range.clone()), Err(AddressError::RangeOnRecordId));
        assert_eq!(Resource::Object(Object(vec![])).with_range(range.clone()), Err(AddressError::RangeOnObject));
        assert_eq!(Resource::Array(Array(vec![Id::Number(1)])).with_range(range.clone()), Err(AddressError::RangeOnArray));
        let edges = Edges { dir: Dir::Out, from: record("a", "b"), what: vec!["likes".to_string()] };
        assert_eq!(Resource::Edges(edges).with_range(range), Err(AddressError::RangeOnEdges));
    }
}

#[test]
fn colon_in_bare_table_is_refused() {
    let r = IntoResource::into_resource("a:b");
    assert_eq!(r, Err(AddressError::TableColonId { table: "a".to_string(), id: "b".to_string() }));
    let r = "a:b:c".to_string().into_resource();
    assert_eq!(r, Err(AddressError::TableColonId { table: "a".to_string(), id: "b:c".to_string() }));
    let s = "x:".to_string();
    assert_eq!((&s).into_resource(), Err(AddressError::TableColonId { table: "x".to_string(), id: "".to_string() }));
    assert_eq!(blacklist_colon("ab"), Ok(()));
}

#[test]
fn bare_table_without_colon() {
    assert_eq!(IntoResource::into_resource("ab"), Ok(Resource::Table(Table("ab".to_string()))));
    assert_eq!("ab".to_string().into_resource(), Ok(Resource::Table(Table("ab".to_string()))));
}

#[test]
fn general_text_reads_as_record() {
    assert_eq!(Resource::parse("a:b"), Resource::RecordId(record("a", "b")));
    assert_eq!(Resource::parse("ab"), Resource::Table(Table("ab".to_string())));
    assert_eq!(Resource::parse(":b"), Resource::Table(Table(":b".to_string())));
    assert_eq!(Resource::parse("a:"), Resource::Table(Table("a:".to_string())));
}

#[test]
fn digit_ids_read_as_numbers() {
    let num = |tb: &str, n: i64| Resource::RecordId(RecordId { tb: tb.to_string(), id: Id::Number(n) });
    assert_eq!(Resource::parse("person:1"), num("person", 1));
    assert_eq!(Resource::parse("t:9223372036854775807"), num("t", i64::MAX));
    assert_eq!(Resource::parse("t:9223372036854775808"), Resource::RecordId(record("t", "9223372036854775808")));
    assert_eq!(Resource::parse("t:1x"), Resource::RecordId(record("t", "1x")));
    assert_eq!(Resource::parse("t:-1"), Resource::RecordId(record("t", "-1")));
}

#[test]
fn range_bounds_convert() {
    assert_eq!(Range::from(0..5), Range { start: Bound::Included(Id::Number(0)), end: Bound::Excluded(Id::Number(5)) });
    assert_eq!(Range::from(0..=5), Range { start: Bound::Included(Id::Number(0)), end: Bound::Included(Id::Number(5)) });
    assert_eq!(Range::full(), Range { start: Bound::Unbounded, end: Bound::Unbounded });
}

#[test]
fn other_shapes_convert() {
    let o = Object(vec![("k".to_string(), Id::Number(1))]);
    assert_eq!(o.clone().into_resource(), Ok(Resource::Object(o)));
    let a = Array(vec![Id::Number(1)]);
    assert_eq!(a.clone().into_resource(), Ok(Resource::Array(a)));
    let r = record("t", "1");
    assert_eq!((&r).into_resource(), Ok(Resource::RecordId(r.clone())));
    assert_eq!(r.clone().into_resource(), Ok(Resource::RecordId(r)));
    assert_eq!(
        ("t".to_string(), Id::Number(7)).into_resource(),
        Ok(Resource::RecordId(RecordId { tb: "t".to_string(), id: Id::Number(7) }))
    );
    assert_eq!(Table("t".to_string()).into_resource(), Ok(Resource::Table(Table("t".to_string()))));
    let res = Resource::Table(Table("t".to_string()));
    assert_eq!(res.clone().into_resource(), Ok(res));
}

#[test]
fn resources_become_values() {
    assert_eq!(Resource::Table(Table("t".to_string())).into_value(), Value::Table(Table("t".to_string())));
    assert_eq!(Resource::RecordId(record("t", "1")).into_value(), Value::Thing(record("t", "1")));
    let edges = Edges { dir: Dir::In, from: record("a", "b"), what: vec![] };
    assert_eq!(Resource::Edges(edges.clone()).into_value(), Value::Edges(edges));
}
