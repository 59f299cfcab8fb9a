//! What a query targets, and which targets may carry a range of identifiers.
use vstd::prelude::*;
use vstd::string::*;
use crate::error::AddressError;
use crate::id::{Id, IdView};
use crate::names::find_colon;

verus! {

/// A table name.
#[derive(Debug, Clone, PartialEq, Eq)]
pub struct Table(pub String);

/// A record within a table.
#[derive(Debug, Clone, PartialEq, Eq)]
pub struct RecordId {
    pub tb: String,
    pub id: Id,
}

/// The mathematical value of a [`RecordId`].
pub struct RecordIdView {
    pub tb: Seq<char>,
    pub id: IdView,
}

impl View for RecordId {
    type V = RecordIdView;

    open spec fn view(&self) -> RecordIdView {
        RecordIdView { tb: self.tb@, id: self.id@ }
    }
}

impl RecordId {
    /// A copy of this record identifier.
    pub fn copy(&self) -> (r: RecordId)
        ensures
            r@ == self@,
    {
        RecordId { tb: self.tb.clone(), id: self.id.copy() }
    }
}

/// An object literal: named identifier values, in order.
#[derive(Debug, Clone, PartialEq, Eq)]
pub struct Object(pub Vec<(String, Id)>);

/// An array literal.
#[derive(Debug, Clone, PartialEq, Eq)]
pub struct Array(pub Vec<Id>);

/// The direction of the edges of a record.
#[derive(Debug, Clone, PartialEq, Eq)]
pub enum Dir {
    In,
    Out,
    Both,
}

/// The edges incident to a record, in one direction, through the named tables.
#[derive(Debug, Clone, PartialEq, Eq)]
pub struct Edges {
    pub dir: Dir,
    pub from: RecordId,
    pub what: Vec<String>,
}

/// A database resource.
#[derive(Debug, Clone, PartialEq, Eq)]
pub enum Resource {
    /// Table name
    Table(Table),
    /// Record ID
    RecordId(RecordId),
    /// An object
    Object(Object),
    /// An array
    Array(Array),
    /// Edges
    Edges(Edges),
}

/// One end of a range of identifiers.
#[derive(Debug, Clone, PartialEq, Eq)]
pub enum Bound {
    Unbounded,
    Included(Id),
    Excluded(Id),
}

/// Holds the `start` and `end` bounds of a range query.
#[derive(Debug, Clone, PartialEq, Eq)]
pub struct Range {
    pub start: Bound,
    pub end: Bound,
}

/// A scan over the records of one table whose identifiers lie between two bounds.
#[derive(Debug, Clone, PartialEq, Eq)]
pub struct ScanRange {
    pub tb: String,
    pub beg: Bound,
    pub end: Bound,
}

/// A resource as a plain value, to be passed as a query parameter.
#[derive(Debug, Clone, PartialEq, Eq)]
pub enum Value {
    Table(Table),
    Thing(RecordId),
    Object(Object),
    Array(Array),
    Edges(Edges),
    Range(ScanRange),
}

/// `i` is the position of the first colon in `s`.
pub open spec fn first_colon_at(s: Seq<char>, i: int) -> bool {
    0 <= i < s.len() && s[i] == ':' && forall|j: int| 0 <= j < i ==> s[j] != ':'
}

/// `s` reads as a record address `table:id`: the text before its first colon and
/// the text after it are both non-empty.
pub open spec fn record_split(s: Seq<char>, i: int) -> bool {
    first_colon_at(s, i) && 0 < i && i + 1 < s.len()
}

/// The error for a bare table name `s` whose first colon is at `i`.
pub open spec fn colon_error(s: Seq<char>, i: int, e: AddressError) -> bool {
    e matches AddressError::TableColonId { table, id } && table@ == s.subrange(0, i) && id@
        == s.subrange(i + 1, s.len() as int)
}

/// Every character of `x` is an ASCII digit.
pub open spec fn all_digits(x: Seq<char>) -> bool {
    forall|k: int| 0 <= k < x.len() ==> '0' <= #[trigger] x[k] <= '9'
}

/// The decimal value of a string of digits.
pub open spec fn digits_value(x: Seq<char>) -> int
    decreases x.len(),
{
    if x.len() == 0 {
        0
    } else {
        digits_value(x.drop_last()) * 10 + (x.last() as int - '0' as int)
    }
}

/// The identifier that the text after a record's colon stands for: a number where
/// it is non-empty, all digits and fits an `i64`, the text itself otherwise.
pub open spec fn id_of_text(x: Seq<char>) -> IdView {
    if x.len() > 0 && all_digits(x) && digits_value(x) <= i64::MAX {
        IdView::Number(digits_value(x) as i64)
    } else {
        IdView::Text(x)
    }
}

proof fn lemma_digits_grow(x: Seq<char>, k: int)
    requires
        all_digits(x),
        0 <= k <= x.len(),
    ensures
        digits_value(x) >= digits_value(x.subrange(0, k)) >= 0,
    decreases x.len(),
{
    if x.len() > 0 {
        assert(all_digits(x.drop_last()));
        if k == x.len() {
            assert(x.subrange(0, k) =~= x);
            lemma_digits_grow(x.drop_last(), k - 1);
        } else {
            assert(x.drop_last().subrange(0, k) =~= x.subrange(0, k));
            lemma_digits_grow(x.drop_last(), k);
        }
        assert(x.last() == x[x.len() - 1]);
    } else {
        assert(x.subrange(0, k) =~= x);
    }
}

/// Reads the text after a record's colon as an identifier.
fn id_from_text(x: &str) -> (r: Id)
    ensures
        r@ == id_of_text(x@),
{
    let n = x.unicode_len();
    if n == 0 {
        return Id::String(x.to_owned());
    }
    let mut acc: i64 = 0;
    let mut k: usize = 0;
    while k < n
        invariant
            n == x@.len(),
            k <= n,
            all_digits(x@.subrange(0, k as int)),
            0 <= acc,
            acc as int == digits_value(x@.subrange(0, k as int)),
        decreases n - k,
    {
        let c = x.get_char(k);
        let ghost pre = x@.subrange(0, k as int);
        let ghost next = x@.subrange(0, k + 1);
        assert(next.drop_last() =~= pre);
        assert(next.last() == c);
        if c < '0' || c > '9' {
            assert(!all_digits(x@)) by {
                assert(x@[k as int] == c);
            }
            return Id::String(x.to_owned());
        }
        let d: i64 = (c as u32 - '0' as u32) as i64;
        if acc > (i64::MAX - d) / 10 {
            proof {
                if all_digits(x@) {
                    lemma_digits_grow(x@, k + 1);
                }
            }
            return Id::String(x.to_owned());
        }
        assert(0 <= acc * 10 + d <= i64::MAX) by (nonlinear_arith)
            requires
                0 <= acc <= (i64::MAX - d) / 10,
                0 <= d <= 9,
        ;
        acc = acc * 10 + d;
        k = k + 1;
    }
    assert(x@.subrange(0, n as int) =~= x@);
    Id::Number(acc)
}

impl Resource {
    /// Attaches a range of identifiers. Only a table has identifiers to range over;
    /// every other resource is refused with its own error.
    pub fn with_range(self, range: Range) -> (r: Result<Value, AddressError>)
        ensures
            match self {
                Resource::Table(t) => r == Ok::<Value, AddressError>(
                    Value::Range(ScanRange { tb: t.0, beg: range.start, end: range.end }),
                ),
                Resource::RecordId(_) => r == Err::<Value, AddressError>(AddressError::RangeOnRecordId),
                Resource::Object(_) => r == Err::<Value, AddressError>(AddressError::RangeOnObject),
                Resource::Array(_) => r == Err::<Value, AddressError>(AddressError::RangeOnArray),
                Resource::Edges(_) => r == Err::<Value, AddressError>(AddressError::RangeOnEdges),
            },
    {
        match self {
            Resource::Table(Table(table)) => Ok(
                Value::Range(ScanRange { tb: table, beg: range.start, end: range.end }),
            ),
            Resource::RecordId(_) => Err(AddressError::RangeOnRecordId),
            Resource::Object(_) => Err(AddressError::RangeOnObject),
            Resource::Array(_) => Err(AddressError::RangeOnArray),
            Resource::Edges(_) => Err(AddressError::RangeOnEdges),
        }
    }

    /// The resource as a plain value; nothing is lost.
    pub fn into_value(self) -> (r: Value)
        ensures
            match self {
                Resource::Table(t) => r == Value::Table(t),
                Resource::RecordId(t) => r == Value::Thing(t),
                Resource::Object(o) => r == Value::Object(o),
                Resource::Array(a) => r == Value::Array(a),
                Resource::Edges(e) => r == Value::Edges(e),
            },
    {
        match self {
            Resource::Table(t) => Value::Table(t),
            Resource::RecordId(t) => Value::Thing(t),
            Resource::Object(o) => Value::Object(o),
            Resource::Array(a) => Value::Array(a),
            Resource::Edges(e) => Value::Edges(e),
        }
    }

    /// Reads text as a resource: a record where it reads as `table:id`, a table otherwise.
    pub fn parse(s: &str) -> (r: Resource)
        ensures
            match r {
                Resource::RecordId(t) => exists|i: int|
                    record_split(s@, i) && t@ == (RecordIdView {
                        tb: s@.subrange(0, i),
                        id: id_of_text(s@.subrange(i + 1, s@.len() as int)),
                    }),
                Resource::Table(t) => t.0@ == s@ && forall|i: int| !record_split(s@, i),
                _ => false,
            },
    {
        let n = s.unicode_len();
        match find_colon(s) {
            Some(i) => {
                if i > 0 && i + 1 < n {
                    let tb = s.substring_char(0, i).to_owned();
                    let id = id_from_text(s.substring_char(i + 1, n));
                    assert(record_split(s@, i as int));
                    return Resource::RecordId(RecordId { tb, id });
                }
                assert forall|k: int| !record_split(s@, k) by {
                    if record_split(s@, k) {
                        if k < i {
                        } else if k > i {
                        }
                    }
                }
                Resource::Table(Table(s.to_owned()))
            },
            None => {
                assert forall|k: int| !record_split(s@, k) by {
                    if record_split(s@, k) {
                        assert(s@.contains(s@[k]));
                    }
                }
                Resource::Table(Table(s.to_owned()))
            },
        }
    }
}

/// Refuses a bare table name that holds a colon, naming the text around the first one.
pub fn blacklist_colon(input: &str) -> (r: Result<(), AddressError>)
    ensures
        match r {
            Ok(()) => !input@.contains(':'),
            Err(e) => exists|i: int| first_colon_at(input@, i) && colon_error(input@, i, e),
        },
{
    match find_colon(input) {
        Some(i) => {
            let n = input.unicode_len();
            let table = input.substring_char(0, i).to_owned();
            let id = input.substring_char(i + 1, n).to_owned();
            let e = AddressError::TableColonId { table, id };
            assert(first_colon_at(input@, i as int) && colon_error(input@, i as int, e));
            Err(e)
        },
        None => Ok(()),
    }
}

/// Relies on `RangeInclusive::into_inner`: the lower and the upper (inclusive) bound.
pub assume_specification<Idx>[ core::ops::RangeInclusive::<Idx>::into_inner ](
    r: core::ops::RangeInclusive<Idx>,
) -> (res: (Idx, Idx))
    ensures
        res == (r@.start, r@.end),
;

impl Range {
    /// The range between two bounds, as given.
    pub fn from_bounds(start: Bound, end: Bound) -> (r: Range)
        ensures
            r == (Range { start, end }),
    {
        Range { start, end }
    }

    /// The range of every identifier from `start` on.
    pub fn starting_at(start: Id) -> (r: Range)
        ensures
            r == (Range { start: Bound::Included(start), end: Bound::Unbounded }),
    {
        Range { start: Bound::Included(start), end: Bound::Unbounded }
    }

    /// The range of every identifier before `end`.
    pub fn ending_before(end: Id) -> (r: Range)
        ensures
            r == (Range { start: Bound::Unbounded, end: Bound::Excluded(end) }),
    {
        Range { start: Bound::Unbounded, end: Bound::Excluded(end) }
    }

    /// The range of every identifier up to and including `end`.
    pub fn ending_at(end: Id) -> (r: Range)
        ensures
            r == (Range { start: Bound::Unbounded, end: Bound::Included(end) }),
    {
        Range { start: Bound::Unbounded, end: Bound::Included(end) }
    }

    /// The range of every identifier.
    pub fn full() -> (r: Range)
        ensures
            r == (Range { start: Bound::Unbounded, end: Bound::Unbounded }),
    {
        Range { start: Bound::Unbounded, end: Bound::Unbounded }
    }
}

impl From<core::ops::Range<i64>> for Range {
    fn from(r: core::ops::Range<i64>) -> Range {
        Range { start: Bound::Included(Id::Number(r.start)), end: Bound::Excluded(Id::Number(r.end)) }
    }
}

impl vstd::std_specs::convert::FromSpecImpl<core::ops::Range<i64>> for Range {
    open spec fn obeys_from_spec() -> bool {
        true
    }

    open spec fn from_spec(r: core::ops::Range<i64>) -> Range {
        Range { start: Bound::Included(Id::Number(r.start)), end: Bound::Excluded(Id::Number(r.end)) }
    }
}

impl From<core::ops::RangeInclusive<i64>> for Range {
    fn from(r: core::ops::RangeInclusive<i64>) -> Range {
        let (start, end) = r.into_inner();
        Range { start: Bound::Included(Id::Number(start)), end: Bound::Included(Id::Number(end)) }
    }
}

impl vstd::std_specs::convert::FromSpecImpl<core::ops::RangeInclusive<i64>> for Range {
    open spec fn obeys_from_spec() -> bool {
        true
    }

    open spec fn from_spec(r: core::ops::RangeInclusive<i64>) -> Range {
        Range { start: Bound::Included(Id::Number(r@.start)), end: Bound::Included(Id::Number(r@.end)) }
    }
}

/// A conversion of an input into a database resource.
pub trait IntoResource: Sized {
    /// `r` is what converting `self` gives.
    spec fn converts_to(&self, r: Result<Resource, AddressError>) -> bool;

    /// Converts an input into a database resource.
    fn into_resource(self) -> (r: Result<Resource, AddressError>)
        ensures
            self.converts_to(r),
    ;
}

impl IntoResource for Resource {
    open spec fn converts_to(&self, r: Result<Resource, AddressError>) -> bool {
        r == Ok::<Resource, AddressError>(*self)
    }

    fn into_resource(self) -> (r: Result<Resource, AddressError>) {
        Ok(self)
    }
}

impl IntoResource for Object {
    open spec fn converts_to(&self, r: Result<Resource, AddressError>) -> bool {
        r == Ok::<Resource, AddressError>(Resource::Object(*self))
    }

    fn into_resource(self) -> (r: Result<Resource, AddressError>) {
        Ok(Resource::Object(self))
    }
}

impl IntoResource for RecordId {
    open spec fn converts_to(&self, r: Result<Resource, AddressError>) -> bool {
        r == Ok::<Resource, AddressError>(Resource::RecordId(*self))
    }

    fn into_resource(self) -> (r: Result<Resource, AddressError>) {
        Ok(Resource::RecordId(self))
    }
}

impl IntoResource for &RecordId {
    open spec fn converts_to(&self, r: Result<Resource, AddressError>) -> bool {
        r matches Ok(Resource::RecordId(t)) && t@ == (**self)@
    }

    fn into_resource(self) -> (r: Result<Resource, AddressError>) {
        Ok(Resource::RecordId(self.copy()))
    }
}

impl IntoResource for (String, Id) {
    open spec fn converts_to(&self, r: Result<Resource, AddressError>) -> bool {
        r == Ok::<Resource, AddressError>(Resource::RecordId(RecordId { tb: self.0, id: self.1 }))
    }

    fn into_resource(self) -> (r: Result<Resource, AddressError>) {
        let (tb, id) = self;
        Ok(Resource::RecordId(RecordId { tb, id }))
    }
}

impl IntoResource for Array {
    open spec fn converts_to(&self, r: Result<Resource, AddressError>) -> bool {
        r == Ok::<Resource, AddressError>(Resource::Array(*self))
    }

    fn into_resource(self) -> (r: Result<Resource, AddressError>) {
        Ok(Resource::Array(self))
    }
}

impl IntoResource for Edges {
    open spec fn converts_to(&self, r: Result<Resource, AddressError>) -> bool {
        r == Ok::<Resource, AddressError>(Resource::Edges(*self))
    }

    fn into_resource(self) -> (r: Result<Resource, AddressError>) {
        Ok(Resource::Edges(self))
    }
}

impl IntoResource for Table {
    open spec fn converts_to(&self, r: Result<Resource, AddressError>) -> bool {
        r == Ok::<Resource, AddressError>(Resource::Table(*self))
    }

    fn into_resource(self) -> (r: Result<Resource, AddressError>) {
        Ok(Resource::Table(self))
    }
}

/// A bare table name: a table where `s` holds no colon, else the error that names
/// the text around its first colon.
pub open spec fn table_name_result(s: Seq<char>, r: Result<Resource, AddressError>) -> bool {
    match r {
        Ok(Resource::Table(t)) => t.0@ == s && !s.contains(':'),
        Ok(_) => false,
        Err(e) => exists|i: int| first_colon_at(s, i) && colon_error(s, i, e),
    }
}

impl IntoResource for &str {
    open spec fn converts_to(&self, r: Result<Resource, AddressError>) -> bool {
        table_name_result((**self)@, r)
    }

    fn into_resource(self) -> (r: Result<Resource, AddressError>) {
        match blacklist_colon(self) {
            Ok(()) => Ok(Resource::Table(Table(self.to_owned()))),
            Err(e) => Err(e),
        }
    }
}

impl IntoResource for &String {
    open spec fn converts_to(&self, r: Result<Resource, AddressError>) -> bool {
        table_name_result((**self)@, r)
    }

    fn into_resource(self) -> (r: Result<Resource, AddressError>) {
        match blacklist_colon(self.as_str()) {
            Ok(()) => Ok(Resource::Table(Table(self.clone()))),
            Err(e) => Err(e),
        }
    }
}

impl IntoResource for String {
    open spec fn converts_to(&self, r: Result<Resource, AddressError>) -> bool {
        table_name_result(self@, r)
    }

    fn into_resource(self) -> (r: Result<Resource, AddressError>) {
        match blacklist_colon(self.as_str()) {
            Ok(()) => Ok(Resource::Table(Table(self))),
            Err(e) => Err(e),
        }
    }
}

} // verus!
