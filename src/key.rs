//! The order-preserving key of a fully-qualified record address.
//!
//! Layout: `PREFIX`, then for each of namespace, database and table a `MARK`
//! followed by the name as a field, then a `MARK` and the identifier: `NUMBER_TAG`
//! and eight bytes, or `TEXT_TAG` and the text as a field. A field is the UTF-8
//! bytes with each zero written as `0x00 0xFF`, ended by `0x00 0x01`.
use vstd::prelude::*;
use vstd::utf8::{encode_utf8, encode_utf8_decode_utf8, encode_utf8_valid_utf8, valid_utf8};
use crate::error::AddressError;
use crate::id::{Id, IdView};
use crate::lex::{
    escaped, is_prefix, lemma_escaped_push, lemma_lex_prefix, lemma_lex_terminated,
    lemma_prefix_common, lemma_scan, lemma_terminated_prefix, lex_lt, lex_split, terminated,
    compare_bytes, lemma_lex_asymmetric,
};
use core::cmp::Ordering;
use crate::names::find_colon;
use crate::storekey_calls::{be8, biased, deserialize_i64, serialize_i64};

verus! {

/// The first byte of every key.
pub const PREFIX: u8 = 0x2f;

/// The byte before each part of a key.
pub const MARK: u8 = 0x2a;

/// The tag of a numeric identifier.
pub const NUMBER_TAG: u8 = 0x01;

/// The tag of a text identifier.
pub const TEXT_TAG: u8 = 0x02;

/// A fully-qualified record address.
#[derive(Clone, Debug, Eq, PartialEq)]
pub struct Thing {
    pub ns: String,
    pub db: String,
    pub tb: String,
    pub id: Id,
}

/// The mathematical value of a [`Thing`].
pub struct ThingView {
    pub ns: Seq<char>,
    pub db: Seq<char>,
    pub tb: Seq<char>,
    pub id: IdView,
}

impl View for Thing {
    type V = ThingView;

    open spec fn view(&self) -> ThingView {
        ThingView { ns: self.ns@, db: self.db@, tb: self.tb@, id: self.id@ }
    }
}

/// A name of an address: non-empty and colon-free.
pub open spec fn name_ok(s: Seq<char>) -> bool {
    s.len() > 0 && !s.contains(':')
}

impl ThingView {
    /// The invariant of a record address.
    pub open spec fn valid(self) -> bool {
        name_ok(self.ns) && name_ok(self.db) && name_ok(self.tb)
    }
}

/// A text's field, then `rest`.
pub open spec fn field_then(x: Seq<char>, rest: Seq<u8>) -> Seq<u8> {
    terminated(encode_utf8(x)) + rest
}

/// A marked name, then `rest`.
pub open spec fn marked(x: Seq<char>, rest: Seq<u8>) -> Seq<u8> {
    seq![MARK] + field_then(x, rest)
}

/// The bytes of an identifier.
pub open spec fn id_key(id: IdView) -> Seq<u8> {
    match id {
        IdView::Number(n) => seq![NUMBER_TAG] + be8(biased(n)),
        IdView::Text(s) => seq![TEXT_TAG] + terminated(encode_utf8(s)),
    }
}

/// The key of a record address.
pub open spec fn key_of(t: ThingView) -> Seq<u8> {
    seq![PREFIX] + marked(t.ns, marked(t.db, marked(t.tb, seq![MARK] + id_key(t.id))))
}

/// Builds a record address with a text identifier from four string slices.
pub fn new(ns: &str, db: &str, tb: &str, id: &str) -> (r: Thing)
    ensures
        r@ == (ThingView { ns: ns@, db: db@, tb: tb@, id: IdView::Text(id@) }),
{
    Thing::new(ns.to_owned(), db.to_owned(), tb.to_owned(), Id::String(id.to_owned()))
}

/// Whether `s` is a name the key can hold.
fn check_name(s: &str) -> (r: bool)
    ensures
        r == name_ok(s@),
{
    if s.is_empty() {
        return false;
    }
    match find_colon(s) {
        Some(_) => false,
        None => true,
    }
}

/// Splits `v[p..]` into the parts before and after `q`.
proof fn lemma_split(v: Seq<u8>, p: int, q: int)
    requires
        0 <= p <= q <= v.len(),
    ensures
        v.subrange(p, v.len() as int) == v.subrange(p, q) + v.subrange(q, v.len() as int),
{
    assert(v.subrange(p, v.len() as int) =~= v.subrange(p, q) + v.subrange(q, v.len() as int));
}

/// Two marked names with their tails are equal only where names and tails are.
proof fn lemma_marked_eq(x: Seq<char>, y: Seq<char>, r1: Seq<u8>, r2: Seq<u8>)
    requires
        marked(x, r1) == marked(y, r2),
    ensures
        x == y,
        r1 == r2,
{
    let m = marked(x, r1);
    assert(m.subrange(0, m.len() as int) =~= m);
    lemma_prefix_common(seq![MARK], field_then(x, r1), field_then(y, r2));
    lemma_terminated_prefix(encode_utf8(x), encode_utf8(y), r1, r2);
    encode_utf8_decode_utf8(x);
    encode_utf8_decode_utf8(y);
    assert(x == y);
    assert(r1.len() == r2.len());
    assert(r1 =~= r2);
}

#[verifier::external_type_specification]
#[verifier::external_body]
pub struct ExFromUtf8Error(std::string::FromUtf8Error);

/// Relies on `String::from_utf8`: it succeeds exactly on valid UTF-8, and the
/// string then holds those bytes.
#[verifier::external_body]
fn string_from_utf8(b: Vec<u8>) -> (r: Result<String, std::string::FromUtf8Error>)
    ensures
        r is Ok <==> valid_utf8(b@),
        r is Ok ==> encode_utf8(r->Ok_0@) == b@,
{
    String::from_utf8(b)
}

/// Appends the field of `s` to `out`.
fn write_field(out: &mut Vec<u8>, s: &str)
    ensures
        final(out)@ == old(out)@ + terminated(encode_utf8(s@)),
{
    let b = s.as_bytes();
    let ghost start = out@;
    let mut i: usize = 0;
    while i < b.len()
        invariant
            b@ == encode_utf8(s@),
            i <= b@.len(),
            out@ == start + escaped(b@.subrange(0, i as int)),
        decreases b@.len() - i,
    {
        let c = b[i];
        proof {
            lemma_escaped_push(b@.subrange(0, i as int), c);
            assert(b@.subrange(0, i + 1) =~= b@.subrange(0, i as int).push(c));
        }
        if c == 0 {
            out.push(0);
            out.push(0xff);
        } else {
            out.push(c);
        }
        i = i + 1;
    }
    out.push(0);
    out.push(1);
    assert(b@.subrange(0, b@.len() as int) =~= b@);
}

/// Reads a field that starts at `p`: its text and the position after its terminator.
fn read_field(v: &[u8], p: usize) -> (r: Option<(String, usize)>)
    requires
        p <= v@.len(),
    ensures
        match r {
            Some((s, q)) => p < q <= v@.len() && v@.subrange(p as int, v@.len() as int) == field_then(
                s@,
                v@.subrange(q as int, v@.len() as int),
            ),
            None => forall|x: Seq<char>, rest: Seq<u8>|
                v@.subrange(p as int, v@.len() as int) != #[trigger] field_then(x, rest),
        },
{
    let ghost tail = v@.subrange(p as int, v@.len() as int);
    let mut buf: Vec<u8> = Vec::new();
    let mut i: usize = p;
    loop
        invariant
            p <= i <= v@.len(),
            v@.subrange(p as int, i as int) == escaped(buf@),
            tail == v@.subrange(p as int, v@.len() as int),
        decreases v@.len() - i,
    {
        let ghost rest_i = v@.subrange(i as int, v@.len() as int);
        proof {
            lemma_split(v@, p as int, i as int);
        }
        if i < v.len() && v[i] != 0 {
            let c = v[i];
            proof {
                lemma_escaped_push(buf@, c);
            }
            buf.push(c);
            assert(v@.subrange(p as int, i + 1) =~= v@.subrange(p as int, i as int) + seq![c]);
            i = i + 1;
        } else if v.len() - i > 1 && v[i + 1] == 0xff {
            proof {
                lemma_escaped_push(buf@, 0u8);
            }
            buf.push(0);
            assert(v@.subrange(p as int, i + 2) =~= v@.subrange(p as int, i as int) + seq![0u8, 0xffu8]);
            i = i + 2;
        } else if v.len() - i > 1 && v[i + 1] == 1 {
            let q = i + 2;
            let ghost b = buf@;
            let ghost after = v@.subrange(q as int, v@.len() as int);
            assert(tail =~= terminated(b) + after);
            match string_from_utf8(buf) {
                Ok(s) => {
                    return Some((s, q));
                },
                Err(_) => {
                    assert forall|x: Seq<char>, rest: Seq<u8>|
                        tail != #[trigger] field_then(x, rest) by {
                        if tail == field_then(x, rest) {
                            assert(tail.subrange(0, tail.len() as int) =~= tail);
                            lemma_terminated_prefix(b, encode_utf8(x), after, rest);
                            encode_utf8_valid_utf8(x);
                        }
                    }
                    return None;
                },
            }
        } else {
            assert forall|x: Seq<char>, rest: Seq<u8>| tail != #[trigger] field_then(x, rest) by {
                if tail == field_then(x, rest) {
                    lemma_scan(buf@, encode_utf8(x), rest_i, rest);
                    if i < v.len() {
                        assert(rest_i[0] == v@[i as int]);
                    }
                    if i + 1 < v.len() {
                        assert(rest_i[1] == v@[i + 1]);
                    }
                }
            }
            return None;
        }
    }
}

/// Reads a marked name that starts at `p`.
fn read_name(v: &[u8], p: usize) -> (r: Option<(String, usize)>)
    requires
        p <= v@.len(),
    ensures
        match r {
            Some((s, q)) => p < q <= v@.len() && name_ok(s@) && v@.subrange(p as int, v@.len() as int)
                == marked(s@, v@.subrange(q as int, v@.len() as int)),
            None => forall|x: Seq<char>, rest: Seq<u8>|
                name_ok(x) ==> v@.subrange(p as int, v@.len() as int) != #[trigger] marked(x, rest),
        },
{
    let ghost tail = v@.subrange(p as int, v@.len() as int);
    if p >= v.len() || v[p] != MARK {
        assert forall|x: Seq<char>, rest: Seq<u8>|
            name_ok(x) implies tail != #[trigger] marked(x, rest) by {
            if tail == marked(x, rest) {
                assert(marked(x, rest)[0] == MARK);
                assert(tail.len() == v@.len() - p);
                assert(tail[0] == v@[p as int]);
            }
        }
        return None;
    }
    assert(tail =~= seq![MARK] + v@.subrange(p + 1, v@.len() as int));
    match read_field(v, p + 1) {
        None => {
            assert forall|x: Seq<char>, rest: Seq<u8>|
                name_ok(x) implies tail != #[trigger] marked(x, rest) by {
                if tail == marked(x, rest) {
                    assert(tail.subrange(0, tail.len() as int) =~= tail);
                    lemma_prefix_common(seq![MARK], v@.subrange(p + 1, v@.len() as int), field_then(x, rest));
                    assert(v@.subrange(p + 1, v@.len() as int) =~= field_then(x, rest));
                }
            }
            None
        },
        Some((s, q)) => {
            proof { lemma_split(v@, p + 1, q as int); }
            let ok = check_name(s.as_str());
            if ok {
                assert(tail =~= marked(s@, v@.subrange(q as int, v@.len() as int)));
                Some((s, q))
            } else {
                assert forall|x: Seq<char>, rest: Seq<u8>|
                    name_ok(x) implies tail != #[trigger] marked(x, rest) by {
                    if tail == marked(x, rest) {
                        assert(tail =~= marked(s@, v@.subrange(q as int, v@.len() as int)));
                        lemma_marked_eq(s@, x, v@.subrange(q as int, v@.len() as int), rest);
                    }
                }
                None
            }
        },
    }
}

/// Reads a marked identifier that starts at `p` and runs to the end of `v`.
fn read_id(v: &[u8], p: usize) -> (r: Option<Id>)
    requires
        p <= v@.len(),
    ensures
        match r {
            Some(id) => v@.subrange(p as int, v@.len() as int) == seq![MARK] + id_key(id@),
            None => forall|id: IdView|
                v@.subrange(p as int, v@.len() as int) != seq![MARK] + #[trigger] id_key(id),
        },
{
    let ghost tail = v@.subrange(p as int, v@.len() as int);
    if v.len() - p < 2 || v[p] != MARK {
        assert forall|id: IdView| tail != seq![MARK] + #[trigger] id_key(id) by {
            if tail == seq![MARK] + id_key(id) {
                match id {
                    IdView::Number(_) => assert(id_key(id).len() == 9),
                    IdView::Text(_) => assert(id_key(id).len() >= 2),
                }
                assert(tail.len() >= 2);
                assert(tail.len() == v@.len() - p);
                assert(tail[0] == MARK);
                assert(tail[0] == v@[p as int]);
            }
        }
        return None;
    }
    let tag = v[p + 1];
    assert(tail[1] == tag);
    if tag == NUMBER_TAG {
        if v.len() - p != 10 {
            assert forall|id: IdView| tail != seq![MARK] + #[trigger] id_key(id) by {
                if tail == seq![MARK] + id_key(id) {
                    assert((seq![MARK] + id_key(id))[1] == tag);
                    match id {
                        IdView::Number(_) => assert(id_key(id).len() == 9),
                        IdView::Text(_) => assert((seq![MARK] + id_key(id))[1] == TEXT_TAG),
                    }
                    assert(tail.len() == v@.len() - p);
                }
            }
            return None;
        }
        let mut buf: Vec<u8> = Vec::new();
        let mut i: usize = p + 2;
        while i < v.len()
            invariant
                p + 2 <= i <= v@.len(),
                buf@ == v@.subrange(p + 2, i as int),
            decreases v@.len() - i,
        {
            buf.push(v[i]);
            assert(buf@ =~= v@.subrange(p + 2, i + 1));
            i = i + 1;
        }
        match deserialize_i64(buf.as_slice()) {
            Ok(n) => {
                let id = Id::Number(n);
                assert(tail =~= seq![MARK] + id_key(id@));
                Some(id)
            },
            Err(_) => None,
        }
    } else if tag == TEXT_TAG {
        let ghost body = v@.subrange(p + 2, v@.len() as int);
        assert(body.subrange(0, body.len() as int) =~= body);
        match read_field(v, p + 2) {
            Some((s, q)) => {
                proof { lemma_split(v@, p + 2, q as int); }
                if q == v.len() {
                    let id = Id::String(s);
                    assert(tail =~= seq![MARK] + id_key(id@));
                    Some(id)
                } else {
                    assert forall|id: IdView| tail != seq![MARK] + #[trigger] id_key(id) by {
                        if tail == seq![MARK] + id_key(id) {
                            assert((seq![MARK] + id_key(id))[1] == tag);
                            if id is Number {
                                assert((seq![MARK] + id_key(id))[1] == NUMBER_TAG);
                            }
                            let x = id->Text_0;
                            assert(body =~= tail.subrange(2, tail.len() as int));
                            assert(body =~= field_then(x, seq![]));
                            lemma_terminated_prefix(
                                encode_utf8(s@),
                                encode_utf8(x),
                                v@.subrange(q as int, v@.len() as int),
                                seq![],
                            );
                        }
                    }
                    None
                }
            },
            None => {
                assert forall|id: IdView| tail != seq![MARK] + #[trigger] id_key(id) by {
                    if tail == seq![MARK] + id_key(id) {
                        assert((seq![MARK] + id_key(id))[1] == tag);
                        if id is Number {
                            assert((seq![MARK] + id_key(id))[1] == NUMBER_TAG);
                        }
                        let x = id->Text_0;
                        assert(body =~= tail.subrange(2, tail.len() as int));
                        assert(body =~= field_then(x, seq![]));
                    }
                }
                None
            },
        }
    } else {
        assert forall|id: IdView| tail != seq![MARK] + #[trigger] id_key(id) by {
            if tail == seq![MARK] + id_key(id) {
                assert((seq![MARK] + id_key(id))[1] == tag);
            }
        }
        None
    }
}

impl Thing {
    /// Builds a record address from its four parts.
    pub fn new(ns: String, db: String, tb: String, id: Id) -> (r: Thing)
        ensures
            r@ == (ThingView { ns: ns@, db: db@, tb: tb@, id: id@ }),
    {
        Thing { ns, db, tb, id }
    }

    /// Whether this address meets its invariant, and so has a key.
    pub fn is_valid(&self) -> (r: bool)
        ensures
            r == self@.valid(),
    {
        check_name(self.ns.as_str()) && check_name(self.db.as_str()) && check_name(self.tb.as_str())
    }

    /// The key of this address. Fails, with `InvalidThing`, exactly where the
    /// address breaks its invariant.
    pub fn encode(&self) -> (r: Result<Vec<u8>, AddressError>)
        ensures
            match r {
                Ok(b) => self@.valid() && b@ == key_of(self@),
                Err(e) => !self@.valid() && e == AddressError::InvalidThing,
            },
    {
        if !self.is_valid() {
            return Err(AddressError::InvalidThing);
        }
        let mut out: Vec<u8> = Vec::new();
        out.push(PREFIX);
        out.push(MARK);
        write_field(&mut out, self.ns.as_str());
        out.push(MARK);
        write_field(&mut out, self.db.as_str());
        out.push(MARK);
        write_field(&mut out, self.tb.as_str());
        out.push(MARK);
        match &self.id {
            Id::Number(n) => {
                out.push(NUMBER_TAG);
                let mut f = match serialize_i64(*n) {
                    Ok(f) => f,
                    Err(_) => return Err(AddressError::InvalidThing),
                };
                out.append(&mut f);
            },
            Id::String(s) => {
                out.push(TEXT_TAG);
                write_field(&mut out, s.as_str());
            },
        }
        assert(out@ =~= key_of(self@));
        Ok(out)
    }

    /// The address whose key `v` is. Fails, with `CorruptKey`, exactly where no
    /// valid address has that key.
    pub fn decode(v: &[u8]) -> (r: Result<Thing, AddressError>)
        ensures
            match r {
                Ok(t) => t@.valid() && key_of(t@) == v@,
                Err(e) => e == AddressError::CorruptKey && forall|t: ThingView|
                    t.valid() ==> key_of(t) != v@,
            },
    {
        let ghost all = v@.subrange(1, v@.len() as int);
        if v.len() == 0 || v[0] != PREFIX {
            assert forall|t: ThingView| t.valid() implies key_of(t) != v@ by {
                if key_of(t) == v@ {
                    assert(key_of(t)[0] == PREFIX);
                }
            }
            return Err(AddressError::CorruptKey);
        }
        assert forall|t: ThingView| key_of(t) == v@ implies all == marked(
            t.ns,
            marked(t.db, marked(t.tb, seq![MARK] + id_key(t.id))),
        ) by {
            assert(all =~= marked(t.ns, marked(t.db, marked(t.tb, seq![MARK] + id_key(t.id)))));
        }
        let (ns, p1) = match read_name(v, 1) {
            Some(x) => x,
            None => return Err(AddressError::CorruptKey),
        };
        let ghost r1 = v@.subrange(p1 as int, v@.len() as int);
        assert forall|t: ThingView| t.valid() && key_of(t) == v@ implies r1 == marked(
            t.db,
            marked(t.tb, seq![MARK] + id_key(t.id)),
        ) by {
            lemma_marked_eq(ns@, t.ns, r1, marked(t.db, marked(t.tb, seq![MARK] + id_key(t.id))));
        }
        let (db, p2) = match read_name(v, p1) {
            Some(x) => x,
            None => return Err(AddressError::CorruptKey),
        };
        let ghost r2 = v@.subrange(p2 as int, v@.len() as int);
        assert forall|t: ThingView| t.valid() && key_of(t) == v@ implies r2 == marked(
            t.tb,
            seq![MARK] + id_key(t.id),
        ) by {
            lemma_marked_eq(db@, t.db, r2, marked(t.tb, seq![MARK] + id_key(t.id)));
        }
        let (tb, p3) = match read_name(v, p2) {
            Some(x) => x,
            None => return Err(AddressError::CorruptKey),
        };
        let ghost r3 = v@.subrange(p3 as int, v@.len() as int);
        assert forall|t: ThingView| t.valid() && key_of(t) == v@ implies r3 == seq![MARK] + id_key(t.id) by {
            lemma_marked_eq(tb@, t.tb, r3, seq![MARK] + id_key(t.id));
        }
        let id = match read_id(v, p3) {
            Some(id) => id,
            None => return Err(AddressError::CorruptKey),
        };
        let t = Thing { ns, db, tb, id };
        assert(v@ =~= seq![PREFIX] + all);
        Ok(t)
    }
}


/// Identifier order: numbers before text, numbers by value, text by its UTF-8 bytes.
pub open spec fn id_lt(a: IdView, b: IdView) -> bool {
    match (a, b) {
        (IdView::Number(x), IdView::Number(y)) => x < y,
        (IdView::Number(_), IdView::Text(_)) => true,
        (IdView::Text(x), IdView::Text(y)) => lex_lt(encode_utf8(x), encode_utf8(y)),
        _ => false,
    }
}

/// Tuple order on addresses: namespace, then database, then table, then identifier;
/// names compare by their UTF-8 bytes, as `String` does.
pub open spec fn thing_lt(a: ThingView, b: ThingView) -> bool {
    lex_lt(encode_utf8(a.ns), encode_utf8(b.ns)) || (a.ns == b.ns && (lex_lt(
        encode_utf8(a.db),
        encode_utf8(b.db),
    ) || (a.db == b.db && (lex_lt(encode_utf8(a.tb), encode_utf8(b.tb)) || (a.tb == b.tb
        && id_lt(a.id, b.id))))))
}

/// Big-endian bytes tell numbers apart.
proof fn lemma_be8_injective(a: u64, b: u64)
    requires
        be8(a) == be8(b),
    ensures
        a == b,
{
    assert(be8(a)[0] == be8(b)[0]);
    assert(be8(a)[1] == be8(b)[1]);
    assert(be8(a)[2] == be8(b)[2]);
    assert(be8(a)[3] == be8(b)[3]);
    assert(be8(a)[4] == be8(b)[4]);
    assert(be8(a)[5] == be8(b)[5]);
    assert(be8(a)[6] == be8(b)[6]);
    assert(be8(a)[7] == be8(b)[7]);
    assert(a == b) by (bit_vector)
        requires
            (a >> 56u64) as u8 == (b >> 56u64) as u8,
            ((a >> 48u64) & 0xffu64) as u8 == ((b >> 48u64) & 0xffu64) as u8,
            ((a >> 40u64) & 0xffu64) as u8 == ((b >> 40u64) & 0xffu64) as u8,
            ((a >> 32u64) & 0xffu64) as u8 == ((b >> 32u64) & 0xffu64) as u8,
            ((a >> 24u64) & 0xffu64) as u8 == ((b >> 24u64) & 0xffu64) as u8,
            ((a >> 16u64) & 0xffu64) as u8 == ((b >> 16u64) & 0xffu64) as u8,
            ((a >> 8u64) & 0xffu64) as u8 == ((b >> 8u64) & 0xffu64) as u8,
            (a & 0xffu64) as u8 == (b & 0xffu64) as u8,
    ;
}

/// Moving up by 2^63 tells numbers apart.
proof fn lemma_biased_injective(a: i64, b: i64)
    requires
        biased(a) == biased(b),
    ensures
        a == b,
{
}

/// A marked name that is a prefix of another marked name has the same name.
proof fn lemma_marked_prefix(x: Seq<char>, y: Seq<char>, r1: Seq<u8>, r2: Seq<u8>)
    requires
        is_prefix(marked(x, r1), marked(y, r2)),
    ensures
        x == y,
        is_prefix(r1, r2),
{
    lemma_prefix_common(seq![MARK], field_then(x, r1), field_then(y, r2));
    lemma_terminated_prefix(encode_utf8(x), encode_utf8(y), r1, r2);
    encode_utf8_decode_utf8(x);
    encode_utf8_decode_utf8(y);
}

/// The key of a valid address is a prefix of the key of a valid address only
/// where the two addresses are equal.
pub proof fn lemma_key_prefix_free(u: ThingView, t: ThingView)
    requires
        u.valid(),
        t.valid(),
        is_prefix(key_of(u), key_of(t)),
    ensures
        u == t,
{
    let tu = seq![MARK] + id_key(u.id);
    let tt = seq![MARK] + id_key(t.id);
    lemma_prefix_common(
        seq![PREFIX],
        marked(u.ns, marked(u.db, marked(u.tb, tu))),
        marked(t.ns, marked(t.db, marked(t.tb, tt))),
    );
    lemma_marked_prefix(u.ns, t.ns, marked(u.db, marked(u.tb, tu)), marked(t.db, marked(t.tb, tt)));
    lemma_marked_prefix(u.db, t.db, marked(u.tb, tu), marked(t.tb, tt));
    lemma_marked_prefix(u.tb, t.tb, tu, tt);
    lemma_prefix_common(seq![MARK], id_key(u.id), id_key(t.id));
    let a = id_key(u.id);
    let b = id_key(t.id);
    assert(a[0] == b[0]);
    match (u.id, t.id) {
        (IdView::Number(x), IdView::Number(y)) => {
            lemma_prefix_common(seq![NUMBER_TAG], be8(biased(x)), be8(biased(y)));
            assert(be8(biased(x)) =~= be8(biased(y)).subrange(0, 8));
            lemma_be8_injective(biased(x), biased(y));
            lemma_biased_injective(x, y);
        },
        (IdView::Text(x), IdView::Text(y)) => {
            assert(a =~= seq![TEXT_TAG] + field_then(x, seq![]));
            assert(b =~= seq![TEXT_TAG] + field_then(y, seq![]));
            lemma_prefix_common(seq![TEXT_TAG], field_then(x, seq![]), field_then(y, seq![]));
            lemma_terminated_prefix(encode_utf8(x), encode_utf8(y), seq![], seq![]);
            encode_utf8_decode_utf8(x);
            encode_utf8_decode_utf8(y);
        },
        _ => {},
    }
}

/// Decoding the key of a valid address succeeds and gives that address back: some
/// valid address has the key, and every valid address with the key is the original.
pub proof fn lemma_round_trip(t: ThingView)
    requires
        t.valid(),
    ensures
        exists|u: ThingView| u.valid() && key_of(u) == key_of(t),
        forall|u: ThingView| u.valid() && key_of(u) == key_of(t) ==> u == t,
{
    assert forall|u: ThingView| u.valid() && key_of(u) == key_of(t) implies u == t by {
        assert(key_of(t).subrange(0, key_of(t).len() as int) =~= key_of(t));
        lemma_key_prefix_free(u, t);
    }
}

/// Distinct valid addresses have distinct keys.
pub proof fn lemma_key_injective(t1: ThingView, t2: ThingView)
    requires
        t1.valid(),
        t2.valid(),
        t1 != t2,
    ensures
        key_of(t1) != key_of(t2),
{
    lemma_round_trip(t2);
}

/// A key cut short is the key of no valid address, so decoding it fails.
pub proof fn lemma_truncated_key_rejected(t: ThingView, n: int)
    requires
        t.valid(),
        0 <= n < key_of(t).len(),
    ensures
        forall|u: ThingView| u.valid() ==> key_of(u) != key_of(t).subrange(0, n),
{
    assert forall|u: ThingView| u.valid() implies key_of(u) != key_of(t).subrange(0, n) by {
        if key_of(u) == key_of(t).subrange(0, n) {
            lemma_key_prefix_free(u, t);
        }
    }
}


/// Big-endian bytes keep the order of numbers.
proof fn lemma_be8_order(a: u64, b: u64)
    requires
        a < b,
    ensures
        lex_lt(be8(a), be8(b)),
{
    let x = be8(a);
    let y = be8(b);
    let j: int = if x[0] != y[0] {
        0
    } else if x[1] != y[1] {
        1
    } else if x[2] != y[2] {
        2
    } else if x[3] != y[3] {
        3
    } else if x[4] != y[4] {
        4
    } else if x[5] != y[5] {
        5
    } else if x[6] != y[6] {
        6
    } else if x[7] != y[7] {
        7
    } else {
        8
    };
    if j == 8 {
        assert(x =~= y);
        lemma_be8_injective(a, b);
    }
    assert(x.subrange(0, j) =~= y.subrange(0, j));
    if x[j] > y[j] {
        if j == 0 {
            assert(b < a) by (bit_vector)
                requires
                (a >> 56u64) as u8 > (b >> 56u64) as u8,
            ;
        }
        if j == 1 {
            assert(b < a) by (bit_vector)
                requires
                (a >> 56u64) as u8 == (b >> 56u64) as u8,
                ((a >> 48u64) & 0xffu64) as u8 > ((b >> 48u64) & 0xffu64) as u8,
            ;
        }
        if j == 2 {
            assert(b < a) by (bit_vector)
                requires
                (a >> 56u64) as u8 == (b >> 56u64) as u8,
                ((a >> 48u64) & 0xffu64) as u8 == ((b >> 48u64) & 0xffu64) as u8,
                ((a >> 40u64) & 0xffu64) as u8 > ((b >> 40u64) & 0xffu64) as u8,
            ;
        }
        if j == 3 {
            assert(b < a) by (bit_vector)
                requires
                (a >> 56u64) as u8 == (b >> 56u64) as u8,
                ((a >> 48u64) & 0xffu64) as u8 == ((b >> 48u64) & 0xffu64) as u8,
                ((a >> 40u64) & 0xffu64) as u8 == ((b >> 40u64) & 0xffu64) as u8,
                ((a >> 32u64) & 0xffu64) as u8 > ((b >> 32u64) & 0xffu64) as u8,
            ;
        }
        if j == 4 {
            assert(b < a) by (bit_vector)
                requires
                (a >> 56u64) as u8 == (b >> 56u64) as u8,
                ((a >> 48u64) & 0xffu64) as u8 == ((b >> 48u64) & 0xffu64) as u8,
                ((a >> 40u64) & 0xffu64) as u8 == ((b >> 40u64) & 0xffu64) as u8,
                ((a >> 32u64) & 0xffu64) as u8 == ((b >> 32u64) & 0xffu64) as u8,
                ((a >> 24u64) & 0xffu64) as u8 > ((b >> 24u64) & 0xffu64) as u8,
            ;
        }
        if j == 5 {
            assert(b < a) by (bit_vector)
                requires
                (a >> 56u64) as u8 == (b >> 56u64) as u8,
                ((a >> 48u64) & 0xffu64) as u8 == ((b >> 48u64) & 0xffu64) as u8,
                ((a >> 40u64) & 0xffu64) as u8 == ((b >> 40u64) & 0xffu64) as u8,
                ((a >> 32u64) & 0xffu64) as u8 == ((b >> 32u64) & 0xffu64) as u8,
                ((a >> 24u64) & 0xffu64) as u8 == ((b >> 24u64) & 0xffu64) as u8,
                ((a >> 16u64) & 0xffu64) as u8 > ((b >> 16u64) & 0xffu64) as u8,
            ;
        }
        if j == 6 {
            assert(b < a) by (bit_vector)
                requires
                (a >> 56u64) as u8 == (b >> 56u64) as u8,
                ((a >> 48u64) & 0xffu64) as u8 == ((b >> 48u64) & 0xffu64) as u8,
                ((a >> 40u64) & 0xffu64) as u8 == ((b >> 40u64) & 0xffu64) as u8,
                ((a >> 32u64) & 0xffu64) as u8 == ((b >> 32u64) & 0xffu64) as u8,
                ((a >> 24u64) & 0xffu64) as u8 == ((b >> 24u64) & 0xffu64) as u8,
                ((a >> 16u64) & 0xffu64) as u8 == ((b >> 16u64) & 0xffu64) as u8,
                ((a >> 8u64) & 0xffu64) as u8 > ((b >> 8u64) & 0xffu64) as u8,
            ;
        }
        if j == 7 {
            assert(b < a) by (bit_vector)
                requires
                (a >> 56u64) as u8 == (b >> 56u64) as u8,
                ((a >> 48u64) & 0xffu64) as u8 == ((b >> 48u64) & 0xffu64) as u8,
                ((a >> 40u64) & 0xffu64) as u8 == ((b >> 40u64) & 0xffu64) as u8,
                ((a >> 32u64) & 0xffu64) as u8 == ((b >> 32u64) & 0xffu64) as u8,
                ((a >> 24u64) & 0xffu64) as u8 == ((b >> 24u64) & 0xffu64) as u8,
                ((a >> 16u64) & 0xffu64) as u8 == ((b >> 16u64) & 0xffu64) as u8,
                ((a >> 8u64) & 0xffu64) as u8 == ((b >> 8u64) & 0xffu64) as u8,
                (a & 0xffu64) as u8 > (b & 0xffu64) as u8,
            ;
        }
    }
    assert(lex_split(x, y, j));
}

/// The marked name `x` with tail `r1` comes before `y` with tail `r2` where `x`
/// comes before `y`, or the names agree and `r1` comes before `r2`.
proof fn lemma_marked_lt(x: Seq<char>, y: Seq<char>, r1: Seq<u8>, r2: Seq<u8>)
    requires
        lex_lt(encode_utf8(x), encode_utf8(y)) || (x == y && lex_lt(r1, r2)),
    ensures
        lex_lt(marked(x, r1), marked(y, r2)),
{
    if lex_lt(encode_utf8(x), encode_utf8(y)) {
        lemma_lex_terminated(encode_utf8(x), encode_utf8(y), r1, r2);
    } else {
        lemma_lex_prefix(terminated(encode_utf8(x)), r1, r2);
    }
    lemma_lex_prefix(seq![MARK], field_then(x, r1), field_then(y, r2));
}

/// Keys keep the order of addresses: where `t1` comes before `t2` in tuple order,
/// the key of `t1` comes before the key of `t2` byte by byte.
pub proof fn lemma_key_order(t1: ThingView, t2: ThingView)
    requires
        t1.valid(),
        t2.valid(),
        thing_lt(t1, t2),
    ensures
        lex_lt(key_of(t1), key_of(t2)),
{
    let a = id_key(t1.id);
    let b = id_key(t2.id);
    if t1.ns == t2.ns && t1.db == t2.db && t1.tb == t2.tb {
        match (t1.id, t2.id) {
            (IdView::Number(x), IdView::Number(y)) => {
                lemma_be8_order(biased(x), biased(y));
                lemma_lex_prefix(seq![NUMBER_TAG], be8(biased(x)), be8(biased(y)));
            },
            (IdView::Text(x), IdView::Text(y)) => {
                lemma_lex_terminated(encode_utf8(x), encode_utf8(y), seq![], seq![]);
                assert(a =~= seq![TEXT_TAG] + (terminated(encode_utf8(x)) + seq![]));
                assert(b =~= seq![TEXT_TAG] + (terminated(encode_utf8(y)) + seq![]));
                lemma_lex_prefix(seq![TEXT_TAG], terminated(encode_utf8(x)) + seq![], terminated(encode_utf8(y)) + seq![]);
            },
            _ => {
                assert(a.subrange(0, 0) =~= b.subrange(0, 0));
                assert(lex_split(a, b, 0));
            },
        }
        lemma_lex_prefix(seq![MARK], a, b);
    }
    let ta = seq![MARK] + a;
    let tb = seq![MARK] + b;
    if t1.ns == t2.ns && t1.db == t2.db && (t1.tb != t2.tb || lex_lt(ta, tb)) {
        lemma_marked_lt(t1.tb, t2.tb, ta, tb);
    }
    if t1.ns == t2.ns && (t1.db != t2.db || lex_lt(marked(t1.tb, ta), marked(t2.tb, tb))) {
        lemma_marked_lt(t1.db, t2.db, marked(t1.tb, ta), marked(t2.tb, tb));
    }
    lemma_marked_lt(t1.ns, t2.ns, marked(t1.db, marked(t1.tb, ta)), marked(t2.db, marked(t2.tb, tb)));
    lemma_lex_prefix(
        seq![PREFIX],
        marked(t1.ns, marked(t1.db, marked(t1.tb, ta))),
        marked(t2.ns, marked(t2.db, marked(t2.tb, tb))),
    );
}


/// The length of a marked name without what follows it.
pub open spec fn marked_len(x: Seq<char>) -> int {
    escaped(encode_utf8(x)).len() + 3int
}

/// `i` is the position of a layout byte in the key of `t`: the leading `PREFIX`,
/// or the `MARK` before the namespace, the database, the table or the identifier.
pub open spec fn is_marker_at(t: ThingView, i: int) -> bool {
    let m1: int = 1;
    let m2 = m1 + marked_len(t.ns);
    let m3 = m2 + marked_len(t.db);
    let m4 = m3 + marked_len(t.tb);
    i == 0 || i == m1 || i == m2 || i == m3 || i == m4
}

/// Changing one byte after a marked name changes the same byte of its tail.
proof fn lemma_marked_update(x: Seq<char>, y: Seq<char>, r1: Seq<u8>, r2: Seq<u8>, j: int, c: u8)
    requires
        0 <= j < r2.len(),
        marked(x, r1) == marked(y, r2).update(marked_len(y) + j, c),
    ensures
        x == y,
        r1 == r2.update(j, c),
{
    assert(marked(y, r2).update(marked_len(y) + j, c) =~= marked(y, r2.update(j, c)));
    lemma_marked_eq(x, y, r1, r2.update(j, c));
}

/// A key with one of its layout bytes changed is the key of no valid address, so
/// decoding it fails.
pub proof fn lemma_flipped_marker_rejected(t: ThingView, i: int, c: u8)
    requires
        t.valid(),
        is_marker_at(t, i),
        c != key_of(t)[i],
    ensures
        forall|u: ThingView| u.valid() ==> key_of(u) != key_of(t).update(i, c),
{
    assert forall|u: ThingView| u.valid() implies key_of(u) != key_of(t).update(i, c) by {
        let k = key_of(t);
        if key_of(u) == k.update(i, c) {
            let tu = seq![MARK] + id_key(u.id);
            let tt = seq![MARK] + id_key(t.id);
            let u3 = marked(u.tb, tu);
            let t3 = marked(t.tb, tt);
            let u2 = marked(u.db, u3);
            let t2 = marked(t.db, t3);
            let u1 = marked(u.ns, u2);
            let t1 = marked(t.ns, t2);
            assert(key_of(u)[0] == PREFIX);
            assert(k[0] == PREFIX);
            if i == 0 {
                assert(k.update(i, c)[0] == c);
            } else {
                assert(key_of(u).subrange(1, key_of(u).len() as int) =~= u1);
                assert(k.update(i, c).subrange(1, k.len() as int) =~= t1.update(i - 1, c));
                if i == 1 {
                    assert(u1[0] == MARK);
                    assert(t1[0] == MARK);
                    assert(t1.update(0, c)[0] == c);
                } else {
                    let j1 = i - 1 - marked_len(t.ns);
                    lemma_marked_update(u.ns, t.ns, u2, t2, j1, c);
                    if j1 == 0 {
                        assert(u2[0] == MARK);
                        assert(t2[0] == MARK);
                    } else {
                        let j2 = j1 - marked_len(t.db);
                        lemma_marked_update(u.db, t.db, u3, t3, j2, c);
                        if j2 == 0 {
                            assert(u3[0] == MARK);
                            assert(t3[0] == MARK);
                        } else {
                            let j3 = j2 - marked_len(t.tb);
                            lemma_marked_update(u.tb, t.tb, tu, tt, j3, c);
                            assert(tu[0] == MARK);
                            assert(tt[0] == MARK);
                        }
                    }
                }
            }
        }
    }
}


/// The comparison of two addresses in tuple order.
pub open spec fn thing_cmp(a: ThingView, b: ThingView) -> Ordering {
    if thing_lt(a, b) {
        Ordering::Less
    } else if a == b {
        Ordering::Equal
    } else {
        Ordering::Greater
    }
}

proof fn lemma_lex_irreflexive(x: Seq<u8>)
    ensures
        !lex_lt(x, x),
{
    if lex_lt(x, x) {
        lemma_lex_asymmetric(x, x);
    }
}

/// Compares two texts by their UTF-8 bytes, as `str` does.
fn compare_text(a: &str, b: &str) -> (r: Ordering)
    ensures
        r == Ordering::Less ==> lex_lt(encode_utf8(a@), encode_utf8(b@)),
        r == Ordering::Equal ==> a@ == b@,
        r == Ordering::Greater ==> lex_lt(encode_utf8(b@), encode_utf8(a@)) && !lex_lt(
            encode_utf8(a@),
            encode_utf8(b@),
        ) && a@ != b@,
{
    let r = compare_bytes(a.as_bytes(), b.as_bytes());
    proof {
        encode_utf8_decode_utf8(a@);
        encode_utf8_decode_utf8(b@);
        if r == Ordering::Greater {
            lemma_lex_asymmetric(encode_utf8(b@), encode_utf8(a@));
        }
    }
    r
}

impl PartialOrd for Thing {
    fn partial_cmp(&self, other: &Thing) -> (r: Option<Ordering>) {
        let (a, b) = (self, other);
        proof {
            lemma_lex_irreflexive(encode_utf8(a.ns@));
            lemma_lex_irreflexive(encode_utf8(a.db@));
            lemma_lex_irreflexive(encode_utf8(a.tb@));
        }
        match compare_text(a.ns.as_str(), b.ns.as_str()) {
            Ordering::Equal => {},
            c => return Some(c),
        }
        match compare_text(a.db.as_str(), b.db.as_str()) {
            Ordering::Equal => {},
            c => return Some(c),
        }
        match compare_text(a.tb.as_str(), b.tb.as_str()) {
            Ordering::Equal => {},
            c => return Some(c),
        }
        match (&a.id, &b.id) {
            (Id::Number(x), Id::Number(y)) => {
                if *x < *y {
                    Some(Ordering::Less)
                } else if *x == *y {
                    Some(Ordering::Equal)
                } else {
                    Some(Ordering::Greater)
                }
            },
            (Id::Number(_), Id::String(_)) => Some(Ordering::Less),
            (Id::String(_), Id::Number(_)) => Some(Ordering::Greater),
            (Id::String(x), Id::String(y)) => {
                proof {
                    lemma_lex_irreflexive(encode_utf8(x@));
                }
                Some(compare_text(x.as_str(), y.as_str()))
            },
        }
    }
}

impl vstd::std_specs::cmp::PartialOrdSpecImpl for Thing {
    open spec fn obeys_partial_cmp_spec() -> bool {
        true
    }

    open spec fn partial_cmp_spec(&self, other: &Thing) -> Option<Ordering> {
        Some(thing_cmp(self@, other@))
    }
}

} // verus!
