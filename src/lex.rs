//! Byte-lexicographic order and the facts about it that the key layout needs.
use vstd::prelude::*;

verus! {

/// `a` comes strictly before `b` in byte-lexicographic order: they agree up to
/// some index `i`, where `a` either ends while `b` goes on, or has the smaller byte.
pub open spec fn lex_lt(a: Seq<u8>, b: Seq<u8>) -> bool {
    exists|i: int| #[trigger] lex_split(a, b, i)
}

/// `i` is the first index at which `a` and `b` part, with `a` the smaller.
pub open spec fn lex_split(a: Seq<u8>, b: Seq<u8>, i: int) -> bool {
    &&& 0 <= i <= a.len()
    &&& i <= b.len()
    &&& a.subrange(0, i) == b.subrange(0, i)
    &&& (i == a.len() && a.len() < b.len()) || (i < a.len() && i < b.len() && a[i] < b[i])
}

/// `a` is a prefix of `b` (possibly all of it).
pub open spec fn is_prefix(a: Seq<u8>, b: Seq<u8>) -> bool {
    a.len() <= b.len() && a == b.subrange(0, a.len() as int)
}

/// The bytes that stand for one byte inside a field: a zero becomes `0x00 0xFF`.
pub open spec fn escaped_byte(c: u8) -> Seq<u8> {
    if c == 0 {
        seq![0u8, 0xffu8]
    } else {
        seq![c]
    }
}

/// The bytes of a field with every zero escaped.
pub open spec fn escaped(x: Seq<u8>) -> Seq<u8>
    decreases x.len(),
{
    if x.len() == 0 {
        Seq::empty()
    } else {
        escaped_byte(x[0]) + escaped(x.drop_first())
    }
}

/// A field: its escaped bytes and the terminator `0x00 0x01`.
pub open spec fn terminated(x: Seq<u8>) -> Seq<u8> {
    escaped(x) + seq![0u8, 1u8]
}

/// Escaping works byte by byte.
pub proof fn lemma_escaped_concat(a: Seq<u8>, b: Seq<u8>)
    ensures
        escaped(a + b) == escaped(a) + escaped(b),
    decreases a.len(),
{
    if a.len() == 0 {
        assert(a + b =~= b);
        assert(escaped(a) + escaped(b) =~= escaped(b));
    } else {
        assert((a + b).drop_first() =~= a.drop_first() + b);
        lemma_escaped_concat(a.drop_first(), b);
        assert(escaped(a + b) =~= escaped(a) + escaped(b));
    }
}

/// Escaping one more byte adds its escape.
pub proof fn lemma_escaped_push(b: Seq<u8>, c: u8)
    ensures
        escaped(b.push(c)) == escaped(b) + escaped_byte(c),
{
    assert(b.push(c) =~= b + seq![c]);
    lemma_escaped_concat(b, seq![c]);
    let one = seq![c];
    assert(one.drop_first() =~= Seq::<u8>::empty());
    assert(escaped(one.drop_first()) == Seq::<u8>::empty());
    assert(escaped(one) == escaped_byte(one[0]) + escaped(one.drop_first()));
    assert(escaped(one) =~= escaped_byte(c));
}

/// Two sequences that agree on their first element and on the rest are equal.
proof fn lemma_first_and_rest(a: Seq<u8>, b: Seq<u8>)
    requires
        a.len() > 0,
        b.len() > 0,
        a[0] == b[0],
        a.drop_first() == b.drop_first(),
    ensures
        a == b,
{
    assert(a.len() == a.drop_first().len() + 1);
    assert(b.len() == b.drop_first().len() + 1);
    assert forall|j: int| 0 <= j < a.len() implies a[j] == b[j] by {
        if j > 0 {
            assert(a[j] == a.drop_first()[j - 1]);
            assert(b[j] == b.drop_first()[j - 1]);
        }
    }
    assert(a =~= b);
}

/// Reading a field byte by byte: after the escape of `b`, what comes next in the
/// field `x` is either its terminator (`b` is all of `x`), or the escape of its next byte.
pub proof fn lemma_scan(b: Seq<u8>, x: Seq<u8>, s: Seq<u8>, r: Seq<u8>)
    requires
        escaped(b) + s == terminated(x) + r,
    ensures
        (b == x && s == seq![0u8, 1u8] + r) || (b.len() < x.len() && b == x.subrange(0, b.len() as int) && (
        (x[b.len() as int] != 0 && s.len() >= 1 && s[0] == x[b.len() as int]) || (x[b.len() as int] == 0
            && s.len() >= 2 && s[0] == 0 && s[1] == 0xff))),
    decreases b.len(),
{
    let lhs = escaped(b) + s;
    if b.len() == 0 {
        assert(lhs =~= s);
        if x.len() == 0 {
            assert(s =~= seq![0u8, 1u8] + r);
            assert(b =~= x);
        } else {
            assert(terminated(x) + r =~= escaped_byte(x[0]) + (escaped(x.drop_first()) + seq![0u8, 1u8] + r));
            assert(b =~= x.subrange(0, 0));
            if x[0] == 0 {
                assert(s[0] == 0 && s[1] == 0xff);
            } else {
                assert(s[0] == x[0]);
            }
        }
    } else {
        assert(lhs =~= escaped_byte(b[0]) + (escaped(b.drop_first()) + s));
        if x.len() == 0 {
            assert(terminated(x) + r =~= seq![0u8, 1u8] + r);
            if b[0] == 0 {
                assert(lhs[1] == 0xff);
            } else {
                assert(lhs[0] == b[0]);
            }
            assert(false);
        } else {
            let rhs = terminated(x) + r;
            assert(rhs =~= escaped_byte(x[0]) + (escaped(x.drop_first()) + seq![0u8, 1u8] + r));
            if b[0] != x[0] {
                if b[0] == 0 {
                    assert(lhs[0] == rhs[0]);
                } else if x[0] == 0 {
                    assert(lhs[0] == rhs[0]);
                } else {
                    assert(lhs[0] == rhs[0]);
                }
                assert(false);
            }
            let k = escaped_byte(b[0]).len() as int;
            assert(lhs.subrange(k, lhs.len() as int) =~= escaped(b.drop_first()) + s);
            assert(rhs.subrange(k, rhs.len() as int) =~= terminated(x.drop_first()) + r);
            lemma_scan(b.drop_first(), x.drop_first(), s, r);
            if b.drop_first() == x.drop_first() {
                lemma_first_and_rest(b, x);
            } else {
                assert(x.subrange(0, b.len() as int).drop_first() =~= x.drop_first().subrange(
                    0,
                    b.drop_first().len() as int,
                ));
                lemma_first_and_rest(b, x.subrange(0, b.len() as int));
                assert(x[b.len() as int] == x.drop_first()[b.drop_first().len() as int]);
            }
        }
    }
}

/// A common prefix does not change the order of two sequences.
pub proof fn lemma_lex_prefix(p: Seq<u8>, a: Seq<u8>, b: Seq<u8>)
    requires
        lex_lt(a, b),
    ensures
        lex_lt(p + a, p + b),
{
    let i = choose|i: int| lex_split(a, b, i);
    let j = i + p.len();
    assert((p + a).subrange(0, j) =~= p + a.subrange(0, i));
    assert((p + b).subrange(0, j) =~= p + b.subrange(0, i));
    assert(lex_split(p + a, p + b, j));
}

/// Two fields are ordered as their bytes are, whatever follows them.
pub proof fn lemma_lex_terminated(x: Seq<u8>, y: Seq<u8>, r1: Seq<u8>, r2: Seq<u8>)
    requires
        lex_lt(x, y),
    ensures
        lex_lt(terminated(x) + r1, terminated(y) + r2),
    decreases x.len(),
{
    let a = terminated(x) + r1;
    let b = terminated(y) + r2;
    let i = choose|i: int| lex_split(x, y, i);
    assert(y.len() > 0);
    assert(b =~= escaped_byte(y[0]) + (escaped(y.drop_first()) + seq![0u8, 1u8] + r2));
    if x.len() == 0 {
        assert(a =~= seq![0u8, 1u8] + r1);
        if y[0] == 0 {
            assert(a.subrange(0, 1) =~= b.subrange(0, 1));
            assert(lex_split(a, b, 1));
        } else {
            assert(a.subrange(0, 0) =~= b.subrange(0, 0));
            assert(lex_split(a, b, 0));
        }
    } else {
        assert(a =~= escaped_byte(x[0]) + (escaped(x.drop_first()) + seq![0u8, 1u8] + r1));
        if i == 0 {
            assert(x[0] < y[0]);
            assert(a.subrange(0, 0) =~= b.subrange(0, 0));
            assert(lex_split(a, b, 0));
        } else {
            assert(x.subrange(0, i)[0] == y.subrange(0, i)[0]);
            assert(x[0] == y[0]);
            assert(x.drop_first().subrange(0, i - 1) =~= x.subrange(0, i).drop_first());
            assert(y.drop_first().subrange(0, i - 1) =~= y.subrange(0, i).drop_first());
            assert(lex_split(x.drop_first(), y.drop_first(), i - 1));
            lemma_lex_terminated(x.drop_first(), y.drop_first(), r1, r2);
            assert(terminated(x.drop_first()) + r1 =~= escaped(x.drop_first()) + seq![0u8, 1u8] + r1);
            assert(terminated(y.drop_first()) + r2 =~= escaped(y.drop_first()) + seq![0u8, 1u8] + r2);
            lemma_lex_prefix(escaped_byte(x[0]), terminated(x.drop_first()) + r1, terminated(y.drop_first()) + r2);
        }
    }
}

/// Where one field followed by `r1` is a prefix of another followed by `r2`, the
/// two fields are equal and `r1` is a prefix of `r2`.
pub proof fn lemma_terminated_prefix(x: Seq<u8>, y: Seq<u8>, r1: Seq<u8>, r2: Seq<u8>)
    requires
        is_prefix(terminated(x) + r1, terminated(y) + r2),
    ensures
        x == y,
        is_prefix(r1, r2),
    decreases x.len(),
{
    let a = terminated(x) + r1;
    let b = terminated(y) + r2;
    if x.len() == 0 {
        assert(a =~= seq![0u8, 1u8] + r1);
        if y.len() == 0 {
            assert(b =~= seq![0u8, 1u8] + r2);
            lemma_prefix_common(seq![0u8, 1u8], r1, r2);
            assert(x =~= y);
        } else {
            assert(b =~= escaped_byte(y[0]) + (escaped(y.drop_first()) + seq![0u8, 1u8] + r2));
            assert(a[0] == b[0]);
            assert(a[1] == b[1]);
            assert(false);
        }
    } else {
        assert(a =~= escaped_byte(x[0]) + (escaped(x.drop_first()) + seq![0u8, 1u8] + r1));
        if y.len() == 0 {
            assert(b =~= seq![0u8, 1u8] + r2);
            assert(a[0] == b[0]);
            assert(a[1] == b[1]);
            assert(false);
        } else {
            assert(b =~= escaped_byte(y[0]) + (escaped(y.drop_first()) + seq![0u8, 1u8] + r2));
            assert(a[0] == b[0]);
            if x[0] == 0 || y[0] == 0 {
                assert(a[1] == b[1]);
            }
            assert(x[0] == y[0]);
            assert(terminated(x.drop_first()) + r1 =~= escaped(x.drop_first()) + seq![0u8, 1u8] + r1);
            assert(terminated(y.drop_first()) + r2 =~= escaped(y.drop_first()) + seq![0u8, 1u8] + r2);
            lemma_prefix_common(escaped_byte(x[0]), terminated(x.drop_first()) + r1, terminated(y.drop_first()) + r2);
            lemma_terminated_prefix(x.drop_first(), y.drop_first(), r1, r2);
            lemma_first_and_rest(x, y);
        }
    }
}

/// Where `p + a` is a prefix of `p + b`, `a` is a prefix of `b`.
pub proof fn lemma_prefix_common(p: Seq<u8>, a: Seq<u8>, b: Seq<u8>)
    requires
        is_prefix(p + a, p + b),
    ensures
        is_prefix(a, b),
{
    assert forall|i: int| 0 <= i < a.len() implies a[i] == b[i] by {
        assert((p + a)[p.len() + i] == (p + b)[p.len() + i]);
    }
    assert(a =~= b.subrange(0, a.len() as int));
}


/// Byte order is a strict order: never both ways, and never between equal sequences.
pub proof fn lemma_lex_asymmetric(a: Seq<u8>, b: Seq<u8>)
    requires
        lex_lt(a, b),
    ensures
        !lex_lt(b, a),
        a != b,
{
    let i = choose|i: int| lex_split(a, b, i);
    if a == b {
        assert(false);
    }
    if lex_lt(b, a) {
        let j = choose|j: int| lex_split(b, a, j);
        if i < j {
            assert(a.subrange(0, j)[i] == b.subrange(0, j)[i]);
        } else if j < i {
            assert(a.subrange(0, i)[j] == b.subrange(0, i)[j]);
        }
        assert(false);
    }
}

/// Compares two byte strings in byte-lexicographic order.
pub fn compare_bytes(a: &[u8], b: &[u8]) -> (r: core::cmp::Ordering)
    ensures
        r == core::cmp::Ordering::Less ==> lex_lt(a@, b@),
        r == core::cmp::Ordering::Equal ==> a@ == b@,
        r == core::cmp::Ordering::Greater ==> lex_lt(b@, a@),
{
    let mut i: usize = 0;
    while i < a.len() && i < b.len() && a[i] == b[i]
        invariant
            i <= a@.len(),
            i <= b@.len(),
            a@.subrange(0, i as int) == b@.subrange(0, i as int),
        decreases a@.len() - i,
    {
        assert(a@.subrange(0, i + 1) =~= a@.subrange(0, i as int).push(a@[i as int]));
        assert(b@.subrange(0, i + 1) =~= b@.subrange(0, i as int).push(b@[i as int]));
        i = i + 1;
    }
    if i < a.len() && i < b.len() {
        if a[i] < b[i] {
            assert(lex_split(a@, b@, i as int));
            core::cmp::Ordering::Less
        } else {
            assert(lex_split(b@, a@, i as int));
            core::cmp::Ordering::Greater
        }
    } else if i < b.len() {
        assert(lex_split(a@, b@, i as int));
        core::cmp::Ordering::Less
    } else if i < a.len() {
        assert(lex_split(b@, a@, i as int));
        core::cmp::Ordering::Greater
    } else {
        assert(a@ =~= a@.subrange(0, i as int));
        assert(b@ =~= b@.subrange(0, i as int));
        core::cmp::Ordering::Equal
    }
}

} // verus!
