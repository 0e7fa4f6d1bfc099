//! The byte order of names, which is how `str` values compare.

use vstd::prelude::*;
use vstd::utf8::encode_utf8;

verus! {

/// `a` comes before `b` in the lexicographic order of byte strings.
pub open spec fn bytes_less(a: Seq<u8>, b: Seq<u8>) -> bool
    decreases a.len(),
{
    if a.len() == 0 {
        b.len() > 0
    } else if b.len() == 0 {
        false
    } else if a[0] < b[0] {
        true
    } else if a[0] > b[0] {
        false
    } else {
        bytes_less(a.drop_first(), b.drop_first())
    }
}

/// No byte string comes before itself.
pub proof fn lemma_bytes_less_irreflexive(a: Seq<u8>)
    ensures
        !bytes_less(a, a),
    decreases a.len(),
{
    if a.len() > 0 {
        lemma_bytes_less_irreflexive(a.drop_first());
    }
}

/// Of two different byte strings, exactly one comes before the other.
pub proof fn lemma_bytes_less_trichotomy(a: Seq<u8>, b: Seq<u8>)
    ensures
        a != b ==> (bytes_less(a, b) != bytes_less(b, a)),
        a == b ==> !bytes_less(a, b),
    decreases a.len(),
{
    if a.len() == 0 && b.len() == 0 {
        assert(a =~= b);
    }
    if a == b {
        lemma_bytes_less_irreflexive(a);
    } else if a.len() > 0 && b.len() > 0 && a[0] == b[0] {
        if a.drop_first() == b.drop_first() {
            assert(a =~= seq![a[0]] + a.drop_first());
            assert(b =~= seq![b[0]] + b.drop_first());
        }
        lemma_bytes_less_trichotomy(a.drop_first(), b.drop_first());
    }
}

/// The order of byte strings is transitive.
pub proof fn lemma_bytes_less_transitive(a: Seq<u8>, b: Seq<u8>, c: Seq<u8>)
    requires
        bytes_less(a, b),
        bytes_less(b, c),
    ensures
        bytes_less(a, c),
    decreases a.len(),
{
    if a.len() > 0 && b.len() > 0 && c.len() > 0 && a[0] == b[0] && b[0] == c[0] {
        lemma_bytes_less_transitive(a.drop_first(), b.drop_first(), c.drop_first());
    }
}

/// Compares two names by their UTF-8 bytes: whether `a` comes first, and
/// whether they are equal.
pub fn compare_name_bytes(a: &str, b: &str) -> (r: (bool, bool))
    ensures
        r.0 == bytes_less(encode_utf8(a@), encode_utf8(b@)),
        r.1 == (encode_utf8(a@) == encode_utf8(b@)),
{
    let x = a.as_bytes();
    let y = b.as_bytes();
    let ghost xs = x@;
    let ghost ys = y@;
    assert(xs == encode_utf8(a@));
    assert(ys == encode_utf8(b@));
    let mut i: usize = 0;
    assert(xs.skip(0) =~= xs);
    assert(ys.skip(0) =~= ys);
    while i < x.len() && i < y.len()
        invariant
            xs == x@,
            xs == encode_utf8(a@),
            ys == encode_utf8(b@),
            ys == y@,
            i <= xs.len(),
            i <= ys.len(),
            xs.take(i as int) == ys.take(i as int),
            bytes_less(xs, ys) == bytes_less(xs.skip(i as int), ys.skip(i as int)),
        decreases xs.len() - i,
    {
        assert(xs.skip(i as int)[0] == xs[i as int]);
        assert(ys.skip(i as int)[0] == ys[i as int]);
        assert(xs.skip(i as int).len() > 0 && ys.skip(i as int).len() > 0);
        if x[i] != y[i] {
            proof {
                if xs == ys {
                    assert(xs[i as int] == ys[i as int]);
                }
            }
            return (x[i] < y[i], false);
        }
        assert(xs.skip(i as int).drop_first() =~= xs.skip(i + 1));
        assert(ys.skip(i as int).drop_first() =~= ys.skip(i + 1));
        assert(xs.take(i + 1) =~= xs.take(i as int).push(xs[i as int]));
        assert(ys.take(i + 1) =~= ys.take(i as int).push(ys[i as int]));
        i = i + 1;
    }
    proof {
        if i == xs.len() && i == ys.len() {
            assert(xs =~= xs.take(i as int));
            assert(ys =~= ys.take(i as int));
        }
        if xs == ys {
            assert(xs.len() == ys.len());
        }
    }
    (i == x.len() && i < y.len(), i == x.len() && i == y.len())
}

} // verus!
