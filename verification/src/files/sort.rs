//! A stable sort of file entries by their order.

use crate::files::order::{
    entry_key, entry_le, lemma_entry_le_same_key, lemma_entry_le_total, lemma_entry_le_transitive,
    lemma_entry_lt_le, placed_before,
};
use crate::files::names::{bytes_less, lemma_bytes_less_trichotomy};
use crate::files::FileEntry;
use vstd::prelude::*;
use vstd::utf8::encode_utf8;

verus! {

/// Every entry may stand before every later one.
pub open spec fn sorted(s: Seq<FileEntry>) -> bool {
    forall|i: int, j: int| 0 <= i < j < s.len() ==> entry_le(#[trigger] s[i], #[trigger] s[j])
}

/// In a sorted listing no file stands before a folder, and of two folders,
/// or of two files, the later never has the name whose UTF-8 bytes come
/// first.
pub proof fn lemma_sorted_folders_first_then_names(s: Seq<FileEntry>, i: int, j: int)
    requires
        sorted(s),
        0 <= i < j < s.len(),
    ensures
        !(s[i] is File && s[j] is Dir),
        s[i] is Dir && s[j] is Dir ==> !bytes_less(encode_utf8(s[j]->Dir_name@), encode_utf8(s[i]->Dir_name@)),
        s[i] is File && s[j] is File ==> !bytes_less(encode_utf8(s[j]->File_name@), encode_utf8(s[i]->File_name@)),
{
    assert(entry_le(s[i], s[j]));
    lemma_bytes_less_trichotomy(entry_key(s[i]).1, entry_key(s[j]).1);
}

/// The entries of `s` with key `k` (one kind, one name), in their order in `s`.
pub open spec fn with_key(s: Seq<FileEntry>, k: (bool, Seq<u8>)) -> Seq<FileEntry>
    decreases s.len(),
{
    if s.len() == 0 {
        Seq::empty()
    } else if entry_key(s.last()) == k {
        with_key(s.drop_last(), k).push(s.last())
    } else {
        with_key(s.drop_last(), k)
    }
}

/// Picking out one key distributes over concatenation.
pub proof fn lemma_with_key_append(a: Seq<FileEntry>, b: Seq<FileEntry>, k: (bool, Seq<u8>))
    ensures
        with_key(a + b, k) == with_key(a, k) + with_key(b, k),
    decreases b.len(),
{
    if b.len() == 0 {
        assert(a + b =~= a);
        assert(with_key(a, k) + with_key(b, k) =~= with_key(a, k));
    } else {
        assert((a + b).drop_last() =~= a + b.drop_last());
        assert((a + b).last() == b.last());
        lemma_with_key_append(a, b.drop_last(), k);
        assert(with_key(a + b, k) =~= with_key(a, k) + with_key(b, k));
    }
}

/// An entry of `s` is among the entries that its own key picks out of `s`,
/// and what a key picks out of `s` is in `s`.
pub proof fn lemma_with_key_contains(s: Seq<FileEntry>, k: (bool, Seq<u8>), x: FileEntry)
    ensures
        s.contains(x) && entry_key(x) == k ==> with_key(s, k).contains(x),
        with_key(s, k).contains(x) ==> s.contains(x),
    decreases s.len(),
{
    if s.len() > 0 {
        let rest = s.drop_last();
        lemma_with_key_contains(rest, k, x);
        if s.contains(x) && entry_key(x) == k && s.last() != x {
            let w = choose|w: int| 0 <= w < s.len() && s[w] == x;
            assert(rest[w] == x);
        }
        if entry_key(s.last()) == k {
            assert(with_key(s, k) == with_key(rest, k).push(s.last()));
            if s.last() == x {
                assert(with_key(s, k).last() == x);
            }
            if with_key(s, k).contains(x) && s.last() != x {
                let w = choose|w: int| 0 <= w < with_key(s, k).len() && with_key(s, k)[w] == x;
                assert(with_key(rest, k)[w] == x);
            }
        }
        if with_key(rest, k).contains(x) {
            let w = choose|w: int| 0 <= w < rest.len() && rest[w] == x;
            assert(s[w] == x);
            let v = choose|v: int| 0 <= v < with_key(rest, k).len() && with_key(rest, k)[v] == x;
            assert(with_key(s, k)[v] == x);
        }
    }
}

/// A sequence without key `k` has nothing to pick out.
pub proof fn lemma_with_key_absent(s: Seq<FileEntry>, k: (bool, Seq<u8>))
    requires
        forall|i: int| 0 <= i < s.len() ==> entry_key(#[trigger] s[i]) != k,
    ensures
        with_key(s, k) == Seq::<FileEntry>::empty(),
    decreases s.len(),
{
    if s.len() > 0 {
        lemma_with_key_absent(s.drop_last(), k);
    }
}

/// The first position of `sorted_out` whose entry must stand after `x`, or
/// its length: where `x` goes to keep the order, after any entry equal to it.
fn insertion_point(out: &Vec<FileEntry>, x: &FileEntry) -> (p: usize)
    requires
        sorted(out@),
    ensures
        p <= out@.len(),
        forall|j: int| 0 <= j < p ==> entry_le(#[trigger] out@[j], *x),
        forall|j: int| p <= j < out@.len() ==> !entry_le(#[trigger] out@[j], *x),
{
    let mut p: usize = 0;
    while p < out.len()
        invariant
            sorted(out@),
            p <= out@.len(),
            forall|j: int| 0 <= j < p ==> entry_le(#[trigger] out@[j], *x),
        decreases out@.len() - p,
    {
        if !placed_before(&out[p], x) {
            assert forall|j: int| p <= j < out@.len() implies !entry_le(#[trigger] out@[j], *x) by {
                if j > p {
                    lemma_entry_lt_le(*x, out@[p as int], out@[j]);
                }
            }
            return p;
        }
        p = p + 1;
    }
    p
}

/// Sorts entries by `compare_entries`, keeping entries that compare equal in
/// their given order, as `sort_by` does.
pub fn sort_entries(entries: Vec<FileEntry>) -> (result: Vec<FileEntry>)
    ensures
        sorted(result@),
        forall|k: (bool, Seq<u8>)| #[trigger] with_key(result@, k) == with_key(entries@, k),
        forall|i: int| 0 <= i < result@.len() ==> entries@.contains(#[trigger] result@[i]),
{
    let ghost s = entries@;
    let mut input = entries;
    let mut out: Vec<FileEntry> = Vec::new();
    let ghost mut n: int = 0;
    assert(s.skip(0) =~= s);
    while input.len() > 0
        invariant
            0 <= n <= s.len(),
            input@ == s.skip(n),
            sorted(out@),
            forall|k: (bool, Seq<u8>)| #[trigger] with_key(out@, k) == with_key(s.take(n), k),
            forall|i: int| 0 <= i < out@.len() ==> s.take(n).contains(#[trigger] out@[i]),
        decreases input@.len(),
    {
        let x = input.remove(0);
        assert(x == s[n]);
        let p = insertion_point(&out, &x);
        let ghost old_out = out@;
        out.insert(p, x);
        proof {
            let pi = p as int;
            assert(out@ =~= old_out.take(pi) + seq![x] + old_out.skip(pi));
            // order
            assert forall|i: int, j: int| 0 <= i < j < out@.len() implies entry_le(
                #[trigger] out@[i],
                #[trigger] out@[j],
            ) by {
                if i < pi && j == pi {
                } else if i < pi && j > pi {
                    assert(out@[j] == old_out[j - 1]);
                } else if i == pi && j > pi {
                    assert(out@[j] == old_out[j - 1]);
                    lemma_entry_le_total(old_out[j - 1], x);
                } else if i > pi {
                    assert(out@[i] == old_out[i - 1]);
                    assert(out@[j] == old_out[j - 1]);
                } else {
                    assert(out@[i] == old_out[i]);
                    assert(out@[j] == old_out[j]);
                }
            }
            // stability
            assert(s.take(n + 1).drop_last() =~= s.take(n));
            assert(s.take(n + 1).last() == x);
            assert forall|k: (bool, Seq<u8>)| #[trigger] with_key(out@, k) == with_key(s.take(n + 1), k) by {
                let a = old_out.take(pi);
                let b = old_out.skip(pi);
                assert(with_key(old_out, k) == with_key(s.take(n), k));
                lemma_with_key_append(a + seq![x], b, k);
                lemma_with_key_append(a, seq![x], k);
                lemma_with_key_append(a, b, k);
                assert(old_out =~= a + b);
                assert(seq![x].drop_last() =~= Seq::<FileEntry>::empty());
                assert(seq![x].last() == x);
                assert(with_key(Seq::<FileEntry>::empty(), k) =~= Seq::<FileEntry>::empty());
                if entry_key(x) == k {
                    assert(with_key(seq![x], k) =~= seq![x]);
                    assert(with_key(s.take(n + 1), k) == with_key(s.take(n), k).push(x));
                } else {
                    assert(with_key(seq![x], k) =~= Seq::<FileEntry>::empty());
                    assert(with_key(s.take(n + 1), k) == with_key(s.take(n), k));
                }
                if entry_key(x) == k {
                    assert forall|i: int| 0 <= i < old_out.skip(pi).len() implies entry_key(
                        #[trigger] old_out.skip(pi)[i],
                    ) != k by {
                        if entry_key(old_out.skip(pi)[i]) == k {
                            lemma_entry_le_same_key(old_out[pi + i], x);
                        }
                    }
                    lemma_with_key_absent(old_out.skip(pi), k);
                    assert(with_key(out@, k) =~= with_key(a, k).push(x));
                    assert(with_key(old_out, k) =~= with_key(a, k));
                } else {
                    assert(with_key(out@, k) =~= with_key(a, k) + with_key(b, k));
                }
            }
            // membership
            assert forall|i: int| 0 <= i < out@.len() implies s.take(n + 1).contains(#[trigger] out@[i]) by {
                if i == pi {
                    assert(s.take(n + 1)[n] == x);
                } else {
                    let oi = if i < pi { i } else { i - 1 };
                    assert(out@[i] == old_out[oi]);
                    assert(s.take(n).contains(old_out[oi]));
                    let w = choose|w: int| 0 <= w < s.take(n).len() && s.take(n)[w] == old_out[oi];
                    assert(s.take(n + 1)[w] == old_out[oi]);
                }
            }
            assert(input@ =~= s.skip(n + 1));
            n = n + 1;
        }
    }
    assert(s.take(n) =~= s);
    out
}

} // verus!
