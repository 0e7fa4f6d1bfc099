//! The order of the file tree: folders before files, then by name.

use crate::files::names::{bytes_less, compare_name_bytes, lemma_bytes_less_transitive, lemma_bytes_less_trichotomy};
use crate::files::sort::sorted;
use crate::files::FileEntry;
use std::cmp::Ordering;
use vstd::prelude::*;
use vstd::utf8::{encode_utf8, encode_utf8_decode_utf8};

verus! {

/// `Less`, `Equal` or `Greater` turned round.
pub open spec fn reversed(o: Ordering) -> Ordering {
    match o {
        Ordering::Less => Ordering::Greater,
        Ordering::Equal => Ordering::Equal,
        Ordering::Greater => Ordering::Less,
    }
}

/// The lexicographic order of byte strings, which is how `str` values compare.
pub open spec fn bytes_order(a: Seq<u8>, b: Seq<u8>) -> Ordering {
    if a == b {
        Ordering::Equal
    } else if bytes_less(a, b) {
        Ordering::Less
    } else {
        Ordering::Greater
    }
}

/// What an entry is sorted by: whether it is a file, and the UTF-8 bytes of its name.
pub open spec fn entry_key(e: FileEntry) -> (bool, Seq<u8>) {
    match e {
        FileEntry::Dir { name, .. } => (false, encode_utf8(name@)),
        FileEntry::File { name, .. } => (true, encode_utf8(name@)),
    }
}

pub open spec fn key_order(a: (bool, Seq<u8>), b: (bool, Seq<u8>)) -> Ordering {
    if a.0 == b.0 {
        bytes_order(a.1, b.1)
    } else if !a.0 {
        Ordering::Less
    } else {
        Ordering::Greater
    }
}

/// The order of entries: folders before files, and entries of one kind by name.
pub open spec fn entry_order(a: FileEntry, b: FileEntry) -> Ordering {
    key_order(entry_key(a), entry_key(b))
}

/// `a` may stand before `b`.
pub open spec fn entry_le(a: FileEntry, b: FileEntry) -> bool {
    entry_order(a, b) != Ordering::Greater
}

/// Comparing the other way round gives the reversed result.
pub proof fn lemma_bytes_order_antisymmetric(a: Seq<u8>, b: Seq<u8>)
    ensures
        bytes_order(b, a) == reversed(bytes_order(a, b)),
{
    lemma_bytes_less_trichotomy(a, b);
}

/// The order of byte strings is transitive.
pub proof fn lemma_bytes_order_transitive(a: Seq<u8>, b: Seq<u8>, c: Seq<u8>)
    requires
        bytes_order(a, b) != Ordering::Greater,
        bytes_order(b, c) != Ordering::Greater,
    ensures
        bytes_order(a, c) != Ordering::Greater,
        bytes_order(a, b) == Ordering::Less || bytes_order(b, c) == Ordering::Less ==> bytes_order(
            a,
            c,
        ) == Ordering::Less,
{
    lemma_bytes_less_trichotomy(a, b);
    lemma_bytes_less_trichotomy(b, c);
    lemma_bytes_less_trichotomy(a, c);
    if bytes_less(a, b) && bytes_less(b, c) {
        lemma_bytes_less_transitive(a, b, c);
    }
    if a == c && a != b {
        lemma_bytes_less_trichotomy(a, b);
    }
}

/// Entries compare `Equal` exactly when they are of one kind and have one name.
pub proof fn lemma_entry_order_equal(a: FileEntry, b: FileEntry)
    ensures
        (entry_order(a, b) == Ordering::Equal) <==> entry_key(a) == entry_key(b),
{
}

/// Entries compare `Equal` exactly when they are of one kind and have one name
/// (as text, not only as bytes).
pub proof fn lemma_entry_key_names(a: FileEntry, b: FileEntry)
    ensures
        entry_key(a) == entry_key(b) <==> (a is Dir == b is Dir && entry_name(a) == entry_name(b)),
{
    encode_utf8_decode_utf8(entry_name(a));
    encode_utf8_decode_utf8(entry_name(b));
}

/// The name of an entry.
pub open spec fn entry_name(e: FileEntry) -> Seq<char> {
    match e {
        FileEntry::Dir { name, .. } => name@,
        FileEntry::File { name, .. } => name@,
    }
}

/// Comparing the other way round gives the reversed result.
pub proof fn lemma_entry_order_antisymmetric(a: FileEntry, b: FileEntry)
    ensures
        entry_order(b, a) == reversed(entry_order(a, b)),
{
    lemma_bytes_order_antisymmetric(entry_key(a).1, entry_key(b).1);
}

/// The order of entries is transitive, and strict where either step is.
pub proof fn lemma_entry_order_transitive(a: FileEntry, b: FileEntry, c: FileEntry)
    requires
        entry_le(a, b),
        entry_le(b, c),
    ensures
        entry_le(a, c),
        entry_order(a, b) == Ordering::Less || entry_order(b, c) == Ordering::Less ==> entry_order(
            a,
            c,
        ) == Ordering::Less,
{
    let (ka, kb, kc) = (entry_key(a), entry_key(b), entry_key(c));
    if ka.0 == kb.0 && kb.0 == kc.0 {
        lemma_bytes_order_transitive(ka.1, kb.1, kc.1);
    }
}

/// Compares two names by their UTF-8 bytes, as `str::cmp` does.
pub fn compare_names(a: &str, b: &str) -> (o: Ordering)
    ensures
        o == bytes_order(encode_utf8(a@), encode_utf8(b@)),
{
    let (less, equal) = compare_name_bytes(a, b);
    if equal {
        Ordering::Equal
    } else if less {
        Ordering::Less
    } else {
        Ordering::Greater
    }
}

/// Folders come before files; entries of one kind are ordered by name.
pub fn compare_entries(a: &FileEntry, b: &FileEntry) -> (o: Ordering)
    ensures
        o == entry_order(*a, *b),
{
    match (a, b) {
        (FileEntry::Dir { .. }, FileEntry::File { .. }) => Ordering::Less,
        (FileEntry::File { .. }, FileEntry::Dir { .. }) => Ordering::Greater,
        (FileEntry::Dir { name: x, .. }, FileEntry::Dir { name: y, .. }) => compare_names(x.as_str(), y.as_str()),
        (FileEntry::File { name: x, .. }, FileEntry::File { name: y, .. }) => compare_names(x.as_str(), y.as_str()),
    }
}

/// Whether `a` may stand before `b`: `compare_entries(a, b)` is not `Greater`.
pub fn placed_before(a: &FileEntry, b: &FileEntry) -> (r: bool)
    ensures
        r == entry_le(*a, *b),
{
    match compare_entries(a, b) {
        Ordering::Greater => false,
        _ => true,
    }
}

/// Of any two entries, one may stand before the other.
pub proof fn lemma_entry_le_total(a: FileEntry, b: FileEntry)
    ensures
        entry_le(a, b) || entry_le(b, a),
{
    lemma_entry_order_antisymmetric(a, b);
}

/// `entry_le` is transitive.
pub proof fn lemma_entry_le_transitive(a: FileEntry, b: FileEntry, c: FileEntry)
    requires
        entry_le(a, b),
        entry_le(b, c),
    ensures
        entry_le(a, c),
{
    lemma_entry_order_transitive(a, b, c);
}

/// An entry strictly before `b` is strictly before anything that `b` may stand before.
pub proof fn lemma_entry_lt_le(x: FileEntry, b: FileEntry, c: FileEntry)
    requires
        !entry_le(b, x),
        entry_le(b, c),
    ensures
        !entry_le(c, x),
{
    lemma_entry_order_antisymmetric(b, x);
    lemma_entry_order_transitive(x, b, c);
    lemma_entry_order_antisymmetric(x, c);
}

/// Entries with one key may stand before each other.
pub proof fn lemma_entry_le_same_key(a: FileEntry, b: FileEntry)
    requires
        entry_key(a) == entry_key(b),
    ensures
        entry_le(a, b),
{
    lemma_entry_order_equal(a, b);
}

/// In a sorted sequence whose entries have distinct kinds or names, every
/// entry compares `Less` than every later one.
pub proof fn lemma_sorted_distinct_strict(s: Seq<FileEntry>)
    requires
        sorted(s),
        forall|i: int, j: int| 0 <= i < j < s.len() ==> entry_key(#[trigger] s[i]) != entry_key(#[trigger] s[j]),
    ensures
        forall|i: int, j: int| 0 <= i < j < s.len() ==> entry_order(#[trigger] s[i], #[trigger] s[j]) == Ordering::Less,
{
    assert forall|i: int, j: int| 0 <= i < j < s.len() implies entry_order(#[trigger] s[i], #[trigger] s[j]) == Ordering::Less by {
        assert(entry_le(s[i], s[j]));
        lemma_entry_order_equal(s[i], s[j]);
    }
}

} // verus!
