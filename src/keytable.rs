//! Key tables: 256-byte substitutions applied to the bytes of a container as they are read.
use vstd::prelude::*;
use vstd::set_lib::{lemma_len_subset, lemma_map_size, set_int_range, lemma_int_range};

verus! {

/// A key table is a permutation of the byte values.
pub open spec fn is_permutation(k: [u8; 256]) -> bool {
    forall|i: int, j: int| 0 <= i < j < 256 ==> k[i] != k[j]
}

/// Bytes as seen through a key table: `byte_out = key_table[byte_in]`.
pub open spec fn keyed(data: Seq<u8>, k: [u8; 256]) -> Seq<u8> {
    Seq::new(data.len(), |i: int| k[data[i] as int])
}

/// Whether the 256 bytes of `b` from `i` on are pairwise distinct.
pub open spec fn distinct_window(b: Seq<u8>, i: int) -> bool {
    &&& 0 <= i
    &&& i + 256 <= b.len()
    &&& forall|p: int, q: int| i <= p < q < i + 256 ==> b[p] != b[q]
}

/// The identity key table.
pub fn default_keytable() -> (r: [u8; 256])
    ensures
        forall|i: int| 0 <= i < 256 ==> r[i] == i,
        is_permutation(r),
{
    let mut key_table: [u8; 256] = [0; 256];
    let mut i: usize = 0;
    while i < 256
        invariant
            i <= 256,
            forall|j: int| 0 <= j < i ==> key_table[j] == j,
        decreases 256 - i,
    {
        key_table[i] = i as u8;
        i = i + 1;
    }
    key_table
}

/// Substitutes each byte of `data` through the key table.
pub fn apply_keytable(data: &Vec<u8>, key_table: &[u8; 256]) -> (r: Vec<u8>)
    ensures
        r@ == keyed(data@, *key_table),
{
    let mut out: Vec<u8> = Vec::new();
    let mut i: usize = 0;
    while i < data.len()
        invariant
            i <= data@.len(),
            out@ == keyed(data@.subrange(0, i as int), *key_table),
        decreases data@.len() - i,
    {
        out.push(key_table[data[i] as usize]);
        i = i + 1;
        assert(out@ =~= keyed(data@.subrange(0, i as int), *key_table));
    }
    assert(data@.subrange(0, i as int) =~= data@);
    out
}

/// A permutation of the byte values takes every value.
proof fn lemma_permutation_onto(k: [u8; 256], b: int)
    requires
        is_permutation(k),
        0 <= b < 256,
    ensures
        exists|i: int| 0 <= i < 256 && k[i] == b,
{
    let x = set_int_range(0, 256);
    let f = |i: int| k[i] as int;
    lemma_int_range(0, 256);
    let y = x.map(f);
    assert forall|i: int, j: int| x.contains(i) && x.contains(j) && #[trigger] f(i) == #[trigger] f(j) implies i == j by {
        if i < j {
            assert(k[i] != k[j]);
        } else if j < i {
            assert(k[j] != k[i]);
        }
    }
    lemma_map_size(x, y, f);
    if !(exists|i: int| 0 <= i < 256 && k[i] == b) {
        let z = x.remove(b);
        assert(y.subset_of(z)) by {
            assert forall|v: int| y.contains(v) implies z.contains(v) by {
                let i = choose|i: int| x.contains(i) && f(i) == v;
                assert(k[i] as int == v);
            }
        }
        lemma_len_subset(y, z);
    }
}

/// The key table that undoes `key_table`: substituting through one and then the other
/// restores every byte.
pub fn invert_keytable(key_table: &[u8; 256]) -> (r: [u8; 256])
    requires
        is_permutation(*key_table),
    ensures
        forall|b: int| 0 <= b < 256 ==> r[key_table[b] as int] == b,
        forall|b: int| 0 <= b < 256 ==> key_table[r[b] as int] == b,
{
    let mut inverse: [u8; 256] = [0; 256];
    let mut i: usize = 0;
    while i < 256
        invariant
            i <= 256,
            is_permutation(*key_table),
            forall|j: int| 0 <= j < i ==> inverse[key_table[j] as int] == j,
        decreases 256 - i,
    {
        let v = key_table[i] as usize;
        inverse[v] = i as u8;
        i = i + 1;
    }
    assert forall|b: int| 0 <= b < 256 implies key_table[inverse[b] as int] == b by {
        lemma_permutation_onto(*key_table, b);
        let j = choose|j: int| 0 <= j < 256 && key_table[j] == b;
        assert(inverse[key_table[j] as int] == j);
    }
    inverse
}

/// Finds a key table in `buffer`: the first run of 256 pairwise distinct bytes.
pub fn create_keytable(buffer: &Vec<u8>) -> (r: Option<[u8; 256]>)
    ensures
        match r {
            Some(t) => exists|i: int|
                #![trigger distinct_window(buffer@, i)]
                distinct_window(buffer@, i) && (forall|j: int| 0 <= j < i ==> !distinct_window(buffer@, j))
                    && t@ == buffer@.subrange(i, i + 256),
            None => forall|i: int| !distinct_window(buffer@, i),
        },
        r matches Some(t) ==> is_permutation(t),
{
    let len = buffer.len();
    if len < 256 {
        return None;
    }
    let mut i: usize = 0;
    while i <= len - 256
        invariant
            256 <= len == buffer@.len(),
            i <= len - 255,
            forall|j: int| 0 <= j < i ==> !distinct_window(buffer@, j),
        decreases len - 255 - i,
    {
        let mut seen: [bool; 256] = [false; 256];
        let mut p: usize = i;
        let mut distinct = true;
        while p < i + 256
            invariant_except_break
                distinct,
            invariant
                256 <= len == buffer@.len(),
                i + 256 <= len,
                i <= p <= i + 256,
                forall|v: int| 0 <= v < 256 ==> (seen[v] <==> exists|q: int| i <= q < p && buffer@[q] == v),
                forall|q1: int, q2: int| i <= q1 < q2 < p ==> buffer@[q1] != buffer@[q2],
            ensures
                distinct ==> p == i + 256,
                !distinct ==> !distinct_window(buffer@, i as int),
            decreases i + 256 - p,
        {
            let b = buffer[p] as usize;
            if seen[b] {
                let ghost q = choose|q: int| i <= q < p && buffer@[q] == b;
                assert(!distinct_window(buffer@, i as int)) by {
                    assert(buffer@[q] == buffer@[p as int]);
                }
                distinct = false;
                break;
            }
            seen[b] = true;
            p = p + 1;
        }
        if distinct {
            let mut table: [u8; 256] = [0; 256];
            let mut t: usize = 0;
            while t < 256
                invariant
                    i + 256 <= len == buffer@.len(),
                    t <= 256,
                    forall|k: int| 0 <= k < t ==> table[k] == buffer@[i + k],
                decreases 256 - t,
            {
                table[t] = buffer[i + t];
                t = t + 1;
            }
            assert(distinct_window(buffer@, i as int));
            assert(table@ =~= buffer@.subrange(i as int, i + 256));
            return Some(table);
        }
        i = i + 1;
    }
    None
}

} // verus!
