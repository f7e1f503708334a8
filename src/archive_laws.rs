//! Laws relating the container writers to the readers.
use crate::archive::{
    all_bodies_ok, all_names_ok, be16, be16_bytes, be32, be32_bytes, bzip2_reversible,
    codec_choice, compression_by_name, concat, container, file_datas, file_sizes, find_byte,
    fits_fields, header_len, le32_bytes, name_bytes, nsa_bodies, nsa_compression, nsa_tags,
    parse_archive, parse_entries, parse_entry, parse_sar_nsa, records, sar_body, stored_body,
    stored_names, ArchiveType, Compression, EntryView, InputFile,
};
use crate::codecs::{bzip2_decoded, bzip2_encoded};
use crate::keytable::keyed;
use crate::text::shift_jis_decoded;
use vstd::arithmetic::div_mod::{lemma_div_denominator, lemma_fundamental_div_mod, lemma_small_mod};
use vstd::prelude::*;

verus! {

proof fn lemma_be32_round_trip(d: Seq<u8>, p: int, v: nat)
    requires
        0 <= p,
        p + 4 <= d.len(),
        d.subrange(p, p + 4) == be32_bytes(v),
        v <= 0xffff_ffff,
    ensures
        be32(d, p) == v,
{
    assert(d[p] == be32_bytes(v)[0]);
    assert(d[p + 1] == be32_bytes(v)[1]);
    assert(d[p + 2] == be32_bytes(v)[2]);
    assert(d[p + 3] == be32_bytes(v)[3]);
    let x = v as int;
    lemma_fundamental_div_mod(x, 256);
    lemma_fundamental_div_mod(x / 256, 256);
    lemma_fundamental_div_mod(x / 65536, 256);
    lemma_div_denominator(x, 256, 256);
    lemma_div_denominator(x, 65536, 256);
    lemma_small_mod((x / 16777216) as nat, 256);
}

proof fn lemma_be16_round_trip(d: Seq<u8>, v: nat)
    requires
        2 <= d.len(),
        d.subrange(0, 2) == be16_bytes(v),
        v <= 0xffff,
    ensures
        be16(d, 0) == v,
{
    assert(d[0] == be16_bytes(v)[0]);
    assert(d[1] == be16_bytes(v)[1]);
    lemma_fundamental_div_mod(v as int, 256);
    lemma_small_mod(v / 256, 256);
}

/// Searching for a zero from `p` finds the end of a run of nonzero bytes.
proof fn lemma_find_zero(d: Seq<u8>, p: int, m: int)
    requires
        0 <= p,
        0 <= m,
        p + m < d.len(),
        d[p + m] == 0,
        forall|i: int| p <= i < p + m ==> d[i] != 0,
    ensures
        find_byte(d, p, 0) == Some(p + m),
    decreases m,
{
    if m > 0 {
        lemma_find_zero(d, p + 1, m - 1);
    }
}

/// The length of the bodies before body `i`.
pub open spec fn body_start(bodies: Seq<Seq<u8>>, i: int) -> nat {
    concat(bodies.take(i)).len()
}

/// Whether stored names can be read back: no zero byte, valid Shift-JIS and, in an NSA
/// index, a known tag.
pub open spec fn readable(names: Seq<Seq<u8>>, tags: Seq<u8>, nsa: bool) -> bool {
    forall|i: int|
        0 <= i < names.len() ==> {
            &&& !(#[trigger] names[i]).contains(0u8)
            &&& shift_jis_decoded(names[i]) is Some
            &&& nsa ==> nsa_compression(tags[i], shift_jis_decoded(names[i])->0) is Some
        }
}

/// The entries a reader finds in a container written from these names and bodies, the
/// first body at `body + off`.
pub open spec fn expected_entries(
    names: Seq<Seq<u8>>,
    tags: Seq<u8>,
    bodies: Seq<Seq<u8>>,
    sizes: Seq<nat>,
    off: nat,
    body: nat,
    nsa: bool,
) -> Seq<EntryView> {
    Seq::new(
        names.len(),
        |i: int|
            {
                let name = shift_jis_decoded(names[i])->0;
                let c = if nsa {
                    nsa_compression(tags[i], name)->0
                } else {
                    Compression::Raw
                };
                let ds = if !nsa {
                    Some(bodies[i].len())
                } else if c == Compression::Bzip2 || c == Compression::Spb {
                    None
                } else {
                    Some(sizes[i])
                };
                (name, body + off + body_start(bodies, i), bodies[i].len(), ds, c)
            },
    )
}

proof fn lemma_concat_take(bodies: Seq<Seq<u8>>, i: int)
    requires
        1 <= i <= bodies.len(),
    ensures
        concat(bodies.take(i)) == bodies[0] + concat(bodies.drop_first().take(i - 1)),
{
    assert(bodies.take(i).drop_first() =~= bodies.drop_first().take(i - 1));
}

proof fn lemma_concat_one(bodies: Seq<Seq<u8>>)
    requires
        bodies.len() >= 1,
    ensures
        concat(bodies.take(1)) == bodies[0],
{
    let t = bodies.take(1);
    assert(t[0] == bodies[0]);
    assert(t.drop_first() =~= Seq::<Seq<u8>>::empty());
    assert(concat(t.drop_first()) == Seq::<u8>::empty());
    assert(bodies[0] + Seq::<u8>::empty() =~= bodies[0]);
}

proof fn lemma_concat_len_bound(bodies: Seq<Seq<u8>>, i: int)
    requires
        0 <= i < bodies.len(),
    ensures
        body_start(bodies, i) + bodies[i].len() <= concat(bodies).len(),
        concat(bodies.take(i + 1)) == concat(bodies.take(i)) + bodies[i],
    decreases i,
{
    if i == 0 {
        assert(bodies.take(1).drop_first() =~= Seq::<Seq<u8>>::empty());
        assert(bodies.take(0) =~= Seq::<Seq<u8>>::empty());
        lemma_concat_one(bodies);
        lemma_concat_prefix(bodies, 1);
    } else {
        lemma_concat_take(bodies, i);
        lemma_concat_take(bodies, i + 1);
        lemma_concat_len_bound(bodies.drop_first(), i - 1);
        assert(bodies.drop_first()[i - 1] == bodies[i]);
        lemma_concat_prefix(bodies, 1);
        lemma_concat_one(bodies);
        assert(bodies.skip(1) =~= bodies.drop_first());
    }
}

/// The bodies written first are a prefix of all of them.
proof fn lemma_concat_prefix(bodies: Seq<Seq<u8>>, i: int)
    requires
        0 <= i <= bodies.len(),
    ensures
        concat(bodies) == concat(bodies.take(i)) + concat(bodies.skip(i)),
    decreases i,
{
    if i == 0 {
        assert(bodies.take(0) =~= Seq::<Seq<u8>>::empty());
        assert(bodies.skip(0) =~= bodies);
        assert(Seq::<u8>::empty() + concat(bodies) =~= concat(bodies));
    } else {
        lemma_concat_prefix(bodies.drop_first(), i - 1);
        lemma_concat_take(bodies, i);
        assert(bodies.drop_first().skip(i - 1) =~= bodies.skip(i));
        assert(bodies[0] + (concat(bodies.drop_first().take(i - 1)) + concat(bodies.skip(i)))
            =~= bodies[0] + concat(bodies.drop_first().take(i - 1)) + concat(bodies.skip(i)));
    }
}

proof fn lemma_expected_step(
    names: Seq<Seq<u8>>,
    tags: Seq<u8>,
    bodies: Seq<Seq<u8>>,
    sizes: Seq<nat>,
    off: nat,
    body: nat,
    nsa: bool,
)
    requires
        names.len() >= 1,
        names.len() == tags.len(),
        names.len() == bodies.len(),
        names.len() == sizes.len(),
    ensures
        expected_entries(names, tags, bodies, sizes, off, body, nsa) == seq![
            expected_entries(names, tags, bodies, sizes, off, body, nsa)[0],
        ] + expected_entries(
            names.drop_first(),
            tags.drop_first(),
            bodies.drop_first(),
            sizes.drop_first(),
            off + bodies[0].len(),
            body,
            nsa,
        ),
{
    let all = expected_entries(names, tags, bodies, sizes, off, body, nsa);
    let rest = expected_entries(
        names.drop_first(),
        tags.drop_first(),
        bodies.drop_first(),
        sizes.drop_first(),
        off + bodies[0].len(),
        body,
        nsa,
    );
    assert forall|i: int| 1 <= i < names.len() implies all[i] == rest[i - 1] by {
        lemma_concat_take(bodies, i);
    }
    assert(bodies.take(0) =~= Seq::<Seq<u8>>::empty());
    assert(all =~= seq![all[0]] + rest);
}

/// The record length past the name and its terminator.
spec fn fixed_len(nsa: bool) -> int {
    if nsa {
        13
    } else {
        8
    }
}

/// Reading the first index record a writer laid out at `p` gives back its entry.
#[verifier::rlimit(100)]
proof fn lemma_parse_first_record(
    d: Seq<u8>,
    p: int,
    names: Seq<Seq<u8>>,
    tags: Seq<u8>,
    bodies: Seq<Seq<u8>>,
    sizes: Seq<nat>,
    off: nat,
    body: nat,
    nsa: bool,
)
    requires
        0 <= p,
        names.len() >= 1,
        names.len() == tags.len(),
        names.len() == bodies.len(),
        names.len() == sizes.len(),
        readable(names, tags, nsa),
        p + records(names, tags, bodies, sizes, off, nsa).len() <= d.len(),
        d.subrange(p, p + records(names, tags, bodies, sizes, off, nsa).len()) == records(names, tags, bodies, sizes, off, nsa),
        off + concat(bodies).len() <= 0xffff_ffff,
        forall|i: int| 0 <= i < sizes.len() ==> #[trigger] sizes[i] <= 0xffff_ffff,
        body + off + concat(bodies).len() <= usize::MAX,
    ensures
        ({
            let next = p + names[0].len() + 1 + fixed_len(nsa);
            let rest = records(names.drop_first(), tags.drop_first(), bodies.drop_first(), sizes.drop_first(), off + bodies[0].len(), nsa);
            &&& parse_entry(d, p, body, nsa) == Ok::<(EntryView, int), crate::archive::ArchiveError>((
                expected_entries(names, tags, bodies, sizes, off, body, nsa)[0],
                next,
            ))
            &&& next + rest.len() == p + records(names, tags, bodies, sizes, off, nsa).len()
            &&& d.subrange(next, next + rest.len()) == rest
        }),
{
    let r = records(names, tags, bodies, sizes, off, nsa);
    let name = names[0];
    let m = name.len() as int;
    let fixed = if nsa {
        seq![tags[0]] + be32_bytes(off) + be32_bytes(bodies[0].len()) + be32_bytes(sizes[0])
    } else {
        be32_bytes(off) + be32_bytes(bodies[0].len())
    };
    let rest = records(names.drop_first(), tags.drop_first(), bodies.drop_first(), sizes.drop_first(), off + bodies[0].len(), nsa);
    assert(r == name + seq![0u8] + fixed + rest);
    let z = p + m;
    assert(d.subrange(p, z) =~= name) by {
        assert(d.subrange(p, z) =~= r.subrange(0, m));
    }
    assert(d[z] == 0) by {
        assert(d[z] == r[m]);
    }
    assert forall|i: int| p <= i < z implies d[i] != 0 by {
        assert(d[i] == r[i - p]);
        assert(r[i - p] == name[i - p]);
        assert(!names[0].contains(0u8));
        if d[i] == 0 {
            assert(name.contains(0u8));
        }
    }
    lemma_find_zero(d, p, m);
    lemma_concat_prefix(bodies, 1);
    lemma_concat_one(bodies);
    assert(bodies.skip(1) =~= bodies.drop_first());
    assert(bodies.take(0) =~= Seq::<Seq<u8>>::empty());
    let next = z + 1 + fixed.len();
    if nsa {
        assert(d[z + 1] == tags[0]) by {
            assert(d[z + 1] == r[m + 1]);
        }
        assert(d.subrange(z + 2, z + 6) =~= be32_bytes(off)) by {
            assert(d.subrange(z + 2, z + 6) =~= r.subrange(m + 2, m + 6));
        }
        assert(d.subrange(z + 6, z + 10) =~= be32_bytes(bodies[0].len())) by {
            assert(d.subrange(z + 6, z + 10) =~= r.subrange(m + 6, m + 10));
        }
        assert(d.subrange(z + 10, z + 14) =~= be32_bytes(sizes[0])) by {
            assert(d.subrange(z + 10, z + 14) =~= r.subrange(m + 10, m + 14));
        }
        lemma_be32_round_trip(d, z + 2, off);
        lemma_be32_round_trip(d, z + 6, bodies[0].len());
        lemma_be32_round_trip(d, z + 10, sizes[0]);
    } else {
        assert(d.subrange(z + 1, z + 5) =~= be32_bytes(off)) by {
            assert(d.subrange(z + 1, z + 5) =~= r.subrange(m + 1, m + 5));
        }
        assert(d.subrange(z + 5, z + 9) =~= be32_bytes(bodies[0].len())) by {
            assert(d.subrange(z + 5, z + 9) =~= r.subrange(m + 5, m + 9));
        }
        lemma_be32_round_trip(d, z + 1, off);
        lemma_be32_round_trip(d, z + 5, bodies[0].len());
    }
    assert(d.subrange(next, next + rest.len()) =~= rest) by {
        assert(d.subrange(next, next + rest.len()) =~= r.subrange(next - p, next - p + rest.len()));
    }
}

/// Reading the index records a writer laid out at `p` gives back their entries.
proof fn lemma_parse_records(
    d: Seq<u8>,
    p: int,
    names: Seq<Seq<u8>>,
    tags: Seq<u8>,
    bodies: Seq<Seq<u8>>,
    sizes: Seq<nat>,
    off: nat,
    body: nat,
    nsa: bool,
)
    requires
        0 <= p,
        names.len() == tags.len(),
        names.len() == bodies.len(),
        names.len() == sizes.len(),
        readable(names, tags, nsa),
        p + records(names, tags, bodies, sizes, off, nsa).len() <= d.len(),
        d.subrange(p, p + records(names, tags, bodies, sizes, off, nsa).len()) == records(names, tags, bodies, sizes, off, nsa),
        off + concat(bodies).len() <= 0xffff_ffff,
        forall|i: int| 0 <= i < sizes.len() ==> #[trigger] sizes[i] <= 0xffff_ffff,
        body + off + concat(bodies).len() <= usize::MAX,
    ensures
        parse_entries(d, p, names.len(), body, nsa) == Ok::<(Seq<EntryView>, int), crate::archive::ArchiveError>((
            expected_entries(names, tags, bodies, sizes, off, body, nsa),
            p + records(names, tags, bodies, sizes, off, nsa).len(),
        )),
    decreases names.len(),
{
    if names.len() == 0 {
        assert(expected_entries(names, tags, bodies, sizes, off, body, nsa) =~= Seq::<EntryView>::empty());
    } else {
        lemma_parse_first_record(d, p, names, tags, bodies, sizes, off, body, nsa);
        let next = p + names[0].len() + 1 + fixed_len(nsa);
        lemma_concat_prefix(bodies, 1);
        lemma_concat_one(bodies);
        assert(bodies.skip(1) =~= bodies.drop_first());
        assert(readable(names.drop_first(), tags.drop_first(), nsa)) by {
            assert forall|i: int| 0 <= i < names.drop_first().len() implies {
                &&& !(#[trigger] names.drop_first()[i]).contains(0u8)
                &&& shift_jis_decoded(names.drop_first()[i]) is Some
                &&& nsa ==> nsa_compression(tags.drop_first()[i], shift_jis_decoded(names.drop_first()[i])->0) is Some
            } by {
                assert(names.drop_first()[i] == names[i + 1]);
                assert(tags.drop_first()[i] == tags[i + 1]);
            }
        }
        assert forall|i: int| 0 <= i < sizes.drop_first().len() implies #[trigger] sizes.drop_first()[i] <= 0xffff_ffff by {
            assert(sizes.drop_first()[i] == sizes[i + 1]);
        }
        lemma_parse_records(
            d,
            next,
            names.drop_first(),
            tags.drop_first(),
            bodies.drop_first(),
            sizes.drop_first(),
            off + bodies[0].len(),
            body,
            nsa,
        );
        lemma_expected_step(names, tags, bodies, sizes, off, body, nsa);
    }
}

proof fn lemma_records_len(names: Seq<Seq<u8>>, tags: Seq<u8>, bodies: Seq<Seq<u8>>, sizes: Seq<nat>, off: nat, nsa: bool)
    ensures
        records(names, tags, bodies, sizes, off, nsa).len() + 6 == header_len(names, nsa),
    decreases names.len(),
{
    if names.len() > 0 {
        lemma_records_len(names.drop_first(), tags.drop_first(), bodies.drop_first(), sizes.drop_first(), off + bodies[0].len(), nsa);
    }
}

/// Reading a container that a writer laid out gives back, in order, each entry's name as
/// its stored bytes decode, an offset and size that frame exactly the body written for it,
/// and, in an NSA index, the compression its tag names.
pub proof fn lemma_container_round_trip(
    names: Seq<Seq<u8>>,
    tags: Seq<u8>,
    bodies: Seq<Seq<u8>>,
    sizes: Seq<nat>,
    base: nat,
    nsa: bool,
)
    requires
        names.len() <= 0xffff,
        names.len() == tags.len(),
        names.len() == bodies.len(),
        names.len() == sizes.len(),
        readable(names, tags, nsa),
        fits_fields(bodies, sizes, header_len(names, nsa) + base),
        header_len(names, nsa) + base + concat(bodies).len() <= usize::MAX,
    ensures
        ({
            let d = container(names, tags, bodies, sizes, base, nsa);
            let start = header_len(names, nsa) + base;
            &&& d.len() == start + concat(bodies).len()
            &&& parse_sar_nsa(d, 0, nsa) == Ok::<(Seq<EntryView>, nat), crate::archive::ArchiveError>((
                expected_entries(names, tags, bodies, sizes, 0, start, nsa),
                start,
            ))
            &&& forall|i: int|
                0 <= i < names.len() ==> d.subrange(
                    (start + body_start(bodies, i)) as int,
                    (start + body_start(bodies, i) + bodies[i].len()) as int,
                ) == #[trigger] bodies[i]
        }),
{
    let d = container(names, tags, bodies, sizes, base, nsa);
    let hl = header_len(names, nsa);
    let start = hl + base;
    let r = records(names, tags, bodies, sizes, 0, nsa);
    let zeros = Seq::new(base, |i: int| 0u8);
    let all = concat(bodies);
    lemma_records_len(names, tags, bodies, sizes, 0, nsa);
    assert(d == be16_bytes(names.len()) + be32_bytes(start) + r + zeros + all);
    assert(d.subrange(0, 2) =~= be16_bytes(names.len()));
    assert(d.subrange(2, 6) =~= be32_bytes(start));
    assert(d.subrange(6, 6 + r.len() as int) =~= r);
    assert(d.subrange(start as int, (start + all.len()) as int) =~= all);
    lemma_be16_round_trip(d, names.len());
    lemma_be32_round_trip(d, 2, start);
    assert(sar_body(d, 0) == start);
    lemma_parse_records(d, 6, names, tags, bodies, sizes, 0, start, nsa);
    assert forall|i: int| 0 <= i < names.len() implies d.subrange(
        (start + body_start(bodies, i)) as int,
        (start + body_start(bodies, i) + bodies[i].len()) as int,
    ) == #[trigger] bodies[i] by {
        lemma_concat_len_bound(bodies, i);
        lemma_concat_prefix(bodies, i + 1);
        let s = body_start(bodies, i) as int;
        assert(all.subrange(s, s + bodies[i].len()) =~= bodies[i]) by {
            assert(concat(bodies.take(i + 1)) == concat(bodies.take(i)) + bodies[i]);
            assert(all == concat(bodies.take(i + 1)) + concat(bodies.skip(i + 1)));
        }
        assert(d.subrange(start + s, start + s + bodies[i].len()) =~= all.subrange(s, s + bodies[i].len()));
    }
}

/// Through the identity key table, bytes read as they are.
pub proof fn lemma_identity_keyed(d: Seq<u8>, key_table: [u8; 256])
    requires
        forall|b: int| 0 <= b < 256 ==> key_table[b] == b,
    ensures
        keyed(d, key_table) == d,
{
    assert(keyed(d, key_table) =~= d);
}

/// Bytes stored through the inverse of a key table read back, through the key table, as
/// they were; so an archive whose bytes were all stored that way opens, through the key
/// table, as the plain archive opens through the identity table.
pub proof fn lemma_keytable_round_trip(key_table: [u8; 256], inverse: [u8; 256], d: Seq<u8>)
    requires
        forall|b: int| 0 <= b < 256 ==> key_table[inverse[b] as int] == b,
    ensures
        keyed(keyed(d, inverse), key_table) == d,
        forall|t: ArchiveType, base: nat| parse_archive(keyed(keyed(d, inverse), key_table), t, base) == parse_archive(d, t, base),
{
    assert(keyed(keyed(d, inverse), key_table) =~= d);
}

proof fn lemma_stored_names_readable(files: Seq<InputFile>, tags: Seq<u8>, nsa: bool)
    requires
        all_names_ok(files),
        tags.len() == files.len(),
        forall|i: int| 0 <= i < files.len() ==> shift_jis_decoded(#[trigger] stored_names(files)[i]) is Some,
        nsa ==> forall|i: int| 0 <= i < files.len() ==> nsa_compression(#[trigger] tags[i], shift_jis_decoded(stored_names(files)[i])->0) is Some,
    ensures
        readable(stored_names(files), tags, nsa),
{
    assert forall|i: int| 0 <= i < stored_names(files).len() implies {
        &&& !(#[trigger] stored_names(files)[i]).contains(0u8)
        &&& shift_jis_decoded(stored_names(files)[i]) is Some
        &&& nsa ==> nsa_compression(tags[i], shift_jis_decoded(stored_names(files)[i])->0) is Some
    } by {
        assert(name_bytes(files[i].name@) is Some);
        assert(shift_jis_decoded(stored_names(files)[i]) is Some);
        if nsa {
            assert(nsa_compression(tags[i], shift_jis_decoded(stored_names(files)[i])->0) is Some);
        }
    }
}

/// Writing files to a SAR container and reading it back through the identity key table
/// gives back, in order, each file: its name as its stored Shift-JIS bytes decode, and its
/// bytes as the body that a raw read of the entry returns.
pub proof fn lemma_sar_round_trip(files: Seq<InputFile>, key_table: [u8; 256])
    requires
        files.len() <= 0xffff,
        all_names_ok(files),
        forall|i: int| 0 <= i < files.len() ==> shift_jis_decoded(#[trigger] stored_names(files)[i]) is Some,
        fits_fields(file_datas(files), file_sizes(files), header_len(stored_names(files), false)),
        header_len(stored_names(files), false) + concat(file_datas(files)).len() <= usize::MAX,
        forall|b: int| 0 <= b < 256 ==> key_table[b] == b,
    ensures
        ({
            let d = container(stored_names(files), Seq::new(files.len(), |i: int| 0u8), file_datas(files), file_sizes(files), 0, false);
            match parse_archive(keyed(d, key_table), ArchiveType::SAR, 0) {
                Ok((es, start)) => es.len() == files.len() && forall|i: int|
                    0 <= i < files.len() ==> {
                        &&& (#[trigger] es[i]).0 == shift_jis_decoded(stored_names(files)[i])->0
                        &&& es[i].4 == Compression::Raw
                        &&& es[i].1 + es[i].2 <= d.len()
                        &&& keyed(d, key_table).subrange(es[i].1 as int, (es[i].1 + es[i].2) as int) == files[i].data@
                    },
                Err(_) => false,
            }
        }),
{
    let names = stored_names(files);
    let tags = Seq::new(files.len(), |i: int| 0u8);
    let datas = file_datas(files);
    let sizes = file_sizes(files);
    let d = container(names, tags, datas, sizes, 0, false);
    lemma_identity_keyed(d, key_table);
    lemma_stored_names_readable(files, tags, false);
    lemma_container_round_trip(names, tags, datas, sizes, 0, false);
    let start = header_len(names, false);
    let es = expected_entries(names, tags, datas, sizes, 0, start, false);
    assert forall|i: int| 0 <= i < files.len() implies {
        &&& (#[trigger] es[i]).0 == shift_jis_decoded(names[i])->0
        &&& es[i].4 == Compression::Raw
        &&& es[i].1 + es[i].2 <= d.len()
        &&& d.subrange(es[i].1 as int, (es[i].1 + es[i].2) as int) == files[i].data@
    } by {
        lemma_concat_len_bound(datas, i);
        assert(datas[i] == files[i].data@);
        assert(es[i].1 == start + body_start(datas, i));
        assert(es[i].2 == datas[i].len());
        assert(d.subrange((start + body_start(datas, i)) as int, (start + body_start(datas, i) + datas[i].len()) as int) == datas[i]);
    }
}

/// Writing files to an NSA container without SPB and reading it back through the identity
/// key table gives back, in order, each file: its name as its stored Shift-JIS bytes decode;
/// and, for a file the flags store as bzip2 (a wave or bitmap file when `bzip2` is set), an
/// entry tagged bzip2 whose body, past its four-byte size, decompresses to the file; for any
/// other file, a raw entry whose body is the file. Names that an extension would turn into
/// another codec on reading (`.nbz`, `.spb`) are left out for files stored raw.
#[verifier::rlimit(100)]
pub proof fn lemma_nsa_round_trip(files: Seq<InputFile>, bzip2: bool, base: nat, key_table: [u8; 256])
    requires
        files.len() <= 0xffff,
        all_names_ok(files),
        all_bodies_ok(files, bzip2, false),
        bzip2_reversible(files, bzip2, false),
        forall|i: int| 0 <= i < files.len() ==> shift_jis_decoded(#[trigger] stored_names(files)[i]) is Some,
        forall|i: int|
            0 <= i < files.len() && codec_choice(files[i].data@, bzip2, false) == Compression::Raw
                ==> compression_by_name(shift_jis_decoded(#[trigger] stored_names(files)[i])->0) == Compression::Raw,
        fits_fields(nsa_bodies(files, bzip2, false), file_sizes(files), header_len(stored_names(files), true) + base),
        header_len(stored_names(files), true) + base + concat(nsa_bodies(files, bzip2, false)).len() <= usize::MAX,
        forall|b: int| 0 <= b < 256 ==> key_table[b] == b,
    ensures
        ({
            let bodies = nsa_bodies(files, bzip2, false);
            let d = container(stored_names(files), nsa_tags(files, bzip2, false), bodies, file_sizes(files), base, true);
            match parse_archive(keyed(d, key_table), ArchiveType::NSA, 0) {
                Ok((es, start)) => es.len() == files.len() && forall|i: int|
                    0 <= i < files.len() ==> {
                        let stored = keyed(d, key_table).subrange(es[i].1 as int, (es[i].1 + es[i].2) as int);
                        &&& (#[trigger] es[i]).0 == shift_jis_decoded(stored_names(files)[i])->0
                        &&& es[i].1 + es[i].2 <= d.len()
                        &&& if codec_choice(files[i].data@, bzip2, false) == Compression::Bzip2 {
                            &&& es[i].4 == Compression::Bzip2
                            &&& stored.len() >= 4
                            &&& bzip2_decoded(stored.subrange(4, stored.len() as int)) == Some(files[i].data@)
                        } else {
                            es[i].4 == Compression::Raw && stored == files[i].data@
                        }
                    },
                Err(_) => false,
            }
        }),
{
    let names = stored_names(files);
    let tags = nsa_tags(files, bzip2, false);
    let bodies = nsa_bodies(files, bzip2, false);
    let sizes = file_sizes(files);
    let d = container(names, tags, bodies, sizes, base, true);
    lemma_identity_keyed(d, key_table);
    assert forall|i: int| 0 <= i < files.len() implies nsa_compression(#[trigger] tags[i], shift_jis_decoded(names[i])->0) is Some by {
        assert(stored_body(files[i], codec_choice(files[i].data@, bzip2, false)) is Some);
    }
    lemma_stored_names_readable(files, tags, true);
    lemma_container_round_trip(names, tags, bodies, sizes, base, true);
    let start = header_len(names, true) + base;
    let es = expected_entries(names, tags, bodies, sizes, 0, start, true);
    assert forall|i: int| 0 <= i < files.len() implies {
        let stored = d.subrange(es[i].1 as int, (es[i].1 + es[i].2) as int);
        &&& (#[trigger] es[i]).0 == shift_jis_decoded(names[i])->0
        &&& es[i].1 + es[i].2 <= d.len()
        &&& if codec_choice(files[i].data@, bzip2, false) == Compression::Bzip2 {
            &&& es[i].4 == Compression::Bzip2
            &&& stored.len() >= 4
            &&& bzip2_decoded(stored.subrange(4, stored.len() as int)) == Some(files[i].data@)
        } else {
            es[i].4 == Compression::Raw && stored == files[i].data@
        }
    } by {
        lemma_concat_len_bound(bodies, i);
        let c = codec_choice(files[i].data@, bzip2, false);
        assert(stored_body(files[i], c) is Some);
        assert(es[i].1 == start + body_start(bodies, i));
        assert(es[i].2 == bodies[i].len());
        assert(d.subrange((start + body_start(bodies, i)) as int, (start + body_start(bodies, i) + bodies[i].len()) as int) == bodies[i]);
        let stored = d.subrange(es[i].1 as int, (es[i].1 + es[i].2) as int);
        assert(stored == bodies[i]);
        if c == Compression::Bzip2 {
            let z = bzip2_encoded(files[i].data@)->0;
            assert(bodies[i] == le32_bytes(files[i].data@.len()) + z);
            assert(stored.subrange(4, stored.len() as int) =~= z);
        }
    }
}

} // verus!
