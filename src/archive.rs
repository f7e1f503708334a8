//! The SAR, NSA and NS2 archive containers: an index of named entries and their bodies.
use crate::codecs::{
    bzip2_compress, bzip2_decoded, bzip2_decompress, bzip2_encoded, lzss_decoded, lzss_decompress,
};
use crate::image::{
    decode_spb, encode_spb, lemma_bits_of_bytes_injective, spb_bytes, spb_decode, spb_encode_bits,
    Image,
};
use crate::bits::{bits_of_bytes, padded};
use crate::keytable::keyed;
use crate::text::{
    decode_shift_jis, encode_shift_jis, ends_with, ends_with4, lower_of, lowercase,
    shift_jis_decoded, shift_jis_encoded,
};
use vstd::prelude::*;

verus! {

/// How an entry's body is stored.
#[derive(Clone, Copy, Debug, PartialEq, Eq, Structural)]
pub enum Compression {
    Raw,
    Spb,
    Lzss,
    Bzip2,
}

/// The three container variants.
#[derive(Clone, Copy, Debug, PartialEq, Eq, Structural)]
pub enum ArchiveType {
    SAR,
    NSA,
    NS2,
}

/// Why an archive could not be read or written.
#[derive(Clone, Copy, Debug, PartialEq, Eq, Structural)]
pub enum ArchiveError {
    /// A read ran past the end of the container.
    UnexpectedEof,
    /// A name is not valid Shift-JIS, cannot be written in it, or a quoted name lacks its quote.
    BadString,
    /// An NSA entry carries a compression tag outside {0, 1, 2, 4}.
    UnknownCompressionTag,
    /// More than 65 535 entries were to be written.
    TooManyEntries,
    /// A size or offset does not fit the container's 32-bit fields.
    TooLarge,
    /// An SPB body ends before its image is complete.
    CorruptSpb,
    /// The bzip2 or LZSS codec reported an error.
    CodecFailure,
}

/// An entry of an archive's index.
pub struct ArchiveEntry {
    pub name: String,
    pub offset: usize,
    pub size: usize,
    pub decompressed_size: Option<usize>,
    pub compression: Compression,
}

/// Where an entry's body lies and how it is stored.
pub struct ArchiveEntryInfo {
    pub offset: usize,
    pub size: usize,
    pub decompressed_size: Option<usize>,
    pub compression: Compression,
}

/// An entry as a mathematical value: name, offset, size, decompressed size, compression.
pub type EntryView = (Seq<char>, nat, nat, Option<nat>, Compression);

pub open spec fn opt_nat(o: Option<usize>) -> Option<nat> {
    match o {
        Some(v) => Some(v as nat),
        None => None,
    }
}

impl ArchiveEntry {
    pub open spec fn view(&self) -> EntryView {
        (
            self.name@,
            self.offset as nat,
            self.size as nat,
            opt_nat(self.decompressed_size),
            self.compression,
        )
    }

    /// Where the body lies and how it is stored.
    pub fn info(&self) -> (r: ArchiveEntryInfo)
        ensures
            r.offset == self.offset,
            r.size == self.size,
            r.compression == self.compression,
            r.decompressed_size == self.decompressed_size,
    {
        ArchiveEntryInfo {
            offset: self.offset,
            size: self.size,
            decompressed_size: self.decompressed_size,
            compression: self.compression,
        }
    }
}

/// The parsed directory of an archive.
pub struct ArchiveIndex {
    pub entries: Vec<ArchiveEntry>,
    /// The position at which entry bodies begin.
    pub offset: usize,
}

impl ArchiveIndex {
    pub open spec fn view(&self) -> Seq<EntryView> {
        self.entries@.map_values(|e: ArchiveEntry| e@)
    }

    /// The position of the first entry called `name`.
    pub fn position(&self, name: &String) -> (r: Option<usize>)
        ensures
            match r {
                Some(i) => i < self.entries@.len() && self.entries@[i as int].name@ == name@
                    && forall|j: int| 0 <= j < i ==> self.entries@[j].name@ != name@,
                None => forall|j: int| 0 <= j < self.entries@.len() ==> self.entries@[j].name@ != name@,
            },
    {
        let mut i: usize = 0;
        while i < self.entries.len()
            invariant
                i <= self.entries@.len(),
                forall|j: int| 0 <= j < i ==> self.entries@[j].name@ != name@,
            decreases self.entries@.len() - i,
        {
            if self.entries[i].name == *name {
                return Some(i);
            }
            i = i + 1;
        }
        None
    }
}

// Fixed-width integers.
pub open spec fn be16(d: Seq<u8>, p: int) -> nat {
    (d[p] as nat) * 256 + d[p + 1] as nat
}

pub open spec fn be32(d: Seq<u8>, p: int) -> nat {
    (((d[p] as nat) * 256 + d[p + 1] as nat) * 256 + d[p + 2] as nat) * 256 + d[p + 3] as nat
}

pub open spec fn le32(d: Seq<u8>, p: int) -> nat {
    (((d[p + 3] as nat) * 256 + d[p + 2] as nat) * 256 + d[p + 1] as nat) * 256 + d[p] as nat
}

/// The first position at or after `p` that holds `v`.
pub open spec fn find_byte(d: Seq<u8>, p: int, v: u8) -> Option<int>
    decreases d.len() - p,
{
    if p < 0 || p >= d.len() {
        None
    } else if d[p] == v {
        Some(p)
    } else {
        find_byte(d, p + 1, v)
    }
}

/// The compression a name implies by its extension: `.nbz` for bzip2, `.spb` for SPB.
pub open spec fn compression_by_name(name: Seq<char>) -> Compression {
    let lower = lower_of(name);
    if ends_with(lower, seq!['.', 'n', 'b', 'z']) {
        Compression::Bzip2
    } else if ends_with(lower, seq!['.', 's', 'p', 'b']) {
        Compression::Spb
    } else {
        Compression::Raw
    }
}

/// The compression an NSA tag byte names, with tag 0 deferring to the name's extension.
pub open spec fn nsa_compression(tag: u8, name: Seq<char>) -> Option<Compression> {
    if tag == 0 {
        Some(compression_by_name(name))
    } else if tag == 1 {
        Some(Compression::Spb)
    } else if tag == 2 {
        Some(Compression::Lzss)
    } else if tag == 4 {
        Some(Compression::Bzip2)
    } else {
        None
    }
}

/// One SAR (or, with `nsa`, NSA) index entry at `p`, bodies starting at `body`; with the
/// position after it.
pub open spec fn parse_entry(d: Seq<u8>, p: int, body: nat, nsa: bool) -> Result<(EntryView, int), ArchiveError> {
    match find_byte(d, p, 0) {
        None => Err(ArchiveError::UnexpectedEof),
        Some(z) => match shift_jis_decoded(d.subrange(p, z)) {
            None => Err(ArchiveError::BadString),
            Some(name) => if !nsa {
                if z + 9 > d.len() {
                    Err(ArchiveError::UnexpectedEof)
                } else if body + be32(d, z + 1) > usize::MAX {
                    Err(ArchiveError::UnexpectedEof)
                } else {
                    Ok(((name, body + be32(d, z + 1), be32(d, z + 5), Some(be32(d, z + 5)), Compression::Raw), z + 9))
                }
            } else if z + 2 > d.len() {
                Err(ArchiveError::UnexpectedEof)
            } else {
                match nsa_compression(d[z + 1], name) {
                    None => Err(ArchiveError::UnknownCompressionTag),
                    Some(c) => if z + 14 > d.len() {
                        Err(ArchiveError::UnexpectedEof)
                    } else if body + be32(d, z + 2) > usize::MAX {
                        Err(ArchiveError::UnexpectedEof)
                    } else {
                        let ds = if c == Compression::Bzip2 || c == Compression::Spb {
                            None
                        } else {
                            Some(be32(d, z + 10))
                        };
                        Ok(((name, body + be32(d, z + 2), be32(d, z + 6), ds, c), z + 14))
                    },
                }
            },
        },
    }
}

/// `out` followed by the entries of a parse.
pub open spec fn prepend_entries(out: Seq<EntryView>, r: Result<(Seq<EntryView>, int), ArchiveError>) -> Result<(Seq<EntryView>, int), ArchiveError> {
    match r {
        Ok((rest, p)) => Ok((out + rest, p)),
        Err(e) => Err(e),
    }
}

/// `k` SAR or NSA index entries from `p` on.
pub open spec fn parse_entries(d: Seq<u8>, p: int, k: nat, body: nat, nsa: bool) -> Result<(Seq<EntryView>, int), ArchiveError>
    decreases k,
{
    if k == 0 {
        Ok((Seq::empty(), p))
    } else {
        match parse_entry(d, p, body, nsa) {
            Err(e) => Err(e),
            Ok((e, p2)) => prepend_entries(seq![e], parse_entries(d, p2, (k - 1) as nat, body, nsa)),
        }
    }
}

/// Where the bodies of a SAR or NSA container start, given the caller's base offset.
pub open spec fn sar_body(d: Seq<u8>, base: nat) -> nat {
    be32(d, 2) + base
}

/// The index of a SAR (or, with `nsa`, NSA) container: its entries and where bodies start.
pub open spec fn parse_sar_nsa(d: Seq<u8>, base: nat, nsa: bool) -> Result<(Seq<EntryView>, nat), ArchiveError> {
    if d.len() < 6 {
        Err(ArchiveError::UnexpectedEof)
    } else if sar_body(d, base) > usize::MAX {
        Err(ArchiveError::UnexpectedEof)
    } else {
        match parse_entries(d, 6, be16(d, 0), sar_body(d, base), nsa) {
            Err(e) => Err(e),
            Ok((es, p)) => Ok((es, sar_body(d, base))),
        }
    }
}

// Reading.
/// The byte at `i` through the key table.
fn keyed_at(data: &Vec<u8>, key_table: &[u8; 256], i: usize) -> (r: u8)
    requires
        i < data@.len(),
    ensures
        r == keyed(data@, *key_table)[i as int],
{
    key_table[data[i] as usize]
}

fn read_be32(data: &Vec<u8>, key_table: &[u8; 256], p: usize) -> (r: usize)
    requires
        p + 4 <= data@.len(),
    ensures
        r as nat == be32(keyed(data@, *key_table), p as int),
{
    let _n = data.len();
    let a = keyed_at(data, key_table, p) as usize;
    let b = keyed_at(data, key_table, p + 1) as usize;
    let c = keyed_at(data, key_table, p + 2) as usize;
    let d = keyed_at(data, key_table, p + 3) as usize;
    assert(((a * 256 + b) * 256 + c) * 256 + d <= 0xffff_ffff) by (nonlinear_arith)
        requires
            a < 256,
            b < 256,
            c < 256,
            d < 256,
    ;
    ((a * 256 + b) * 256 + c) * 256 + d
}

fn read_le32(data: &Vec<u8>, key_table: &[u8; 256], p: usize) -> (r: usize)
    requires
        p + 4 <= data@.len(),
    ensures
        r as nat == le32(keyed(data@, *key_table), p as int),
{
    let _n = data.len();
    let a = keyed_at(data, key_table, p + 3) as usize;
    let b = keyed_at(data, key_table, p + 2) as usize;
    let c = keyed_at(data, key_table, p + 1) as usize;
    let d = keyed_at(data, key_table, p) as usize;
    assert(((a * 256 + b) * 256 + c) * 256 + d <= 0xffff_ffff) by (nonlinear_arith)
        requires
            a < 256,
            b < 256,
            c < 256,
            d < 256,
    ;
    ((a * 256 + b) * 256 + c) * 256 + d
}

/// The first position at or after `p` whose keyed byte is `v`.
fn find_keyed(data: &Vec<u8>, key_table: &[u8; 256], p: usize, v: u8) -> (r: Option<usize>)
    ensures
        opt_int(r) == find_byte(keyed(data@, *key_table), p as int, v),
        r matches Some(z) ==> p <= z < data@.len(),
{
    let ghost d = keyed(data@, *key_table);
    let mut i = p;
    while i < data.len()
        invariant
            p <= i,
            find_byte(d, p as int, v) == find_byte(d, i as int, v),
            d == keyed(data@, *key_table),
        decreases data@.len() - i,
    {
        if keyed_at(data, key_table, i) == v {
            return Some(i);
        }
        i = i + 1;
    }
    None
}

pub open spec fn opt_int(o: Option<usize>) -> Option<int> {
    match o {
        Some(v) => Some(v as int),
        None => None,
    }
}

/// The keyed bytes `[p, z)`.
fn keyed_slice(data: &Vec<u8>, key_table: &[u8; 256], p: usize, z: usize) -> (r: Vec<u8>)
    requires
        p <= z <= data@.len(),
    ensures
        r@ == keyed(data@, *key_table).subrange(p as int, z as int),
{
    let mut out: Vec<u8> = Vec::new();
    let mut i = p;
    while i < z
        invariant
            p <= i <= z <= data@.len(),
            out@ == keyed(data@, *key_table).subrange(p as int, i as int),
        decreases z - i,
    {
        out.push(keyed_at(data, key_table, i));
        i = i + 1;
        assert(out@ =~= keyed(data@, *key_table).subrange(p as int, i as int));
    }
    out
}

/// The compression a name implies by its extension.
fn file_compression_by_name(name: &String) -> (r: Compression)
    ensures
        r == compression_by_name(name@),
{
    let lower = lowercase(name.as_str());
    if ends_with4(&lower, '.', 'n', 'b', 'z') {
        Compression::Bzip2
    } else if ends_with4(&lower, '.', 's', 'p', 'b') {
        Compression::Spb
    } else {
        Compression::Raw
    }
}

/// Reads one SAR or NSA index entry at `p`.
fn read_entry(data: &Vec<u8>, key_table: &[u8; 256], p: usize, body: usize, nsa: bool) -> (r: Result<(ArchiveEntry, usize), ArchiveError>)
    ensures
        match r {
            Ok((e, q)) => parse_entry(keyed(data@, *key_table), p as int, body as nat, nsa) == Ok::<(EntryView, int), ArchiveError>((e@, q as int)),
            Err(err) => parse_entry(keyed(data@, *key_table), p as int, body as nat, nsa) == Err::<(EntryView, int), ArchiveError>(err),
        },
{
    let ghost d = keyed(data@, *key_table);
    let z = match find_keyed(data, key_table, p, 0) {
        Some(z) => z,
        None => {
            return Err(ArchiveError::UnexpectedEof);
        },
    };
    let raw = keyed_slice(data, key_table, p, z);
    let name = match decode_shift_jis(raw.as_slice()) {
        Some(s) => s,
        None => {
            return Err(ArchiveError::BadString);
        },
    };
    if !nsa {
        if data.len() - z < 9 {
            return Err(ArchiveError::UnexpectedEof);
        }
        let off = read_be32(data, key_table, z + 1);
        let size = read_be32(data, key_table, z + 5);
        if off > usize::MAX - body {
            return Err(ArchiveError::UnexpectedEof);
        }
        let e = ArchiveEntry {
            name,
            offset: body + off,
            size,
            decompressed_size: Some(size),
            compression: Compression::Raw,
        };
        return Ok((e, z + 9));
    }
    if data.len() - z < 2 {
        return Err(ArchiveError::UnexpectedEof);
    }
    let tag = keyed_at(data, key_table, z + 1);
    let compression = if tag == 0 {
        file_compression_by_name(&name)
    } else if tag == 1 {
        Compression::Spb
    } else if tag == 2 {
        Compression::Lzss
    } else if tag == 4 {
        Compression::Bzip2
    } else {
        return Err(ArchiveError::UnknownCompressionTag);
    };
    if data.len() - z < 14 {
        return Err(ArchiveError::UnexpectedEof);
    }
    let off = read_be32(data, key_table, z + 2);
    let size = read_be32(data, key_table, z + 6);
    let stated = read_be32(data, key_table, z + 10);
    if off > usize::MAX - body {
        return Err(ArchiveError::UnexpectedEof);
    }
    // The decompressed size of bzip2 and SPB bodies is left unknown until they are read.
    let decompressed_size = match compression {
        Compression::Bzip2 | Compression::Spb => None,
        _ => Some(stated),
    };
    let e = ArchiveEntry { name, offset: body + off, size, decompressed_size, compression };
    Ok((e, z + 14))
}

/// NS2 index entries from `p` while `p < body - 1`, the next body starting at `running`.
pub open spec fn parse_ns2_entries(d: Seq<u8>, p: int, body: nat, running: nat) -> Result<(Seq<EntryView>, int), ArchiveError>
    decreases d.len() - p,
{
    if p >= body - 1 {
        Ok((Seq::empty(), p))
    } else if p < 0 || p >= d.len() {
        Err(ArchiveError::UnexpectedEof)
    } else if d[p] != 34 {
        Err(ArchiveError::BadString)
    } else {
        match find_byte(d, p + 1, 34) {
            None => Err(ArchiveError::UnexpectedEof),
            Some(z) => match shift_jis_decoded(d.subrange(p + 1, z)) {
                None => Err(ArchiveError::BadString),
                Some(name) => if z < p + 1 || z + 5 > d.len() {
                    Err(ArchiveError::UnexpectedEof)
                } else if running + le32(d, z + 1) > usize::MAX {
                    Err(ArchiveError::UnexpectedEof)
                } else {
                    let size = le32(d, z + 1);
                    prepend_entries(
                        seq![(name, running, size, None, compression_by_name(name))],
                        parse_ns2_entries(d, z + 5, body, running + size),
                    )
                },
            },
        }
    }
}

/// The index of an NS2 container: its entries and where bodies start.
pub open spec fn parse_ns2(d: Seq<u8>, base: nat) -> Result<(Seq<EntryView>, nat), ArchiveError> {
    if d.len() < 4 {
        Err(ArchiveError::UnexpectedEof)
    } else if le32(d, 0) + base > usize::MAX {
        Err(ArchiveError::UnexpectedEof)
    } else {
        let body = le32(d, 0) + base;
        match parse_ns2_entries(d, 4, body, body) {
            Err(e) => Err(e),
            // The header ends with one byte whose value is not checked.
            Ok((es, p)) => if p >= d.len() {
                Err(ArchiveError::UnexpectedEof)
            } else {
                Ok((es, body))
            },
        }
    }
}

/// The index of a container of the given type, read through its key table.
pub open spec fn parse_archive(d: Seq<u8>, archive_type: ArchiveType, base: nat) -> Result<(Seq<EntryView>, nat), ArchiveError> {
    match archive_type {
        ArchiveType::SAR => parse_sar_nsa(d, base, false),
        ArchiveType::NSA => parse_sar_nsa(d, base, true),
        ArchiveType::NS2 => parse_ns2(d, base),
    }
}

proof fn lemma_prepend_entries(a: Seq<EntryView>, b: Seq<EntryView>, r: Result<(Seq<EntryView>, int), ArchiveError>)
    ensures
        prepend_entries(a, prepend_entries(b, r)) == prepend_entries(a + b, r),
{
    match r {
        Ok((rest, p)) => {
            assert(a + (b + rest) =~= a + b + rest);
        },
        Err(_) => {},
    }
}

proof fn lemma_prepend_empty(r: Result<(Seq<EntryView>, int), ArchiveError>)
    ensures
        prepend_entries(Seq::empty(), r) == r,
{
    match r {
        Ok((rest, p)) => {
            assert(Seq::<EntryView>::empty() + rest =~= rest);
        },
        Err(_) => {},
    }
}

/// The SAR or NSA index.
fn parse_sar_or_nsa_header(data: &Vec<u8>, key_table: &[u8; 256], offset: u32, nsa: bool) -> (r: Result<ArchiveIndex, ArchiveError>)
    ensures
        match r {
            Ok(index) => parse_sar_nsa(keyed(data@, *key_table), offset as nat, nsa) == Ok::<(Seq<EntryView>, nat), ArchiveError>((index@, index.offset as nat)),
            Err(e) => parse_sar_nsa(keyed(data@, *key_table), offset as nat, nsa) == Err::<(Seq<EntryView>, nat), ArchiveError>(e),
        },
{
    let ghost d = keyed(data@, *key_table);
    if data.len() < 6 {
        return Err(ArchiveError::UnexpectedEof);
    }
    let num_of_entries = (keyed_at(data, key_table, 0) as usize) * 256 + keyed_at(data, key_table, 1) as usize;
    let delta = read_be32(data, key_table, 2);
    if delta > usize::MAX - (offset as usize) {
        return Err(ArchiveError::UnexpectedEof);
    }
    let body = delta + offset as usize;
    let mut entries: Vec<ArchiveEntry> = Vec::new();
    let mut p: usize = 6;
    let mut k: usize = 0;
    proof {
        lemma_prepend_empty(parse_entries(d, 6, be16(d, 0), body as nat, nsa));
    }
    while k < num_of_entries
        invariant
            k <= num_of_entries,
            num_of_entries == be16(d, 0),
            d == keyed(data@, *key_table),
            d.len() >= 6,
            body as nat == sar_body(d, offset as nat),
            parse_entries(d, 6, be16(d, 0), body as nat, nsa) == prepend_entries(
                entries@.map_values(|e: ArchiveEntry| e@),
                parse_entries(d, p as int, (num_of_entries - k) as nat, body as nat, nsa),
            ),
        decreases num_of_entries - k,
    {
        let ghost rest = parse_entries(d, p as int, (num_of_entries - k - 1) as nat, body as nat, nsa);
        match read_entry(data, key_table, p, body, nsa) {
            Ok((e, q)) => {
                proof {
                    lemma_prepend_entries(entries@.map_values(|e: ArchiveEntry| e@), seq![e@], parse_entries(d, q as int, (num_of_entries - k - 1) as nat, body as nat, nsa));
                }
                let ghost before = entries@.map_values(|e: ArchiveEntry| e@);
                let ghost ev = e@;
                entries.push(e);
                assert(entries@.map_values(|e: ArchiveEntry| e@) =~= before + seq![ev]);
                p = q;
            },
            Err(err) => {
                assert(parse_entries(d, p as int, (num_of_entries - k) as nat, body as nat, nsa) == Err::<(Seq<EntryView>, int), ArchiveError>(err));
                assert(sar_body(d, offset as nat) == body);
                return Err(err);
            },
        }
        k = k + 1;
    }
    assert(entries@.map_values(|e: ArchiveEntry| e@) + Seq::<EntryView>::empty() =~= entries@.map_values(|e: ArchiveEntry| e@));
    let index = ArchiveIndex { entries, offset: body };
    Ok(index)
}

/// The NS2 index.
fn parse_ns2_header(data: &Vec<u8>, key_table: &[u8; 256], offset: u32) -> (r: Result<ArchiveIndex, ArchiveError>)
    ensures
        match r {
            Ok(index) => parse_ns2(keyed(data@, *key_table), offset as nat) == Ok::<(Seq<EntryView>, nat), ArchiveError>((index@, index.offset as nat)),
            Err(e) => parse_ns2(keyed(data@, *key_table), offset as nat) == Err::<(Seq<EntryView>, nat), ArchiveError>(e),
        },
{
    let ghost d = keyed(data@, *key_table);
    let len = data.len();
    if len < 4 {
        return Err(ArchiveError::UnexpectedEof);
    }
    let delta = read_le32(data, key_table, 0);
    if delta > usize::MAX - (offset as usize) {
        return Err(ArchiveError::UnexpectedEof);
    }
    let offset_of_file_data = delta + offset as usize;
    let mut entries: Vec<ArchiveEntry> = Vec::new();
    let mut p: usize = 4;
    let mut running = offset_of_file_data;
    proof {
        lemma_prepend_empty(parse_ns2_entries(d, 4, offset_of_file_data as nat, offset_of_file_data as nat));
    }
    while offset_of_file_data > 0 && p < offset_of_file_data - 1
        invariant
            d == keyed(data@, *key_table),
            len == data@.len(),
            len >= 4,
            p <= len,
            offset_of_file_data as nat == le32(d, 0) + offset as nat,
            parse_ns2_entries(d, 4, offset_of_file_data as nat, offset_of_file_data as nat) == prepend_entries(
                entries@.map_values(|e: ArchiveEntry| e@),
                parse_ns2_entries(d, p as int, offset_of_file_data as nat, running as nat),
            ),
        decreases len - p,
    {
        if p >= len {
            return Err(ArchiveError::UnexpectedEof);
        }
        if keyed_at(data, key_table, p) != 34u8 {
            return Err(ArchiveError::BadString);
        }
        let z = match find_keyed(data, key_table, p + 1, 34u8) {
            Some(z) => z,
            None => {
                return Err(ArchiveError::UnexpectedEof);
            },
        };
        let raw = keyed_slice(data, key_table, p + 1, z);
        let name = match decode_shift_jis(raw.as_slice()) {
            Some(s) => s,
            None => {
                return Err(ArchiveError::BadString);
            },
        };
        if len - z < 5 {
            return Err(ArchiveError::UnexpectedEof);
        }
        let size = read_le32(data, key_table, z + 1);
        if size > usize::MAX - running {
            return Err(ArchiveError::UnexpectedEof);
        }
        let compression = file_compression_by_name(&name);
        let e = ArchiveEntry { name, offset: running, size, decompressed_size: None, compression };
        let ghost before = entries@.map_values(|e: ArchiveEntry| e@);
        let ghost ev = e@;
        proof {
            lemma_prepend_entries(before, seq![ev], parse_ns2_entries(d, z + 5, offset_of_file_data as nat, (running + size) as nat));
        }
        entries.push(e);
        assert(entries@.map_values(|e: ArchiveEntry| e@) =~= before + seq![ev]);
        p = z + 5;
        running = running + size;
    }
    if p >= len {
        return Err(ArchiveError::UnexpectedEof);
    }
    assert(entries@.map_values(|e: ArchiveEntry| e@) + Seq::<EntryView>::empty() =~= entries@.map_values(|e: ArchiveEntry| e@));
    Ok(ArchiveIndex { entries, offset: offset_of_file_data })
}

/// What an entry holds once read: bytes, or the image of an SPB body.
pub enum EntryData {
    Bytes(Vec<u8>),
    Image(Image),
}

/// The contents of a bzip2 body: a four-byte size, which is not needed, then a bzip2 stream.
pub fn extract_bz2(data: &Vec<u8>) -> (r: Result<Vec<u8>, ArchiveError>)
    ensures
        data@.len() < 4 ==> r == Err::<Vec<u8>, ArchiveError>(ArchiveError::UnexpectedEof),
        data@.len() >= 4 ==> match bzip2_decoded(data@.subrange(4, data@.len() as int)) {
            Some(v) => r matches Ok(b) && b@ == v,
            None => r == Err::<Vec<u8>, ArchiveError>(ArchiveError::CodecFailure),
        },
{
    if data.len() < 4 {
        return Err(ArchiveError::UnexpectedEof);
    }
    let input = slice_of(data, 4, data.len());
    match bzip2_decompress(input.as_slice()) {
        Some(v) => Ok(v),
        None => Err(ArchiveError::CodecFailure),
    }
}

/// An opened container: its bytes, its key table and its parsed index.
pub struct Archive {
    pub data: Vec<u8>,
    pub key_table: [u8; 256],
    pub index: ArchiveIndex,
    pub archive_type: ArchiveType,
}

impl Archive {
    /// Opens a container held in `data`: reads its index through the key table. Bodies start
    /// `offset` bytes later than the header records.
    pub fn open_file(data: Vec<u8>, archive_type: ArchiveType, offset: u32, key_table: [u8; 256]) -> (r: Result<Archive, ArchiveError>)
        ensures
            match r {
                Ok(a) => parse_archive(keyed(data@, key_table), archive_type, offset as nat) == Ok::<(Seq<EntryView>, nat), ArchiveError>((a.index@, a.index.offset as nat))
                    && a.data@ == data@ && a.key_table == key_table && a.archive_type == archive_type,
                Err(e) => parse_archive(keyed(data@, key_table), archive_type, offset as nat) == Err::<(Seq<EntryView>, nat), ArchiveError>(e),
            },
    {
        let parsed = match archive_type {
            ArchiveType::SAR => parse_sar_or_nsa_header(&data, &key_table, offset, false),
            ArchiveType::NSA => parse_sar_or_nsa_header(&data, &key_table, offset, true),
            ArchiveType::NS2 => parse_ns2_header(&data, &key_table, offset),
        };
        match parsed {
            Ok(index) => Ok(Archive { data, key_table, index, archive_type }),
            Err(e) => Err(e),
        }
    }

    /// Reads and decompresses the body an index entry describes.
    pub fn extract(&self, info: ArchiveEntryInfo) -> (r: Result<EntryData, ArchiveError>)
        requires
            8 * self.data@.len() <= usize::MAX,
        ensures
            ({
                let d = self.data@;
                let start = info.offset as int;
                let end = info.offset + info.size;
                if end > d.len() {
                    r == Err::<EntryData, ArchiveError>(ArchiveError::UnexpectedEof)
                } else {
                    let raw = d.subrange(start, end);
                    let plain = keyed(d, self.key_table).subrange(start, end);
                    match info.compression {
                        Compression::Raw => r matches Ok(EntryData::Bytes(v)) && v@ == plain,
                        Compression::Lzss => match lzss_decoded(plain) {
                            Some(v) => r matches Ok(EntryData::Bytes(b)) && b@ == v,
                            None => r == Err::<EntryData, ArchiveError>(ArchiveError::CodecFailure),
                        },
                        Compression::Bzip2 => if info.size < 4 {
                            r == Err::<EntryData, ArchiveError>(ArchiveError::UnexpectedEof)
                        } else {
                            match bzip2_decoded(raw.subrange(4, raw.len() as int)) {
                                Some(v) => r matches Ok(EntryData::Bytes(b)) && b@ == v,
                                None => r == Err::<EntryData, ArchiveError>(ArchiveError::CodecFailure),
                            }
                        },
                        Compression::Spb => match spb_decode(raw) {
                            Some((w, h, px)) => r matches Ok(EntryData::Image(img)) && img.width == w
                                && img.height == h && img.pixel_buffer@ == px,
                            None => r == Err::<EntryData, ArchiveError>(ArchiveError::CorruptSpb),
                        },
                    }
                }
            }),
    {
        if info.size > self.data.len() || info.offset > self.data.len() - info.size {
            return Err(ArchiveError::UnexpectedEof);
        }
        let end = info.offset + info.size;
        match info.compression {
            Compression::Raw => Ok(EntryData::Bytes(keyed_slice(&self.data, &self.key_table, info.offset, end))),
            Compression::Lzss => {
                let input = keyed_slice(&self.data, &self.key_table, info.offset, end);
                match lzss_decompress(input.as_slice()) {
                    Some(v) => Ok(EntryData::Bytes(v)),
                    None => Err(ArchiveError::CodecFailure),
                }
            },
            Compression::Bzip2 => {
                let input = slice_of(&self.data, info.offset, end);
                match extract_bz2(&input) {
                    Ok(v) => Ok(EntryData::Bytes(v)),
                    Err(e) => Err(e),
                }
            },
            Compression::Spb => {
                let input = slice_of(&self.data, info.offset, end);
                match decode_spb(input) {
                    Ok(img) => Ok(EntryData::Image(img)),
                    Err(_) => Err(ArchiveError::CorruptSpb),
                }
            },
        }
    }
}

/// The bytes `[p, z)`, as stored.
fn slice_of(data: &Vec<u8>, p: usize, z: usize) -> (r: Vec<u8>)
    requires
        p <= z <= data@.len(),
    ensures
        r@ == data@.subrange(p as int, z as int),
{
    let mut out: Vec<u8> = Vec::new();
    let mut i = p;
    while i < z
        invariant
            p <= i <= z <= data@.len(),
            out@ == data@.subrange(p as int, i as int),
        decreases z - i,
    {
        out.push(data[i]);
        i = i + 1;
        assert(out@ =~= data@.subrange(p as int, i as int));
    }
    out
}

// Writing.
pub open spec fn be16_bytes(v: nat) -> Seq<u8> {
    seq![((v / 256) % 256) as u8, (v % 256) as u8]
}

pub open spec fn be32_bytes(v: nat) -> Seq<u8> {
    seq![((v / 16777216) % 256) as u8, ((v / 65536) % 256) as u8, ((v / 256) % 256) as u8, (v % 256) as u8]
}

pub open spec fn le32_bytes(v: nat) -> Seq<u8> {
    seq![(v % 256) as u8, ((v / 256) % 256) as u8, ((v / 65536) % 256) as u8, ((v / 16777216) % 256) as u8]
}

/// The index records of a SAR (or, with `nsa`, NSA) container, the first body at `off`.
pub open spec fn records(names: Seq<Seq<u8>>, tags: Seq<u8>, bodies: Seq<Seq<u8>>, sizes: Seq<nat>, off: nat, nsa: bool) -> Seq<u8>
    decreases names.len(),
{
    if names.len() == 0 {
        Seq::empty()
    } else {
        let fixed = if nsa {
            seq![tags[0]] + be32_bytes(off) + be32_bytes(bodies[0].len()) + be32_bytes(sizes[0])
        } else {
            be32_bytes(off) + be32_bytes(bodies[0].len())
        };
        names[0] + seq![0u8] + fixed + records(
            names.drop_first(),
            tags.drop_first(),
            bodies.drop_first(),
            sizes.drop_first(),
            off + bodies[0].len(),
            nsa,
        )
    }
}

/// The bodies one after another.
pub open spec fn concat(bodies: Seq<Seq<u8>>) -> Seq<u8>
    decreases bodies.len(),
{
    if bodies.len() == 0 {
        Seq::empty()
    } else {
        bodies[0] + concat(bodies.drop_first())
    }
}

/// The length of the index of a container with these names.
pub open spec fn header_len(names: Seq<Seq<u8>>, nsa: bool) -> nat
    decreases names.len(),
{
    if names.len() == 0 {
        6
    } else {
        names[0].len() + (if nsa { 14nat } else { 9nat }) + header_len(names.drop_first(), nsa)
    }
}

/// A whole container: count, where bodies start, records, `base` zero bytes, bodies.
pub open spec fn container(names: Seq<Seq<u8>>, tags: Seq<u8>, bodies: Seq<Seq<u8>>, sizes: Seq<nat>, base: nat, nsa: bool) -> Seq<u8> {
    be16_bytes(names.len()) + be32_bytes(header_len(names, nsa) + base) + records(names, tags, bodies, sizes, 0, nsa)
        + Seq::new(base, |i: int| 0u8) + concat(bodies)
}

/// Whether every field of the container fits in 32 bits.
pub open spec fn fits_fields(bodies: Seq<Seq<u8>>, sizes: Seq<nat>, start: nat) -> bool {
    &&& start <= 0xffff_ffff
    &&& forall|i: int| 0 <= i < bodies.len() ==> #[trigger] bodies[i].len() <= 0xffff_ffff
    &&& forall|i: int| 0 <= i < sizes.len() ==> #[trigger] sizes[i] <= 0xffff_ffff
    &&& concat(bodies).len() <= 0xffff_ffff
}

/// The stored form of a name: its Shift-JIS bytes, which must hold no zero byte.
pub open spec fn name_bytes(name: Seq<char>) -> Option<Seq<u8>> {
    match shift_jis_encoded(name) {
        Some(b) => if b.contains(0u8) {
            None
        } else {
            Some(b)
        },
        None => None,
    }
}

/// A file to be stored: its name inside the archive, its bytes, and for a bitmap that may
/// be stored as SPB, its pixels.
pub struct InputFile {
    pub name: String,
    pub data: Vec<u8>,
    pub image: Option<Image>,
}

pub open spec fn all_names_ok(files: Seq<InputFile>) -> bool {
    forall|i: int| 0 <= i < files.len() ==> #[trigger] name_bytes(files[i].name@) is Some
}

pub open spec fn stored_names(files: Seq<InputFile>) -> Seq<Seq<u8>> {
    Seq::new(files.len(), |i: int| name_bytes(files[i].name@)->0)
}

pub open spec fn file_datas(files: Seq<InputFile>) -> Seq<Seq<u8>> {
    Seq::new(files.len(), |i: int| files[i].data@)
}

pub open spec fn file_sizes(files: Seq<InputFile>) -> Seq<nat> {
    Seq::new(files.len(), |i: int| files[i].data@.len())
}

fn push_be32(out: &mut Vec<u8>, v: u32)
    ensures
        final(out)@ == old(out)@ + be32_bytes(v as nat),
{
    out.push((v / 16777216) as u8);
    out.push(((v / 65536) % 256) as u8);
    out.push(((v / 256) % 256) as u8);
    out.push((v % 256) as u8);
    assert(final(out)@ =~= old(out)@ + be32_bytes(v as nat));
}

fn append_bytes(out: &mut Vec<u8>, b: &Vec<u8>)
    ensures
        final(out)@ == old(out)@ + b@,
{
    let mut i: usize = 0;
    while i < b.len()
        invariant
            i <= b@.len(),
            out@ == old(out)@ + b@.subrange(0, i as int),
        decreases b@.len() - i,
    {
        out.push(b[i]);
        i = i + 1;
        assert(out@ =~= old(out)@ + b@.subrange(0, i as int));
    }
    assert(b@.subrange(0, i as int) =~= b@);
}

pub open spec fn views(v: Seq<Vec<u8>>) -> Seq<Seq<u8>> {
    v.map_values(|b: Vec<u8>| b@)
}

pub open spec fn nats(v: Seq<usize>) -> Seq<nat> {
    v.map_values(|x: usize| x as nat)
}

proof fn lemma_header_len_step(names: Seq<Seq<u8>>, i: int, nsa: bool)
    requires
        0 <= i < names.len(),
    ensures
        header_len(names.subrange(i, names.len() as int), nsa) == names[i].len() + (if nsa { 14nat } else { 9nat })
            + header_len(names.subrange(i + 1, names.len() as int), nsa),
{
    assert(names.subrange(i, names.len() as int).drop_first() =~= names.subrange(i + 1, names.len() as int));
}

proof fn lemma_concat_step(bodies: Seq<Seq<u8>>, i: int)
    requires
        0 <= i < bodies.len(),
    ensures
        concat(bodies.subrange(i, bodies.len() as int)) == bodies[i] + concat(bodies.subrange(i + 1, bodies.len() as int)),
{
    assert(bodies.subrange(i, bodies.len() as int).drop_first() =~= bodies.subrange(i + 1, bodies.len() as int));
}

proof fn lemma_records_step(names: Seq<Seq<u8>>, tags: Seq<u8>, bodies: Seq<Seq<u8>>, sizes: Seq<nat>, off: nat, nsa: bool, i: int)
    requires
        0 <= i < names.len(),
        names.len() == tags.len(),
        names.len() == bodies.len(),
        names.len() == sizes.len(),
    ensures
        ({
            let n = names.len() as int;
            let fixed = if nsa {
                seq![tags[i]] + be32_bytes(off) + be32_bytes(bodies[i].len()) + be32_bytes(sizes[i])
            } else {
                be32_bytes(off) + be32_bytes(bodies[i].len())
            };
            records(names.subrange(i, n), tags.subrange(i, n), bodies.subrange(i, n), sizes.subrange(i, n), off, nsa)
                == names[i] + seq![0u8] + fixed + records(
                names.subrange(i + 1, n),
                tags.subrange(i + 1, n),
                bodies.subrange(i + 1, n),
                sizes.subrange(i + 1, n),
                off + bodies[i].len(),
                nsa,
            )
        }),
{
    let n = names.len() as int;
    assert(names.subrange(i, n).drop_first() =~= names.subrange(i + 1, n));
    assert(tags.subrange(i, n).drop_first() =~= tags.subrange(i + 1, n));
    assert(bodies.subrange(i, n).drop_first() =~= bodies.subrange(i + 1, n));
    assert(sizes.subrange(i, n).drop_first() =~= sizes.subrange(i + 1, n));
}

/// Lays out a container; fails where a field does not fit in 32 bits.
fn write_container(names: &Vec<Vec<u8>>, tags: &Vec<u8>, bodies: &Vec<Vec<u8>>, sizes: &Vec<usize>, base: usize, nsa: bool) -> (r: Result<Vec<u8>, ArchiveError>)
    requires
        names@.len() == tags@.len(),
        names@.len() == bodies@.len(),
        names@.len() == sizes@.len(),
        names@.len() <= 0xffff,
    ensures
        ({
            let start = header_len(views(names@), nsa) + base as nat;
            match r {
                Ok(b) => fits_fields(views(bodies@), nats(sizes@), start)
                    && b@ == container(views(names@), tags@, views(bodies@), nats(sizes@), base as nat, nsa),
                Err(e) => e == ArchiveError::TooLarge && !fits_fields(views(bodies@), nats(sizes@), start),
            }
        }),
{
    let ghost vn = views(names@);
    let ghost vb = views(bodies@);
    let ghost vs = nats(sizes@);
    let n = names.len();
    let per_record: usize = if nsa { 14 } else { 9 };
    // Where the bodies start.
    let mut start: usize = 6;
    let mut i: usize = 0;
    assert(vn.subrange(0, n as int) =~= vn);
    while i < n
        invariant
            i <= n == names@.len(),
            vn == views(names@),
            start <= 0xffff_ffff,
            per_record == (if nsa { 14nat } else { 9nat }),
            start + header_len(vn.subrange(i as int, n as int), nsa) == header_len(vn, nsa) + 6,
        decreases n - i,
    {
        proof {
            lemma_header_len_step(vn, i as int, nsa);
        }
        let l = names[i].len();
        if l > 0xffff_ffff - start || per_record > 0xffff_ffff - start - l {
            proof {
                assert(header_len(vn, nsa) + base >= start + l + per_record) by {
                    lemma_header_len_pos(vn.subrange(i + 1, n as int), nsa);
                }
            }
            return Err(ArchiveError::TooLarge);
        }
        start = start + l + per_record;
        i = i + 1;
    }
    proof {
        assert(vn.subrange(n as int, n as int) =~= Seq::<Seq<u8>>::empty());
    }
    if base > 0xffff_ffff - start {
        return Err(ArchiveError::TooLarge);
    }
    let data_start = start + base;
    // The bodies, and their total length.
    let mut total: usize = 0;
    let mut j: usize = 0;
    assert(vb.subrange(0, n as int) =~= vb);
    while j < n
        invariant
            j <= n == bodies@.len(),
            n == sizes@.len(),
            vb == views(bodies@),
            vs == nats(sizes@),
            total <= 0xffff_ffff,
            total + concat(vb.subrange(j as int, n as int)).len() == concat(vb).len(),
            forall|k: int| 0 <= k < j ==> #[trigger] vb[k].len() <= 0xffff_ffff,
            forall|k: int| 0 <= k < j ==> #[trigger] vs[k] <= 0xffff_ffff,
        decreases n - j,
    {
        proof {
            lemma_concat_step(vb, j as int);
        }
        let l = bodies[j].len();
        if l > 0xffff_ffff - total || sizes[j] > 0xffff_ffff {
            proof {
                assert(vs[j as int] == sizes@[j as int] as nat);
                assert(vb[j as int] == bodies@[j as int]@);
                if sizes@[j as int] <= 0xffff_ffff {
                    assert(concat(vb.subrange(j as int, n as int)).len() >= l);
                    assert(concat(vb).len() > 0xffff_ffff);
                }
            }
            return Err(ArchiveError::TooLarge);
        }
        total = total + l;
        j = j + 1;
    }
    proof {
        assert(vb.subrange(n as int, n as int) =~= Seq::<Seq<u8>>::empty());
    }
    let mut out: Vec<u8> = Vec::new();
    out.push((n / 256) as u8);
    out.push((n % 256) as u8);
    push_be32(&mut out, data_start as u32);
    let ghost head = out@;
    assert(head =~= be16_bytes(n as nat) + be32_bytes(header_len(vn, nsa) + base as nat));
    let mut k: usize = 0;
    let mut off: usize = 0;
    assert(vn.subrange(0, n as int) =~= vn);
    assert(tags@.subrange(0, n as int) =~= tags@);
    assert(vb.subrange(0, n as int) =~= vb);
    assert(vs.subrange(0, n as int) =~= vs);
    while k < n
        invariant
            k <= n == names@.len(),
            n == tags@.len(),
            n == bodies@.len(),
            n == sizes@.len(),
            vn == views(names@),
            vb == views(bodies@),
            vs == nats(sizes@),
            off + concat(vb.subrange(k as int, n as int)).len() == concat(vb).len(),
            concat(vb).len() <= 0xffff_ffff,
            forall|q: int| 0 <= q < n ==> #[trigger] vb[q].len() <= 0xffff_ffff,
            forall|q: int| 0 <= q < n ==> #[trigger] vs[q] <= 0xffff_ffff,
            out@ + records(vn.subrange(k as int, n as int), tags@.subrange(k as int, n as int), vb.subrange(k as int, n as int), vs.subrange(k as int, n as int), off as nat, nsa)
                == head + records(vn, tags@, vb, vs, 0, nsa),
        decreases n - k,
    {
        proof {
            lemma_records_step(vn, tags@, vb, vs, off as nat, nsa, k as int);
            lemma_concat_step(vb, k as int);
        }
        let ghost before = out@;
        append_bytes(&mut out, &names[k]);
        out.push(0u8);
        if nsa {
            out.push(tags[k]);
        }
        push_be32(&mut out, off as u32);
        push_be32(&mut out, bodies[k].len() as u32);
        if nsa {
            push_be32(&mut out, sizes[k] as u32);
        }
        proof {
            let fixed = if nsa {
                seq![tags@[k as int]] + be32_bytes(off as nat) + be32_bytes(vb[k as int].len()) + be32_bytes(vs[k as int])
            } else {
                be32_bytes(off as nat) + be32_bytes(vb[k as int].len())
            };
            assert(out@ =~= before + (vn[k as int] + seq![0u8] + fixed));
        }
        off = off + bodies[k].len();
        k = k + 1;
    }
    proof {
        assert(vn.subrange(n as int, n as int) =~= Seq::<Seq<u8>>::empty());
        assert(out@ =~= head + records(vn, tags@, vb, vs, 0, nsa));
    }
    let ghost with_records = out@;
    let mut z: usize = 0;
    while z < base
        invariant
            z <= base,
            out@ == with_records + Seq::new(z as nat, |q: int| 0u8),
        decreases base - z,
    {
        out.push(0u8);
        z = z + 1;
        assert(out@ =~= with_records + Seq::new(z as nat, |q: int| 0u8));
    }
    let ghost with_pad = out@;
    let mut b: usize = 0;
    while b < n
        invariant
            b <= n == bodies@.len(),
            vb == views(bodies@),
            out@ + concat(vb.subrange(b as int, n as int)) == with_pad + concat(vb),
        decreases n - b,
    {
        proof {
            lemma_concat_step(vb, b as int);
        }
        let ghost before = out@;
        append_bytes(&mut out, &bodies[b]);
        b = b + 1;
        assert(out@ + concat(vb.subrange(b as int, n as int)) =~= with_pad + concat(vb));
    }
    proof {
        assert(vb.subrange(n as int, n as int) =~= Seq::<Seq<u8>>::empty());
        assert(out@ =~= with_pad + concat(vb));
    }
    Ok(out)
}

proof fn lemma_header_len_pos(names: Seq<Seq<u8>>, nsa: bool)
    ensures
        header_len(names, nsa) >= 6,
    decreases names.len(),
{
    if names.len() > 0 {
        lemma_header_len_pos(names.drop_first(), nsa);
    }
}

/// The codec the NSA writer picks for a file, from the two flags and the file's first bytes.
pub open spec fn codec_choice(data: Seq<u8>, bzip2: bool, spb: bool) -> Compression {
    if !bzip2 && !spb {
        Compression::Raw
    } else if data.len() >= 4 && data[0] == 82 && data[1] == 73 && data[2] == 70 && data[3] == 70 {
        // "RIFF": a wave file.
        if bzip2 {
            Compression::Bzip2
        } else {
            Compression::Raw
        }
    } else if data.len() >= 2 && data[0] == 66 && data[1] == 77 {
        // "BM": a bitmap.
        if spb {
            Compression::Spb
        } else if bzip2 {
            Compression::Bzip2
        } else {
            Compression::Raw
        }
    } else {
        Compression::Raw
    }
}

/// The tag byte that stands for a compression in an NSA index.
pub open spec fn tag_of(c: Compression) -> u8 {
    match c {
        Compression::Raw => 0,
        Compression::Spb => 1,
        Compression::Lzss => 2,
        Compression::Bzip2 => 4,
    }
}

/// Whether an image can be encoded: its pixel count matches its size and is not zero.
pub open spec fn encodable(img: Image) -> bool {
    &&& img.wf()
    &&& img.pixel_buffer@.len() >= 1
    &&& 40 * img.pixel_buffer@.len() + 1000 < usize::MAX
}

/// The stored body of a file under a codec; `None` where the codec cannot store it.
pub open spec fn stored_body(f: InputFile, c: Compression) -> Option<Seq<u8>> {
    match c {
        Compression::Raw => Some(f.data@),
        Compression::Bzip2 => match bzip2_encoded(f.data@) {
            Some(z) => Some(le32_bytes(f.data@.len()) + z),
            None => None,
        },
        Compression::Spb => match f.image {
            Some(img) => if encodable(img) {
                Some(spb_bytes(img))
            } else {
                None
            },
            None => None,
        },
        Compression::Lzss => None,
    }
}

pub open spec fn nsa_codecs(files: Seq<InputFile>, bzip2: bool, spb: bool) -> Seq<Compression> {
    Seq::new(files.len(), |i: int| codec_choice(files[i].data@, bzip2, spb))
}

pub open spec fn all_bodies_ok(files: Seq<InputFile>, bzip2: bool, spb: bool) -> bool {
    forall|i: int| 0 <= i < files.len() ==> #[trigger] stored_body(files[i], codec_choice(files[i].data@, bzip2, spb)) is Some
}

pub open spec fn nsa_bodies(files: Seq<InputFile>, bzip2: bool, spb: bool) -> Seq<Seq<u8>> {
    Seq::new(files.len(), |i: int| stored_body(files[i], codec_choice(files[i].data@, bzip2, spb))->0)
}

pub open spec fn nsa_tags(files: Seq<InputFile>, bzip2: bool, spb: bool) -> Seq<u8> {
    Seq::new(files.len(), |i: int| tag_of(codec_choice(files[i].data@, bzip2, spb)))
}

/// Whether the bzip2 stream of every file stored with bzip2 decompresses to the file.
pub open spec fn bzip2_reversible(files: Seq<InputFile>, bzip2: bool, spb: bool) -> bool {
    forall|k: int|
        0 <= k < files.len() ==> #[trigger] codec_choice(files[k].data@, bzip2, spb) == Compression::Bzip2
            ==> bzip2_decoded(bzip2_encoded(files[k].data@)->0) == Some(files[k].data@)
}

/// Picks the codec for a file from the two flags and its first bytes.
pub fn file_encoding_to_use(data: &Vec<u8>, bzip2: bool, spb: bool) -> (r: Compression)
    ensures
        r == codec_choice(data@, bzip2, spb),
{
    if !bzip2 && !spb {
        return Compression::Raw;
    }
    let n = data.len();
    if n >= 4 && data[0] == 82u8 && data[1] == 73u8 && data[2] == 70u8 && data[3] == 70u8 {
        if bzip2 {
            Compression::Bzip2
        } else {
            Compression::Raw
        }
    } else if n >= 2 && data[0] == 66u8 && data[1] == 77u8 {
        if spb {
            Compression::Spb
        } else if bzip2 {
            Compression::Bzip2
        } else {
            Compression::Raw
        }
    } else {
        Compression::Raw
    }
}

/// The tag byte for a compression.
fn compression_to_byte(compression: Compression) -> (r: u8)
    ensures
        r == tag_of(compression),
{
    match compression {
        Compression::Raw => 0,
        Compression::Spb => 1,
        Compression::Lzss => 2,
        Compression::Bzip2 => 4,
    }
}

/// Whether some byte is zero.
fn has_zero(b: &Vec<u8>) -> (r: bool)
    ensures
        r == b@.contains(0u8),
{
    let mut j: usize = 0;
    while j < b.len()
        invariant
            j <= b@.len(),
            forall|q: int| 0 <= q < j ==> b@[q] != 0u8,
        decreases b@.len() - j,
    {
        if b[j] == 0u8 {
            assert(b@[j as int] == 0u8);
            return true;
        }
        j = j + 1;
    }
    false
}

/// The stored names of the files, or `BadString` at the first that cannot be stored.
fn encode_names(entries: &Vec<InputFile>) -> (r: Result<Vec<Vec<u8>>, ArchiveError>)
    ensures
        match r {
            Ok(names) => all_names_ok(entries@) && views(names@) == stored_names(entries@),
            Err(e) => e == ArchiveError::BadString && !all_names_ok(entries@),
        },
{
    let mut names: Vec<Vec<u8>> = Vec::new();
    let mut i: usize = 0;
    while i < entries.len()
        invariant
            i <= entries@.len(),
            names@.len() == i,
            forall|k: int| 0 <= k < i ==> #[trigger] name_bytes(entries@[k].name@) == Some(names@[k]@),
        decreases entries@.len() - i,
    {
        let encoded = match encode_shift_jis(entries[i].name.as_str()) {
            Some(b) => b,
            None => {
                assert(name_bytes(entries@[i as int].name@) is None);
                return Err(ArchiveError::BadString);
            },
        };
        if has_zero(&encoded) {
            assert(name_bytes(entries@[i as int].name@) is None);
            return Err(ArchiveError::BadString);
        }
        names.push(encoded);
        i = i + 1;
    }
    assert(views(names@) =~= stored_names(entries@));
    Ok(names)
}

impl Archive {
    /// Writes a SAR container holding the files, in order, each stored as it is.
    pub fn create_sar_archive(entries: &Vec<InputFile>) -> (r: Result<Vec<u8>, ArchiveError>)
        ensures
            entries@.len() > 0xffff ==> r == Err::<Vec<u8>, ArchiveError>(ArchiveError::TooManyEntries),
            entries@.len() <= 0xffff && !all_names_ok(entries@) ==> r == Err::<Vec<u8>, ArchiveError>(ArchiveError::BadString),
            entries@.len() <= 0xffff && all_names_ok(entries@) ==> ({
                let names = stored_names(entries@);
                let start = header_len(names, false);
                match r {
                    Ok(b) => fits_fields(file_datas(entries@), file_sizes(entries@), start)
                        && b@ == container(names, Seq::new(entries@.len(), |i: int| 0u8), file_datas(entries@), file_sizes(entries@), 0, false),
                    Err(e) => e == ArchiveError::TooLarge && !fits_fields(file_datas(entries@), file_sizes(entries@), start),
                }
            }),
    {
        if entries.len() > 0xffff {
            return Err(ArchiveError::TooManyEntries);
        }
        let names = encode_names(entries)?;
        assert(views(names@).len() == names@.len());
        let mut tags: Vec<u8> = Vec::new();
        let mut bodies: Vec<Vec<u8>> = Vec::new();
        let mut sizes: Vec<usize> = Vec::new();
        let mut i: usize = 0;
        while i < entries.len()
            invariant
                i <= entries@.len(),
                tags@.len() == i,
                bodies@.len() == i,
                sizes@.len() == i,
                forall|k: int| 0 <= k < i ==> #[trigger] tags@[k] == 0u8,
                forall|k: int| 0 <= k < i ==> #[trigger] bodies@[k]@ == entries@[k].data@,
                forall|k: int| 0 <= k < i ==> #[trigger] sizes@[k] == entries@[k].data@.len(),
            decreases entries@.len() - i,
        {
            tags.push(0u8);
            bodies.push(copy_bytes(&entries[i].data));
            sizes.push(entries[i].data.len());
            i = i + 1;
        }
        assert(views(bodies@) =~= file_datas(entries@));
        assert(nats(sizes@) =~= file_sizes(entries@));
        assert(tags@ =~= Seq::new(entries@.len(), |i: int| 0u8));
        write_container(&names, &tags, &bodies, &sizes, 0, false)
    }

    /// Writes an NSA container holding the files, in order, each stored with the codec that
    /// the flags and its first bytes choose. Bodies start `offset` bytes after the index.
    pub fn create_nsa_archive(entries: &Vec<InputFile>, offset: usize, bzip2: bool, spb: bool) -> (r: Result<Vec<u8>, ArchiveError>)
        ensures
            entries@.len() > 0xffff ==> r == Err::<Vec<u8>, ArchiveError>(ArchiveError::TooManyEntries),
            entries@.len() <= 0xffff && !all_names_ok(entries@) ==> r == Err::<Vec<u8>, ArchiveError>(ArchiveError::BadString),
            entries@.len() <= 0xffff && all_names_ok(entries@) && !all_bodies_ok(entries@, bzip2, spb) ==> r == Err::<Vec<u8>, ArchiveError>(ArchiveError::CodecFailure),
            entries@.len() <= 0xffff && all_names_ok(entries@) && all_bodies_ok(entries@, bzip2, spb) ==> ({
                let names = stored_names(entries@);
                let bodies = nsa_bodies(entries@, bzip2, spb);
                let start = header_len(names, true) + offset as nat;
                match r {
                    Ok(b) => fits_fields(bodies, file_sizes(entries@), start)
                        && b@ == container(names, nsa_tags(entries@, bzip2, spb), bodies, file_sizes(entries@), offset as nat, true),
                    Err(e) => e == ArchiveError::TooLarge && !fits_fields(bodies, file_sizes(entries@), start),
                }
            }),
            r is Ok ==> bzip2_reversible(entries@, bzip2, spb),
    {
        if entries.len() > 0xffff {
            return Err(ArchiveError::TooManyEntries);
        }
        let names = encode_names(entries)?;
        assert(views(names@).len() == names@.len());
        let mut tags: Vec<u8> = Vec::new();
        let mut bodies: Vec<Vec<u8>> = Vec::new();
        let mut sizes: Vec<usize> = Vec::new();
        let mut i: usize = 0;
        while i < entries.len()
            invariant
                forall|k: int| 0 <= k < i ==> #[trigger] codec_choice(entries@[k].data@, bzip2, spb) == Compression::Bzip2
                    ==> bzip2_decoded(bzip2_encoded(entries@[k].data@)->0) == Some(entries@[k].data@),
                entries@.len() <= 0xffff,
                all_names_ok(entries@),
                names@.len() == entries@.len(),
                i <= entries@.len(),
                tags@.len() == i,
                bodies@.len() == i,
                sizes@.len() == i,
                forall|k: int| 0 <= k < i ==> #[trigger] tags@[k] == tag_of(codec_choice(entries@[k].data@, bzip2, spb)),
                forall|k: int| 0 <= k < i ==> stored_body(entries@[k], codec_choice(entries@[k].data@, bzip2, spb)) == Some(#[trigger] bodies@[k]@),
                forall|k: int| 0 <= k < i ==> #[trigger] sizes@[k] == entries@[k].data@.len(),
            decreases entries@.len() - i,
        {
            let entry = &entries[i];
            let compression = file_encoding_to_use(&entry.data, bzip2, spb);
            let body = match compression {
                Compression::Raw => copy_bytes(&entry.data),
                Compression::Bzip2 => {
                    let packed = match bzip2_compress(entry.data.as_slice()) {
                        Some(z) => z,
                        None => {
                            assert(stored_body(entries@[i as int], compression) is None);
                            return Err(ArchiveError::CodecFailure);
                        },
                    };
                    // The uncompressed size comes first, little-endian; readers skip it.
                    let mut body: Vec<u8> = Vec::new();
                    let n = entry.data.len();
                    body.push((n % 256) as u8);
                    body.push(((n / 256) % 256) as u8);
                    body.push(((n / 65536) % 256) as u8);
                    body.push(((n / 16777216) % 256) as u8);
                    append_bytes(&mut body, &packed);
                    assert(body@ =~= le32_bytes(n as nat) + packed@);
                    body
                },
                Compression::Spb => {
                    match &entry.image {
                        Some(img) => {
                            let count = img.pixel_buffer.len();
                            let w = img.width as u64;
                            let h = img.height as u64;
                            proof {
                                assert(w * h <= 0xffff_ffff) by (nonlinear_arith)
                                    requires
                                        w <= 0xffff,
                                        h <= 0xffff,
                                ;
                            }
                            if count == 0 || count > (usize::MAX - 1001) / 40 || count as u64 != w * h {
                                assert(!encodable(*img));
                                return Err(ArchiveError::CodecFailure);
                            }
                            let encoded = encode_spb(img);
                            proof {
                                let chosen = spb_bytes(*img);
                                assert(bits_of_bytes(chosen) == padded(spb_encode_bits(*img)));
                                lemma_bits_of_bytes_injective(chosen, encoded@);
                            }
                            encoded
                        },
                        None => {
                            assert(stored_body(entries@[i as int], compression) is None);
                            return Err(ArchiveError::CodecFailure);
                        },
                    }
                },
                Compression::Lzss => {
                    assert(stored_body(entries@[i as int], compression) is None);
                    return Err(ArchiveError::CodecFailure);
                },
            };
            tags.push(compression_to_byte(compression));
            bodies.push(body);
            sizes.push(entry.data.len());
            i = i + 1;
        }
        assert forall|k: int| 0 <= k < entries@.len() implies #[trigger] stored_body(entries@[k], codec_choice(entries@[k].data@, bzip2, spb)) is Some by {
            assert(stored_body(entries@[k], codec_choice(entries@[k].data@, bzip2, spb)) == Some(bodies@[k]@));
        }
        assert(views(bodies@) =~= nsa_bodies(entries@, bzip2, spb));
        assert(nats(sizes@) =~= file_sizes(entries@));
        assert(tags@ =~= nsa_tags(entries@, bzip2, spb));
        write_container(&names, &tags, &bodies, &sizes, offset, true)
    }
}

/// A copy of some bytes.
fn copy_bytes(b: &Vec<u8>) -> (r: Vec<u8>)
    ensures
        r@ == b@,
{
    let mut out: Vec<u8> = Vec::new();
    append_bytes(&mut out, b);
    assert(out@ =~= b@);
    out
}

/// The extension that a file's first bytes suggest: `.wav` for "RIFF", `.bmp` for "BM".
pub open spec fn extension_of(data: Seq<u8>) -> Seq<char> {
    if data.len() >= 4 && data[0] == 82 && data[1] == 73 && data[2] == 70 && data[3] == 70 {
        ".wav"@
    } else if data.len() >= 2 && data[0] == 66 && data[1] == 77 {
        ".bmp"@
    } else {
        ""@
    }
}

/// The extension that a file's first bytes suggest, or an empty string.
pub fn detect_file_type(data: &Vec<u8>) -> (r: String)
    ensures
        r@ == extension_of(data@),
{
    let n = data.len();
    if n >= 4 && data[0] == 82u8 && data[1] == 73u8 && data[2] == 70u8 && data[3] == 70u8 {
        ".wav".to_owned()
    } else if n >= 2 && data[0] == 66u8 && data[1] == 77u8 {
        ".bmp".to_owned()
    } else {
        "".to_owned()
    }
}

} // verus!
