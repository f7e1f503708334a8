//! Script files: how each known file name is encoded and obfuscated, and how to undo it.
use crate::keytable::keyed;
use crate::text::{decode_shift_jis, shift_jis_decoded};
use vstd::prelude::*;

verus! {

/// The text encoding of a script file.
#[derive(Clone, Copy, Debug, PartialEq, Eq, Structural)]
pub enum Encoding {
    CP1252,
    ShiftJIS,
    Utf8,
}

/// The obfuscation applied to a script file's bytes.
#[derive(Clone, Copy, Debug, PartialEq, Eq, Structural)]
pub enum Obfuscation {
    /// Stored as it is.
    Plain,
    /// Every byte xored with 132.
    Xor132,
    /// Bytes xored in turn with 121, 87, 13, 128 and 4.
    YWReturn,
    /// Bytes substituted through a key table.
    KeyTable,
}

/// The text a UTF-8 byte sequence decodes to; `None` where it holds malformed sequences.
pub uninterp spec fn utf8_decoded(b: Seq<u8>) -> Option<Seq<char>>;

/// Relies on `encoding_rs::UTF_8.decode`: the decoded text, which depends on the bytes alone,
/// and whether malformed sequences were met.
#[verifier::external_body]
fn decode_utf8(b: &[u8]) -> (r: Option<String>)
    ensures
        match r {
            Some(s) => utf8_decoded(b@) == Some(s@),
            None => utf8_decoded(b@) is None,
        },
{
    let (res, _encoding, had_errors) = encoding_rs::UTF_8.decode(b);
    match had_errors {
        true => None,
        false => Some(res.into_owned()),
    }
}

/// The encoding and obfuscation of the script files the runtimes know by name.
pub open spec fn decode_info_of(name: Seq<char>) -> Option<(Encoding, Obfuscation)> {
    if name == "nscript.___"@ {
        Some((Encoding::ShiftJIS, Obfuscation::KeyTable))
    } else if name == "nscr_sec.dat"@ {
        Some((Encoding::ShiftJIS, Obfuscation::YWReturn))
    } else if name == "nscript.dat"@ {
        Some((Encoding::ShiftJIS, Obfuscation::Xor132))
    } else if name == "0.utf"@ || name == "0.utf.txt"@ || name == "00.utf"@ || name == "00.utf.txt"@ {
        Some((Encoding::Utf8, Obfuscation::Plain))
    } else if name == "pscript.dat"@ {
        Some((Encoding::Utf8, Obfuscation::Xor132))
    } else {
        None
    }
}

fn same_text(a: &String, b: &str) -> (r: bool)
    ensures
        r == (a@ == b@),
{
    *a == b.to_owned()
}

/// The encoding and obfuscation of a script file, from its name; `None` for an unknown name.
pub fn file_name_to_decode_info(file_name: &String) -> (r: Option<(Encoding, Obfuscation)>)
    ensures
        r == decode_info_of(file_name@),
{
    if same_text(file_name, "nscript.___") {
        Some((Encoding::ShiftJIS, Obfuscation::KeyTable))
    } else if same_text(file_name, "nscr_sec.dat") {
        Some((Encoding::ShiftJIS, Obfuscation::YWReturn))
    } else if same_text(file_name, "nscript.dat") {
        Some((Encoding::ShiftJIS, Obfuscation::Xor132))
    } else if same_text(file_name, "0.utf") || same_text(file_name, "0.utf.txt") || same_text(file_name, "00.utf")
        || same_text(file_name, "00.utf.txt") {
        Some((Encoding::Utf8, Obfuscation::Plain))
    } else if same_text(file_name, "pscript.dat") {
        Some((Encoding::Utf8, Obfuscation::Xor132))
    } else {
        None
    }
}

/// The key of the YWReturn obfuscation at position `i`.
pub open spec fn yw_key(i: int) -> u8 {
    let k = i % 5;
    if k == 0 {
        121
    } else if k == 1 {
        87
    } else if k == 2 {
        13
    } else if k == 3 {
        128
    } else {
        4
    }
}

/// Undoes the Xor132 obfuscation.
pub fn decode_xor132(data: &mut Vec<u8>)
    ensures
        final(data)@.len() == old(data)@.len(),
        forall|i: int| 0 <= i < old(data)@.len() ==> #[trigger] final(data)@[i] == old(data)@[i] ^ 132u8,
{
    let mut i: usize = 0;
    while i < data.len()
        invariant
            i <= data@.len() == old(data)@.len(),
            forall|k: int| 0 <= k < i ==> #[trigger] data@[k] == old(data)@[k] ^ 132u8,
            forall|k: int| i <= k < data@.len() ==> #[trigger] data@[k] == old(data)@[k],
        decreases data@.len() - i,
    {
        let b = data[i];
        data.set(i, b ^ 132u8);
        i = i + 1;
    }
}

/// Undoes the YWReturn obfuscation.
pub fn decode_ywreturn(data: &mut Vec<u8>)
    ensures
        final(data)@.len() == old(data)@.len(),
        forall|i: int| 0 <= i < old(data)@.len() ==> #[trigger] final(data)@[i] == old(data)@[i] ^ yw_key(i),
{
    let magic: [u8; 5] = [121, 87, 13, 128, 4];
    let mut i: usize = 0;
    while i < data.len()
        invariant
            i <= data@.len() == old(data)@.len(),
            magic@ == seq![121u8, 87u8, 13u8, 128u8, 4u8],
            forall|k: int| 0 <= k < i ==> #[trigger] data@[k] == old(data)@[k] ^ yw_key(k),
            forall|k: int| i <= k < data@.len() ==> #[trigger] data@[k] == old(data)@[k],
        decreases data@.len() - i,
    {
        let b = data[i];
        data.set(i, b ^ magic[i % 5]);
        i = i + 1;
    }
}

/// Undoes the KeyTable obfuscation.
pub fn decode_keytable(data: &mut Vec<u8>, key_table: &[u8; 256])
    ensures
        final(data)@ == keyed(old(data)@, *key_table),
{
    let mut i: usize = 0;
    while i < data.len()
        invariant
            i <= data@.len() == old(data)@.len(),
            forall|k: int| 0 <= k < i ==> #[trigger] data@[k] == key_table[old(data)@[k] as int],
            forall|k: int| i <= k < data@.len() ==> #[trigger] data@[k] == old(data)@[k],
        decreases data@.len() - i,
    {
        let b = data[i];
        data.set(i, key_table[b as usize]);
        i = i + 1;
    }
    assert(data@ =~= keyed(old(data)@, *key_table));
}

/// The bytes of a script with its obfuscation undone.
pub open spec fn deobfuscated(data: Seq<u8>, obfuscation: Obfuscation, key_table: [u8; 256]) -> Seq<u8> {
    match obfuscation {
        Obfuscation::Plain => data,
        Obfuscation::Xor132 => Seq::new(data.len(), |i: int| data[i] ^ 132u8),
        Obfuscation::YWReturn => Seq::new(data.len(), |i: int| data[i] ^ yw_key(i)),
        Obfuscation::KeyTable => keyed(data, key_table),
    }
}

/// The text of a script: its obfuscation undone, then decoded; `None` where the text is
/// malformed. Shift-JIS scripts decode as Shift-JIS, all others as UTF-8.
pub fn decode_script(data: Vec<u8>, encoding: Encoding, obfuscation: Obfuscation, key_table: &[u8; 256]) -> (r: Option<String>)
    ensures
        ({
            let plain = deobfuscated(data@, obfuscation, *key_table);
            let decoded = if encoding == Encoding::ShiftJIS {
                shift_jis_decoded(plain)
            } else {
                utf8_decoded(plain)
            };
            match r {
                Some(s) => decoded == Some(s@),
                None => decoded is None,
            }
        }),
{
    let mut data = data;
    let ghost initial = data@;
    match obfuscation {
        Obfuscation::Xor132 => decode_xor132(&mut data),
        Obfuscation::YWReturn => decode_ywreturn(&mut data),
        Obfuscation::KeyTable => decode_keytable(&mut data, key_table),
        Obfuscation::Plain => {},
    }
    assert(data@ =~= deobfuscated(initial, obfuscation, *key_table));
    match encoding {
        Encoding::ShiftJIS => decode_shift_jis(data.as_slice()),
        _ => decode_utf8(data.as_slice()),
    }
}

} // verus!
