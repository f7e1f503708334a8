use nscripter_formats::keytable::{apply_keytable, create_keytable, default_keytable, invert_keytable};
use nscripter_formats::script::{
    decode_keytable, decode_script, decode_xor132, decode_ywreturn, file_name_to_decode_info, Encoding,
    Obfuscation,
};

#[test]
fn default_keytable_is_identity() {
    let t = default_keytable();
    for i in 0..256 {
        assert_eq!(t[i], i as u8);
    }
}

#[test]
fn create_keytable_finds_first_distinct_run() {
    let mut buffer = vec![7u8, 7, 7];
    let run: Vec<u8> = (0..256u32).map(|i| (255 - i) as u8).collect();
    buffer.extend_from_slice(&run);
    buffer.extend_from_slice(&[1, 2, 3]);
    let t = create_keytable(&buffer).expect("a table");
    // The run from index 2 holds 7 twice; the first run of 256 distinct bytes starts at 3.
    assert_eq!(t.to_vec(), run);
    assert_eq!(create_keytable(&vec![1, 2, 3]), None);
    assert_eq!(create_keytable(&vec![0u8; 1000]), None);
}

#[test]
fn invert_keytable_undoes_substitution() {
    let mut key = [0u8; 256];
    for i in 0..256 {
        key[i] = ((i * 5 + 3) % 256) as u8;
    }
    let inverse = invert_keytable(&key);
    let data: Vec<u8> = (0..=255u8).collect();
    let there = apply_keytable(&data, &inverse);
    assert_eq!(apply_keytable(&there, &key), data);
    assert_eq!(apply_keytable(&data, &default_keytable()), data);
}

#[test]
fn script_names() {
    assert_eq!(file_name_to_decode_info(&"nscript.___".to_string()), Some((Encoding::ShiftJIS, Obfuscation::KeyTable)));
    assert_eq!(file_name_to_decode_info(&"nscr_sec.dat".to_string()), Some((Encoding::ShiftJIS, Obfuscation::YWReturn)));
    assert_eq!(file_name_to_decode_info(&"nscript.dat".to_string()), Some((Encoding::ShiftJIS, Obfuscation::Xor132)));
    assert_eq!(file_name_to_decode_info(&"00.utf.txt".to_string()), Some((Encoding::Utf8, Obfuscation::Plain)));
    assert_eq!(file_name_to_decode_info(&"pscript.dat".to_string()), Some((Encoding::Utf8, Obfuscation::Xor132)));
    assert_eq!(file_name_to_decode_info(&"other.txt".to_string()), None);
}

#[test]
fn xor_and_ywreturn() {
    let mut data = vec![0u8, 132, 255];
    decode_xor132(&mut data);
    assert_eq!(data, vec![132, 0, 123]);
    let mut data = vec![0u8; 7];
    decode_ywreturn(&mut data);
    assert_eq!(data, vec![121, 87, 13, 128, 4, 121, 87]);
    let mut data = vec![1u8, 2];
    let mut key = default_keytable();
    key[1] = 9;
    decode_keytable(&mut data, &key);
    assert_eq!(data, vec![9, 2]);
}

#[test]
fn decode_scripts() {
    let text: Vec<u8> = b"hello".iter().map(|b| b ^ 132).collect();
    assert_eq!(decode_script(text, Encoding::ShiftJIS, Obfuscation::Xor132, &default_keytable()), Some("hello".to_string()));
    assert_eq!(decode_script(vec![0x82, 0xa0], Encoding::ShiftJIS, Obfuscation::Plain, &default_keytable()), Some("\u{3042}".to_string()));
    assert_eq!(decode_script("\u{3042}".as_bytes().to_vec(), Encoding::Utf8, Obfuscation::Plain, &default_keytable()), Some("\u{3042}".to_string()));
    assert_eq!(decode_script(vec![0xc3, 0x28], Encoding::Utf8, Obfuscation::Plain, &default_keytable()), None);
}
