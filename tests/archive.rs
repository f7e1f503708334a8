use nscripter_formats::archive::{
    detect_file_type, extract_bz2, file_encoding_to_use, Archive, ArchiveError, ArchiveType,
    Compression, EntryData, InputFile,
};
use nscripter_formats::image::{encode_spb, Image};
use nscripter_formats::keytable::{apply_keytable, default_keytable, invert_keytable};

fn file(name: &str, data: &[u8]) -> InputFile {
    InputFile { name: name.to_string(), data: data.to_vec(), image: None }
}

fn bytes_of(archive: &Archive, i: usize) -> Vec<u8> {
    match archive.extract(archive.index.entries[i].info()) {
        Ok(EntryData::Bytes(b)) => b,
        Ok(EntryData::Image(_)) => panic!("expected bytes, got an image"),
        Err(e) => panic!("extract failed: {:?}", e),
    }
}

fn read_back(bytes: Vec<u8>, archive_type: ArchiveType) -> Vec<(String, Vec<u8>)> {
    let archive = Archive::open_file(bytes, archive_type, 0, default_keytable()).expect("opens");
    (0..archive.index.entries.len())
        .map(|i| (archive.index.entries[i].name.clone(), bytes_of(&archive, i)))
        .collect()
}

fn sample_files() -> Vec<InputFile> {
    vec![
        file("a.txt", b"hi"),
        file("dir\\b.dat", &[0, 1, 2, 3, 4, 5]),
        file("empty", b""),
        file("c/d.txt", b"the quick brown fox"),
    ]
}

#[test]
fn sar_identity_keytable() {
    // One entry "a.txt" whose body [0x68, 0x69] follows the 20-byte index.
    let bytes = vec![
        0x00, 0x01, 0x00, 0x00, 0x00, 0x14, 0x61, 0x2e, 0x74, 0x78, 0x74, 0x00, 0x00, 0x00, 0x00,
        0x00, 0x00, 0x00, 0x00, 0x02, 0x68, 0x69,
    ];
    let archive = Archive::open_file(bytes, ArchiveType::SAR, 0, default_keytable()).expect("opens");
    assert_eq!(archive.index.entries.len(), 1);
    assert_eq!(archive.index.entries[0].name, "a.txt");
    assert_eq!(archive.index.entries[0].offset, 20);
    assert_eq!(archive.index.entries[0].size, 2);
    assert_eq!(archive.index.entries[0].decompressed_size, Some(2));
    assert_eq!(bytes_of(&archive, 0), vec![0x68, 0x69]);
}

#[test]
fn nsa_raw_override_by_extension() {
    let mut bytes = vec![0x00, 0x01, 0x00, 0x00, 0x00, 0x00];
    bytes.extend_from_slice(b"v.nbz\0");
    bytes.push(0x00);
    bytes.extend_from_slice(&[0, 0, 0, 0, 0, 0, 0, 0, 0xff, 0xff, 0xff, 0xff]);
    let end = bytes.len() as u8;
    bytes[5] = end;
    let archive = Archive::open_file(bytes, ArchiveType::NSA, 0, default_keytable()).expect("opens");
    let entry = &archive.index.entries[0];
    assert_eq!(entry.compression, Compression::Bzip2);
    assert_eq!(entry.decompressed_size, None);
}

#[test]
fn nsa_override_ignores_case_and_spb() {
    let mut bytes = vec![0x00, 0x02, 0x00, 0x00, 0x00, 0x00];
    for name in [&b"V.NBZ"[..], &b"pic.SpB"[..]] {
        bytes.extend_from_slice(name);
        bytes.push(0);
        bytes.push(0);
        bytes.extend_from_slice(&[0; 12]);
    }
    let end = bytes.len() as u8;
    bytes[5] = end;
    let archive = Archive::open_file(bytes, ArchiveType::NSA, 0, default_keytable()).expect("opens");
    assert_eq!(archive.index.entries[0].compression, Compression::Bzip2);
    assert_eq!(archive.index.entries[1].compression, Compression::Spb);
    assert_eq!(archive.index.offset, end as usize);
}

#[test]
fn ns2_parse() {
    // One entry "a.txt" of size 2; bodies start after the index and its end byte, at 16.
    let bytes = vec![
        0x10, 0x00, 0x00, 0x00, 0x22, 0x61, 0x2e, 0x74, 0x78, 0x74, 0x22, 0x02, 0x00, 0x00, 0x00,
        0x00, 0x48, 0x69,
    ];
    let archive = Archive::open_file(bytes, ArchiveType::NS2, 0, default_keytable()).expect("opens");
    assert_eq!(archive.index.entries.len(), 1);
    assert_eq!(archive.index.entries[0].name, "a.txt");
    assert_eq!(archive.index.entries[0].offset, 16);
    assert_eq!(archive.index.entries[0].compression, Compression::Raw);
    assert_eq!(bytes_of(&archive, 0), vec![0x48, 0x69]);
}

#[test]
fn ns2_missing_quote_is_bad_string() {
    let bytes = vec![0x10, 0x00, 0x00, 0x00, 0x61, 0x2e, 0x74, 0x78, 0x74, 0x22, 0x02, 0x00, 0x00, 0x00, 0x00, 0x00];
    assert!(matches!(Archive::open_file(bytes, ArchiveType::NS2, 0, default_keytable()), Err(ArchiveError::BadString)));
}

#[test]
fn truncated_index_is_unexpected_eof() {
    let bytes = vec![0x00, 0x01, 0x00, 0x00, 0x00, 0x14, 0x61, 0x2e, 0x74];
    assert!(matches!(Archive::open_file(bytes, ArchiveType::SAR, 0, default_keytable()), Err(ArchiveError::UnexpectedEof)));
    assert!(matches!(Archive::open_file(vec![0, 0], ArchiveType::NSA, 0, default_keytable()), Err(ArchiveError::UnexpectedEof)));
}

#[test]
fn unknown_compression_tag() {
    let mut bytes = vec![0x00, 0x01, 0x00, 0x00, 0x00, 0x00];
    bytes.extend_from_slice(b"x\0");
    bytes.push(3);
    bytes.extend_from_slice(&[0; 12]);
    assert!(matches!(Archive::open_file(bytes, ArchiveType::NSA, 0, default_keytable()), Err(ArchiveError::UnknownCompressionTag)));
}

#[test]
fn invalid_shift_jis_name_is_bad_string() {
    let mut bytes = vec![0x00, 0x01, 0x00, 0x00, 0x00, 0x00];
    bytes.extend_from_slice(&[0x81, 0x20, 0x00]);
    bytes.extend_from_slice(&[0; 8]);
    assert!(matches!(Archive::open_file(bytes, ArchiveType::SAR, 0, default_keytable()), Err(ArchiveError::BadString)));
}

#[test]
fn shift_jis_names_round_trip() {
    let files = vec![file("\u{3042}.txt", b"kana")];
    let bytes = Archive::create_sar_archive(&files).expect("writes");
    // The name is stored as Shift-JIS: 0x82 0xa0 for the hiragana letter a.
    assert_eq!(&bytes[6..8], &[0x82, 0xa0]);
    let back = read_back(bytes, ArchiveType::SAR);
    assert_eq!(back, vec![("\u{3042}.txt".to_string(), b"kana".to_vec())]);
}

#[test]
fn unencodable_name_is_bad_string() {
    assert!(matches!(Archive::create_sar_archive(&vec![file("\u{1F600}", b"x")]), Err(ArchiveError::BadString)));
    assert!(matches!(Archive::create_sar_archive(&vec![file("a\0b", b"x")]), Err(ArchiveError::BadString)));
}

#[test]
fn sar_round_trip() {
    let files = sample_files();
    let bytes = Archive::create_sar_archive(&files).expect("writes");
    let back = read_back(bytes, ArchiveType::SAR);
    let expected: Vec<(String, Vec<u8>)> = files.iter().map(|f| (f.name.clone(), f.data.clone())).collect();
    assert_eq!(back, expected);
}

#[test]
fn sar_layout_is_exact() {
    let bytes = Archive::create_sar_archive(&vec![file("a.txt", &[0x68, 0x69])]).expect("writes");
    assert_eq!(
        bytes,
        vec![
            0x00, 0x01, 0x00, 0x00, 0x00, 0x14, 0x61, 0x2e, 0x74, 0x78, 0x74, 0x00, 0x00, 0x00,
            0x00, 0x00, 0x00, 0x00, 0x00, 0x02, 0x68, 0x69,
        ]
    );
}

#[test]
fn nsa_round_trip_raw() {
    let files = sample_files();
    let bytes = Archive::create_nsa_archive(&files, 0, false, false).expect("writes");
    let archive = Archive::open_file(bytes.clone(), ArchiveType::NSA, 0, default_keytable()).expect("opens");
    for e in &archive.index.entries {
        assert_eq!(e.compression, Compression::Raw);
    }
    let back = read_back(bytes, ArchiveType::NSA);
    let expected: Vec<(String, Vec<u8>)> = files.iter().map(|f| (f.name.clone(), f.data.clone())).collect();
    assert_eq!(back, expected);
}

#[test]
fn nsa_round_trip_with_base_offset() {
    let files = sample_files();
    let bytes = Archive::create_nsa_archive(&files, 7, false, false).expect("writes");
    let back = read_back(bytes, ArchiveType::NSA);
    let expected: Vec<(String, Vec<u8>)> = files.iter().map(|f| (f.name.clone(), f.data.clone())).collect();
    assert_eq!(back, expected);
}

#[test]
fn nsa_round_trip_bzip2() {
    let mut wav = b"RIFF".to_vec();
    wav.extend((0..500u32).map(|i| (i % 7) as u8));
    let mut bmp = b"BM".to_vec();
    bmp.extend((0..300u32).map(|i| (i % 5) as u8));
    let files = vec![file("s.wav", &wav), file("p.bmp", &bmp), file("t.txt", b"plain text")];
    let bytes = Archive::create_nsa_archive(&files, 0, true, false).expect("writes");
    let archive = Archive::open_file(bytes, ArchiveType::NSA, 0, default_keytable()).expect("opens");
    assert_eq!(archive.index.entries[0].compression, Compression::Bzip2);
    assert_eq!(archive.index.entries[1].compression, Compression::Bzip2);
    assert_eq!(archive.index.entries[2].compression, Compression::Raw);
    // The stored bzip2 body differs from the file: it is compressed, after a size prefix.
    assert_ne!(archive.index.entries[0].size, wav.len());
    assert_eq!(bytes_of(&archive, 0), wav);
    assert_eq!(bytes_of(&archive, 1), bmp);
    assert_eq!(bytes_of(&archive, 2), b"plain text".to_vec());
}

#[test]
fn nsa_stores_bitmaps_as_spb() {
    let img = Image { pixel_buffer: vec![[1, 2, 3], [4, 5, 6], [7, 8, 9], [10, 11, 12]], width: 2, height: 2 };
    let expected_body = encode_spb(&img);
    let mut f = file("p.bmp", b"BM and the rest");
    f.image = Some(Image { pixel_buffer: img.pixel_buffer.clone(), width: 2, height: 2 });
    let bytes = Archive::create_nsa_archive(&vec![f], 0, false, true).expect("writes");
    let archive = Archive::open_file(bytes, ArchiveType::NSA, 0, default_keytable()).expect("opens");
    let entry = &archive.index.entries[0];
    assert_eq!(entry.compression, Compression::Spb);
    assert_eq!(entry.size, expected_body.len());
    match archive.extract(entry.info()) {
        Ok(EntryData::Image(back)) => {
            assert_eq!(back.width, 2);
            assert_eq!(back.height, 2);
            assert_eq!(back.pixel_buffer, img.pixel_buffer);
        }
        _ => panic!("expected an image"),
    }
}

#[test]
fn nsa_spb_without_pixels_is_codec_failure() {
    let files = vec![file("p.bmp", b"BMxxxx")];
    assert!(matches!(Archive::create_nsa_archive(&files, 0, false, true), Err(ArchiveError::CodecFailure)));
}

#[test]
fn nsa_codec_choice_table() {
    let riff = b"RIFF1234".to_vec();
    let bm = b"BM123456".to_vec();
    let other = b"hello".to_vec();
    let table = [
        (false, false, Compression::Raw, Compression::Raw, Compression::Raw),
        (true, false, Compression::Bzip2, Compression::Bzip2, Compression::Raw),
        (false, true, Compression::Raw, Compression::Spb, Compression::Raw),
        (true, true, Compression::Bzip2, Compression::Spb, Compression::Raw),
    ];
    for (bzip2, spb, on_riff, on_bm, on_other) in table {
        assert_eq!(file_encoding_to_use(&riff, bzip2, spb), on_riff);
        assert_eq!(file_encoding_to_use(&bm, bzip2, spb), on_bm);
        assert_eq!(file_encoding_to_use(&other, bzip2, spb), on_other);
    }
    assert_eq!(file_encoding_to_use(&b"RIF".to_vec(), true, true), Compression::Raw);
    assert_eq!(file_encoding_to_use(&b"B".to_vec(), true, true), Compression::Raw);
}

#[test]
fn keytable_invertibility() {
    let mut key = [0u8; 256];
    for i in 0..256 {
        key[i] = ((i * 73 + 11) % 256) as u8;
    }
    let files = sample_files();
    let plain = Archive::create_sar_archive(&files).expect("writes");
    let inverse = invert_keytable(&key);
    let stored = apply_keytable(&plain, &inverse);
    assert_ne!(stored, plain);
    let archive = Archive::open_file(stored, ArchiveType::SAR, 0, key).expect("opens");
    for (i, f) in files.iter().enumerate() {
        assert_eq!(archive.index.entries[i].name, f.name);
        assert_eq!(bytes_of(&archive, i), f.data);
    }
}

#[test]
fn empty_archive_round_trips() {
    let bytes = Archive::create_sar_archive(&vec![]).expect("writes");
    assert_eq!(bytes, vec![0, 0, 0, 0, 0, 6]);
    let archive = Archive::open_file(bytes, ArchiveType::SAR, 0, default_keytable()).expect("opens");
    assert_eq!(archive.index.entries.len(), 0);
    assert_eq!(archive.index.offset, 6);
    let nsa = Archive::create_nsa_archive(&vec![], 0, true, true).expect("writes");
    assert_eq!(read_back(nsa, ArchiveType::NSA), vec![]);
}

#[test]
fn entry_count_limit() {
    let mut files: Vec<InputFile> = (0..65_535u32).map(|i| file(&format!("{}", i), &[i as u8])).collect();
    let bytes = Archive::create_sar_archive(&files).expect("65 535 entries are written");
    let archive = Archive::open_file(bytes, ArchiveType::SAR, 0, default_keytable()).expect("opens");
    assert_eq!(archive.index.entries.len(), 65_535);
    assert_eq!(bytes_of(&archive, 65_534), vec![(65_534u32 % 256) as u8]);
    files.push(file("one more", b"x"));
    assert!(matches!(Archive::create_sar_archive(&files), Err(ArchiveError::TooManyEntries)));
    assert!(matches!(Archive::create_nsa_archive(&files, 0, false, false), Err(ArchiveError::TooManyEntries)));
}

#[test]
fn extract_past_end_is_unexpected_eof() {
    let bytes = Archive::create_sar_archive(&vec![file("a", b"abc")]).expect("writes");
    let short = bytes[..bytes.len() - 1].to_vec();
    let archive = Archive::open_file(short, ArchiveType::SAR, 0, default_keytable()).expect("opens");
    assert!(matches!(archive.extract(archive.index.entries[0].info()), Err(ArchiveError::UnexpectedEof)));
}

fn nsa_with_body(tag: u8, name: &[u8], body: &[u8], decompressed: u32) -> Vec<u8> {
    let mut bytes = vec![0x00, 0x01, 0x00, 0x00, 0x00, 0x00];
    bytes.extend_from_slice(name);
    bytes.push(0);
    bytes.push(tag);
    bytes.extend_from_slice(&[0, 0, 0, 0]);
    bytes.extend_from_slice(&(body.len() as u32).to_be_bytes());
    bytes.extend_from_slice(&decompressed.to_be_bytes());
    let end = bytes.len() as u8;
    bytes[5] = end;
    bytes.extend_from_slice(body);
    bytes
}

#[test]
fn corrupt_bodies() {
    let bz = nsa_with_body(4, b"x.wav", &[0, 0, 0, 0, 1, 2, 3, 4, 5], 0);
    let archive = Archive::open_file(bz, ArchiveType::NSA, 0, default_keytable()).expect("opens");
    assert!(matches!(archive.extract(archive.index.entries[0].info()), Err(ArchiveError::CodecFailure)));

    let short_bz = nsa_with_body(4, b"x.wav", &[0, 0], 0);
    let archive = Archive::open_file(short_bz, ArchiveType::NSA, 0, default_keytable()).expect("opens");
    assert!(matches!(archive.extract(archive.index.entries[0].info()), Err(ArchiveError::UnexpectedEof)));

    let spb = nsa_with_body(1, b"x.bmp", &[0, 9, 0, 9, 1], 0);
    let archive = Archive::open_file(spb, ArchiveType::NSA, 0, default_keytable()).expect("opens");
    assert!(matches!(archive.extract(archive.index.entries[0].info()), Err(ArchiveError::CorruptSpb)));
}

#[test]
fn lzss_entry_is_decompressed() {
    type Lz = lzss::Lzss<8, 4, 0, 256, 512>;
    let text = b"abcabcabcabcabcabc hello hello hello".to_vec();
    let packed = Lz::compress_stack(lzss::SliceReader::new(&text), lzss::VecWriter::with_capacity(64)).unwrap();
    let bytes = nsa_with_body(2, b"s.txt", &packed, text.len() as u32);
    let archive = Archive::open_file(bytes, ArchiveType::NSA, 0, default_keytable()).expect("opens");
    assert_eq!(archive.index.entries[0].compression, Compression::Lzss);
    assert_eq!(archive.index.entries[0].decompressed_size, Some(text.len()));
    assert_eq!(bytes_of(&archive, 0), text);
}

#[test]
fn position_finds_first_entry_by_name() {
    let bytes = Archive::create_sar_archive(&sample_files()).expect("writes");
    let archive = Archive::open_file(bytes, ArchiveType::SAR, 0, default_keytable()).expect("opens");
    assert_eq!(archive.index.position(&"empty".to_string()), Some(2));
    assert_eq!(archive.index.position(&"missing".to_string()), None);
}

#[test]
fn detect_file_types() {
    assert_eq!(detect_file_type(&b"RIFF0000WAVE".to_vec()), ".wav");
    assert_eq!(detect_file_type(&b"BM".to_vec()), ".bmp");
    assert_eq!(detect_file_type(&b"RIF".to_vec()), "");
    assert_eq!(detect_file_type(&vec![]), "");
}

#[test]
fn loose_bzip2_file() {
    let mut wav = b"RIFF".to_vec();
    wav.extend((0..100u32).map(|i| (i * 3) as u8));
    let bytes = Archive::create_nsa_archive(&vec![file("s.wav", &wav)], 0, true, false).expect("writes");
    let archive = Archive::open_file(bytes.clone(), ArchiveType::NSA, 0, default_keytable()).expect("opens");
    let e = &archive.index.entries[0];
    let body = bytes[e.offset..e.offset + e.size].to_vec();
    // The stored size prefix is little-endian.
    assert_eq!(&body[0..4], &[100 + 4, 0, 0, 0]);
    assert_eq!(extract_bz2(&body), Ok(wav));
    assert_eq!(extract_bz2(&vec![1, 2]), Err(ArchiveError::UnexpectedEof));
    assert_eq!(extract_bz2(&vec![0, 0, 0, 0, 9, 9]), Err(ArchiveError::CodecFailure));
}
