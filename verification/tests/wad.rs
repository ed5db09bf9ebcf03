use std::io::Write;

use wiz_packets::wad::{
    bad_magic_text, decompress_zlib, dml_entries, entry_contents, inflate_result, WadEntry, WadNext, WadReader,
};

fn entry_bytes(offset: u32, size: u32, compressed: u32, flag: u8, name: &[u8]) -> Vec<u8> {
    let mut out = Vec::new();
    out.extend(offset.to_le_bytes());
    out.extend(size.to_le_bytes());
    out.extend(compressed.to_le_bytes());
    out.push(flag);
    out.extend(0xDEAD_BEEFu32.to_le_bytes());
    out.extend((name.len() as u32).to_le_bytes());
    out.extend(name);
    out
}

fn archive(entries: &[Vec<u8>]) -> Vec<u8> {
    let mut out = b"KIWAD".to_vec();
    out.extend(2u32.to_le_bytes());
    out.extend((entries.len() as u32).to_le_bytes());
    for e in entries {
        out.extend(e);
    }
    out
}

/// The table, or the message for an archive that ends too early or is not one.
fn read(file: &[u8]) -> Result<Vec<WadEntry>, String> {
    let mut reader = WadReader::new(file.len() as u64);
    loop {
        let Some(piece) = reader.wanted() else {
            return Err(reader.failed("failed to fill whole buffer"));
        };
        let at = piece.offset as usize;
        match reader.received(&file[at..at + piece.len as usize]) {
            WadNext::More(next) => reader = next,
            WadNext::Table(entries) => return Ok(entries),
            WadNext::BadMagic => return Err(bad_magic_text()),
        }
    }
}

fn zlib(data: &[u8]) -> Vec<u8> {
    let mut encoder = flate2::write::ZlibEncoder::new(Vec::new(), flate2::Compression::default());
    encoder.write_all(data).unwrap();
    encoder.finish().unwrap()
}

fn named(name: &str) -> WadEntry {
    WadEntry { offset: 1, size: 2, compressed_size: 3, is_compressed: false, name: name.to_string() }
}

#[test]
fn the_table_is_read() {
    let file = archive(&[
        entry_bytes(100, 20, 10, 1, b"GameMessages.xml\0"),
        entry_bytes(0xFFFF_FFFF, 5, 0, 0, b"dir/other\0\0"),
        entry_bytes(7, 8, 9, 2, b""),
    ]);
    let entries = read(&file).unwrap();
    assert_eq!(entries.len(), 3);
    assert_eq!(entries[0].name, "GameMessages.xml");
    assert_eq!((entries[0].offset, entries[0].size, entries[0].compressed_size), (100, 20, 10));
    assert!(entries[0].is_compressed);
    assert_eq!(entries[0].stored_size(), 10);
    assert_eq!(entries[1].name, "dir/other");
    assert_eq!(entries[1].offset, 0xFFFF_FFFF);
    assert!(!entries[1].is_compressed);
    assert_eq!(entries[1].stored_size(), 5);
    assert_eq!(entries[2].name, "");
    assert!(entries[2].is_compressed);
}

/// An archive of `count` files with these bytes behind its header.
fn archive_with(count: u32, rest: &[u8]) -> Vec<u8> {
    let mut out = b"KIWAD".to_vec();
    out.extend(2u32.to_le_bytes());
    out.extend(count.to_le_bytes());
    out.extend(rest);
    out
}

fn names(file: &[u8]) -> Vec<String> {
    read(file).unwrap().into_iter().map(|e| e.name).collect()
}

#[test]
fn a_table_at_the_end_is_read() {
    let entry = entry_bytes(13, 5, 0, 0, b"Messages.xml");
    let file = archive_with(1, &[b"12345".to_vec(), entry].concat());
    let entries = read(&file).unwrap();
    assert_eq!(entries.len(), 1);
    assert_eq!((entries[0].offset, entries[0].size, entries[0].name.as_str()), (13, 5, "Messages.xml"));
    assert_eq!(dml_entries(entries).unwrap().len(), 1);

    // Zeros in front of the table look like one nameless entry.
    let table = [entry_bytes(13, 30, 0, 0, b"AMessages.xml"), entry_bytes(43, 7, 0, 0, b"b")].concat();
    assert_eq!(names(&archive_with(2, &[vec![0; 37], table.clone()].concat())), vec!["AMessages.xml", "b"]);
    assert_eq!(names(&archive_with(2, &[vec![0xFF; 37], table].concat())), vec!["AMessages.xml", "b"]);
}

#[test]
fn a_table_behind_much_data_is_read() {
    let table = [entry_bytes(13, 3, 0, 0, b"first"), entry_bytes(16, 4, 2, 1, b"Messages.xml\0")].concat();
    for data_len in [0x10_0000 - 60, 0x10_0000 - 13, 0x10_0000, 0x10_0001, 0x25_0007] {
        let file = archive_with(2, &[vec![0xAB; data_len], table.clone()].concat());
        assert_eq!(names(&file), vec!["first", "Messages.xml"], "{}", data_len);
    }
}

#[test]
fn a_table_behind_the_header_is_read_where_none_is_at_the_end() {
    let table = [entry_bytes(90, 3, 0, 0, b"Messages.xml"), entry_bytes(93, 4, 2, 1, b"other")].concat();
    assert_eq!(names(&archive_with(2, &[table.clone(), vec![0xAB; 7]].concat())), vec!["Messages.xml", "other"]);
    assert_eq!(names(&archive_with(2, &[table, vec![0xAB; 0x10_0100]].concat())), vec!["Messages.xml", "other"]);
    assert_eq!(names(&archive_with(0, b"data")), Vec::<String>::new());
}

#[test]
fn of_several_tables_at_the_end_the_first_is_read() {
    let inner = entry_bytes(1, 2, 3, 0, b"inner");
    let outer = entry_bytes(4, 5, 6, 0, &inner);
    let file = archive_with(1, &[b"xyz".to_vec(), outer].concat());
    let entries = read(&file).unwrap();
    assert_eq!((entries[0].offset, entries[0].name.len() > 5), (4, true));
}

#[test]
fn reading_comes_to_an_end() {
    let mut reader = WadReader::new(34);
    let file = archive_with(1, &entry_bytes(7, 8, 9, 2, b""));
    let mut pieces = Vec::new();
    loop {
        let piece = reader.wanted().unwrap();
        pieces.push((piece.offset, piece.len));
        let at = piece.offset as usize;
        match reader.received(&file[at..at + piece.len as usize]) {
            WadNext::More(next) => reader = next,
            WadNext::Table(entries) => break assert_eq!(entries.len(), 1),
            WadNext::BadMagic => panic!("bad magic"),
        }
    }
    assert_eq!(pieces, vec![(0, 5), (5, 4), (9, 4), (13, 21), (13, 21), (34, 0)]);
}

#[test]
fn names_of_files_are_decoded() {
    let entries = read(&archive(&[entry_bytes(0, 0, 0, 0, &[0x41, 0xFF, 0x00, 0x42, 0x00])])).unwrap();
    assert_eq!(entries[0].name, "A\u{FFFD}\0B");
}

#[test]
fn an_archive_without_files_has_an_empty_table() {
    assert_eq!(read(&archive(&[])).unwrap().len(), 0);
}

#[test]
fn an_archive_that_is_not_one_is_refused() {
    assert_eq!(read(b"KIWAX\x02\0\0\0\0\0\0\0").unwrap_err(), "Invalid WAD file (bad magic)");
}

#[test]
fn an_archive_that_ends_too_early_says_where() {
    let file = archive(&[entry_bytes(1, 2, 3, 0, b"name")]);
    let message = |n: usize| read(&file[..n]).unwrap_err();
    assert_eq!(message(0), "Cannot read WAD header: failed to fill whole buffer");
    assert_eq!(message(4), "Cannot read WAD header: failed to fill whole buffer");
    assert_eq!(message(5), "Cannot read version: failed to fill whole buffer");
    assert_eq!(message(9), "Cannot read file count: failed to fill whole buffer");
    assert_eq!(message(13), "failed to fill whole buffer");
    assert_eq!(message(36), "failed to fill whole buffer");
    assert!(read(&file).is_ok());
}

#[test]
fn schema_documents_are_chosen() {
    let chosen = dml_entries(vec![named("a.xml"), named("XMessages.xml"), named("Messages.txt"), named("Messages1.xml")])
        .unwrap();
    let names: Vec<&str> = chosen.iter().map(|e| e.name.as_str()).collect();
    assert_eq!(names, vec!["XMessages.xml", "Messages1.xml"]);
    assert_eq!((chosen[0].offset, chosen[0].size, chosen[0].compressed_size), (1, 2, 3));
    assert_eq!(dml_entries(vec![named("a.xml")]).unwrap_err(), "No DML XML files found in WAD");
}

#[test]
fn files_are_unpacked() {
    let contents = b"<GameMessages></GameMessages>".repeat(50);
    let packed = zlib(&contents);
    assert!(packed.len() < contents.len());
    assert_eq!(decompress_zlib(&packed).unwrap(), contents);
    let mut entry = named("x");
    assert_eq!(entry_contents(&entry, packed.clone()).unwrap(), packed);
    entry.is_compressed = true;
    assert_eq!(entry_contents(&entry, packed).unwrap(), contents);
}

#[test]
fn files_that_cannot_be_unpacked_are_reported() {
    let packed = zlib(b"some contents that are long enough");
    assert_eq!(decompress_zlib(&[1, 2, 3]).unwrap_err(), "Decompression failed: corrupt deflate stream");
    let cut = decompress_zlib(&packed[..packed.len() - 8]).unwrap_err();
    assert!(cut.starts_with("Decompression failed: "));
    let mut entry = named("x");
    entry.is_compressed = true;
    assert!(entry_contents(&entry, vec![0xFF; 4]).is_err());
    assert_eq!(inflate_result(Ok(vec![1])), Ok(vec![1]));
    assert_eq!(inflate_result(Err("bad".to_string())), Err("Decompression failed: bad".to_string()));
}
