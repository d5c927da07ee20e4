use gift::decimal::decimal;
use gift::loose::{
    encode_loose_object, hash_blob, loose_object_kind, loose_object_path, tree_from_loose_object,
    LooseKindError, LooseTreeError,
};
use gift::object::{
    read_object_type, skip_git_object_size_nul, FileMode, ObjectError, ObjectSha, TreeEntries,
    TreeEntry, TreeObject,
};

fn sha1(seed: u8) -> ObjectSha {
    let mut h = [0u8; 20];
    for (i, b) in h.iter_mut().enumerate() {
        *b = seed.wrapping_add(i as u8);
    }
    ObjectSha::SHA1(h)
}

fn to_hex(bytes: &[u8]) -> String {
    bytes.iter().map(|b| format!("{:02x}", b)).collect()
}

#[test]
fn as_bytes_gives_the_raw_hash() {
    let h = sha1(7);
    assert_eq!(h.as_bytes().len(), 20);
    assert_eq!(h.as_bytes()[0], 7);
    let long = ObjectSha::SHA256([9u8; 32]);
    assert_eq!(long.as_bytes(), &[9u8; 32][..]);
}

#[test]
fn decimal_writes_numbers() {
    assert_eq!(decimal(0), b"0".to_vec());
    assert_eq!(decimal(7), b"7".to_vec());
    assert_eq!(decimal(10), b"10".to_vec());
    assert_eq!(decimal(1234567), b"1234567".to_vec());
    assert_eq!(decimal(usize::MAX), usize::MAX.to_string().into_bytes());
}

#[test]
fn object_type_is_read_up_to_the_space() {
    let data = b"tree 12\0rest";
    let (kind, next) = read_object_type(data, 0).unwrap();
    assert_eq!(kind, "tree");
    assert_eq!(next, 5);
    assert_eq!(skip_git_object_size_nul(data, next), 8);
}

#[test]
fn object_type_without_space_loses_its_last_byte() {
    let (kind, next) = read_object_type(b"blob", 0).unwrap();
    assert_eq!(kind, "blo");
    assert_eq!(next, 4);
    let (kind, next) = read_object_type(b"", 0).unwrap();
    assert_eq!(kind, "");
    assert_eq!(next, 0);
}

#[test]
fn object_type_that_is_not_utf8_is_refused() {
    assert_eq!(read_object_type(b"\xff\xfe 3\0", 0).unwrap_err(), ObjectError::TypeNotUtf8);
}

#[test]
fn size_without_nul_runs_to_the_end() {
    assert_eq!(skip_git_object_size_nul(b"12345", 0), 5);
    assert_eq!(skip_git_object_size_nul(b"1\0", 2), 2);
}

#[test]
fn entry_bytes_follow_the_tree_format() {
    let e = TreeEntry { file_mode: FileMode::Directory, object_name: sha1(1) };
    let bin = e.to_binary(b"sub dir");
    let mut want = b"40000 sub dir\0".to_vec();
    want.extend_from_slice(sha1(1).as_bytes());
    assert_eq!(bin, want);
    let e = TreeEntry { file_mode: FileMode::ExecRegularFile, object_name: sha1(2) };
    assert!(e.to_binary(b"x").starts_with(b"100755 x\0"));
    let e = TreeEntry { file_mode: FileMode::SymbolicLink, object_name: sha1(2) };
    assert!(e.to_binary(b"l").starts_with(b"120000 l\0"));
    let e = TreeEntry { file_mode: FileMode::Gitlink, object_name: sha1(2) };
    assert!(e.to_binary(b"m").starts_with(b"160000 m\0"));
    let e = TreeEntry { file_mode: FileMode::NExecRegularFile, object_name: sha1(2) };
    assert!(e.to_binary(b"f").starts_with(b"100644 f\0"));
}

#[test]
fn entry_reads_back_as_written() {
    for (mode, name) in [
        (FileMode::ExecRegularFile, &b"script.sh"[..]),
        (FileMode::NExecRegularFile, &b"a b c"[..]),
        (FileMode::SymbolicLink, &b"link"[..]),
        (FileMode::Gitlink, &b"sub"[..]),
        (FileMode::Directory, &"\u{554a}".as_bytes()[..]),
        (FileMode::Directory, &b""[..]),
    ] {
        let e = TreeEntry { file_mode: mode, object_name: sha1(3) };
        let mut data = b"junk".to_vec();
        let bin = e.to_binary(name);
        data.extend_from_slice(&bin);
        data.extend_from_slice(b"tail");
        let (n, got, next) = TreeEntry::read_entry(&data, 4, true).unwrap().unwrap();
        assert_eq!(n, name.to_vec());
        assert_eq!(got.file_mode, mode);
        assert_eq!(got.object_name, sha1(3));
        assert_eq!(next, 4 + bin.len());
    }
}

#[test]
fn entry_with_sha256_reads_back() {
    let e = TreeEntry { file_mode: FileMode::NExecRegularFile, object_name: ObjectSha::SHA256([5u8; 32]) };
    let bin = e.to_binary(b"f");
    let (n, got, next) = TreeEntry::read_entry(&bin, 0, false).unwrap().unwrap();
    assert_eq!(n, b"f".to_vec());
    assert_eq!(got.object_name, ObjectSha::SHA256([5u8; 32]));
    assert_eq!(next, bin.len());
}

#[test]
fn entry_mode_word_is_trimmed() {
    let mut data = "\t\u{3000}100644 name\0".as_bytes().to_vec();
    data.extend_from_slice(&[0u8; 20]);
    let (n, got, _) = TreeEntry::read_entry(&data, 0, true).unwrap().unwrap();
    assert_eq!(n, b"name".to_vec());
    assert_eq!(got.file_mode, FileMode::NExecRegularFile);
}

#[test]
fn entry_errors() {
    assert!(TreeEntry::read_entry(b"", 0, true).unwrap().is_none());
    assert!(TreeEntry::read_entry(b"abc", 3, true).unwrap().is_none());
    let mut bad = b"100600 name\0".to_vec();
    bad.extend_from_slice(&[0u8; 20]);
    assert_eq!(TreeEntry::read_entry(&bad, 0, true).unwrap_err(), ObjectError::InvalidModeWord);
    let mut short = b"100644 name\0".to_vec();
    short.extend_from_slice(&[0u8; 19]);
    assert_eq!(TreeEntry::read_entry(&short, 0, true).unwrap_err(), ObjectError::TruncatedHash);
    let mut long = b"100644 name\0".to_vec();
    long.extend_from_slice(&[0u8; 20]);
    assert_eq!(TreeEntry::read_entry(&long, 0, false).unwrap_err(), ObjectError::TruncatedHash);
    // A mode word with no space after it runs to the end of the data.
    assert_eq!(TreeEntry::read_entry(b"100644", 0, true).unwrap_err(), ObjectError::TruncatedHash);
    assert_eq!(TreeEntry::read_entry(b"10064", 0, true).unwrap_err(), ObjectError::InvalidModeWord);
}

#[test]
fn tree_entries_keep_names_in_order() {
    let mut t = TreeEntries::new();
    t.insert(b"b".to_vec(), TreeEntry { file_mode: FileMode::NExecRegularFile, object_name: sha1(1) });
    t.insert(b"a".to_vec(), TreeEntry { file_mode: FileMode::Directory, object_name: sha1(2) });
    t.insert(b"ab".to_vec(), TreeEntry { file_mode: FileMode::Gitlink, object_name: sha1(3) });
    t.insert(b"b".to_vec(), TreeEntry { file_mode: FileMode::ExecRegularFile, object_name: sha1(4) });
    assert_eq!(t.len(), 3);
    let names: Vec<Vec<u8>> = t.items().iter().map(|p| p.0.clone()).collect();
    assert_eq!(names, vec![b"a".to_vec(), b"ab".to_vec(), b"b".to_vec()]);
    assert_eq!(t.get(b"b").unwrap().file_mode, FileMode::ExecRegularFile);
    assert_eq!(t.get(b"b").unwrap().object_name, sha1(4));
    assert!(t.get(b"c").is_none());
    assert!(t.get(b"").is_none());
}

fn sample_entries() -> TreeEntries {
    let mut t = TreeEntries::new();
    t.insert(b"script.sh".to_vec(), TreeEntry { file_mode: FileMode::ExecRegularFile, object_name: sha1(10) });
    t.insert(b"a.txt".to_vec(), TreeEntry { file_mode: FileMode::NExecRegularFile, object_name: sha1(20) });
    t.insert(b"foo".to_vec(), TreeEntry { file_mode: FileMode::Directory, object_name: sha1(30) });
    t.insert(b"link".to_vec(), TreeEntry { file_mode: FileMode::SymbolicLink, object_name: sha1(40) });
    t
}

#[test]
fn empty_tree_has_the_known_bytes() {
    let bytes = TreeObject::entries_to_binary(TreeEntries::new(), true);
    assert_eq!(bytes, b"tree 0\0".to_vec());
}

#[test]
fn tree_object_reads_back_as_written() {
    let bytes = TreeObject::entries_to_binary(sample_entries(), true);
    assert!(bytes.starts_with(b"tree 132\0"));
    let (kind, next) = read_object_type(&bytes, 0).unwrap();
    assert_eq!(kind, "tree");
    let body = skip_git_object_size_nul(&bytes, next);
    assert_eq!(body, 9);
    let t = TreeObject::read_tree(sha1(99), &bytes, body, true).unwrap();
    assert_eq!(t.object_name(), &sha1(99));
    let expected = sample_entries();
    assert_eq!(t.entries().len(), expected.len());
    for (name, e) in expected.items() {
        let got = t.entries().get(name).unwrap();
        assert_eq!(got.file_mode, e.file_mode);
        assert_eq!(got.object_name, e.object_name);
    }
}

#[test]
fn later_entry_of_a_name_wins() {
    let a = TreeEntry { file_mode: FileMode::NExecRegularFile, object_name: sha1(1) };
    let b = TreeEntry { file_mode: FileMode::ExecRegularFile, object_name: sha1(2) };
    let mut data = a.to_binary(b"same");
    data.extend_from_slice(&b.to_binary(b"same"));
    let t = TreeObject::read_tree(sha1(0), &data, 0, true).unwrap();
    assert_eq!(t.entries().len(), 1);
    assert_eq!(t.entries().get(b"same").unwrap().object_name, sha1(2));
}

#[test]
fn tree_with_a_bad_entry_is_refused() {
    let a = TreeEntry { file_mode: FileMode::NExecRegularFile, object_name: sha1(1) };
    let mut data = a.to_binary(b"ok");
    data.extend_from_slice(b"999999 bad\0");
    data.extend_from_slice(&[0u8; 20]);
    assert_eq!(TreeObject::read_tree(sha1(0), &data, 0, true).err(), Some(ObjectError::InvalidModeWord));
}

#[test]
fn blob_of_hello_has_the_git_name() {
    let (hash, content) = hash_blob(b"hello\n");
    assert_eq!(content, b"blob 6\0hello\n".to_vec());
    assert_eq!(to_hex(hash.as_bytes()), "ce013625030ba8dba906f756967f9e9ca394464a");
    let (hash, content) = hash_blob(b"");
    assert_eq!(content, b"blob 0\0".to_vec());
    assert_eq!(to_hex(hash.as_bytes()), "e69de29bb2d1d6434b8b29ae775ad8c2e48c5391");
}

#[test]
fn loose_object_path_splits_the_hex_name() {
    let (hash, _) = hash_blob(b"hello\n");
    let (dir, file) = loose_object_path(&hash);
    assert_eq!(dir, "ce");
    assert_eq!(file, "013625030ba8dba906f756967f9e9ca394464a");
}

#[test]
fn loose_blob_reads_back_its_kind() {
    let (_, content) = hash_blob(b"some text");
    let stored = encode_loose_object(&content).unwrap();
    assert_ne!(stored, content);
    assert_eq!(loose_object_kind(&stored).unwrap(), "blob");
    assert_eq!(loose_object_kind(b"not zlib").unwrap_err(), LooseKindError::NotZlib);
    let odd = encode_loose_object(b"\xff\xfe 1\0x").unwrap();
    assert_eq!(loose_object_kind(&odd).unwrap_err(), LooseKindError::TypeNotUtf8);
}

#[test]
fn loose_tree_reads_back_as_written() {
    let bytes = TreeObject::entries_to_binary(sample_entries(), true);
    let stored = encode_loose_object(&bytes).unwrap();
    let oid = to_hex(sha1(77).as_bytes());
    let t = tree_from_loose_object(&oid, &stored).unwrap();
    assert_eq!(t.object_name(), &sha1(77));
    assert_eq!(t.entries().len(), 4);
    assert_eq!(t.entries().get(b"foo").unwrap().file_mode, FileMode::Directory);
    let upper = oid.to_uppercase();
    assert_eq!(tree_from_loose_object(&upper, &stored).unwrap().object_name(), &sha1(77));
}

#[test]
fn loose_tree_errors() {
    let oid = to_hex(sha1(77).as_bytes());
    assert_eq!(tree_from_loose_object(&oid, b"garbage").err(), Some(LooseTreeError::ReadType));
    let (_, blob) = hash_blob(b"x");
    let stored_blob = encode_loose_object(&blob).unwrap();
    assert_eq!(tree_from_loose_object(&oid, &stored_blob).err(), Some(LooseTreeError::NotTree));
    let tree = encode_loose_object(&TreeObject::entries_to_binary(sample_entries(), true)).unwrap();
    assert_eq!(tree_from_loose_object("xyz", &tree).err(), Some(LooseTreeError::HexOid));
    assert_eq!(tree_from_loose_object("abcd", &tree).err(), Some(LooseTreeError::OidLength));
    let mut bad = b"tree 5\0".to_vec();
    bad.extend_from_slice(b"1 x\0");
    let stored_bad = encode_loose_object(&bad).unwrap();
    assert_eq!(
        tree_from_loose_object(&oid, &stored_bad).err(),
        Some(LooseTreeError::ReadTree(ObjectError::InvalidModeWord))
    );
    let mut not_utf8 = b"tree 5\0".to_vec();
    not_utf8.extend_from_slice(b"\xff4 x\0");
    not_utf8.extend_from_slice(&[0u8; 20]);
    let stored_nu = encode_loose_object(&not_utf8).unwrap();
    assert_eq!(
        tree_from_loose_object(&oid, &stored_nu).err(),
        Some(LooseTreeError::ReadTree(ObjectError::ModeWordNotUtf8))
    );
}

#[test]
fn encoding_a_loose_object_always_succeeds() {
    for content in [&b""[..], &b"blob 6\0hello\n"[..], &[0u8, 255, 7, 0][..]] {
        let stored = encode_loose_object(content).expect("compressing into memory succeeds");
        assert!(stored.len() >= 2);
        assert_eq!(stored[0], 0x78);
    }
}
