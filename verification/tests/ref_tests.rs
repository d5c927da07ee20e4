use gift::object::ObjectSha;
use gift::reference::{check_commit_kind, parse_ref_content, ref_file_content, RefError};
use gift::symbolic_ref::{
    parse_symbolic_ref_content, symbolic_ref_file_content, SymbolicRef, SymbolicRefError,
};

const OID: &str = "ce013625030ba8dba906f756967f9e9ca394464a";

fn oid_bytes() -> [u8; 20] {
    let mut out = [0u8; 20];
    for i in 0..20 {
        out[i] = u8::from_str_radix(&OID[2 * i..2 * i + 2], 16).unwrap();
    }
    out
}

#[test]
fn direct_ref_is_read() {
    let id = parse_ref_content(&format!("{}\n", OID)).unwrap();
    assert_eq!(id, ObjectSha::SHA1(oid_bytes()));
    let id = parse_ref_content(&format!("  \t{}\r\n\n", OID.to_uppercase())).unwrap();
    assert_eq!(id, ObjectSha::SHA1(oid_bytes()));
}

#[test]
fn direct_ref_errors() {
    assert!(matches!(parse_ref_content("ref: refs/heads/main\n"), Err(RefError::SymbolicRef)));
    assert!(matches!(parse_ref_content(&format!("{}\n{}\n", OID, OID)), Err(RefError::NotSingleLine)));
    assert!(matches!(parse_ref_content("abc\n"), Err(RefError::BadLength(3))));
    assert!(matches!(parse_ref_content(""), Err(RefError::BadLength(0))));
    let bad = format!("{}g", &OID[..39]);
    assert!(matches!(parse_ref_content(&bad), Err(RefError::NotHex)));
    // twenty two-byte characters make forty bytes
    let wide = "\u{e9}".repeat(20);
    assert!(matches!(parse_ref_content(&wide), Err(RefError::NotHex)));
    let wide = "\u{e9}".repeat(40);
    assert!(matches!(parse_ref_content(&wide), Err(RefError::BadLength(80))));
}

#[test]
fn direct_ref_round_trip() {
    let id = ObjectSha::SHA1(oid_bytes());
    let text = ref_file_content(&id).unwrap();
    assert_eq!(text, format!("{}\n", OID));
    assert_eq!(parse_ref_content(&text).unwrap(), id);
    assert!(matches!(ref_file_content(&ObjectSha::SHA256([0u8; 32])), Err(RefError::UnsupportedOid)));
}

#[test]
fn commit_kind_is_checked() {
    assert!(check_commit_kind("commit").is_ok());
    match check_commit_kind("tree") {
        Err(RefError::NotCommit(k)) => assert_eq!(k, "tree"),
        other => panic!("unexpected {:?}", other),
    }
    assert!(check_commit_kind("commit ").is_err());
}

#[test]
fn symbolic_ref_is_read() {
    let s = parse_symbolic_ref_content("ref: refs/heads/main\n").unwrap();
    assert_eq!(s.ref_name, "refs/heads/main");
    let s = parse_symbolic_ref_content("ref:refs\\heads\\dev \r\n").unwrap();
    assert_eq!(s.ref_name, "refs/heads/dev");
    let s = parse_symbolic_ref_content("ref: \t HEAD").unwrap();
    assert_eq!(s.ref_name, "HEAD");
}

#[test]
fn symbolic_ref_errors() {
    assert_eq!(
        parse_symbolic_ref_content("ref: a\nref: b\n").unwrap_err(),
        SymbolicRefError::NotSingleLine
    );
    assert_eq!(
        parse_symbolic_ref_content("\nref: a").unwrap_err(),
        SymbolicRefError::NotSingleLine
    );
    assert_eq!(
        parse_symbolic_ref_content(&format!("{}\n", OID)).unwrap_err(),
        SymbolicRefError::MissingPrefix
    );
    assert_eq!(
        parse_symbolic_ref_content(" ref: a").unwrap_err(),
        SymbolicRefError::MissingPrefix
    );
    assert_eq!(parse_symbolic_ref_content("ref:   \n").unwrap_err(), SymbolicRefError::EmptyTarget);
}

#[test]
fn symbolic_ref_round_trip() {
    for name in ["refs/heads/main", "HEAD", "refs/heads/f\u{e9}ature x"] {
        let sym = SymbolicRef { ref_name: name.to_string() };
        let text = symbolic_ref_file_content(&sym);
        assert_eq!(text, format!("ref: {}\n", name));
        assert_eq!(parse_symbolic_ref_content(&text).unwrap().ref_name, name);
    }
}
