use gitters::index;

/// An index file holding the given entries under the given version.
/// Each entry is a 20-byte content hash and a path.
fn index_file(version: u32, entries: &[([u8; 20], &str)]) -> Vec<u8> {
    let mut data = Vec::new();
    data.extend_from_slice(b"DIRC");
    data.extend_from_slice(&version.to_be_bytes());
    data.extend_from_slice(&(entries.len() as u32).to_be_bytes());
    for (sha, path) in entries {
        let start = data.len();
        data.extend_from_slice(&[0u8; 40]); // stat metadata
        data.extend_from_slice(sha);
        data.extend_from_slice(&[0u8; 2]); // flags
        if version >= 3 {
            data.extend_from_slice(&[0u8; 2]); // extended flags
        }
        data.extend_from_slice(path.as_bytes());
        data.push(0);
        if version < 4 {
            while (data.len() - start) % 8 != 0 {
                data.push(0);
            }
        }
    }
    data
}

fn sha_bytes() -> [u8; 20] {
    let mut sha = [0u8; 20];
    for (i, b) in sha.iter_mut().enumerate() {
        *b = (i as u8) * 10 + 1;
    }
    sha
}

#[test]
fn reads_version_two_entries() {
    let data = index_file(2, &[(sha_bytes(), "src/main.rs"), ([0xab; 20], "README")]);
    let ix = index::Index::read(&data).unwrap();
    assert_eq!(ix.version, 2);
    assert_eq!(ix.entries.len(), 2);
    assert_eq!(
        ix.entries[0].sha1,
        "010b151f29333d47515b656f79838d97a1abb5bf"
    );
    assert_eq!(ix.entries[0].path, "src/main.rs");
    assert_eq!(ix.entries[1].sha1, "ab".repeat(20));
    assert_eq!(ix.entries[1].path, "README");
}

#[test]
fn reads_version_three_and_four_layouts() {
    let data3 = index_file(3, &[(sha_bytes(), "a.txt")]);
    let ix3 = index::Index::read(&data3).unwrap();
    assert_eq!(ix3.version, 3);
    assert_eq!(ix3.entries[0].path, "a.txt");

    let data4 = index_file(4, &[(sha_bytes(), "a.txt"), ([1u8; 20], "b.txt")]);
    let ix4 = index::Index::read(&data4).unwrap();
    assert_eq!(ix4.version, 4);
    assert_eq!(ix4.entries.len(), 2);
    assert_eq!(ix4.entries[1].path, "b.txt");
}

#[test]
fn empty_index_parses_and_extensions_are_ignored() {
    let mut data = index_file(2, &[]);
    // an extension block and a trailing checksum, both ignored
    data.extend_from_slice(b"TREE");
    data.extend_from_slice(&[0u8; 24]);
    let ix = index::Index::read(&data).unwrap();
    assert_eq!(ix.version, 2);
    assert_eq!(ix.entries.len(), 0);
}

#[test]
fn rejects_bad_magic() {
    let mut data = index_file(2, &[]);
    data[0] = b'X';
    assert!(matches!(
        index::Index::read(&data),
        Err(index::Error::InvalidIndex(_))
    ));
}

#[test]
fn rejects_unsupported_version() {
    let data = index_file(7, &[]);
    assert!(matches!(
        index::Index::read(&data),
        Err(index::Error::InvalidIndex(_))
    ));
}

#[test]
fn rejects_truncated_entries() {
    let mut data = index_file(2, &[(sha_bytes(), "src/main.rs")]);
    data.truncate(30);
    assert!(matches!(
        index::Index::read(&data),
        Err(index::Error::InvalidEntry(_))
    ));
}

#[test]
fn rejects_count_beyond_the_data() {
    let mut data = index_file(2, &[]);
    data[11] = 3; // declare three entries, provide none
    assert!(matches!(
        index::Index::read(&data),
        Err(index::Error::InvalidEntry(_))
    ));
}

#[test]
fn untracked_files_are_the_walked_minus_the_known() {
    let known = vec!["/r/a.txt".to_string(), "/r/b.txt".to_string()];
    let walked = vec![
        "/r/a.txt".to_string(),
        "/r/new.txt".to_string(),
        "/r/b.txt".to_string(),
        "/r/other.md".to_string(),
    ];
    let others = index::untracked_files(&known, &walked);
    assert_eq!(others, vec!["/r/new.txt".to_string(), "/r/other.md".to_string()]);
}
