use gitters::objects;

use std::io::Write;

/// Compress `raw` as a zlib stream, the way loose objects are stored.
fn deflate(raw: &[u8]) -> Vec<u8> {
    let mut encoder = flate2::write::ZlibEncoder::new(Vec::new(), flate2::Compression::default());
    encoder.write_all(raw).unwrap();
    encoder.finish().unwrap()
}

/// A loose object: `<type> SP <len> NUL <payload>`, compressed.
fn loose_object(kind: &str, payload: &[u8]) -> Vec<u8> {
    let mut raw = Vec::new();
    raw.extend_from_slice(kind.as_bytes());
    raw.push(b' ');
    raw.extend_from_slice(payload.len().to_string().as_bytes());
    raw.push(0);
    raw.extend_from_slice(payload);
    deflate(&raw)
}

#[test]
fn reads_header_for_valid_object() {
    let name = objects::Name("4ddb0025ef5914b51fb835495f5259a6d962df21".to_string());
    assert_eq!(name.0.len(), 40);
    let payload = vec![b'x'; 384];
    let data = loose_object("commit", &payload);
    match objects::read_header(&data) {
        Ok(header) => {
            assert_eq!(
                objects::Header { object_type: objects::Type::Commit, content_length: 384 },
                header
            )
        }
        Err(err) => panic!("unexpected error: {}", err.message()),
    }
}

#[test]
fn reads_blob_and_tree_headers() {
    let blob = loose_object("blob", b"hello");
    assert_eq!(
        objects::read_header(&blob).unwrap(),
        objects::Header { object_type: objects::Type::Blob, content_length: 5 }
    );
    let tree = loose_object("tree", b"");
    assert_eq!(
        objects::read_header(&tree).unwrap(),
        objects::Header { object_type: objects::Type::Tree, content_length: 0 }
    );
}

#[test]
fn rejects_unknown_type() {
    let data = loose_object("tag", b"x");
    assert!(matches!(
        objects::read_header(&data),
        Err(objects::Error::InvalidFile(_))
    ));
}

#[test]
fn rejects_non_numeric_size() {
    let data = deflate(b"blob abc\0xyz");
    assert!(matches!(
        objects::read_header(&data),
        Err(objects::Error::InvalidFile(_))
    ));
}

#[test]
fn rejects_size_disagreeing_with_stream() {
    let data = deflate(b"blob 10\0abc");
    assert!(matches!(
        objects::read_header(&data),
        Err(objects::Error::InvalidFile(_))
    ));
}

#[test]
fn rejects_corrupt_compression() {
    let data = vec![1, 2, 3, 4, 5];
    assert!(matches!(
        objects::read_header(&data),
        Err(objects::Error::InvalidFile(_))
    ));
}

#[test]
fn object_path_splits_the_name() {
    let name = objects::Name("4ddb0025ef5914b51fb835495f5259a6d962df21".to_string());
    assert_eq!(
        objects::object_path(&name),
        ".git/objects/4d/db0025ef5914b51fb835495f5259a6d962df21".to_string()
    );
}

#[test]
fn reads_commit_object() {
    let payload = b"tree 51be3e85a4cbd58fcbf55897573d0e26a4ef80c7\n\
parent 3e6a5d72d0ce0af8402c7d467d1b754b61b79d16\n\
author Ann Author 1444526485 +0200\n\
committer Cal Committer 1444526485 -0130\n\
\n\
Add the first cut of the feature.\n";
    let data = loose_object("commit", payload);
    let name = objects::Name("4ddb0025ef5914b51fb835495f5259a6d962df21".to_string());
    match objects::read_object(&name, &data).unwrap() {
        objects::Object::Commit(c) => {
            assert_eq!(c.name, name);
            assert_eq!(c.tree.0, "51be3e85a4cbd58fcbf55897573d0e26a4ef80c7");
            assert_eq!(
                c.parent,
                Some(objects::Name(
                    "3e6a5d72d0ce0af8402c7d467d1b754b61b79d16".to_string()
                ))
            );
            assert_eq!(c.author.name, "Ann Author");
            assert_eq!(c.author.date.epoch_seconds, 1444526485);
            assert_eq!(c.author.date.offset_seconds, 7200);
            assert_eq!(c.committer.name, "Cal Committer");
            assert_eq!(c.committer.date.offset_seconds, -5400);
            assert_eq!(c.message, "Add the first cut of the feature.");
        }
        _ => panic!("expected a commit"),
    }
}

#[test]
fn read_object_rejects_blobs() {
    let data = loose_object("blob", b"hello");
    let name = objects::Name("4ddb0025ef5914b51fb835495f5259a6d962df21".to_string());
    assert!(matches!(
        objects::read_object(&name, &data),
        Err(objects::Error::InvalidFile(_))
    ));
}
