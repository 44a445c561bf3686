use gitters::objects::Name;
use gitters::revisions::{Lookup, Reply, Resolver, Status};

use std::io::Write;

fn deflate(raw: &[u8]) -> Vec<u8> {
    let mut encoder = flate2::write::ZlibEncoder::new(Vec::new(), flate2::Compression::default());
    encoder.write_all(raw).unwrap();
    encoder.finish().unwrap()
}

/// A compressed commit object with the given tree, optional parent and
/// message.
fn commit_object(tree: &str, parent: Option<&str>, message: &str) -> Vec<u8> {
    let mut payload = String::new();
    payload.push_str(&format!("tree {}\n", tree));
    if let Some(p) = parent {
        payload.push_str(&format!("parent {}\n", p));
    }
    payload.push_str("author Ann Author 1444526485 +0200\n");
    payload.push_str("committer Ann Author 1444526485 +0200\n");
    payload.push('\n');
    payload.push_str(message);
    let mut raw = Vec::new();
    raw.extend_from_slice(b"commit ");
    raw.extend_from_slice(payload.len().to_string().as_bytes());
    raw.push(0);
    raw.extend_from_slice(payload.as_bytes());
    deflate(&raw)
}

const TREE: &str = "51be3e85a4cbd58fcbf55897573d0e26a4ef80c7";

#[test]
fn full_sha1_resolves_to_self() {
    let (_resolver, status) = Resolver::start("4ddb0025ef5914b51fb835495f5259a6d962df21");
    match status {
        Status::Resolved(name) => {
            assert_eq!(
                Name("4ddb0025ef5914b51fb835495f5259a6d962df21".to_string()),
                name
            )
        }
        _ => panic!("expected an immediate resolution"),
    }
}

#[test]
fn partial_sha1_resolves_to_full_sha1_if_unambiguous() {
    let (resolver, status) = Resolver::start("4ddb0025e");
    match status {
        Status::Need(Lookup::Dir(d)) => assert_eq!(d, ".git/objects/4d"),
        _ => panic!("expected an object-directory listing"),
    }
    let listing = vec!["db0025ef5914b51fb835495f5259a6d962df21".to_string()];
    let (_resolver, status) = resolver.advance(Reply::Listing(Some(listing)));
    match status {
        Status::Resolved(name) => {
            assert_eq!(
                Name("4ddb0025ef5914b51fb835495f5259a6d962df21".to_string()),
                name
            )
        }
        _ => panic!("expected a resolution"),
    }
}

/// Walk a resolver through the object store: `objects` maps a name to
/// its compressed bytes.
fn run(mut resolver: Resolver, mut status: Status, objects: &[(&str, Vec<u8>)]) -> Status {
    loop {
        match status {
            Status::Need(Lookup::Object(name)) => {
                let found = objects
                    .iter()
                    .find(|(n, _)| *n == name.0)
                    .map(|(_, data)| data.clone());
                let (r, s) = resolver.advance(Reply::Data(found));
                resolver = r;
                status = s;
            }
            other => return other,
        }
    }
}

fn ancestry() -> Vec<(&'static str, Vec<u8>)> {
    // d7698dd... -> c1 -> c2 -> 3e6a5d72...
    let c0 = "d7698dd00000000000000000000000000000000a";
    let c1 = "1111111111111111111111111111111111111111";
    let c2 = "2222222222222222222222222222222222222222";
    let c3 = "3e6a5d72d0ce0af8402c7d467d1b754b61b79d16";
    vec![
        (c0, commit_object(TREE, Some(c1), "three up\n")),
        (c1, commit_object(TREE, Some(c2), "two up\n")),
        (c2, commit_object(TREE, Some(c3), "one up\n")),
        (c3, commit_object(TREE, None, "root\n")),
    ]
}

#[test]
fn multiple_parent_specification_resolves_to_ancestor_sha1() {
    let (resolver, status) = Resolver::start("d7698dd^^^");
    match &status {
        Status::Need(Lookup::Dir(d)) => assert_eq!(d, ".git/objects/d7"),
        _ => panic!("expected an object-directory listing"),
    }
    let listing = vec!["698dd00000000000000000000000000000000a".to_string()];
    let (resolver, status) = resolver.advance(Reply::Listing(Some(listing)));
    match run(resolver, status, &ancestry()) {
        Status::Resolved(name) => {
            assert_eq!(
                Name("3e6a5d72d0ce0af8402c7d467d1b754b61b79d16".to_string()),
                name
            )
        }
        _ => panic!("expected a resolution"),
    }
}

#[test]
fn ancestor_specification_resolves_to_ancestor_sha1() {
    let (resolver, status) = Resolver::start("d7698dd~3");
    match &status {
        Status::Need(Lookup::Dir(d)) => assert_eq!(d, ".git/objects/d7"),
        _ => panic!("expected an object-directory listing"),
    }
    let listing = vec!["698dd00000000000000000000000000000000a".to_string()];
    let (resolver, status) = resolver.advance(Reply::Listing(Some(listing)));
    match run(resolver, status, &ancestry()) {
        Status::Resolved(name) => {
            assert_eq!(
                Name("3e6a5d72d0ce0af8402c7d467d1b754b61b79d16".to_string()),
                name
            )
        }
        _ => panic!("expected a resolution"),
    }
}

#[test]
fn branch_resolves_to_sha1() {
    let (resolver, status) = Resolver::start("introduce-tests");
    match &status {
        Status::Need(Lookup::File(p)) => assert_eq!(p, ".git/refs/heads/introduce-tests"),
        _ => panic!("expected a reference-file read"),
    }
    let contents = "41cf28e8cac50f5cfeda40cfbfdd049763541c5a\n".to_string();
    let (_resolver, status) = resolver.advance(Reply::Text(Some(contents)));
    match status {
        Status::Resolved(name) => {
            assert_eq!(
                Name("41cf28e8cac50f5cfeda40cfbfdd049763541c5a".to_string()),
                name
            )
        }
        _ => panic!("expected a resolution"),
    }
}

#[test]
fn invalid_revision_does_not_resolve() {
    let (resolver, status) = Resolver::start("invalid");
    match &status {
        Status::Need(Lookup::File(p)) => assert_eq!(p, ".git/refs/heads/invalid"),
        _ => panic!("expected a reference-file read"),
    }
    let (_resolver, status) = resolver.advance(Reply::Text(None));
    assert!(matches!(status, Status::Invalid));
    assert_eq!(
        gitters::revisions::Error::InvalidRevision,
        gitters::revisions::Error::InvalidRevision
    );
}

#[test]
fn head_follows_the_symbolic_reference() {
    let (resolver, status) = Resolver::start("HEAD");
    match &status {
        Status::Need(Lookup::File(p)) => assert_eq!(p, ".git/HEAD"),
        _ => panic!("expected the HEAD read"),
    }
    let (resolver, status) = resolver.advance(Reply::Text(Some(
        "ref: refs/heads/master\n".to_string(),
    )));
    match &status {
        Status::Need(Lookup::File(p)) => assert_eq!(p, ".git/refs/heads/master"),
        _ => panic!("expected the reference read"),
    }
    let (_resolver, status) = resolver.advance(Reply::Text(Some(
        "41cf28e8cac50f5cfeda40cfbfdd049763541c5a\n".to_string(),
    )));
    match status {
        Status::Resolved(name) => {
            assert_eq!(name.0, "41cf28e8cac50f5cfeda40cfbfdd049763541c5a")
        }
        _ => panic!("expected a resolution"),
    }
}

#[test]
fn detached_head_resolves_to_the_bare_name() {
    let (resolver, _status) = Resolver::start("HEAD");
    let (_resolver, status) = resolver.advance(Reply::Text(Some(
        "41cf28e8cac50f5cfeda40cfbfdd049763541c5a\n".to_string(),
    )));
    match status {
        Status::Resolved(name) => {
            assert_eq!(name.0, "41cf28e8cac50f5cfeda40cfbfdd049763541c5a")
        }
        _ => panic!("expected a resolution"),
    }
}

#[test]
fn four_characters_are_an_abbreviation_and_three_are_not() {
    let (_r, status) = Resolver::start("4ddb");
    assert!(matches!(status, Status::Need(Lookup::Dir(_))));
    let (_r, status) = Resolver::start("4dd");
    match status {
        Status::Need(Lookup::File(p)) => assert_eq!(p, ".git/refs/heads/4dd"),
        _ => panic!("three hex characters must fall through to a branch"),
    }
}

#[test]
fn ambiguous_abbreviation_is_rejected() {
    let (resolver, _status) = Resolver::start("4ddb0025e");
    let listing = vec![
        "db0025ef5914b51fb835495f5259a6d962df21".to_string(),
        "db0025e00000000000000000000000000000aa".to_string(),
    ];
    let (_resolver, status) = resolver.advance(Reply::Listing(Some(listing)));
    assert!(matches!(status, Status::Invalid));
}

#[test]
fn parent_of_root_commit_does_not_resolve() {
    let root = "3e6a5d72d0ce0af8402c7d467d1b754b61b79d16";
    let (resolver, status) = Resolver::start("3e6a5d72d0ce0af8402c7d467d1b754b61b79d16^");
    match &status {
        Status::Need(Lookup::Object(n)) => assert_eq!(n.0, root),
        _ => panic!("expected an object read"),
    }
    let data = commit_object(TREE, None, "root\n");
    let (_resolver, status) = resolver.advance(Reply::Data(Some(data)));
    assert!(matches!(status, Status::Invalid));
}

#[test]
fn resolving_a_resolved_name_yields_the_same_name() {
    let (resolver, status) = Resolver::start("introduce-tests");
    assert!(matches!(status, Status::Need(_)));
    let contents = "41cf28e8cac50f5cfeda40cfbfdd049763541c5a
".to_string();
    let (_resolver, status) = resolver.advance(Reply::Text(Some(contents)));
    let resolved = match status {
        Status::Resolved(name) => name,
        _ => panic!("expected a resolution"),
    };
    let (_again, status) = Resolver::start(&resolved.0);
    match status {
        Status::Resolved(name) => assert_eq!(name, resolved),
        _ => panic!("a resolved name must resolve to itself at once"),
    }
}
