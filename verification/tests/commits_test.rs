use gitters::commits::{self, CommitDateTime};
use gitters::objects::Name;

fn name() -> Name {
    Name("4ddb0025ef5914b51fb835495f5259a6d962df21".to_string())
}

#[test]
fn parses_a_full_commit() {
    let payload = b"tree 51be3e85a4cbd58fcbf55897573d0e26a4ef80c7\n\
parent 3e6a5d72d0ce0af8402c7d467d1b754b61b79d16\n\
author Ann Author 1444526485 +0200\n\
committer Cal Committer 1444526500 -0130\n\
\n\
Introduce the feature.\n\nWith a second paragraph.\n"
        .to_vec();
    let c = commits::parse_commit(&payload, &name()).unwrap();
    assert_eq!(c.name, name());
    assert_eq!(c.tree.0, "51be3e85a4cbd58fcbf55897573d0e26a4ef80c7");
    assert_eq!(
        c.parent,
        Some(Name("3e6a5d72d0ce0af8402c7d467d1b754b61b79d16".to_string()))
    );
    assert_eq!(c.author.name, "Ann Author");
    assert_eq!(
        c.author.date,
        CommitDateTime { epoch_seconds: 1444526485, offset_seconds: 7200 }
    );
    assert_eq!(c.committer.name, "Cal Committer");
    assert_eq!(
        c.committer.date,
        CommitDateTime { epoch_seconds: 1444526500, offset_seconds: -5400 }
    );
    assert_eq!(c.message, "Introduce the feature.\n\nWith a second paragraph.");
}

#[test]
fn commit_without_parent_line_has_absent_parent() {
    let payload = b"tree 51be3e85a4cbd58fcbf55897573d0e26a4ef80c7\n\
author Ann Author 1444526485 +0200\n\
committer Ann Author 1444526485 +0200\n\
\n\
Root commit.\n"
        .to_vec();
    let c = commits::parse_commit(&payload, &name()).unwrap();
    assert_eq!(c.parent, None);
}

#[test]
fn only_the_first_parent_line_is_captured() {
    let payload = b"tree 51be3e85a4cbd58fcbf55897573d0e26a4ef80c7\n\
parent 1111111111111111111111111111111111111111\n\
parent 2222222222222222222222222222222222222222\n\
author Ann Author 1444526485 +0200\n\
committer Ann Author 1444526485 +0200\n\
\n\
Merge.\n"
        .to_vec();
    let c = commits::parse_commit(&payload, &name()).unwrap();
    assert_eq!(
        c.parent,
        Some(Name("1111111111111111111111111111111111111111".to_string()))
    );
}

#[test]
fn message_of_a_single_newline_is_empty() {
    let payload = b"tree 51be3e85a4cbd58fcbf55897573d0e26a4ef80c7\n\
author Ann Author 1444526485 +0200\n\
committer Ann Author 1444526485 +0200\n\
\n\
\n"
        .to_vec();
    let c = commits::parse_commit(&payload, &name()).unwrap();
    assert_eq!(c.message, "");
}

#[test]
fn missing_committer_is_named() {
    let payload = b"tree 51be3e85a4cbd58fcbf55897573d0e26a4ef80c7\n\
author Ann Author 1444526485 +0200\n\
\n\
No committer.\n"
        .to_vec();
    match commits::parse_commit(&payload, &name()) {
        Err(commits::Error::MissingField(f)) => assert_eq!(f, "committer"),
        _ => panic!("expected a missing committer"),
    }
}

#[test]
fn missing_tree_is_named() {
    let payload = b"author Ann Author 1444526485 +0200\n\
committer Ann Author 1444526485 +0200\n\
\n\
No tree.\n"
        .to_vec();
    match commits::parse_commit(&payload, &name()) {
        Err(commits::Error::MissingField(f)) => assert_eq!(f, "tree"),
        _ => panic!("expected a missing tree"),
    }
}

#[test]
fn unexpected_line_is_invalid() {
    let payload = b"tree 51be3e85a4cbd58fcbf55897573d0e26a4ef80c7\n\
branch nonsense\n\
\n\
Message.\n"
        .to_vec();
    assert!(matches!(
        commits::parse_commit(&payload, &name()),
        Err(commits::Error::InvalidCommit(_))
    ));
}

#[test]
fn author_names_may_contain_spaces_and_accents() {
    let payload = "tree 51be3e85a4cbd58fcbf55897573d0e26a4ef80c7\n\
author L\u{e9}a de la Cruz 7 +0000\n\
committer L\u{e9}a de la Cruz 7 +0000\n\
\n\
Accented.\n"
        .as_bytes()
        .to_vec();
    let c = commits::parse_commit(&payload, &name()).unwrap();
    assert_eq!(c.author.name, "L\u{e9}a de la Cruz");
    assert_eq!(c.author.date.epoch_seconds, 7);
}

#[test]
fn parses_positive_and_negative_dates() {
    assert_eq!(
        commits::parse_commit_date("1234567890 +0530").unwrap(),
        CommitDateTime { epoch_seconds: 1234567890, offset_seconds: 19800 }
    );
    assert_eq!(
        commits::parse_commit_date("1234567890 -0530").unwrap(),
        CommitDateTime { epoch_seconds: 1234567890, offset_seconds: -19800 }
    );
    assert_eq!(
        commits::parse_commit_date("-100 +0000").unwrap(),
        CommitDateTime { epoch_seconds: -100, offset_seconds: 0 }
    );
}

#[test]
fn rejects_malformed_and_out_of_range_dates() {
    // no offset
    assert!(commits::parse_commit_date("1234567890").is_err());
    // offset beyond one day
    assert!(commits::parse_commit_date("1234567890 +2500").is_err());
    // timestamp the date library cannot represent
    assert!(commits::parse_commit_date("9000000000000000000 +0000").is_err());
    // timestamp that does not even fit the integer type
    assert!(commits::parse_commit_date("99999999999999999999 +0000").is_err());
    // garbage
    assert!(commits::parse_commit_date("yesterday +0000").is_err());
}

#[test]
fn builder_requires_the_mandatory_fields() {
    let mut b = commits::CommitBuilder::new(&name());
    b.tree("51be3e85a4cbd58fcbf55897573d0e26a4ef80c7".to_string());
    b.author(
        "Ann".to_string(),
        CommitDateTime { epoch_seconds: 0, offset_seconds: 0 },
    );
    b.committer(
        "Ann".to_string(),
        CommitDateTime { epoch_seconds: 0, offset_seconds: 0 },
    );
    b.message("msg".to_string());
    let c = b.build().unwrap();
    assert_eq!(c.tree.0, "51be3e85a4cbd58fcbf55897573d0e26a4ef80c7");
    assert_eq!(c.parent, None);

    let b2 = commits::CommitBuilder::new(&name());
    match b2.build() {
        Err(commits::Error::MissingField(f)) => assert_eq!(f, "tree"),
        _ => panic!("expected a missing tree"),
    }
}
