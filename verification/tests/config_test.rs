use gitters::config::Config;

#[test]
fn parses_config_syntax() {
    let contents = r"
# This is a comment
[simple]
key0 = val0
key1=val1
key2 = val2 with spaces

[Complicated-123] key3 = val3
key4
key-5 # here's a comment
key6 = val6 # and another comment

# TODO: multiline values
# TODO: subsections
";

    let mut config = Config::new();
    config.add_from_string(contents.to_string()).unwrap();
    assert_eq!(config.all(), vec![
               ("Complicated-123.key-5", "true"),
               ("Complicated-123.key3", "val3"),
               ("Complicated-123.key4", "true"),
               ("Complicated-123.key6", "val6"),
               ("simple.key0", "val0"),
               ("simple.key1", "val1"),
               ("simple.key2", "val2 with spaces"),
               ]
               .iter()
               .map(|s| (s.0.to_string(), s.1.to_string()))
               .collect::<Vec<_> >());
}

#[test]
fn later_values_replace_earlier_ones() {
    let mut config = Config::new();
    config
        .add_from_string("[a]\nk = one\n".to_string())
        .unwrap();
    config
        .add_from_string("[a]\nk = two\n".to_string())
        .unwrap();
    assert_eq!(
        config.all(),
        vec![("a.k".to_string(), "two".to_string())]
    );
}

#[test]
fn listing_is_sorted_by_name() {
    let mut config = Config::new();
    config
        .add_from_string("[zoo]\nx = 1\n[alpha]\ny = 2\n".to_string())
        .unwrap();
    assert_eq!(
        config.all(),
        vec![
            ("alpha.y".to_string(), "2".to_string()),
            ("zoo.x".to_string(), "1".to_string()),
        ]
    );
}
