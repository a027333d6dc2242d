use libcrawl::job_config::{check_config, config_get, default_config, ConfigValue, CrawlerConfigError};

fn cfg(entries: Vec<(&str, ConfigValue)>) -> Vec<(String, ConfigValue)> {
    entries.into_iter().map(|(k, v)| (k.to_string(), v)).collect()
}

#[test]
fn defaults_are_as_documented() {
    let d = default_config("out.warc.wet.gz".to_string());
    assert_eq!(d.len(), 6);
    assert_eq!(d[0].0, "crawl_tasks");
    assert!(matches!(d[0].1, ConfigValue::Uint(20)));
    assert_eq!(d[1].0, "link_timeout");
    assert!(matches!(d[1].1, ConfigValue::Uint(5000)));
    assert_eq!(d[2].0, "crawl_recursion");
    assert!(matches!(d[2].1, ConfigValue::Uint(2)));
    assert_eq!(d[3].0, "destination_warc");
    assert!(matches!(&d[3].1, ConfigValue::Str(s) if s == "out.warc.wet.gz"));
    assert_eq!(d[4].0, "accept_languages");
    assert!(matches!(&d[4].1, ConfigValue::List(l) if l.is_empty()));
    assert_eq!(d[5].0, "respect_robots");
    assert!(matches!(d[5].1, ConfigValue::Bool(true)));
}

#[test]
fn well_formed_config_passes() {
    let c = cfg(vec![
        ("seeds", ConfigValue::Str("seeds.txt".to_string())),
        ("crawl_tasks", ConfigValue::Uint(4)),
        ("crawl_recursion", ConfigValue::Int(1)),
        ("respect_robots", ConfigValue::Bool(false)),
        (
            "accept_languages",
            ConfigValue::List(vec![ConfigValue::Str("arabic".to_string())]),
        ),
        ("a_key_nobody_knows", ConfigValue::Other),
    ]);
    assert!(check_config(&c).is_none());
}

#[test]
fn missing_seeds_is_reported() {
    let c = cfg(vec![("crawl_tasks", ConfigValue::Uint(4))]);
    let errors = check_config(&c).expect("must be rejected");
    assert_eq!(errors.len(), 1);
    match &errors[0] {
        CrawlerConfigError::MandatoryFieldMissing(f) => assert_eq!(f, "seeds"),
        other => panic!("unexpected error {:?}", other),
    }
    assert_eq!(errors[0].message(), "Field `seeds` is mandatory but missing");
}

#[test]
fn wrong_types_are_reported() {
    let c = cfg(vec![
        ("seeds", ConfigValue::Uint(1)),
        ("link_timeout", ConfigValue::Str("soon".to_string())),
        ("respect_robots", ConfigValue::Str("yes".to_string())),
        (
            "accept_languages",
            ConfigValue::List(vec![ConfigValue::Uint(3)]),
        ),
    ]);
    let errors = check_config(&c).expect("must be rejected");
    assert_eq!(errors.len(), 4);
    match &errors[0] {
        CrawlerConfigError::WrongFieldType(f, t) => {
            assert_eq!(f, "seeds");
            assert_eq!(t, "string");
        }
        other => panic!("unexpected error {:?}", other),
    }
    assert_eq!(errors[0].message(), "Wrong field type:`seeds`, expected `string`");
    match &errors[1] {
        CrawlerConfigError::WrongFieldType(f, t) => {
            assert_eq!(f, "link_timeout");
            assert_eq!(t, "uint");
        }
        other => panic!("unexpected error {:?}", other),
    }
}

#[test]
fn empty_mandatory_string_is_wrong() {
    let c = cfg(vec![("seeds", ConfigValue::Str(String::new()))]);
    let errors = check_config(&c).expect("must be rejected");
    assert_eq!(errors.len(), 1);
    assert!(matches!(&errors[0], CrawlerConfigError::WrongFieldType(f, _) if f == "seeds"));
}

#[test]
fn negative_int_is_not_a_uint() {
    let c = cfg(vec![
        ("seeds", ConfigValue::Str("s.txt".to_string())),
        ("crawl_tasks", ConfigValue::Int(-3)),
    ]);
    let errors = check_config(&c).expect("must be rejected");
    assert_eq!(errors.len(), 1);
}

#[test]
fn lookup_prefers_the_earliest_entry() {
    let c = cfg(vec![
        ("crawl_tasks", ConfigValue::Uint(4)),
        ("crawl_tasks", ConfigValue::Uint(9)),
    ]);
    match config_get(&c, "crawl_tasks") {
        Some(ConfigValue::Uint(4)) => {}
        other => panic!("unexpected lookup result {:?}", other),
    }
    assert!(config_get(&c, "seeds").is_none());
}
