//! The job configuration: the dynamic values a configuration file can
//! hold, the type table the crawler checks them against, the default
//! values, and lookup. Reading the file itself happens outside the
//! library; the checks on what was read are verified here.
use vstd::prelude::*;

use crate::strutil::eq_str;

verus! {

/// A configuration value as the crawler sees it. `Other` stands for
/// any value kind the crawler has no use for.
#[derive(Debug)]
pub enum ConfigValue {
    Str(String),
    Int(i64),
    Uint(u64),
    Bool(bool),
    List(Vec<ConfigValue>),
    Other,
}

/// The type a recognized configuration key must have.
#[derive(Clone, Copy, Debug, PartialEq, Eq, Structural)]
pub enum FieldType {
    FString,
    FUint,
    FBool,
    FVecString,
    FUnknown,
}

/// The type table: what each recognized key must hold. Unknown keys
/// are tolerated.
pub open spec fn spec_expected_type(key: Seq<char>) -> FieldType {
    if key == "seeds"@ || key == "destination_warc"@ {
        FieldType::FString
    } else if key == "link_timeout"@ || key == "crawl_tasks"@ || key == "crawl_recursion"@ {
        FieldType::FUint
    } else if key == "accept_languages"@ {
        FieldType::FVecString
    } else if key == "respect_robots"@ {
        FieldType::FBool
    } else {
        FieldType::FUnknown
    }
}

fn expected_type(key: &str) -> (r: FieldType)
    ensures
        r == spec_expected_type(key@),
{
    if eq_str(key, "seeds") || eq_str(key, "destination_warc") {
        FieldType::FString
    } else if eq_str(key, "link_timeout") || eq_str(key, "crawl_tasks") || eq_str(
        key,
        "crawl_recursion",
    ) {
        FieldType::FUint
    } else if eq_str(key, "accept_languages") {
        FieldType::FVecString
    } else if eq_str(key, "respect_robots") {
        FieldType::FBool
    } else {
        FieldType::FUnknown
    }
}

/// The printed name of a field type, as it appears in error messages.
pub open spec fn spec_type_label(t: FieldType) -> Seq<char> {
    match t {
        FieldType::FString => "string"@,
        FieldType::FUint => "uint"@,
        FieldType::FBool => "bool"@,
        FieldType::FVecString => "vec<string>"@,
        FieldType::FUnknown => ""@,
    }
}

fn type_label(t: FieldType) -> (r: &'static str)
    ensures
        r@ == spec_type_label(t),
{
    match t {
        FieldType::FString => "string",
        FieldType::FUint => "uint",
        FieldType::FBool => "bool",
        FieldType::FVecString => "vec<string>",
        FieldType::FUnknown => "",
    }
}

/// Whether a value conforms to a field type: strings must be
/// non-empty, unsigned integers may come as non-negative integers,
/// and a language list must hold strings only.
pub open spec fn value_ok(t: FieldType, v: ConfigValue) -> bool {
    match t {
        FieldType::FString => v matches ConfigValue::Str(s) && s@.len() > 0,
        FieldType::FUint => v matches ConfigValue::Uint(_) || (v matches ConfigValue::Int(i) && i
            >= 0),
        FieldType::FBool => v matches ConfigValue::Bool(_),
        FieldType::FVecString => v matches ConfigValue::List(l) && (forall|i: int|
            0 <= i < l@.len() ==> (#[trigger] l@[i]) is Str),
        FieldType::FUnknown => true,
    }
}

fn check_value(t: FieldType, v: &ConfigValue) -> (r: bool)
    ensures
        r == value_ok(t, *v),
{
    match t {
        FieldType::FString => {
            match v {
                ConfigValue::Str(s) => !s.as_str().is_empty(),
                _ => false,
            }
        },
        FieldType::FUint => {
            match v {
                ConfigValue::Uint(_) => true,
                ConfigValue::Int(i) => *i >= 0,
                _ => false,
            }
        },
        FieldType::FBool => {
            match v {
                ConfigValue::Bool(_) => true,
                _ => false,
            }
        },
        FieldType::FVecString => {
            match v {
                ConfigValue::List(l) => {
                    let n = l.len();
                    let mut i: usize = 0;
                    while i < n
                        invariant
                            t == FieldType::FVecString,
                            *v == ConfigValue::List(*l),
                            n == l@.len(),
                            i <= n,
                            forall|k: int| 0 <= k < i ==> (#[trigger] l@[k]) is Str,
                        decreases n - i,
                    {
                        match &l[i] {
                            ConfigValue::Str(_) => {},
                            _ => {
                                proof {
                                    assert(!((l@[i as int]) is Str));
                                }
                                return false;
                            },
                        }
                        i = i + 1;
                    }
                    true
                },
                _ => false,
            }
        },
        FieldType::FUnknown => true,
    }
}

/// A configuration error in mathematical form.
#[verifier::ext_equal]
pub ghost enum ConfigErrModel {
    Missing { field: Seq<char> },
    WrongType { field: Seq<char>, expected: Seq<char> },
}

/// Why a job configuration is rejected.
#[derive(Debug)]
pub enum CrawlerConfigError {
    MandatoryFieldMissing(String),
    WrongFieldType(String, String),
}

impl View for CrawlerConfigError {
    type V = ConfigErrModel;

    open spec fn view(&self) -> ConfigErrModel {
        match self {
            CrawlerConfigError::MandatoryFieldMissing(f) => ConfigErrModel::Missing {
                field: f@,
            },
            CrawlerConfigError::WrongFieldType(f, t) => ConfigErrModel::WrongType {
                field: f@,
                expected: t@,
            },
        }
    }
}

impl CrawlerConfigError {
    /// The error text, as the crawler prints it.
    pub fn message(&self) -> (r: String)
        ensures
            match self@ {
                ConfigErrModel::Missing { field } => r@ == "Field `"@ + field
                    + "` is mandatory but missing"@,
                ConfigErrModel::WrongType { field, expected } => r@ == "Wrong field type:`"@
                    + field + "`, expected `"@ + expected + "`"@,
            },
    {
        match self {
            CrawlerConfigError::MandatoryFieldMissing(f) => {
                let mut s = "Field `".to_owned();
                s.append(f.as_str());
                s.append("` is mandatory but missing");
                s
            },
            CrawlerConfigError::WrongFieldType(f, t) => {
                let mut s = "Wrong field type:`".to_owned();
                s.append(f.as_str());
                s.append("`, expected `");
                s.append(t.as_str());
                s.append("`");
                s
            },
        }
    }
}

/// The views of a list of errors.
pub open spec fn err_models(v: Seq<CrawlerConfigError>) -> Seq<ConfigErrModel> {
    v.map_values(|e: CrawlerConfigError| e@)
}

/// Whether the entries hold a key.
pub open spec fn spec_has_key(entries: Seq<(String, ConfigValue)>, key: Seq<char>) -> bool {
    exists|i: int| 0 <= i < entries.len() && (#[trigger] entries[i]).0@ == key
}

/// The type errors of the entries, in order.
pub open spec fn spec_type_errors(entries: Seq<(String, ConfigValue)>) -> Seq<ConfigErrModel>
    decreases entries.len(),
{
    if entries.len() == 0 {
        Seq::empty()
    } else {
        let prev = spec_type_errors(entries.drop_last());
        let last = entries.last();
        if value_ok(spec_expected_type(last.0@), last.1) {
            prev
        } else {
            prev.push(
                ConfigErrModel::WrongType {
                    field: last.0@,
                    expected: spec_type_label(spec_expected_type(last.0@)),
                },
            )
        }
    }
}

/// Every error of a configuration: a missing mandatory `seeds` key
/// first, then each value that does not match the type table.
pub open spec fn spec_config_errors(entries: Seq<(String, ConfigValue)>) -> Seq<ConfigErrModel> {
    (if spec_has_key(entries, "seeds"@) {
        Seq::<ConfigErrModel>::empty()
    } else {
        seq![ConfigErrModel::Missing { field: "seeds"@ }]
    }) + spec_type_errors(entries)
}

fn has_key(entries: &Vec<(String, ConfigValue)>, key: &str) -> (r: bool)
    ensures
        r == spec_has_key(entries@, key@),
{
    let n = entries.len();
    let mut i: usize = 0;
    while i < n
        invariant
            n == entries@.len(),
            i <= n,
            forall|k: int| 0 <= k < i ==> (#[trigger] entries@[k]).0@ != key@,
        decreases n - i,
    {
        if eq_str(entries[i].0.as_str(), key) {
            return true;
        }
        i = i + 1;
    }
    false
}

/// Checks a configuration against the type table: reports a missing
/// mandatory `seeds` key and every value of the wrong type, or
/// nothing when the configuration is well formed.
pub fn check_config(config: &Vec<(String, ConfigValue)>) -> (r: Option<Vec<CrawlerConfigError>>)
    ensures
        match r {
            None => spec_config_errors(config@).len() == 0,
            Some(errors) => err_models(errors@) == spec_config_errors(config@) && errors@.len()
                > 0,
        },
{
    let mut errors: Vec<CrawlerConfigError> = Vec::new();
    if !has_key(config, "seeds") {
        errors.push(CrawlerConfigError::MandatoryFieldMissing("seeds".to_owned()));
    }
    proof {
        assert(spec_type_errors(config@.take(0)) =~= Seq::<ConfigErrModel>::empty());
        assert(err_models(errors@) =~= (if spec_has_key(config@, "seeds"@) {
            Seq::<ConfigErrModel>::empty()
        } else {
            seq![ConfigErrModel::Missing { field: "seeds"@ }]
        }) + spec_type_errors(config@.take(0)));
    }
    let n = config.len();
    let mut i: usize = 0;
    while i < n
        invariant
            n == config@.len(),
            i <= n,
            err_models(errors@) == (if spec_has_key(config@, "seeds"@) {
                Seq::<ConfigErrModel>::empty()
            } else {
                seq![ConfigErrModel::Missing { field: "seeds"@ }]
            }) + spec_type_errors(config@.take(i as int)),
        decreases n - i,
    {
        proof {
            assert(config@.take(i + 1).drop_last() =~= config@.take(i as int));
            assert(config@.take(i + 1).last() == config@[i as int]);
        }
        let t = expected_type(config[i].0.as_str());
        let ghost old_errs = errors@;
        if !check_value(t, &config[i].1) {
            errors.push(
                CrawlerConfigError::WrongFieldType(config[i].0.clone(), type_label(t).to_owned()),
            );
            proof {
                let wrong = ConfigErrModel::WrongType {
                    field: config@[i as int].0@,
                    expected: spec_type_label(spec_expected_type(config@[i as int].0@)),
                };
                assert(spec_type_errors(config@.take(i + 1)) == spec_type_errors(
                    config@.take(i as int),
                ).push(wrong));
                assert(errors@.last()@ =~~= wrong);
                assert(errors@.last()@ == wrong);
                assert(err_models(errors@).drop_last() =~= err_models(old_errs));
                assert(err_models(errors@).last() == errors@.last()@);
                assert(err_models(errors@) =~= err_models(old_errs).push(wrong));
                assert((if spec_has_key(config@, "seeds"@) {
                    Seq::<ConfigErrModel>::empty()
                } else {
                    seq![ConfigErrModel::Missing { field: "seeds"@ }]
                }) + spec_type_errors(config@.take(i + 1)) =~= err_models(old_errs).push(wrong));
                assert(err_models(errors@) =~= (if spec_has_key(config@, "seeds"@) {
                    Seq::<ConfigErrModel>::empty()
                } else {
                    seq![ConfigErrModel::Missing { field: "seeds"@ }]
                }) + spec_type_errors(config@.take(i + 1)));
            }
        } else {
            proof {
                assert(spec_type_errors(config@.take(i + 1)) == spec_type_errors(
                    config@.take(i as int),
                ));
                assert(err_models(errors@) =~= (if spec_has_key(config@, "seeds"@) {
                    Seq::<ConfigErrModel>::empty()
                } else {
                    seq![ConfigErrModel::Missing { field: "seeds"@ }]
                }) + spec_type_errors(config@.take(i + 1)));
            }
        }
        i = i + 1;
    }
    proof {
        assert(config@.take(n as int) =~= config@);
    }
    if errors.is_empty() {
        proof {
            assert(err_models(errors@).len() == 0);
        }
        None
    } else {
        Some(errors)
    }
}

/// The defaults of a fresh configuration. The destination path is
/// supplied by the caller, usually a timestamp from `get_time_string`.
pub fn default_config(destination: String) -> (r: Vec<(String, ConfigValue)>)
    ensures
        r@.len() == 6,
        r@[0].0@ == "crawl_tasks"@ && r@[0].1 == ConfigValue::Uint(20),
        r@[1].0@ == "link_timeout"@ && r@[1].1 == ConfigValue::Uint(5000),
        r@[2].0@ == "crawl_recursion"@ && r@[2].1 == ConfigValue::Uint(2),
        r@[3].0@ == "destination_warc"@ && (r@[3].1 matches ConfigValue::Str(d) && d
            == destination),
        r@[4].0@ == "accept_languages"@ && (r@[4].1 matches ConfigValue::List(l) && l@.len()
            == 0),
        r@[5].0@ == "respect_robots"@ && r@[5].1 == ConfigValue::Bool(true),
{
    let mut r: Vec<(String, ConfigValue)> = Vec::new();
    r.push(("crawl_tasks".to_owned(), ConfigValue::Uint(20)));
    r.push(("link_timeout".to_owned(), ConfigValue::Uint(5000)));
    r.push(("crawl_recursion".to_owned(), ConfigValue::Uint(2)));
    r.push(("destination_warc".to_owned(), ConfigValue::Str(destination)));
    let empty_langs: Vec<ConfigValue> = Vec::new();
    r.push(("accept_languages".to_owned(), ConfigValue::List(empty_langs)));
    r.push(("respect_robots".to_owned(), ConfigValue::Bool(true)));
    r
}

/// Relies on chrono (`Local::now`, `to_rfc3339`) for the timestamp
/// that names a default output file; the value depends on the clock,
/// so only its presence is claimed.
#[verifier::external_body]
pub fn get_time_string() -> (r: String)
    ensures
        r@.len() > 0,
{
    chrono::offset::Local::now().to_rfc3339()
}

/// Finds the value of a key: the earliest entry wins.
pub fn config_get<'a>(entries: &'a Vec<(String, ConfigValue)>, key: &str) -> (r: Option<
    &'a ConfigValue,
>)
    ensures
        match r {
            Some(v) => exists|i: int|
                0 <= i < entries@.len() && (#[trigger] entries@[i]).0@ == key@ && *v
                    == entries@[i].1 && (forall|j: int|
                    0 <= j < i ==> (#[trigger] entries@[j]).0@ != key@),
            None => forall|i: int| 0 <= i < entries@.len() ==> (#[trigger] entries@[i]).0@ != key@,
        },
{
    let n = entries.len();
    let mut i: usize = 0;
    while i < n
        invariant
            n == entries@.len(),
            i <= n,
            forall|k: int| 0 <= k < i ==> (#[trigger] entries@[k]).0@ != key@,
        decreases n - i,
    {
        if eq_str(entries[i].0.as_str(), key) {
            return Some(&entries[i].1);
        }
        i = i + 1;
    }
    None
}

} // verus!
