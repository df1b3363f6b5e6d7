use mysqlvars::catalog::VariableType;
use mysqlvars::options::{mysqld_options, normalize_option, read_option_text, LoginSettings, OptionSection};
use mysqlvars::statement::{escape_identifier, set_global_sql, set_statement, value_is_bound};

fn section(name: &str, entries: &[(&str, Option<&str>)]) -> OptionSection {
    OptionSection {
        name: name.to_string(),
        options: entries.iter().map(|(k, v)| (k.to_string(), v.map(|s| s.to_string()))).collect(),
    }
}

#[test]
fn option_key_is_lowercased_with_underscores() {
    assert_eq!(
        ("max_connections".to_string(), "500".to_string()),
        normalize_option("Max-Connections", Some("500"))
    );
}

#[test]
fn option_without_value_means_on() {
    assert_eq!(("log_bin".to_string(), "ON".to_string()), normalize_option("log-bin", None));
}

#[test]
fn option_quotes_are_dropped() {
    assert_eq!("STRICT_ALL_TABLES", normalize_option("sql_mode", Some("\"STRICT_ALL_TABLES\"")).1);
    assert_eq!("x y", normalize_option("init_connect", Some("'x y'")).1);
    assert_eq!("'x\"", normalize_option("init_connect", Some("'x\"")).1);
    assert_eq!("'", normalize_option("init_connect", Some("'")).1);
    assert_eq!("", normalize_option("init_connect", Some("")).1);
}

#[test]
fn option_skip_prefix_turns_off() {
    assert_eq!(
        ("name_resolve".to_string(), "OFF".to_string()),
        normalize_option("skip-name-resolve", None)
    );
    assert_eq!(("skip".to_string(), "1".to_string()), normalize_option("skip", Some("1")));
}

#[test]
fn mysqld_section_entries() {
    let sections = vec![
        section("client", &[("user", Some("bob"))]),
        section("mysqld", &[("Max-Connections", Some("10")), ("skip-log-bin", None)]),
    ];
    let got = mysqld_options(&sections).unwrap();
    assert_eq!(
        vec![
            ("max_connections".to_string(), "10".to_string()),
            ("log_bin".to_string(), "OFF".to_string()),
        ],
        got
    );
    assert!(mysqld_options(&vec![section("client", &[])]).is_none());
}

#[test]
fn option_text_is_parsed() {
    let sections = read_option_text("[mysqld]\nmax_connections = 20\n\n[client]\nport=3307\n").unwrap();
    let got = mysqld_options(&sections).unwrap();
    assert_eq!(vec![("max_connections".to_string(), "20".to_string())], got);
    let login = LoginSettings::from_sections(&sections);
    assert_eq!(3307, login.port);
}

#[test]
fn option_text_names_are_distinct() {
    let sections = read_option_text("[mysqld]\na=1\na=2\n[mysqld]\nb=3\n").unwrap();
    assert_eq!(1, sections.len());
    let mut keys: Vec<&String> = sections[0].options.iter().map(|(k, _)| k).collect();
    keys.sort();
    assert_eq!(vec!["a", "b"], keys);
}

#[test]
fn login_client_overrides_mysql() {
    let sections = vec![
        section("mysql", &[("user", Some("a")), ("host", Some("h1")), ("port", Some("3310"))]),
        section("client", &[("user", Some("b")), ("port", Some("nope")), ("socket", None)]),
    ];
    let login = LoginSettings::from_sections(&sections);
    assert_eq!(Some("b".to_string()), login.user);
    assert_eq!(Some("h1".to_string()), login.host);
    assert_eq!(None, login.password);
    assert_eq!(None, login.socket);
    assert_eq!(3310, login.port);
}

#[test]
fn login_defaults_and_port_bounds() {
    let login = LoginSettings::from_sections(&vec![]);
    assert_eq!(3306, login.port);
    assert_eq!(None, login.user);
    let mut l = LoginSettings::new();
    l.apply_section(&vec![("port".to_string(), Some("65536".to_string()))]);
    assert_eq!(3306, l.port);
    l.apply_section(&vec![("port".to_string(), Some("+65535".to_string()))]);
    assert_eq!(65535, l.port);
    l.apply_section(&vec![("port".to_string(), Some("-1".to_string()))]);
    assert_eq!(65535, l.port);
}

#[test]
fn identifier_quoting() {
    assert_eq!("`sql_mode`", escape_identifier("sql_mode"));
    assert_eq!("`a``b`", escape_identifier("a`b"));
    assert_eq!("``", escape_identifier(""));
}

#[test]
fn statements_by_kind() {
    assert_eq!("SET GLOBAL `autocommit` = ON;", set_global_sql("autocommit", "ON"));
    let (s, v) = set_statement("sql_mode", "A,B", VariableType::MemberSet);
    assert_eq!("SET GLOBAL `sql_mode` = :value;", s);
    assert_eq!(Some("A,B".to_string()), v);
    let (s, v) = set_statement("tmp_table_size", "1024", VariableType::Integer);
    assert_eq!("SET GLOBAL `tmp_table_size` = 1024;", s);
    assert_eq!(None, v);
    assert!(!value_is_bound(VariableType::Numeric));
    assert!(!value_is_bound(VariableType::Boolean));
    assert!(value_is_bound(VariableType::String));
}
