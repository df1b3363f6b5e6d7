use mysqlvars::catalog::{Catalog, VariableDefinition, VariableType};
use mysqlvars::engine::plan_change;

#[test]
fn test_get() {
    let v = VariableDefinition::get("sql_mode");
    assert!(v.is_some());

    let v = VariableDefinition::get("sql_mode_2");
    assert!(v.is_none());
}

#[test]
fn test_normalize_integer() {
    let v = VariableDefinition::get("tmp_table_size").unwrap();
    assert!(matches!(v.vartype, VariableType::Integer));
    assert_eq!("16777216", v.normalize("16M"));
}

#[test]
fn test_normalize_bool() {
    let v = VariableDefinition::get("autocommit").unwrap();
    assert!(matches!(v.vartype, VariableType::Boolean));
    assert_eq!("ON", v.normalize("on"));
    assert_eq!("ON", v.normalize("1"));
    assert_eq!("ON", v.normalize("true"));
    assert_eq!("OFF", v.normalize("0"));
    assert_eq!("OFF", v.normalize("x"));
    assert_eq!("OFF", v.normalize("off"));
}

#[test]
fn test_normalize_set() {
    let v = VariableDefinition::get("sql_mode").unwrap();
    assert!(matches!(v.vartype, VariableType::MemberSet));
    assert_eq!("ERROR_FOR_DIVISION_BY_ZERO,NO_ENGINE_SUBSTITUTION,NO_ZERO_DATE,NO_ZERO_IN_DATE,ONLY_FULL_GROUP_BY,STRICT_TRANS_TABLES", v.normalize("ONLY_FULL_GROUP_BY,STRICT_TRANS_TABLES,NO_ZERO_IN_DATE,NO_ZERO_DATE,ERROR_FOR_DIVISION_BY_ZERO,NO_ENGINE_SUBSTITUTION"));
    assert_eq!("ONLY_FULL_GROUP_BY", v.normalize("only_full_group_by"));
    assert_eq!("ONLY_FULL_GROUP_BY,STRICT_TRANS_TABLES", v.normalize("ONLY_FULL_GROUP_BY,STRICT_TRANS_TABLES,STRICT_TRANS_TABLES"));
    assert_eq!("ONLY_FULL_GROUP_BY,STRICT_TRANS_TABLES", v.normalize("ONLY_FULL_GROUP_BY, STRICT_TRANS_TABLES , STRICT_TRANS_TABLES "));
    assert_eq!("", v.normalize(""));
}

fn def(vartype: VariableType) -> VariableDefinition {
    VariableDefinition { name: "x", vartype }
}

#[test]
fn bool_truthy_spellings() {
    let v = def(VariableType::Boolean);
    assert_eq!("ON", v.normalize("on"));
    assert_eq!("ON", v.normalize("1"));
    assert_eq!("ON", v.normalize("true"));
    assert_eq!("ON", v.normalize("YES"));
    assert_eq!("ON", v.normalize("yes"));
    assert_eq!("OFF", v.normalize(""));
    assert_eq!("OFF", v.normalize("2"));
}

#[test]
fn bool_normalize_twice() {
    let v = def(VariableType::Boolean);
    for s in ["on", "off", "Yes", "1", "0", "garbage", ""] {
        let once = v.normalize(s);
        assert_eq!(once, v.normalize(&once));
    }
}

#[test]
fn integer_suffixes() {
    let v = def(VariableType::Integer);
    assert_eq!("1024", v.normalize("1K"));
    assert_eq!("16777216", v.normalize("16m"));
    assert_eq!("3221225472", v.normalize("3G"));
    assert_eq!("1099511627776", v.normalize("1T"));
    assert_eq!("1125899906842624", v.normalize("1P"));
    assert_eq!("1152921504606846976", v.normalize("1E"));
    assert_eq!("-2048", v.normalize("-2K"));
    assert_eq!("3072", v.normalize("+3k"));
    assert_eq!("0", v.normalize("0M"));
}

#[test]
fn integer_extremes_are_exact() {
    let v = def(VariableType::Integer);
    assert_eq!("2199023254528", v.normalize("2147483647K"));
    assert_eq!("2475880077417839045191401472", v.normalize("2147483647E"));
    assert_eq!("-2475880078570760549798248448", v.normalize("-2147483648e"));
    assert_eq!("0016", v.normalize("0016"));
    assert_eq!("16384", v.normalize("0016K"));
}

#[test]
fn integer_passthrough() {
    let v = def(VariableType::Integer);
    assert_eq!("16777216", v.normalize("16777216"));
    assert_eq!("ABC", v.normalize("abc"));
    assert_eq!("K", v.normalize("k"));
    assert_eq!("1.5M", v.normalize("1.5m"));
    assert_eq!("2147483648K", v.normalize("2147483648K"));
    assert_eq!("-K", v.normalize("-k"));
    assert_eq!("", v.normalize(""));
    assert_eq!("-2199023255552", v.normalize("-2147483648K"));
}

#[test]
fn numeric_and_enum_fold_case() {
    assert_eq!("0.5E", def(VariableType::Numeric).normalize("0.5e"));
    assert_eq!("ROW", def(VariableType::Enum).normalize("row"));
}

#[test]
fn case_sensitive_kinds_unchanged() {
    assert_eq!("utf8MB4", def(VariableType::String).normalize("utf8MB4"));
    assert_eq!("/var/Log/a.log", def(VariableType::File).normalize("/var/Log/a.log"));
    assert_eq!("/tmp/X", def(VariableType::Directory).normalize("/tmp/X"));
    assert_eq!(" a ", def(VariableType::Bitmap).normalize(" a "));
}

#[test]
fn set_order_and_duplicates() {
    let v = def(VariableType::MemberSet);
    assert_eq!("A,B", v.normalize("B,A,A"));
    assert_eq!("A,B", v.normalize("A,B"));
    assert_eq!(v.normalize("B,A,A"), v.normalize("A,B"));
}

#[test]
fn set_whitespace_around_members() {
    let v = def(VariableType::MemberSet);
    assert_eq!("A,B", v.normalize("A, B , B"));
    assert_eq!("A,B", v.normalize("\tb ,\na "));
}

#[test]
fn set_empty_members() {
    let v = def(VariableType::MemberSet);
    assert_eq!("", v.normalize(""));
    assert_eq!("", v.normalize(" "));
    assert_eq!("", v.normalize(","));
    assert_eq!("", v.normalize(" , ,,"));
    assert_eq!("A", v.normalize("a,"));
    assert_eq!("A", v.normalize("a, "));
    assert_eq!("A", v.normalize(",a"));
    assert_eq!("A,B", v.normalize("a,,b"));
    assert_eq!(v.normalize("A,"), v.normalize("A,,"));
}

#[test]
fn plan_change_decisions() {
    let c = Catalog::system();
    assert_eq!(None, plan_change(&c, "no_such_variable", Some("1"), "0"));
    assert_eq!(None, plan_change(&c, "autocommit", None, "OFF"));
    assert_eq!(None, plan_change(&c, "autocommit", Some("yes"), "ON"));
    let (v, t) = plan_change(&c, "sql_mode", Some("b, a"), "A").unwrap();
    assert_eq!("A,B", v);
    assert!(matches!(t, VariableType::MemberSet));
}

#[test]
fn same_reports_only_real_changes() {
    let v = VariableDefinition::get("sql_mode").unwrap();
    assert_eq!(None, v.same("b,a", "A,B"));
    assert_eq!(Some("A,C".to_string()), v.same("c, a", "A,B"));
    let b = VariableDefinition::get("autocommit").unwrap();
    assert_eq!(None, b.same("yes", "ON"));
    assert_eq!(Some("OFF".to_string()), b.same("no", "ON"));
    let i = VariableDefinition::get("max_allowed_packet").unwrap();
    assert_eq!(None, i.same("64M", "67108864"));
    assert_eq!(Some("1024".to_string()), i.same("1k", "4194304"));
}

#[test]
fn same_then_apply_is_stable() {
    let cases = [
        ("sql_mode", "strict_trans_tables, no_zero_date", "ANSI"),
        ("autocommit", "true", "OFF"),
        ("tmp_table_size", "32m", "16777216"),
        ("time_zone", "+01:00", "SYSTEM"),
        ("long_query_time", "2.5e", "10.000000"),
    ];
    for (name, desired, observed) in cases {
        let v = VariableDefinition::get(name).unwrap();
        let applied = v.same(desired, observed).unwrap();
        assert_eq!(None, v.same(desired, &applied));
    }
}

#[test]
fn unknown_names_are_not_found() {
    assert!(VariableDefinition::get("no_such_variable").is_none());
    assert!(VariableDefinition::get("SQL_MODE").is_none());
    assert!(VariableDefinition::get("").is_none());
}

#[test]
fn catalog_last_definition_wins() {
    let defs = vec![
        VariableDefinition { name: "b", vartype: VariableType::Integer },
        VariableDefinition { name: "a", vartype: VariableType::String },
        VariableDefinition { name: "b", vartype: VariableType::Boolean },
    ];
    let c = Catalog::new(&defs);
    assert!(matches!(c.lookup("b").unwrap().vartype, VariableType::Boolean));
    assert!(matches!(c.lookup("a").unwrap().vartype, VariableType::String));
    assert!(c.lookup("c").is_none());
}

#[test]
fn system_catalog_kinds() {
    let c = Catalog::system();
    assert!(matches!(c.lookup("optimizer_switch").unwrap().vartype, VariableType::MemberSet));
    assert!(matches!(c.lookup("wait_timeout").unwrap().vartype, VariableType::Integer));
    assert_eq!("wait_timeout", c.lookup("wait_timeout").unwrap().name);
}
