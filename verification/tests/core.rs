use sopsify::config::{collect_all_namespaces, extract_namespace_vars, Config, ConfigEntry, ScopedSecret};
use sopsify::inject::inject_namespace;
use sopsify::pipeline::{enc_file_name, process_pair, render_decision, PairOutcome, RenderResult};
use sopsify::placeholder::{find_missing_placeholders, render_template};
use sopsify::vars::VarMap;

fn secret(namespaces: &[&str], value: &str) -> ScopedSecret {
    ScopedSecret {
        namespaces: namespaces.iter().map(|n| n.to_string()).collect(),
        value: value.to_string(),
    }
}

fn entry(key: &str, secrets: Vec<ScopedSecret>) -> ConfigEntry {
    ConfigEntry { key: key.to_string(), secrets }
}

fn prod_db_config() -> Config {
    vec![entry("db_host", vec![secret(&["prod"], "prod.db")])]
}

#[test]
fn scenario_rendered_with_namespace_override() {
    let config = prod_db_config();
    let namespaces = collect_all_namespaces(&config);
    assert_eq!(namespaces, vec!["prod".to_string()]);

    let vars = extract_namespace_vars(&config, "prod");
    let template = "host: ${db_host}\nnamespace: placeholder";
    match process_pair(template, "prod", &vars) {
        PairOutcome::Emit { document, warning } => {
            assert_eq!(document, "host: prod.db\nnamespace: prod");
            assert!(warning);
        }
        PairOutcome::Skip => panic!("pair must not be skipped"),
    }
}

#[test]
fn scenario_unresolved_placeholder_skips_pair() {
    let config = prod_db_config();
    let vars = extract_namespace_vars(&config, "prod");
    let template = "host: ${db_host}\nuser: ${db_user}";
    match process_pair(template, "prod", &vars) {
        PairOutcome::Skip => {}
        PairOutcome::Emit { .. } => panic!("pair with unresolved placeholder must be skipped"),
    }
}

#[test]
fn scenario_last_entry_wins_per_namespace() {
    let config: Config = vec![entry(
        "token",
        vec![secret(&["dev", "prod"], "A"), secret(&["prod"], "B")],
    )];
    let prod = extract_namespace_vars(&config, "prod");
    assert_eq!(prod.get("token"), Some("B".to_string()));
    let dev = extract_namespace_vars(&config, "dev");
    assert_eq!(dev.get("token"), Some("A".to_string()));
}

#[test]
fn later_entry_overrides_for_same_key() {
    let config: Config = vec![
        entry("token", vec![secret(&["prod"], "first")]),
        entry("token", vec![secret(&["prod"], "second")]),
    ];
    let vars = extract_namespace_vars(&config, "prod");
    assert_eq!(vars.get("token"), Some("second".to_string()));
}

#[test]
fn unmatched_namespace_yields_empty_map() {
    let config = prod_db_config();
    let vars = extract_namespace_vars(&config, "staging");
    assert_eq!(vars.get("db_host"), None);
}

#[test]
fn collect_namespaces_is_duplicate_free() {
    let config: Config = vec![
        entry("a", vec![secret(&["prod", "dev"], "1")]),
        entry("b", vec![secret(&["dev", "qa"], "2"), secret(&["prod"], "3")]),
    ];
    let mut namespaces = collect_all_namespaces(&config);
    namespaces.sort();
    assert_eq!(
        namespaces,
        vec!["dev".to_string(), "prod".to_string(), "qa".to_string()]
    );
}

#[test]
fn render_without_placeholders_is_identity() {
    let mut vars = VarMap::new();
    vars.insert("a", "value");
    let text = "plain text, an unmatched ${ brace, and $dollar";
    assert_eq!(render_template(text, &vars), text);
}

#[test]
fn render_substitutes_known_and_keeps_unknown() {
    let mut vars = VarMap::new();
    vars.insert("db_host", "prod.db");
    let rendered = render_template("host: ${db_host} user: ${db_user}", &vars);
    assert_eq!(rendered, "host: prod.db user: ${db_user}");
}

#[test]
fn render_is_single_pass() {
    let mut vars = VarMap::new();
    vars.insert("a", "${b}");
    vars.insert("b", "B");
    assert_eq!(render_template("${a}", &vars), "${b}");
}

#[test]
fn reintroduced_unknown_placeholder_skips_pair() {
    let mut vars = VarMap::new();
    vars.insert("a", "${x}");
    match render_decision("${a}", &vars) {
        RenderResult::Skipped => {}
        RenderResult::Rendered(_) => panic!("reintroduced unknown identifier must skip"),
    }
}

#[test]
fn reintroduced_known_placeholder_is_not_expanded() {
    let mut vars = VarMap::new();
    vars.insert("a", "${b}");
    vars.insert("b", "B");
    match render_decision("${a}", &vars) {
        RenderResult::Rendered(document) => assert_eq!(document, "${b}"),
        RenderResult::Skipped => panic!("identifier bound in vars must not skip"),
    }
}

#[test]
fn find_missing_placeholders_reports_each_once() {
    let mut missing = find_missing_placeholders("${x} then ${y} then ${x}");
    missing.sort();
    assert_eq!(missing, vec!["x".to_string(), "y".to_string()]);
}

#[test]
fn malformed_placeholders_are_ignored() {
    assert_eq!(find_missing_placeholders("${unclosed and ${} and $ {x}"), Vec::<String>::new());
    let vars = VarMap::new();
    let text = "${unclosed and ${} and $ {x}";
    assert_eq!(render_template(text, &vars), text);
}

#[test]
fn marker_injection_replaces_every_marker() {
    let (doc, warning) = inject_namespace(
        "ns: ${namespace} again ${namespace}",
        "ns: ${namespace} again ${namespace}",
        "prod",
    );
    assert_eq!(doc, "ns: prod again prod");
    assert!(!warning);
}

#[test]
fn scenario_field_override_warns() {
    let (doc, warning) = inject_namespace("namespace: old", "namespace: old", "prod");
    assert_eq!(doc, "namespace: prod");
    assert!(warning);
}

#[test]
fn field_override_normalizes_whitespace() {
    let (doc, warning) = inject_namespace("namespace:   spaced", "namespace:   spaced", "dev");
    assert_eq!(doc, "namespace: dev");
    assert!(warning);
}

#[test]
fn field_without_value_token_is_left_alone() {
    let (doc, warning) = inject_namespace("namespace:", "namespace:", "prod");
    assert_eq!(doc, "namespace:");
    assert!(!warning);
}

#[test]
fn injection_without_field_in_original_is_identity() {
    let (doc, warning) = inject_namespace("key: value", "key: value", "prod");
    assert_eq!(doc, "key: value");
    assert!(!warning);
}

#[test]
fn marker_takes_precedence_over_field_override() {
    let (doc, warning) = inject_namespace(
        "namespace: ${namespace}",
        "namespace: ${namespace}",
        "prod",
    );
    assert_eq!(doc, "namespace: prod");
    assert!(!warning);
}

#[test]
fn var_map_last_insert_wins() {
    let mut vars = VarMap::new();
    vars.insert("key", "one");
    vars.insert("key", "two");
    assert_eq!(vars.get("key"), Some("two".to_string()));
    assert!(vars.contains_key("key"));
    assert!(!vars.contains_key("other"));
}

#[test]
fn enc_file_name_appends_suffix() {
    assert_eq!(enc_file_name("app-config"), "app-config.enc.yaml");
}
