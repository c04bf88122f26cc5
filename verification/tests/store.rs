use ecs_shell::errors::AppError;
use ecs_shell::profiles::{
    get_aws_config_sections, normalize_section_name, ordered_profile_names,
    requires_external_login,
};

fn strings(items: &[&str]) -> Vec<String> {
    items.iter().map(|s| s.to_string()).collect()
}

#[test]
fn section_tag_is_stripped() {
    assert_eq!(normalize_section_name("profile staging"), "staging");
}

#[test]
fn bare_name_stays_as_it_is() {
    assert_eq!(normalize_section_name("staging"), "staging");
    assert_eq!(normalize_section_name("default"), "default");
}

#[test]
fn tag_needs_the_trailing_space() {
    assert_eq!(normalize_section_name("profile"), "profile");
    assert_eq!(normalize_section_name("profiles"), "profiles");
}

#[test]
fn default_first_then_alphabetical() {
    let names = strings(&["default", "zeta", "alpha"]);
    let r = ordered_profile_names(&names);
    assert_eq!(r, strings(&["default", "alpha", "zeta"]));
}

#[test]
fn default_is_offered_even_when_absent() {
    let names = strings(&["beta", "alpha"]);
    let r = ordered_profile_names(&names);
    assert_eq!(r, strings(&["default", "alpha", "beta"]));
}

#[test]
fn parses_sections_and_recognized_fields() {
    let content = "[default]\nazure_tenant_id = 12345\n\n[profile staging]\ncredential_process = /usr/bin/helper\nunknown_key = ignored\n";
    let store = get_aws_config_sections(content).expect("well-formed store");
    let default = store.lookup("default").expect("default profile");
    assert_eq!(default.azure_tenant_id.as_deref(), Some("12345"));
    assert_eq!(default.credential_process, None);
    let staging = store.lookup("staging").expect("staging profile");
    assert_eq!(staging.azure_tenant_id, None);
    assert_eq!(staging.credential_process.as_deref(), Some("/usr/bin/helper"));
    assert!(store.lookup("missing").is_none());
}

#[test]
fn comments_and_blank_lines_are_skipped() {
    let content = "; leading comment\n\n[one]\n# another comment\nazure_tenant_id=t\n";
    let store = get_aws_config_sections(content).expect("well-formed store");
    let one = store.lookup("one").expect("profile one");
    assert_eq!(one.azure_tenant_id.as_deref(), Some("t"));
}

#[test]
fn key_outside_any_section_is_a_config_error() {
    let r = get_aws_config_sections("azure_tenant_id = nope\n");
    assert!(matches!(r, Err(AppError::Config(_))));
}

#[test]
fn stray_text_line_is_a_config_error() {
    let r = get_aws_config_sections("[ok]\nthis line has no separator\n");
    assert!(matches!(r, Err(AppError::Config(_))));
}

#[test]
fn unterminated_section_header_is_a_config_error() {
    let r = get_aws_config_sections("[broken\n");
    assert!(matches!(r, Err(AppError::Config(_))));
}

#[test]
fn repeated_section_replaces_the_earlier_one() {
    let content = "[a]\nazure_tenant_id=1\n[a]\n";
    let store = get_aws_config_sections(content).expect("well-formed store");
    let a = store.lookup("a").expect("profile a");
    assert_eq!(a.azure_tenant_id, None);
    assert_eq!(store.entries.len(), 1);
}

#[test]
fn tagged_and_bare_section_collapse_to_one_key() {
    let content = "[x]\nazure_tenant_id=1\n[profile x]\ncredential_process=p\n";
    let store = get_aws_config_sections(content).expect("well-formed store");
    assert_eq!(store.entries.len(), 1);
    let x = store.lookup("x").expect("profile x");
    assert_eq!(x.azure_tenant_id, None);
    assert_eq!(x.credential_process.as_deref(), Some("p"));
}

#[test]
fn empty_content_yields_no_profiles() {
    let store = get_aws_config_sections("").expect("empty store is fine");
    assert_eq!(store.entries.len(), 0);
}

#[test]
fn tenant_without_credential_command_gates_external_login() {
    let content = "[gated]\nazure_tenant_id = t\n[free]\nazure_tenant_id = t\ncredential_process = c\n[plain]\n";
    let store = get_aws_config_sections(content).expect("well-formed store");
    assert!(requires_external_login(store.lookup("gated").unwrap()));
    assert!(!requires_external_login(store.lookup("free").unwrap()));
    assert!(!requires_external_login(store.lookup("plain").unwrap()));
}

#[test]
fn carriage_returns_are_tolerated() {
    let content = "[one]\r\nazure_tenant_id = t\r\n";
    let store = get_aws_config_sections(content).expect("well-formed store");
    let one = store.lookup("one").expect("profile one");
    assert_eq!(one.azure_tenant_id.as_deref(), Some("t"));
}
