use rustlinks::redirect::{render_url_template, resolve_redirect};
use rustlinks::rustlink::Rustlink;
use rustlinks::state::LinkTable;

#[test]
fn it_templates_nothing() {
    let url = "https://google.com";
    let params = None;
    let templated = render_url_template(url, params);
    assert_eq!(templated, url);
}

#[test]
fn it_templates_one_item() {
    let url = "https://google.com/search?q={^}";
    let params = Some("rust");
    let templated = render_url_template(url, params);
    assert_eq!(templated, "https://google.com/search?q=rust");
}

#[test]
fn it_templates_string_with_multiple_spaces_url_encoded() {
    let url = "https://google.com/search?q={^}";
    let params = Some("rust is cool");
    let templated = render_url_template(url, params);
    assert_eq!(templated, "https://google.com/search?q=rust%20is%20cool");
}

#[test]
fn it_templates_string_with_multiple_replacements() {
    let url = "https://google.com/search?q={^}&b={^}";
    let params = Some("rust is cool");
    let templated = render_url_template(url, params);
    assert_eq!(templated, "https://google.com/search?q=rust&b=is%20cool");
}

#[test]
fn it_templates_string_with_multiple_replacements_with_fewer_params() {
    let url = "https://google.com/search?q={^}&a={^}&b={^}&c={^}&d={^}";
    let params = Some("rust is cool");
    let templated = render_url_template(url, params);
    assert_eq!(templated, "https://google.com/search?q=rust&a=is&b=cool&c=&d=");
}

#[test]
fn it_only_replaces_parentheses_if_param_is_available() {
    let url = "https://google.com/search?q={shouldbehere%20^}&a={shouldnotbehere%20^}";
    let params = Some("rust");
    let templated = render_url_template(url, params);
    assert_eq!(templated, "https://google.com/search?q=shouldbehere%20rust&a=");
}

#[test]
fn it_only_replaces_parentheses_if_param_is_available_test_encoding_available() {
    let url = "https://google.com{/search?q=^&b=test}";
    let params = Some("rust");
    let templated = render_url_template(url, params);
    assert_eq!(templated, "https://google.com/search?q=rust&b=test");
}

#[test]
fn it_only_replaces_parentheses_if_param_is_available_test_encoding_not_available() {
    let url = "https://google.com{/search?q=^&b=test}";
    let params = None;
    let templated = render_url_template(url, params);
    assert_eq!(templated, "https://google.com");
}

#[test]
fn it_only_replaces_parentheses_if_param_is_available_mixed() {
    let url = "https://google.com{/search?q=^&b=test}{#^}";
    let params = Some("rust");
    let templated = render_url_template(url, params);
    assert_eq!(templated, "https://google.com/search?q=rust&b=test");
}

#[test]
fn it_handles_nesting_for_whatever_reason() {
    let url = "https://google.com{/search?q=^{&b=^}}";
    let params = Some("rust");
    let templated = render_url_template(url, params);
    assert_eq!(templated, "https://google.com");
}

#[test]
fn it_handles_nesting_in_stack_order_for_whatever_reason() {
    let url = "https://google.com{/search?q=^%20is{&b=^}}";
    let params = Some("cool rust");
    let templated = render_url_template(url, params);
    assert_eq!(templated, "https://google.com/search?q=rust%20is&b=cool");
}

#[test]
fn it_only_replaces_if_has_sufficient_params() {
    let url = "https://google.com{/search?q=^&b=^}";
    let params = Some("rust");
    let templated = render_url_template(url, params);
    assert_eq!(templated, "https://google.com");
}

#[test]
fn it_replaces_with_sufficient_params() {
    let url = "https://google.com{/search?q=^&b=^}";
    let params = Some("rust is cool");
    let templated = render_url_template(url, params);
    assert_eq!(templated, "https://google.com/search?q=rust&b=is%20cool");
}

#[test]
fn it_handles_one_whitespace_as_no_input() {
    let url = "https://google.com{/search?q=^&b=^}";
    let params = Some(" ");
    let templated = render_url_template(url, params);
    assert_eq!(templated, "https://google.com");
}

#[test]
fn leftover_params_are_appended_encoded() {
    let templated = render_url_template("https://example.com/x", Some("extra bits"));
    assert_eq!(templated, "https://example.com/x%20extra%20bits");
}

#[test]
fn lone_closing_brace_is_literal() {
    let templated = render_url_template("https://a.com/}x", None);
    assert_eq!(templated, "https://a.com/}x");
}

#[test]
fn unclosed_group_keeps_its_text_and_hat() {
    let templated = render_url_template("https://a.com/{q=^", Some("rust"));
    assert_eq!(templated, "https://a.com/{q=^%20rust");
}

#[test]
fn hat_outside_any_group_is_literal() {
    let templated = render_url_template("https://a.com/^", None);
    assert_eq!(templated, "https://a.com/^");
}

#[test]
fn empty_template_stays_empty() {
    let templated = render_url_template("", None);
    assert_eq!(templated, "");
}

#[test]
fn token_is_percent_encoded_in_place() {
    let templated = render_url_template("https://a.com/{^}", Some("a/b c"));
    assert_eq!(templated, "https://a.com/a%2Fb%20c");
}

#[test]
fn resolve_renders_a_known_alias() {
    let mut table = LinkTable::new();
    table.upsert(Rustlink::new(
        "search".to_string(),
        "https://google.com/search?q={^}".to_string(),
    ));
    assert_eq!(
        resolve_redirect(&table, "search rust").unwrap(),
        "https://google.com/search?q=rust"
    );
    assert_eq!(
        resolve_redirect(&table, "search").unwrap(),
        "https://google.com/search?q="
    );
    assert!(resolve_redirect(&table, "missing").is_none());
    assert!(resolve_redirect(&table, "missing with params").is_none());
}
