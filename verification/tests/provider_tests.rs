use rustlinks::provider::{OIDCProvider, ProviderName};

#[test]
fn test_provider_name_from_string() {
    let test_case_result_vec = vec![
        ("https://www.facebook.com/", ProviderName::Facebook),
        ("https://facebook.com/", ProviderName::Facebook),
        (
            "https://login.microsoftonline.com/common/v2.0/",
            ProviderName::Microsoft,
        ),
        (
            "https://login.microsoftonline.com/common/v2.0",
            ProviderName::Microsoft,
        ),
        ("https://login.okta.com/", ProviderName::Okta),
        ("https://customdomain.okta.com", ProviderName::Okta),
        ("https://slack.com/", ProviderName::Slack),
        ("https://appleid.apple.com/", ProviderName::Apple),
        ("https://notonthelist.com/", ProviderName::Unknown),
        ("notevenavalidurl", ProviderName::Unknown),
    ];

    test_case_result_vec
        .into_iter()
        .for_each(|(input, expected)| {
            let actual = ProviderName::from_str(input);
            assert_eq!(actual, expected);
        });
}

#[test]
fn google_is_recognized() {
    assert_eq!(
        ProviderName::from_str("https://accounts.google.com/"),
        ProviderName::Google
    );
}

#[test]
fn provider_pair_parses_and_trims() {
    let p = OIDCProvider::from_str("https://accounts.google.com, 123456789").unwrap();
    assert_eq!(p.provider_url, "https://accounts.google.com");
    assert_eq!(p.client_id, "123456789");
    assert_eq!(p.provider_name, ProviderName::Google);
}

#[test]
fn provider_pair_needs_exactly_two_parts() {
    assert!(OIDCProvider::from_str("https://accounts.google.com").is_err());
    assert!(OIDCProvider::from_str("a,b,c").is_err());
    let msg = OIDCProvider::from_str("no comma here").unwrap_err();
    assert_eq!(
        msg,
        "Invalid number of comma-separated values passed for OIDC provider (expected: 2)"
    );
}

#[test]
fn okta_is_recognized_by_host_not_by_text() {
    // the host of the URL decides, not its full text
    assert_eq!(
        ProviderName::from_str("https://dev.okta.com/extra/path"),
        ProviderName::Okta
    );
    assert_eq!(
        ProviderName::from_str("https://dev.okta.com:8080"),
        ProviderName::Okta
    );
    assert_eq!(
        ProviderName::from_str("https://okta.com.evil.example"),
        ProviderName::Unknown
    );
}
