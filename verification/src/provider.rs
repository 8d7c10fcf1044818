//! OIDC provider identification. Discovery and login flows live outside
//! this crate; what is modeled here is the pure part: recognizing a
//! provider from its issuer URL and parsing the `url,client_id` pairs
//! given on the command line.

use vstd::prelude::*;
use crate::strings::{
    count_char, count_char_in, ends_with, first_index_of, lemma_first_index_of, str_ends_with,
    str_eq, trim_spaces, trim_spec, trim_trailing, trim_trailing_char,
};

verus! {

/// The providers known by their issuer URL.
#[derive(Clone, Copy, PartialEq, Eq, Structural, Debug)]
pub enum ProviderName {
    Apple,
    Facebook,
    Google,
    Microsoft,
    Okta,
    Slack,
    Unknown,
}

/// What `url::Url::parse` followed by `Url::host_str` yields for this
/// text: the URL's host, or `None` when the text is no URL or has no
/// host. A function of the text alone.
pub uninterp spec fn host_of(s: Seq<char>) -> Option<Seq<char>>;

/// Relies on `url::Url::parse` and `url::Url::host_str`: parses the text
/// as a URL and hands out its host; both depend on the text alone.
#[verifier::external_body]
fn parse_host(s: &str) -> (r: Option<String>)
    ensures
        host_of(s@) == (match r {
            Option::Some(h) => Option::Some(h@),
            Option::None => Option::None::<Seq<char>>,
        }),
{
    match url::Url::parse(s) {
        Ok(u) => u.host_str().map(|h| h.to_string()),
        Err(_) => Option::None,
    }
}

/// Which provider an issuer URL names: trailing slashes are dropped, the
/// fixed table is consulted, and otherwise any URL whose host ends in
/// `okta.com` counts as Okta.
pub open spec fn provider_name_of(input: Seq<char>) -> ProviderName {
    let t = trim_trailing(input, '/');
    if t == "https://www.facebook.com"@ || t == "https://facebook.com"@ {
        ProviderName::Facebook
    } else if t == "https://accounts.google.com"@ {
        ProviderName::Google
    } else if t == "https://login.microsoftonline.com/common/v2.0"@ {
        ProviderName::Microsoft
    } else if t == "https://login.okta.com"@ {
        ProviderName::Okta
    } else if t == "https://slack.com"@ {
        ProviderName::Slack
    } else if t == "https://appleid.apple.com"@ {
        ProviderName::Apple
    } else {
        match host_of(t) {
            Option::Some(h) => if ends_with(h, "okta.com"@) {
                ProviderName::Okta
            } else {
                ProviderName::Unknown
            },
            Option::None => ProviderName::Unknown,
        }
    }
}

impl ProviderName {
    /// Recognizes a provider from its issuer URL.
    pub fn from_str(input: &str) -> (r: ProviderName)
        ensures
            r == provider_name_of(input@),
    {
        let t = trim_trailing_char(input, '/');
        if str_eq(t.as_str(), "https://www.facebook.com") || str_eq(
            t.as_str(),
            "https://facebook.com",
        ) {
            ProviderName::Facebook
        } else if str_eq(t.as_str(), "https://accounts.google.com") {
            ProviderName::Google
        } else if str_eq(t.as_str(), "https://login.microsoftonline.com/common/v2.0") {
            ProviderName::Microsoft
        } else if str_eq(t.as_str(), "https://login.okta.com") {
            ProviderName::Okta
        } else if str_eq(t.as_str(), "https://slack.com") {
            ProviderName::Slack
        } else if str_eq(t.as_str(), "https://appleid.apple.com") {
            ProviderName::Apple
        } else {
            match parse_host(t.as_str()) {
                Option::Some(h) => {
                    if str_ends_with(h.as_str(), "okta.com") {
                        ProviderName::Okta
                    } else {
                        ProviderName::Unknown
                    }
                },
                Option::None => ProviderName::Unknown,
            }
        }
    }
}

/// An OIDC provider the server will accept: issuer URL, client id, and
/// the recognized name. Metadata discovery happens outside this crate.
#[derive(Debug)]
pub struct OIDCProvider {
    pub client_id: String,
    pub provider_url: String,
    pub provider_name: ProviderName,
}

impl OIDCProvider {
    /// Parses a `provider_url,client_id` pair, both sides trimmed of
    /// ASCII whitespace. Exactly one comma is accepted; anything else is
    /// the error.
    pub fn from_str(value: &str) -> (r: Result<OIDCProvider, &'static str>)
        ensures
            count_char(value@, ',') == 1 ==> (r matches Ok(p) && p.provider_url@ == trim_spec(
                value@.take(first_index_of(value@, ',')),
            ) && p.client_id@ == trim_spec(value@.skip(first_index_of(value@, ',') + 1))
                && p.provider_name == provider_name_of(p.provider_url@)),
            count_char(value@, ',') != 1 ==> (r matches Err(m) && m@
                == "Invalid number of comma-separated values passed for OIDC provider (expected: 2)"@),
    {
        let n = value.unicode_len();
        if count_char_in(value, ',') != 1 {
            return Result::Err(
                "Invalid number of comma-separated values passed for OIDC provider (expected: 2)",
            );
        }
        let mut i: usize = 0;
        while i < n && value.get_char(i) != ','
            invariant
                n == value@.len(),
                i <= n,
                forall|j: int| 0 <= j < i ==> value@[j] != ',',
            decreases n - i,
        {
            i = i + 1;
        }
        assert(i < n) by {
            if i == n {
                assert(forall|j: int| 0 <= j < value@.len() ==> value@[j] != ',');
                lemma_count_char_zero(value@, ',');
            }
        }
        proof {
            lemma_first_index_of(value@, ',', i as int);
        }
        let provider_url = trim_spaces(value.substring_char(0, i));
        let client_id = trim_spaces(value.substring_char(i + 1, n));
        proof {
            assert(value@.subrange(0, i as int) =~= value@.take(i as int));
            assert(value@.subrange(i + 1, n as int) =~= value@.skip(i + 1));
        }
        let provider_name = ProviderName::from_str(provider_url.as_str());
        Result::Ok(OIDCProvider { client_id, provider_url, provider_name })
    }
}

/// A string without `c` counts none of it.
proof fn lemma_count_char_zero(s: Seq<char>, c: char)
    requires
        forall|j: int| 0 <= j < s.len() ==> s[j] != c,
    ensures
        count_char(s, c) == 0,
    decreases s.len(),
{
    if s.len() > 0 {
        lemma_count_char_zero(s.drop_last(), c);
    }
}

} // verus!
