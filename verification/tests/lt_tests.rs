use languagetool_rust::server::ServerClient;
use languagetool_code_comments::lt::{
    drop_whitespace_matches, worker_count, Client, ClientError, Match, MoreContext,
};

fn m(origin: usize, rule: &str) -> Match {
    Match {
        origin,
        rule_id: rule.to_string(),
        more_context: Some(MoreContext { line_number: 0, line_offset: 0 }),
    }
}

#[test]
fn whitespace_matches_are_dropped() {
    let matches = vec![
        m(0, "MORFOLOGIK_RULE_EN_US"),
        m(1, "WHITESPACE_RULE"),
        m(2, "UPPERCASE_SENTENCE_START"),
        m(3, "WHITESPACE_RULE"),
    ];
    let kept = drop_whitespace_matches(&matches);
    let origins: Vec<usize> = kept.iter().map(|k| k.origin).collect();
    assert_eq!(origins, vec![0, 2]);
    assert!(drop_whitespace_matches(&vec![]).is_empty());
    assert_eq!(drop_whitespace_matches(&vec![m(5, "whitespace_rule")]).len(), 1);
}

#[test]
fn workers_never_outnumber_requests() {
    assert_eq!(worker_count(10, 3), 3);
    assert_eq!(worker_count(2, 30), 2);
    assert_eq!(worker_count(4, 4), 4);
    assert_eq!(worker_count(10, 0), 0);
}

#[test]
fn client_for_the_public_api_has_no_port() {
    let client = Client::new("https://api.languagetool.org").unwrap();
    assert_eq!(client.hostname(), "https://api.languagetool.org");
    assert_eq!(client.port(), "");
    let server = ServerClient::new(client.hostname(), client.port());
    assert_eq!(server.api, "https://api.languagetool.org/v2");
}

#[test]
fn client_keeps_an_explicit_port() {
    let client = Client::new("http://127.0.0.1:3344").unwrap();
    assert_eq!(client.hostname(), "http://127.0.0.1");
    assert_eq!(client.port(), "3344");
    let server = ServerClient::new(client.hostname(), client.port());
    assert_eq!(server.api, "http://127.0.0.1:3344/v2");
}

#[test]
fn default_and_zero_ports_are_left_out() {
    let client = Client::new("https://example.com:443/check").unwrap();
    assert_eq!(client.port(), "");
    let client = Client::new("http://localhost:0").unwrap();
    assert_eq!(client.hostname(), "http://localhost");
    assert_eq!(client.port(), "");
    let client = Client::new("http://localhost:8081").unwrap();
    assert_eq!(client.port(), "8081");
}

#[test]
fn invalid_urls_are_refused() {
    assert!(matches!(Client::new("not a url"), Err(ClientError::InvalidUrl(_))));
    assert!(matches!(Client::new("127.0.0.1:8081"), Err(ClientError::InvalidUrl(_)) | Err(ClientError::MissingHost)));
    assert!(matches!(Client::new("unix:/run/foo.socket"), Err(ClientError::MissingHost)));
    assert!(matches!(Client::new("data:text/plain,Stuff"), Err(ClientError::MissingHost)));
}
