use external_dns_sdk::client::Request;
use external_dns_sdk::wire::{payload, same_text, status_is_success, Method, MEDIA_TYPE};
use external_dns_sdk::{Client, Error};

fn sent(request: Result<Request, Error>) -> Request {
    match request {
        Ok(request) => request,
        Err(error) => panic!("the request was not built: {:?}", error),
    }
}

#[test]
fn a_prefix_must_be_an_absolute_url() {
    assert!(Client::new("http://localhost:12333").is_ok());
    assert!(Client::new("https://dns.example.org/external-dns/").is_ok());
    assert!(matches!(Client::new("localhost"), Err(url::ParseError::RelativeUrlWithoutBase)));
    assert!(matches!(Client::new(""), Err(url::ParseError::RelativeUrlWithoutBase)));
    assert!(matches!(Client::new("http://"), Err(url::ParseError::EmptyHost)));
}

#[test]
fn init_goes_to_the_prefix_itself() {
    let client = Client::new("http://localhost:12333").unwrap();
    let request = client.init();
    assert_eq!(request.method, Method::Get);
    assert_eq!(request.url, "http://localhost:12333/");
    assert_eq!(request.accept.as_deref(), Some(MEDIA_TYPE));
    assert_eq!(request.content_type, None);
    assert_eq!(request.body, None);
}

#[test]
fn healthz_is_a_plain_get() {
    let client = Client::new("http://localhost:12333").unwrap();
    let request = sent(client.healthz());
    assert_eq!(request.method, Method::Get);
    assert_eq!(request.url, "http://localhost:12333/healthz");
    assert_eq!(request.accept, None);
    assert_eq!(request.content_type, None);
    assert_eq!(request.body, None);
}

#[test]
fn get_records_asks_for_the_media_type() {
    let client = Client::new("http://localhost:12333").unwrap();
    let request = sent(client.get_records());
    assert_eq!(request.method, Method::Get);
    assert_eq!(request.url, "http://localhost:12333/records");
    assert_eq!(
        request.accept.as_deref(),
        Some("application/external.dns.webhook+json;version=1")
    );
    assert_eq!(request.content_type, None);
    assert_eq!(request.body, None);
}

#[test]
fn set_records_posts_the_batch() {
    let client = Client::new("http://localhost:12333").unwrap();
    let body = "{\"create\":[],\"updateOld\":[],\"updateNew\":[],\"delete\":[]}";
    let request = sent(client.set_records(body.to_string()));
    assert_eq!(request.method, Method::Post);
    assert_eq!(request.url, "http://localhost:12333/records");
    assert_eq!(
        request.content_type.as_deref(),
        Some("application/external.dns.webhook+json;version=1")
    );
    assert_eq!(request.accept, None);
    assert_eq!(request.body.as_deref(), Some(body));
}

#[test]
fn adjust_endpoints_posts_and_asks() {
    let client = Client::new("http://localhost:12333").unwrap();
    let request = sent(client.adjust_endpoints("[]".to_string()));
    assert_eq!(request.method, Method::Post);
    assert_eq!(request.url, "http://localhost:12333/adjustendpoints");
    assert_eq!(request.content_type.as_deref(), Some(MEDIA_TYPE));
    assert_eq!(request.accept.as_deref(), Some(MEDIA_TYPE));
    assert_eq!(request.body.as_deref(), Some("[]"));
}

#[test]
fn a_null_body_is_left_out_with_its_content_type() {
    let client = Client::new("http://localhost:12333").unwrap();
    let request = sent(client.set_records("null".to_string()));
    assert_eq!(request.method, Method::Post);
    assert_eq!(request.url, "http://localhost:12333/records");
    assert_eq!(request.content_type, None);
    assert_eq!(request.body, None);

    let request = sent(client.request(Method::Post, "records", None, true));
    assert_eq!(request.content_type, None);
    assert_eq!(request.body, None);
    assert_eq!(request.accept.as_deref(), Some(MEDIA_TYPE));

    let request = sent(client.request(Method::Post, "records", Some("nil".to_string()), false));
    assert_eq!(request.content_type.as_deref(), Some(MEDIA_TYPE));
    assert_eq!(request.body.as_deref(), Some("nil"));

    let request = sent(client.request(Method::Post, "records", Some(String::new()), false));
    assert_eq!(request.content_type.as_deref(), Some(MEDIA_TYPE));
    assert_eq!(request.body.as_deref(), Some(""));
}

#[test]
fn a_payload_is_anything_but_null() {
    assert_eq!(payload(None), None);
    assert_eq!(payload(Some("null".to_string())), None);
    assert_eq!(payload(Some("Null".to_string())), Some("Null".to_string()));
    assert_eq!(payload(Some(" null".to_string())), Some(" null".to_string()));
    assert_eq!(payload(Some("{}".to_string())), Some("{}".to_string()));
}

#[test]
fn a_prefix_without_trailing_slash_loses_its_last_segment() {
    let client = Client::new("http://localhost:9998/external-dns").unwrap();
    assert_eq!(sent(client.healthz()).url, "http://localhost:9998/healthz");
    assert_eq!(client.init().url, "http://localhost:9998/external-dns");

    let client = Client::new("http://localhost:9998/external-dns/").unwrap();
    assert_eq!(sent(client.healthz()).url, "http://localhost:9998/external-dns/healthz");
    assert_eq!(sent(client.get_records()).url, "http://localhost:9998/external-dns/records");
    assert_eq!(
        sent(client.adjust_endpoints("[]".to_string())).url,
        "http://localhost:9998/external-dns/adjustendpoints"
    );
}

#[test]
fn a_prefix_that_cannot_be_a_base_fails_every_endpoint() {
    let client = Client::new("mailto:dns@example.org").unwrap();
    assert!(matches!(
        client.healthz(),
        Err(Error::Url(url::ParseError::RelativeUrlWithCannotBeABaseBase))
    ));
    assert!(matches!(client.get_records(), Err(Error::Url(_))));
    assert!(matches!(client.set_records("{}".to_string()), Err(Error::Url(_))));
    assert!(matches!(client.adjust_endpoints("[]".to_string()), Err(Error::Url(_))));
    assert_eq!(client.init().url, "mailto:dns@example.org");
}

#[test]
fn success_is_two_hundred_to_two_hundred_ninety_nine() {
    assert!(!status_is_success(199));
    assert!(status_is_success(200));
    assert!(status_is_success(204));
    assert!(status_is_success(299));
    assert!(!status_is_success(300));
    assert!(!status_is_success(404));
    assert!(!status_is_success(500));
    assert!(!status_is_success(0));
    assert!(!status_is_success(u16::MAX));
}

#[test]
fn a_successful_response_gives_its_text() {
    let decoded = Client::parse_response(200, b"ok".to_vec());
    assert!(matches!(decoded, Ok(text) if text == "ok"));
    let decoded = Client::parse_response(299, "[\"\u{e9}\"]".as_bytes().to_vec());
    assert!(matches!(decoded, Ok(text) if text == "[\"\u{e9}\"]"));
    let decoded = Client::parse_response(204, Vec::new());
    assert!(matches!(decoded, Ok(text) if text.is_empty()));
}

#[test]
fn a_failed_response_gives_status_and_text() {
    let decoded = Client::parse_response(500, b"zone is locked".to_vec());
    assert!(matches!(decoded, Err(Error::Webhook(500, text)) if text == "zone is locked"));
    let decoded = Client::parse_response(404, b"[]".to_vec());
    assert!(matches!(decoded, Err(Error::Webhook(404, text)) if text == "[]"));
    let decoded = Client::parse_response(300, Vec::new());
    assert!(matches!(decoded, Err(Error::Webhook(300, text)) if text.is_empty()));
    let decoded = Client::parse_response(199, b"{}".to_vec());
    assert!(matches!(decoded, Err(Error::Webhook(199, text)) if text == "{}"));
}

#[test]
fn a_payload_that_is_not_utf8_is_refused() {
    let decoded = Client::parse_response(200, vec![0x6f, 0xff, 0x6b]);
    match decoded {
        Err(Error::InvalidUtf8(error)) => assert_eq!(error.into_bytes(), vec![0x6f, 0xff, 0x6b]),
        other => panic!("decoded to {:?}", other),
    }
    assert!(matches!(Client::parse_response(500, vec![0xc3]), Err(Error::InvalidUtf8(_))));
}

#[test]
fn an_acknowledgement_ignores_the_body_of_a_success() {
    assert!(matches!(Client::parse_acknowledgement(200, b"null"), Ok(())));
    assert!(matches!(Client::parse_acknowledgement(204, b""), Ok(())));
    assert!(matches!(Client::parse_acknowledgement(200, &[0xff]), Ok(())));
}

#[test]
fn a_failed_acknowledgement_gives_status_and_text() {
    let decoded = Client::parse_acknowledgement(500, b"zone is locked");
    assert!(matches!(decoded, Err(Error::Webhook(500, text)) if text == "zone is locked"));
    let decoded = Client::parse_acknowledgement(502, &[0x6f, 0xff, 0x6b]);
    assert!(matches!(decoded, Err(Error::Webhook(502, text)) if text == "o\u{fffd}k"));
}

#[test]
fn an_unparsed_text_is_kept_in_the_error() {
    let value: Result<u32, Error> = Client::decoded("7".to_string(), Some(7));
    assert!(matches!(value, Ok(7)));
    let value: Result<u32, Error> = Client::decoded("seven".to_string(), None);
    assert!(matches!(value, Err(Error::Deserialization(text)) if text == "seven"));
}

#[test]
fn texts_compare_by_content() {
    assert!(same_text("", ""));
    assert!(same_text("records", "records"));
    assert!(!same_text("records", "Records"));
    assert!(!same_text("records", "record"));
    assert!(!same_text("", "/"));
}
