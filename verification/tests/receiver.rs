use hatel::json::{compact, parse};
use hatel::receiver::{
    authority, identify, identity_request, read_identity, read_on, Identity, Probe, ANSWER_NANOS,
    IDENTITY_PATH,
};
use hatel::service::{launchd_plist, systemd_exec_arg, systemd_unit, xml_escape};

#[test]
fn a_receiver_answers_its_build() {
    let body = r#"{"service":"hatel","version":"9.9.9"}"#;
    let answer = format!(
        "HTTP/1.1 200 OK\r\nContent-Type: application/json\r\nContent-Length: {}\r\n\r\n{body}",
        body.len()
    );
    assert_eq!(identify(answer.as_bytes()), Probe::Build("9.9.9".to_string()));
}

#[test]
fn a_server_that_is_not_a_receiver_is_foreign() {
    for response in [
        "HTTP/1.1 404 Not Found\r\nContent-Length: 0\r\n\r\n",
        "HTTP/1.1 200 OK\r\nContent-Length: 2\r\n\r\n{}",
        "HTTP/1.1 200 OK\r\nContent-Length: 40\r\n\r\n{\"service\":\"other\",\"version\":\"1.0.0\"}",
        "not http at all",
    ] {
        assert_eq!(identify(response.as_bytes()), Probe::Foreign, "{response:?}");
    }
}

#[test]
fn a_server_that_trickles_is_cut_off_at_the_deadline() {
    // What arrived by the deadline is judged: a status line alone is no identity.
    let mut so_far = Vec::new();
    for byte in b"HTTP/1.1 200 OK\r\n".iter().cycle().take(40) {
        so_far.push(*byte);
        assert_eq!(identify(&so_far), Probe::Foreign);
    }
}

#[test]
fn an_endpoint_reduces_to_its_authority() {
    assert_eq!(authority("http://127.0.0.1:4318"), "127.0.0.1:4318");
    assert_eq!(authority("http://localhost:4318/"), "localhost:4318");
    assert_eq!(authority("http://[::1]:4318/v1/metrics"), "[::1]:4318");
    assert_eq!(authority("127.0.0.1:4318"), "127.0.0.1:4318");
    assert_eq!(authority("http://localhost"), "localhost:80");
}

#[test]
fn an_authority_without_a_port_gets_the_default() {
    assert_eq!(authority("http://[::1]"), "[::1]:80");
    assert_eq!(authority("https://host/path"), "host:80");
    assert_eq!(authority(""), ":80");
}

#[test]
fn an_identity_reads_back() {
    let id = Identity::of_build("1.2.3");
    let text = compact(&id.to_json());
    assert_eq!(text, r#"{"service":"hatel","version":"1.2.3"}"#);
    let back = read_identity(&parse(&text).unwrap()).unwrap();
    assert_eq!(back.service, "hatel");
    assert_eq!(back.version, "1.2.3");
    let answer = format!("HTTP/1.1 200 OK\r\n\r\n{text}\n");
    assert_eq!(identify(answer.as_bytes()), Probe::Build("1.2.3".to_string()));
}

#[test]
fn a_body_that_is_not_text_is_judged_all_the_same() {
    let mut answer = b"HTTP/1.1 200 OK\r\nX: ".to_vec();
    answer.push(0xff);
    answer.extend_from_slice(b"\r\n\r\n{\"service\":\"hatel\",\"version\":\"2\"}");
    assert_eq!(identify(&answer), Probe::Build("2".to_string()));
}

#[test]
fn the_request_names_the_route_and_the_host() {
    let request = identity_request("127.0.0.1:4318");
    assert!(request.starts_with(&format!("GET {IDENTITY_PATH} HTTP/1.1\r\n")));
    assert!(request.contains("\r\nHost: 127.0.0.1:4318\r\n"));
    assert!(request.ends_with("\r\n\r\n"));
}

#[test]
fn a_service_file_holds_the_path_escaped() {
    assert_eq!(xml_escape("/a&b/<c>"), "/a&amp;b/&lt;c&gt;");
    assert_eq!(systemd_exec_arg(r#"/a b/100%/"q"\x"#), r#""/a b/100%%/\"q\"\\x""#);
    let unit = systemd_unit("/opt/my tools/hatel");
    assert!(unit.contains("\nExecStart=\"/opt/my tools/hatel\" serve --all\n"), "got: {unit}");
    let plist = launchd_plist("/opt/a&b/hatel");
    assert!(plist.contains(
        "<array><string>/opt/a&amp;b/hatel</string><string>serve</string><string>--all</string></array>"
    ));
    assert!(plist.contains("<key>Label</key><string>dev.hatel</string>"));
}

#[test]
fn an_identity_is_read_back() {
    let id = Identity::this_build();
    assert_eq!(id.service, "hatel");
    assert_eq!(id.version, hatel::receiver::VERSION);
    let back = hatel::receiver::read_identity(&id.to_json()).unwrap();
    assert_eq!((back.service, back.version), (id.service, id.version));
}

#[test]
fn an_answer_is_read_until_it_is_full_or_late() {
    assert_eq!(read_on(0, 0), Some(ANSWER_NANOS));
    assert_eq!(read_on(65_535, 500_000_000), Some(1_500_000_000));
    assert_eq!(read_on(65_536, 0), None, "no page is read whole");
    assert_eq!(read_on(0, ANSWER_NANOS), Some(0));
    assert_eq!(read_on(0, ANSWER_NANOS + 1), None, "a trickling server is cut off");
}
