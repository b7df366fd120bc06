use sysprogs::webget::{create_message, get_command_parameters, parse_reply, save_name, CommandParameters};

fn parse(input: &str) -> CommandParameters {
    get_command_parameters(CommandParameters::from_input(&input.to_string()))
}

#[test]
fn plain_http_url() {
    let c = parse("http://example.com/index.html");
    assert_eq!(c.hostname, "example.com");
    assert_eq!(c.port, "80");
    assert_eq!(c.file, "/index.html");
    assert!(!c.https);
    assert_eq!(c.vec_commands, vec!["example.com".to_string(), "/index.html".to_string()]);
}

#[test]
fn https_url_with_port_and_deep_path() {
    let c = parse("https://host.org:8443/a/b.txt");
    assert_eq!(c.hostname, "host.org");
    assert_eq!(c.port, "8443");
    assert_eq!(c.file, "/a/b.txt");
    assert!(c.https);
}

#[test]
fn https_url_gets_the_secure_default_port() {
    let c = parse("https://secure.net/");
    assert_eq!(c.hostname, "secure.net");
    assert_eq!(c.port, "443");
    assert_eq!(c.file, "/");
}

#[test]
fn command_line_pieces() {
    let c = CommandParameters::from_input(&"http://a/b".to_string());
    assert_eq!(c.vec_commands, vec!["http".to_string(), "a/b".to_string()]);
    assert_eq!(c.hostname, "");
    assert!(!c.https);
}

#[test]
fn request_text() {
    let m = create_message("example.com".to_string(), "/index.html".to_string());
    assert_eq!(m, "GET /index.html HTTP/1.1\nHost: example.com\nConnection: Close \n\n");
}

#[test]
fn reply_head_and_body() {
    let r = parse_reply(&"HTTP/1.1 200 OK\r\nServer: x\r\n\r\n<p>hi</p>".to_string());
    assert_eq!(r.header_lines, vec!["HTTP/1.1 200 OK".to_string(), "Server: x".to_string()]);
    assert_eq!(r.body, Some("<p>hi</p>".to_string()));
    let r = parse_reply(&"HTTP/1.1 204 No Content\r\n".to_string());
    assert_eq!(r.header_lines, vec!["HTTP/1.1 204 No Content".to_string(), String::new()]);
    assert_eq!(r.body, None);
}

#[test]
fn saved_file_name() {
    assert_eq!(save_name(&"/a/b/page.html".to_string()), "page.html");
    assert_eq!(save_name(&"/".to_string()), "");
}
