use sysprogs::webserver::{
    create_response, render_found, render_not_found, requested_file, txt_stem, Response,
};

#[test]
fn file_named_by_a_request() {
    let request = "GET /notes HTTP/1.1\r\nHost: localhost:8888\r\n\r\n\0\0\0".to_string();
    assert_eq!(requested_file(&request), Some("notes".to_string()));
    assert_eq!(requested_file(&"GET".to_string()), None);
}

#[test]
fn response_picks_the_first_matching_file() {
    let stems = vec!["a".to_string(), "notes".to_string(), "notes".to_string()];
    assert_eq!(create_response(&"notes".to_string(), &stems), Response::Found(1));
    assert_eq!(create_response(&"other".to_string(), &stems), Response::NotFound);
    assert_eq!(create_response(&"notes".to_string(), &Vec::new()), Response::Empty);
}

#[test]
fn pages() {
    assert_eq!(render_not_found(), "HTTP/1.1 404 Not Found\r\nContent-Length: \r\n\r\n");
    let page = render_found(&"hello".to_string());
    assert_eq!(
        page,
        format!(
            "HTTP/1.1 200 OK\r\nContent-Type: text/html; charset=UTF-8\r\nContent-Length: \r\n\r\n<html>\r\n<body>\r\n<h1>Requested File Contents: </h1>\r\n{}<br>\r\n</body>\r\n</html>\r\n",
            "hello"
        )
    );
}

#[test]
fn text_file_stems() {
    assert_eq!(txt_stem(&"notes.txt".to_string()), Some("notes".to_string()));
    assert_eq!(txt_stem(&"a.b.txt".to_string()), Some("a.b".to_string()));
    assert_eq!(txt_stem(&".a.txt".to_string()), Some(".a".to_string()));
    assert_eq!(txt_stem(&".txt".to_string()), None);
    assert_eq!(txt_stem(&"notes.md".to_string()), None);
    assert_eq!(txt_stem(&"notes.txt.bak".to_string()), None);
    assert_eq!(txt_stem(&"txt".to_string()), None);
    assert_eq!(txt_stem(&"notes.TXT".to_string()), None);
}
