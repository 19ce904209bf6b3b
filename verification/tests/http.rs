use salfa::sal_http::{collect, find_key, put_pair, read_head, read_header, Head, HTTP};

fn pair(name: &str, value: &str) -> (Vec<u8>, Vec<u8>) {
    (name.as_bytes().to_vec(), value.as_bytes().to_vec())
}

fn args(items: &[&str]) -> Vec<Vec<u8>> {
    items.iter().map(|s| s.as_bytes().to_vec()).collect()
}

#[test]
fn new_keeps_each_name_once_with_last_value() {
    let http = HTTP::new(&[pair("A", "1"), pair("B", "2"), pair("A", "3")], None);
    assert_eq!(http.head.as_slice(), &[pair("A", "3"), pair("B", "2")][..]);
    assert_eq!(http.body, None);
}

#[test]
fn new_keeps_body() {
    let http = HTTP::new(&[], Some(b"{}".to_vec()));
    assert_eq!(http.head.len(), 0);
    assert_eq!(http.body, Some(b"{}".to_vec()));
}

#[test]
fn put_pair_replaces_or_appends() {
    let mut head = vec![pair("a", "1")];
    put_pair(&mut head, b"b".to_vec(), b"2".to_vec());
    put_pair(&mut head, b"a".to_vec(), b"9".to_vec());
    put_pair(&mut head, b"A".to_vec(), b"3".to_vec());
    assert_eq!(head, vec![pair("a", "9"), pair("b", "2"), pair("A", "3")]);
    assert_eq!(collect(&[pair("x", "1"), pair("x", "2")]), vec![pair("x", "2")]);
}

#[test]
fn send_builds_command_line() {
    let http = HTTP::new(
        &[pair("Connection", "close"), pair("Content-Type", "application/json")],
        Some(b"{\"Hello\": \"World\"}".to_vec()),
    );
    assert_eq!(
        http.send(b"https://sal-server.fly.dev", b"POST").unwrap(),
        args(&[
            "-SiX",
            "POST",
            "https://sal-server.fly.dev",
            "-A",
            "Saloxy Mozilla Curl",
            "-S",
            "-H",
            "Connection: close",
            "-H",
            "Content-Type: application/json",
            "--data",
            "{\"Hello\": \"World\"}",
        ])
    );
}

#[test]
fn send_without_head_or_body() {
    let http = HTTP::new(&[], None);
    assert_eq!(
        http.send(b"http://x", b"GET").unwrap(),
        args(&["-SiX", "GET", "http://x", "-A", "Saloxy Mozilla Curl", "-S"])
    );
}

#[test]
fn send_refuses_other_addresses() {
    let http = HTTP::new(&[], None);
    assert_eq!(
        http.send(b"ftp://x", b"GET").unwrap_err(),
        (-1, b"Fail to Parse (Input)!".to_vec())
    );
    assert!(http.send(b"", b"GET").is_err());
    assert!(http.send(b" http://x", b"GET").is_err());
    assert!(http.send(b"HTTP://x", b"GET").is_err());
}

#[test]
fn fetch_appends_given_arguments() {
    assert_eq!(
        HTTP::fetch(b"https://x", b"GET", &args(&["-k", "-L"])).unwrap(),
        args(&["-SiX", "GET", "https://x", "-A", "Saloxy Mozilla Curl", "-k", "-L"])
    );
    assert_eq!(
        HTTP::fetch(b"x", b"GET", &[]).unwrap_err(),
        (-1, b"Fail to Parse (Input)!".to_vec())
    );
}

#[test]
fn receive_reads_status_head_and_body() {
    let out = b"HTTP/1.1 200 OK\r\nContent-Type: text/html\r\nX:  a:b \r\nEmpty\r\nX: c\r\n\r\nhello\r\n\r\nmore";
    let (http, status) = HTTP::receive(true, out, b"").unwrap();
    assert_eq!(status, b"200".to_vec());
    assert_eq!(
        http.head.as_slice(),
        &[pair("Content-Type", "text/html"), pair("X", "c"), pair("Empty", "")][..]
    );
    assert_eq!(http.body, Some(b"hello\r\n\r\nmore".to_vec()));
}

#[test]
fn receive_empty_body_is_none() {
    let (http, status) = HTTP::receive(true, b"HTTP/2 204\r\n\r\n", b"ignored").unwrap();
    assert_eq!(status, b"204".to_vec());
    assert_eq!(http.head.len(), 0);
    assert_eq!(http.body, None);
}

#[test]
fn receive_failed_run_gives_complaint() {
    assert_eq!(
        HTTP::receive(false, b"HTTP/1.1 200 OK\r\n\r\n", b"  curl: (6) no host \n").unwrap_err(),
        (-3, b"curl: (6) no host".to_vec())
    );
}

#[test]
fn receive_unreadable_output() {
    let bad = (-2, b"Fail to Parse (in)!".to_vec());
    assert_eq!(HTTP::receive(true, b"HTTP/1.1 200 OK\r\nX: y\r\n", b"").unwrap_err(), bad);
    assert_eq!(HTTP::receive(true, b"\r\n\r\nbody", b"").unwrap_err(), bad);
    assert_eq!(HTTP::receive(true, b"HTTP/1.1\r\n\r\nbody", b"").unwrap_err(), bad);
    assert_eq!(HTTP::receive(true, b"", b"").unwrap_err(), bad);
}

#[test]
fn header_line_is_cut_at_first_colon() {
    assert_eq!(read_header(b" Host : a:1 "), pair("Host", "a:1"));
    assert_eq!(read_header(b"  plain  "), pair("plain", ""));
    assert_eq!(read_header(b":"), pair("", ""));
}

#[test]
fn head_is_a_map_in_order_of_first_names() {
    let head = Head::new()
        .insert(b"a".to_vec(), b"1".to_vec())
        .insert(b"b".to_vec(), b"2".to_vec())
        .insert(b"a".to_vec(), b"3".to_vec());
    assert_eq!(head.len(), 2);
    assert_eq!(head.as_slice(), &[pair("a", "3"), pair("b", "2")][..]);
    assert_eq!(head.get(b"a"), Some(&b"3"[..]));
    assert_eq!(head.get(b"b"), Some(&b"2"[..]));
    assert_eq!(head.get(b"A"), None);
    assert_eq!(head.clone(), head);
    assert_eq!(Head::new().len(), 0);
    assert_eq!(Head::new().get(b""), None);
}

#[test]
fn head_collect_keeps_last_value() {
    let head = Head::collect(&[pair("x", "1"), pair("y", "2"), pair("x", "3"), pair("", "")]);
    assert_eq!(head.as_slice(), &[pair("x", "3"), pair("y", "2"), pair("", "")][..]);
}

#[test]
fn find_key_gives_index() {
    let pairs = vec![pair("a", "1"), pair("b", "2")];
    assert_eq!(find_key(&pairs, b"b"), Some(1));
    assert_eq!(find_key(&pairs, b"c"), None);
    assert_eq!(find_key(&[], b"a"), None);
}

#[test]
fn read_head_keeps_every_line() {
    let lines: Vec<&[u8]> = vec![b"A: 1", b"plain", b"A: 2"];
    assert_eq!(read_head(&lines), vec![pair("A", "1"), pair("plain", ""), pair("A", "2")]);
}

#[test]
fn header_line_trims_unicode_white_space() {
    assert_eq!(read_header("\u{3000}Host\u{a0}:\u{2003}a b\u{85}".as_bytes()), pair("Host", "a b"));
}
