use lib::parse_url;

#[test]
fn default_ports_and_path() {
    let p = parse_url("http://example.com").unwrap();
    assert!(!p.is_https);
    assert_eq!(p.host, "example.com");
    assert_eq!(p.port, 80);
    assert_eq!(p.path, "/");
    let p = parse_url("https://example.com?q=1").unwrap();
    assert_eq!(p.port, 443);
    assert_eq!(p.host, "example.com?q=1");
    assert_eq!(p.path, "/");
}

#[test]
fn unsupported_scheme() {
    assert_eq!(parse_url("ftp://x/").err().unwrap(), "unsupported scheme in: ftp://x/");
    assert_eq!(parse_url("HTTP://x/").err().unwrap(), "unsupported scheme in: HTTP://x/");
}

#[test]
fn bad_ports() {
    assert_eq!(parse_url("http://h:abc/").err().unwrap(), "bad port: abc");
    assert_eq!(parse_url("http://h:70000/").err().unwrap(), "bad port: 70000");
    assert_eq!(parse_url("http://h:/").err().unwrap(), "bad port: ");
}

#[test]
fn empty_hostname() {
    assert_eq!(parse_url("https:///path").err().unwrap(), "empty hostname");
    assert_eq!(parse_url("http://:8080/").err().unwrap(), "empty hostname");
}

#[test]
fn port_after_last_colon_and_plus_sign() {
    let p = parse_url("http://a:b:81/x").unwrap();
    assert_eq!(p.host, "a:b");
    assert_eq!(p.port, 81);
    let p = parse_url("http://h:+8080").unwrap();
    assert_eq!(p.port, 8080);
    assert_eq!(p.path, "/");
}

#[test]
fn path_keeps_query_and_colons() {
    let p = parse_url("https://h/a:b?c=d/e").unwrap();
    assert_eq!(p.host, "h");
    assert_eq!(p.port, 443);
    assert_eq!(p.path, "/a:b?c=d/e");
}

#[test]
fn parsed_urls_have_host_and_rooted_path() {
    for u in ["http://h", "https://h:1/x", "http://h/?"] {
        let p = parse_url(u).unwrap();
        assert!(!p.host.is_empty());
        assert!(p.path.starts_with('/'));
    }
}

#[test]
fn parsed_url_written_out_parses_back() {
    for url in ["https://example.com/a?b=1", "http://h:8080/x/y", "http://a:b:81/", "https://host?q"] {
        let p = parse_url(url).unwrap();
        let text = format!("{}://{}:{}{}", if p.is_https { "https" } else { "http" }, p.host, p.port, p.path);
        let q = parse_url(&text).unwrap();
        assert_eq!((q.is_https, q.host, q.port, q.path), (p.is_https, p.host, p.port, p.path));
    }
}
