use stack_lang::http::{authenticate, find_route, parse_request_line, read_request, routes_of, server_options, text_bytes, user_table, find_password, refusal_bytes};
use stack_lang::machine::{Executor, Mode};
use stack_lang::numeral::Numeral;
use stack_lang::value::Type;

fn numeral(x: f64) -> Numeral {
    Numeral { bits: x.to_bits(), text: x.to_string() }
}

fn parse(s: String) -> Option<Numeral> {
    s.parse::<f64>().ok().map(numeral)
}

fn host(command: String, mut e: Executor) -> Executor {
    if command == "read-binary" {
        e.pop_stack();
        e.push(Type::Binary(vec![1, 2]));
    }
    e
}

fn s(t: &str) -> Type {
    Type::String(t.to_string())
}

fn route(key: Vec<Type>, code: &str) -> Type {
    Type::List(vec![Type::List(key), s(code)])
}

#[test]
fn request_line_parts() {
    let (m, p) = parse_request_line("GET /index?x=1 HTTP/1.1", " ");
    assert_eq!((m.as_str(), p.as_str()), ("GET", "/index?x=1"));
    let (p, q) = parse_request_line("/index?x=1", "?");
    assert_eq!((p.as_str(), q.as_str()), ("/index", "x=1"));
    let (a, b) = parse_request_line("", " ");
    assert_eq!((a.as_str(), b.as_str()), ("", ""));
    let (a, b) = parse_request_line("  POST  ", " ");
    assert_eq!((a.as_str(), b.as_str()), ("POST", ""));
}

#[test]
fn request_key_and_query_body() {
    let (key, body) = read_request("GET /hello?name=bob%21 HTTP/1.1\r\nHost: x\r\n\r\n");
    assert_eq!(key, "GET /hello");
    assert_eq!(body, "name=bob!");
}

#[test]
fn request_body_lines_after_headers() {
    let (key, body) = read_request("POST /form HTTP/1.1\r\nHost: x\r\n\r\na%20b\r\nc\r\n\r\nignored\r\n");
    assert_eq!(key, "POST /form");
    assert_eq!(body, "a bc");
}

#[test]
fn request_body_drops_trailing_nul() {
    let (_, body) = read_request("POST / HTTP/1.1\r\n\r\nxy\0\0\0");
    assert_eq!(body, "xy");
}

#[test]
fn request_bad_percent_text_is_empty() {
    let (_, body) = read_request("GET /?%FF HTTP/1.1\r\n\r\n");
    assert_eq!(body, "");
}

#[test]
fn empty_request() {
    let (key, body) = read_request("");
    assert_eq!(key, " ");
    assert_eq!(body, "");
}

#[test]
fn routes_from_descriptions() {
    let code = Type::List(vec![
        route(vec![s("GET /")], "(text/plain) (hi)"),
        route(vec![s("GET /admin"), s("auth"), s("[[(u) (p)]]")], "(text/plain) (secret)"),
    ]);
    let routes = routes_of(&code).unwrap();
    assert_eq!(routes.len(), 2);
    assert_eq!(routes[0].key, "GET /");
    assert!(!routes[0].auth);
    assert!(routes[1].auth);
    assert_eq!(routes[1].auth_data, "[[(u) (p)]]");
    assert_eq!(find_route(&routes, "GET /admin"), Some(1));
    assert_eq!(find_route(&routes, "GET /none"), None);
}

#[test]
fn later_route_wins() {
    let code = Type::List(vec![route(vec![s("GET /")], "(a)"), route(vec![s("GET /")], "(b)")]);
    let routes = routes_of(&code).unwrap();
    assert_eq!(find_route(&routes, "GET /"), Some(1));
}

#[test]
fn malformed_route_is_refused() {
    let code = Type::List(vec![Type::List(vec![Type::List(vec![s("GET /")])])]);
    assert!(routes_of(&code).is_none());
    let code = Type::List(vec![Type::List(vec![])]);
    assert!(routes_of(&code).is_none());
}

#[test]
fn user_table_rows() {
    let v = Type::List(vec![Type::List(vec![s("u"), s("p")]), Type::List(vec![s("v"), s("q")])]);
    let db = user_table(&v).unwrap();
    assert_eq!(db.len(), 2);
    assert_eq!(find_password(&db, "v"), Some("q".to_string()));
    assert_eq!(find_password(&db, "w"), None);
    let bad = Type::List(vec![Type::List(vec![s("u")])]);
    assert!(user_table(&bad).is_none());
}

#[test]
fn basic_credentials() {
    let db = vec![("user".to_string(), "pass".to_string())];
    let req = "GET / HTTP/1.1\r\nAuthorization: Basic dXNlcjpwYXNz\r\n\r\n";
    let (ok, (u, p)) = authenticate(req, &db);
    assert!(ok);
    assert_eq!((u.as_str(), p.as_str()), ("user", "pass"));
    let wrong = "GET / HTTP/1.1\r\nAuthorization: Basic dXNlcjp4\r\n\r\n";
    let (ok, (u, p)) = authenticate(wrong, &db);
    assert!(!ok);
    assert_eq!((u.as_str(), p.as_str()), ("user", "x"));
    let none = "GET / HTTP/1.1\r\n\r\n";
    let (ok, (u, p)) = authenticate(none, &db);
    assert!(!ok);
    assert_eq!((u.as_str(), p.as_str()), ("", ""));
}

#[test]
fn credentials_of_unknown_user_are_skipped() {
    let db = vec![("user".to_string(), "pass".to_string())];
    // "who:x", then "user:pass"
    let req = "Authorization: Basic d2hvOng=\r\nAuthorization: Basic dXNlcjpwYXNz\r\n";
    let (ok, (u, _)) = authenticate(req, &db);
    assert!(ok);
    assert_eq!(u, "user");
}

#[test]
fn options_of_object_and_text() {
    let (name, address, size) = server_options(&s("0.0.0.0:9000"), &parse);
    assert_eq!((name.as_str(), address.as_str(), size), ("app", "0.0.0.0:9000", 8192));
    let obj = Type::Object(
        "site".to_string(),
        vec![("buffer-size".to_string(), Type::Number(numeral(1024.0)))],
    );
    let (name, address, size) = server_options(&obj, &parse);
    assert_eq!((name.as_str(), address.as_str(), size), ("site", "127.0.0.1:8000", 1024));
}

fn routes() -> Vec<stack_lang::http::Route> {
    let code = Type::List(vec![
        route(vec![s("GET /")], "(text/plain) (hi)"),
        route(vec![s("POST /echo")], "(text/plain) swap"),
        route(vec![s("GET /bin")], "(image/png) (file) read-binary"),
        route(vec![s("GET /admin"), s("auth"), s("[[(user) (pass)]]")], "pop pop (text/plain) (secret)"),
    ]);
    routes_of(&code).unwrap()
}

fn text(bytes: &[u8]) -> String {
    String::from_utf8(bytes.to_vec()).unwrap()
}

#[test]
fn serves_route() {
    let mut e = Executor::new(Mode::Script);
    let w = e.handle_request(b"GET / HTTP/1.1\r\n\r\n", &routes(), &parse, &host, 1000).unwrap();
    assert_eq!(w.len(), 1);
    assert_eq!(text(&w[0]), "HTTP/1.1 200 OK\r\nContent-Type: text/plain; charset=utf-8\r\n\r\nhi");
    assert_eq!(e.stack.len(), 1);
    assert_eq!(e.stack[0].get_string(), "");
}

#[test]
fn echoes_body() {
    let mut e = Executor::new(Mode::Script);
    let w = e.handle_request(b"POST /echo HTTP/1.1\r\n\r\nhello\r\n", &routes(), &parse, &host, 1000).unwrap();
    assert_eq!(text(&w[0]), "HTTP/1.1 200 OK\r\nContent-Type: text/plain; charset=utf-8\r\n\r\nhello");
}

#[test]
fn missing_route_default_page() {
    let mut e = Executor::new(Mode::Script);
    e.push(s("text/html"));
    let w = e.handle_request(b"GET /nothing HTTP/1.1\r\n\r\n", &routes(), &parse, &host, 1000).unwrap();
    assert_eq!(w.len(), 1);
    assert_eq!(text(&w[0]), "HTTP/1.1 404 NOT FOUND\r\nContent-Type: text/html; charset=utf-8\r\n\r\n404 - Not found");
    assert!(e.stack.is_empty());
}

#[test]
fn missing_route_custom_page() {
    let code = Type::List(vec![route(vec![s("not-found")], "(text/plain) (no page)")]);
    let rs = routes_of(&code).unwrap();
    let mut e = Executor::new(Mode::Script);
    let w = e.handle_request(b"GET /x HTTP/1.1\r\n\r\n", &rs, &parse, &host, 1000).unwrap();
    assert_eq!(text(&w[0]), "HTTP/1.1 404 NOT FOUND\r\nContent-Type: text/plain; charset=utf-8\r\n\r\nno page");
}

#[test]
fn binary_content_is_sent_twice() {
    let mut e = Executor::new(Mode::Script);
    let w = e.handle_request(b"GET /bin HTTP/1.1\r\n\r\n", &routes(), &parse, &host, 1000).unwrap();
    assert_eq!(w.len(), 2);
    let mut first = b"HTTP/1.1 200 OK\r\nContent-Type: image/png;\r\n\r\n".to_vec();
    first.extend_from_slice(&[1, 2]);
    assert_eq!(w[0], first);
    assert_eq!(text(&w[1]), "HTTP/1.1 200 OK\r\nContent-Type: ; charset=utf-8\r\n\r\nBinary<2>");
}

#[test]
fn refuses_without_credentials() {
    let mut e = Executor::new(Mode::Script);
    let w = e.handle_request(b"GET /admin HTTP/1.1\r\n\r\n", &routes(), &parse, &host, 1000).unwrap();
    assert_eq!(w, vec![refusal_bytes()]);
    assert!(text(&w[0]).starts_with("HTTP/1.1 401 Unauthorized\r\n"));
}

#[test]
fn accepts_credentials() {
    let mut e = Executor::new(Mode::Script);
    let req = b"GET /admin HTTP/1.1\r\nAuthorization: Basic dXNlcjpwYXNz\r\n\r\n";
    let w = e.handle_request(req, &routes(), &parse, &host, 1000).unwrap();
    assert_eq!(text(&w[0]), "HTTP/1.1 200 OK\r\nContent-Type: text/plain; charset=utf-8\r\n\r\nsecret");
}

#[test]
fn malformed_user_table_stops() {
    let code = Type::List(vec![route(vec![s("GET /"), s("auth"), s("[[(user)]]")], "(x)")]);
    let rs = routes_of(&code).unwrap();
    let mut e = Executor::new(Mode::Script);
    assert!(e.handle_request(b"GET / HTTP/1.1\r\n\r\n", &rs, &parse, &host, 1000).is_none());
}

#[test]
fn utf8_bytes_of_text() {
    assert_eq!(text_bytes("aé"), vec![0x61, 0xC3, 0xA9]);
}
