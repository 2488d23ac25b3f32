use rymo::error::Error;
use rymo::http::request::Request;
use rymo::http::response::Response;
use rymo::middleware::Middleware;
use rymo::route::Route;
use rymo::table::StrTable;
use rymo::text::{lower_string, parse_decimal, split_clean_lines, str_eq};
use rymo::utils::find_directory;

#[test]
fn find_directory_strips_matched_prefix() {
    assert_eq!(find_directory("/static", "/static/app.css"), Some("/app.css"));
    assert_eq!(find_directory("/static", "/static/"), Some("/"));
    assert_eq!(find_directory("/static", "/static"), Some(""));
}

#[test]
fn find_directory_rejects_non_prefix() {
    assert_eq!(find_directory("/assets", "/static/app.css"), None);
    assert_eq!(find_directory("", "/static"), None);
    assert_eq!(find_directory("/toolong", "/x"), None);
}

#[test]
fn parse_decimal_values() {
    assert_eq!(parse_decimal("0"), Some(0));
    assert_eq!(parse_decimal("5"), Some(5));
    assert_eq!(parse_decimal("12345"), Some(12345));
    assert_eq!(parse_decimal(""), None);
    assert_eq!(parse_decimal("+5"), None);
    assert_eq!(parse_decimal("12a"), None);
    assert_eq!(parse_decimal("99999999999999999999999999"), None);
}

#[test]
fn lower_string_lowers_ascii_only() {
    assert_eq!(lower_string("GeT"), "get");
    assert_eq!(lower_string("AB-C9"), "ab-c9");
    assert_eq!(lower_string("\u{c4}x"), "\u{c4}x");
}

#[test]
fn str_eq_compares_contents() {
    assert!(str_eq("abc", "abc"));
    assert!(!str_eq("abc", "abd"));
    assert!(!str_eq("abc", "ab"));
    assert!(str_eq("", ""));
}

#[test]
fn split_clean_lines_strips_and_drops_empties() {
    let lines = split_clean_lines(&b"a\r\nbb\r\n\r\n".to_vec());
    assert_eq!(lines, vec![b"a".to_vec(), b"bb".to_vec()]);
    let bare = split_clean_lines(&b"x\ny".to_vec());
    assert_eq!(bare, vec![b"x".to_vec(), b"y".to_vec()]);
    assert!(split_clean_lines(&b"\r\n\r\n".to_vec()).is_empty());
}

#[test]
fn str_table_first_insert_wins() {
    let mut t = StrTable::new();
    t.insert_if_absent("k".to_string(), "1".to_string());
    t.insert_if_absent("k".to_string(), "2".to_string());
    assert_eq!(t.get("k").unwrap(), "1");
    assert_eq!(t.len(), 1);
}

#[test]
fn str_table_insert_replaces() {
    let mut t = StrTable::new();
    t.insert("k".to_string(), "1".to_string());
    t.insert("k".to_string(), "2".to_string());
    assert_eq!(t.get("k").unwrap(), "2");
    assert_eq!(t.len(), 1);
    assert!(t.get("missing").is_none());
    assert!(t.contains("k"));
}

struct PassThrough;

impl Middleware for PassThrough {
    fn next(req: Request, res: Response) -> Result<(Request, Response), Error> {
        Ok((req, res))
    }
}

fn echo(req: Request, mut res: Response) -> Result<(Request, Response), String> {
    res.body = req.method.as_bytes().to_vec();
    Ok((req, res))
}

#[test]
fn route_handle_runs_its_handler() {
    type H = fn(Request, Response) -> Result<(Request, Response), String>;
    let route: Route<H, PassThrough> = Route::new(echo, Vec::new());
    let mut req = Request::default();
    req.method = "GET".to_string();
    let (_req, res) = route.handle(req, Response::default()).unwrap();
    assert_eq!(res.body, b"GET".to_vec());
}

#[test]
fn middleware_passes_exchange_through() {
    let mut req = Request::default();
    req.method = "GET".to_string();
    let (req2, _res) = PassThrough::next(req, Response::default()).unwrap();
    assert_eq!(req2.method, "GET");
}
