use rymo::error::Error;
use rymo::http::request::Request;
use rymo::http::response::{IntoResponse, Response};
use rymo::server::{asset_response, static_handler, Dispatch, Rymo};

type Handler = fn(Request, Response) -> Result<Response, String>;

fn hello(_req: Request, mut res: Response) -> Result<Response, String> {
    res.body = b"hello".to_vec();
    Ok(res)
}

fn other(_req: Request, mut res: Response) -> Result<Response, String> {
    res.body = b"other".to_vec();
    Ok(res)
}

fn failing(_req: Request, _res: Response) -> Result<Response, String> {
    Err("boom".to_string())
}

fn parse(bytes: &[u8]) -> Request {
    Request::parse_from_bytes(bytes.to_vec()).unwrap()
}

#[test]
fn routing_invokes_registered_handler() {
    let mut app: Rymo<Handler> = Rymo::new("4000");
    app.get("/foo", hello);
    let req = parse(b"GET /foo HTTP/1.1\r\n\r\n");
    match app.plan(&req).unwrap() {
        Dispatch::Route { content_length } => assert_eq!(content_length, None),
        _ => panic!("expected a route dispatch"),
    }
    let bytes = app.finish_route(req).unwrap();
    assert_eq!(bytes, b"HTTP/1.1 200 OK\r\n\r\nhello".to_vec());
}

#[test]
fn routing_wrong_method_is_method_not_allowed() {
    let mut app: Rymo<Handler> = Rymo::new("4000");
    app.get("/foo", hello);
    let req = parse(b"POST /foo HTTP/1.1\r\n\r\n");
    let bytes = app.finish_route(req).unwrap();
    assert_eq!(bytes, b"HTTP/1.1 405 Method Not Allowed\r\n\r\n".to_vec());
}

#[test]
fn routing_unknown_path_is_not_found() {
    let mut app: Rymo<Handler> = Rymo::new("4000");
    app.get("/foo", hello);
    let req = parse(b"GET /bar HTTP/1.1\r\n\r\n");
    match app.plan(&req).unwrap() {
        Dispatch::Deny { content_length } => assert_eq!(content_length, None),
        _ => panic!("expected a deny dispatch"),
    }
    let bytes = app.finish_route(req).unwrap();
    assert_eq!(bytes, b"HTTP/1.1 404 Not Found\r\n\r\n".to_vec());
}

#[test]
fn routing_first_registration_wins() {
    let mut app: Rymo<Handler> = Rymo::new("4000");
    app.get("/foo", hello);
    app.get("/foo", other);
    let req = parse(b"GET /foo HTTP/1.1\r\n\r\n");
    let bytes = app.finish_route(req).unwrap();
    assert_eq!(bytes, b"HTTP/1.1 200 OK\r\n\r\nhello".to_vec());
}

#[test]
fn routing_method_lookup_is_case_insensitive() {
    let mut app: Rymo<Handler> = Rymo::new("4000");
    app.post("/submit", hello);
    let req = parse(b"PoSt /submit HTTP/1.1\r\n\r\n");
    let bytes = app.finish_route(req).unwrap();
    assert_eq!(bytes, b"HTTP/1.1 200 OK\r\n\r\nhello".to_vec());
}

#[test]
fn routing_handler_error_is_internal_server_error() {
    let mut app: Rymo<Handler> = Rymo::new("4000");
    app.get("/fail", failing);
    let req = parse(b"GET /fail HTTP/1.1\r\n\r\n");
    match app.finish_route(req) {
        Err(Error::InternalServerError(msg)) => assert_eq!(msg, "boom"),
        _ => panic!("expected an internal server error"),
    }
}

#[test]
fn routing_plan_carries_content_length() {
    let mut app: Rymo<Handler> = Rymo::new("4000");
    app.post("/", hello);
    let req = parse(b"POST / HTTP/1.1\r\ncontent-length: 5\r\n\r\n");
    match app.plan(&req).unwrap() {
        Dispatch::Route { content_length } => assert_eq!(content_length, Some(5)),
        _ => panic!("expected a route dispatch"),
    }
}

#[test]
fn routing_plan_rejects_malformed_content_length() {
    let mut app: Rymo<Handler> = Rymo::new("4000");
    app.post("/", hello);
    let req = parse(b"POST / HTTP/1.1\r\ncontent-length: five\r\n\r\n");
    assert!(matches!(app.plan(&req), Err(Error::BadRequest(_))));
}

#[test]
fn static_serving_resolves_file_and_mime() {
    let mut app: Rymo<Handler> = Rymo::new("4000");
    app.assets("/static", "D", static_handler);
    let req = parse(b"GET /static/app.css HTTP/1.1\r\n\r\n");
    match app.plan(&req).unwrap() {
        Dispatch::Asset { file, mime } => {
            assert_eq!(file, "D/app.css");
            assert_eq!(mime, "text/css; charset=utf-8");
        },
        _ => panic!("expected an asset dispatch"),
    }
}

#[test]
fn static_serving_directory_resolves_index_html() {
    let mut app: Rymo<Handler> = Rymo::new("4000");
    app.assets("/static", "D", static_handler);
    let req = parse(b"GET /static/ HTTP/1.1\r\n\r\n");
    match app.plan(&req).unwrap() {
        Dispatch::Asset { file, mime } => {
            assert_eq!(file, "D/index.html");
            assert_eq!(mime, "text/html; charset=utf-8");
        },
        _ => panic!("expected an asset dispatch"),
    }
}

#[test]
fn static_serving_unknown_extension_is_plain_text() {
    let mut app: Rymo<Handler> = Rymo::new("4000");
    app.assets("/static", "D", static_handler);
    let req = parse(b"GET /static/notes.txt HTTP/1.1\r\n\r\n");
    match app.plan(&req).unwrap() {
        Dispatch::Asset { file, mime } => {
            assert_eq!(file, "D/notes.txt");
            assert_eq!(mime, "text/plain");
        },
        _ => panic!("expected an asset dispatch"),
    }
}

#[test]
fn static_serving_first_mount_wins() {
    let mut app: Rymo<Handler> = Rymo::new("4000");
    app.assets("/static", "first", static_handler);
    app.assets("/static", "second", static_handler);
    let req = parse(b"GET /static/a.css HTTP/1.1\r\n\r\n");
    match app.plan(&req).unwrap() {
        Dispatch::Asset { file, .. } => assert_eq!(file, "first/a.css"),
        _ => panic!("expected an asset dispatch"),
    }
}

#[test]
fn static_handler_returns_response_unchanged() {
    let req = parse(b"GET /static/ HTTP/1.1\r\n\r\n");
    let mut res = Response::default();
    res.body = b"payload".to_vec();
    let out = static_handler(req, res).unwrap();
    assert_eq!(out.body, b"payload".to_vec());
}

#[test]
fn asset_response_sets_content_type_and_body() {
    let res = Response::default();
    let out = asset_response(res, "text/css; charset=utf-8", b"body".to_vec());
    assert_eq!(out.headers.get("Content-Type").unwrap(), "text/css; charset=utf-8");
    assert_eq!(out.body, b"body".to_vec());
    let bytes = out.into_response();
    assert_eq!(
        bytes,
        b"HTTP/1.1 200 OK\r\nContent-Type: text/css; charset=utf-8\r\n\r\nbody".to_vec()
    );
}

#[test]
fn static_serving_root_mount() {
    let mut app: Rymo<Handler> = Rymo::new("4000");
    app.assets("/", "www", static_handler);
    let req = parse(b"GET /index.html HTTP/1.1\r\n\r\n");
    match app.plan(&req).unwrap() {
        Dispatch::Asset { file, mime } => {
            assert_eq!(file, "www/index.html");
            assert_eq!(mime, "text/html; charset=utf-8");
        },
        _ => panic!("expected an asset dispatch"),
    }
}

#[test]
fn routing_path_without_slash_falls_through() {
    let mut app: Rymo<Handler> = Rymo::new("4000");
    app.get("/foo", hello);
    let req = parse(b"GET a.css HTTP/1.1\r\n\r\n");
    assert!(matches!(app.plan(&req).unwrap(), Dispatch::Deny { .. }));
    let bytes = app.finish_route(req).unwrap();
    assert_eq!(bytes, b"HTTP/1.1 404 Not Found\r\n\r\n".to_vec());
}

#[test]
fn static_serving_trailing_dot_is_plain_text() {
    let mut app: Rymo<Handler> = Rymo::new("4000");
    app.assets("/static", "D", static_handler);
    let req = parse(b"GET /static/name. HTTP/1.1\r\n\r\n");
    match app.plan(&req).unwrap() {
        Dispatch::Asset { file, mime } => {
            assert_eq!(file, "D/name.");
            assert_eq!(mime, "text/plain");
        },
        _ => panic!("expected an asset dispatch"),
    }
}

#[test]
fn register_stores_methods_lowercased() {
    let mut app: Rymo<Handler> = Rymo::new("4000");
    app.register("/x", "GET", hello);
    let req = parse(b"GET /x HTTP/1.1\r\n\r\n");
    let bytes = app.finish_route(req).unwrap();
    assert_eq!(bytes, b"HTTP/1.1 200 OK\r\n\r\nhello".to_vec());
}

#[test]
fn server_keeps_its_port() {
    let app: Rymo<Handler> = Rymo::new("8080");
    assert_eq!(app.port, "8080");
}
