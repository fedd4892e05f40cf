use glasscannon::server::{
    bad_request_response, handle_request_bytes, preload_plan, resolve_with_disk, Config, LogLevel,
    Resolution, ResourceTable,
};
use glasscannon::ServerError;

fn test_config() -> Config {
    Config::new(
        15000,
        "./res/".to_string(),
        vec!["/index.html".to_string()],
        vec![("html".to_string(), "text/html".to_string())],
        LogLevel::Info,
    )
}

#[test]
fn preloaded_index_is_served() {
    let mut table = ResourceTable::new();
    table.insert("/index.html".to_string(), Some(b"<h1>home</h1>".to_vec()));
    let config = test_config();
    let input = "GET / HTTP/1.1\r\nHost: x\r\n\r\n";
    match handle_request_bytes(input, &table, &config) {
        Resolution::Done(resp) => {
            assert_eq!(resp.status_code(), 200);
            assert_eq!(resp.body_bytes(), &b"<h1>home</h1>".to_vec());
            assert_eq!(resp.header_value("Content-Type"), Some("text/html".to_string()));
            assert_eq!(resp.header_value("Content-Length"), Some("13".to_string()));
            assert_eq!(resp.header_value("server"), Some("GlassCannon".to_string()));
        },
        Resolution::NeedDisk { .. } => panic!("preloaded content must not consult the disk"),
    }
}

#[test]
fn missing_resource_gets_builtin_not_found_page() {
    let table = ResourceTable::new();
    let config = test_config();
    let input = "GET /missing.txt HTTP/1.1\r\n\r\n";
    match handle_request_bytes(input, &table, &config) {
        Resolution::Done(_) => panic!("an absent key must be tried on disk"),
        Resolution::NeedDisk { file_path, lookup_path } => {
            assert_eq!(file_path, "./res/missing.txt");
            assert_eq!(lookup_path, "/missing.txt");
            let resp = resolve_with_disk(&lookup_path, None, &table, &config);
            assert_eq!(resp.status_code(), 404);
            let expected = "<!DOCTYPE html><html lang=\"en\" dir=\"ltr\"><head><meta charset=\"utf-8\"><title>404 Not Found</title></head><body><h1>404 Not Found</h1></body></html>";
            assert_eq!(resp.body_bytes(), &expected.as_bytes().to_vec());
        },
    }
}

#[test]
fn truncated_request_gets_bad_request() {
    let table = ResourceTable::new();
    let config = test_config();
    let input = "GET / HTTP/1.1\r\nHost: x\r\n";
    match handle_request_bytes(input, &table, &config) {
        Resolution::Done(resp) => {
            assert_eq!(resp.status_code(), 400);
            let expected = "<!DOCTYPE html><html lang=\"en\" dir=\"ltr\"><head><meta charset=\"utf-8\"><title>400 Bad Request</title></head><body><h1>400 Bad Request</h1></body></html>";
            assert_eq!(resp.body_bytes(), &expected.as_bytes().to_vec());
            assert_eq!(resp.header_value("Content-Type"), Some("text/html".to_string()));
        },
        Resolution::NeedDisk { .. } => panic!("a failed parse never reaches the resolver"),
    }
}

#[test]
fn unknown_method_gets_bad_request() {
    let table = ResourceTable::new();
    let config = test_config();
    match handle_request_bytes("FOO / HTTP/1.1\r\n\r\n", &table, &config) {
        Resolution::Done(resp) => assert_eq!(resp.status_code(), 400),
        Resolution::NeedDisk { .. } => panic!("a failed parse never reaches the resolver"),
    }
}

#[test]
fn operator_error_page_overrides_builtin() {
    let mut table = ResourceTable::new();
    table.insert("/400.html".to_string(), Some(b"my bad".to_vec()));
    let resp = bad_request_response(&table);
    assert_eq!(resp.status_code(), 400);
    assert_eq!(resp.body_bytes(), &b"my bad".to_vec());
}

#[test]
fn preload_wins_over_disk() {
    // The same path is both preloaded and (hypothetically) on disk: the
    // resolver answers from memory without asking for the file.
    let mut table = ResourceTable::new();
    table.insert("/page.html".to_string(), Some(b"from memory".to_vec()));
    let config = test_config();
    match handle_request_bytes("GET /page.html HTTP/1.1\r\n\r\n", &table, &config) {
        Resolution::Done(resp) => {
            assert_eq!(resp.status_code(), 200);
            assert_eq!(resp.body_bytes(), &b"from memory".to_vec());
        },
        Resolution::NeedDisk { .. } => panic!("preloaded content must not consult the disk"),
    }
}

#[test]
fn disk_only_marker_goes_to_disk() {
    // An entry with no preloaded content means: exists on disk, read it.
    let mut table = ResourceTable::new();
    table.insert("/big.bin".to_string(), None);
    let config = test_config();
    match handle_request_bytes("GET /big.bin HTTP/1.1\r\n\r\n", &table, &config) {
        Resolution::Done(_) => panic!("a disk-only entry must be read on demand"),
        Resolution::NeedDisk { file_path, .. } => {
            assert_eq!(file_path, "./res/big.bin");
        },
    }
}

#[test]
fn disk_content_is_served_with_mime() {
    let table = ResourceTable::new();
    let config = test_config();
    let resp = resolve_with_disk("/page.html", Some(b"from disk".to_vec()), &table, &config);
    assert_eq!(resp.status_code(), 200);
    assert_eq!(resp.body_bytes(), &b"from disk".to_vec());
    assert_eq!(resp.header_value("Content-Type"), Some("text/html".to_string()));
    // An unmapped or absent extension falls back to the default type.
    let resp2 = resolve_with_disk("/archive.zip", Some(b"pk".to_vec()), &table, &config);
    assert_eq!(
        resp2.header_value("Content-Type"),
        Some("application/octet-stream".to_string())
    );
    let resp3 = resolve_with_disk("/README", Some(b"hi".to_vec()), &table, &config);
    assert_eq!(
        resp3.header_value("Content-Type"),
        Some("application/octet-stream".to_string())
    );
}

#[test]
fn extension_lookup_is_case_insensitive() {
    let table = ResourceTable::new();
    let config = test_config();
    let resp = resolve_with_disk("/PAGE.HTML", Some(b"x".to_vec()), &table, &config);
    assert_eq!(resp.header_value("Content-Type"), Some("text/html".to_string()));
}

#[test]
fn root_resolves_like_index() {
    let mut table = ResourceTable::new();
    table.insert("/index.html".to_string(), Some(b"home".to_vec()));
    let config = test_config();
    let a = handle_request_bytes("GET / HTTP/1.1\r\n\r\n", &table, &config);
    let b = handle_request_bytes("GET /index.html HTTP/1.1\r\n\r\n", &table, &config);
    match (a, b) {
        (Resolution::Done(ra), Resolution::Done(rb)) => {
            assert_eq!(ra.emit(), rb.emit());
        },
        _ => panic!("both forms must resolve from the preload table"),
    }
}

#[test]
fn preload_plan_dedups_and_marks() {
    let config = test_config();
    let paths = vec![
        "./res/index.html".to_string(),
        "./res/a.txt".to_string(),
        "./res/index.html".to_string(),
    ];
    let plan = preload_plan(&paths, &config);
    assert_eq!(plan.len(), 2);
    assert_eq!(plan[0], ("/index.html".to_string(), true));
    assert_eq!(plan[1], ("/a.txt".to_string(), false));
}

#[test]
fn server_error_messages() {
    assert_eq!(ServerError::IoFailure.message(), "transport or filesystem failure");
    assert_eq!(ServerError::ParseFailure.message(), "malformed input");
    assert_eq!(ServerError::ConfigFailure.message(), "unparseable configuration");
}

#[test]
fn opaque_scheme_target_gets_bad_request() {
    let table = ResourceTable::new();
    let config = test_config();
    match handle_request_bytes("GET mailto: HTTP/1.1\r\n\r\n", &table, &config) {
        Resolution::Done(resp) => assert_eq!(resp.status_code(), 400),
        Resolution::NeedDisk { .. } => panic!("a rejected target never reaches the resolver"),
    }
}
