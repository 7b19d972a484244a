use filestore::mapping::{parse_config, Mapping};
use filestore::server::{
    config_file_path, data_dir, file_store_path, handle_request, home, retrieve, retrieve_status,
    route, Action, Route,
};

#[test]
fn greeting_is_exact() {
    assert_eq!(home(), "Hello, world!");
}

#[test]
fn greeting_ignores_mapping_state() {
    let empty = Mapping::new();
    let full = parse_config(&br#"{"a":"b"}"#.to_vec()).expect("well-formed config");
    for m in [&empty, &full] {
        match handle_request(m, &b"/data".to_vec(), &b"/".to_vec()) {
            Action::Greet => {}
            _ => panic!("root route must greet"),
        }
    }
}

#[test]
fn route_parses_root_and_retrieval() {
    match route(&b"/".to_vec()) {
        Route::Home => {}
        _ => panic!("/ is the greeting route"),
    }
    match route(&b"/dr-who/s01e01.mkv".to_vec()) {
        Route::Retrieve(id) => assert_eq!(id, b"s01e01.mkv".to_vec()),
        _ => panic!("retrieval route not recognized"),
    }
}

#[test]
fn route_rejects_everything_else() {
    for t in [
        &b""[..],
        b"//",
        b"/other",
        b"/dr-who",
        b"/dr-who/",
        b"/dr-who/a/b",
        b"/dr-Who/a",
        b"/dr-who2/a",
    ] {
        match route(&t.to_vec()) {
            Route::Unknown => {}
            _ => panic!("target must not match a route"),
        }
    }
}

#[test]
fn known_id_resolves_to_file_store_path() {
    let m = parse_config(&br#"{"a.mkv": "movies/a.mkv"}"#.to_vec()).expect("well-formed config");
    let p = retrieve(&m, &b"/data".to_vec(), &b"a.mkv".to_vec());
    assert_eq!(p, Some(b"/data/file-store/movies/a.mkv".to_vec()));
}

#[test]
fn unknown_id_gets_nothing() {
    let m = parse_config(&br#"{"a.mkv": "movies/a.mkv"}"#.to_vec()).expect("well-formed config");
    assert_eq!(retrieve(&m, &b"/data".to_vec(), &b"b.mkv".to_vec()), None);
    match handle_request(&m, &b"/data".to_vec(), &b"/dr-who/b.mkv".to_vec()) {
        Action::NotFound => {}
        _ => panic!("unknown id must be a 404"),
    }
}

#[test]
fn handle_request_serves_known_id() {
    let m = parse_config(&br#"{"a.mkv": "movies/a.mkv"}"#.to_vec()).expect("well-formed config");
    match handle_request(&m, &b"/data".to_vec(), &b"/dr-who/a.mkv".to_vec()) {
        Action::Serve(p) => assert_eq!(p, b"/data/file-store/movies/a.mkv".to_vec()),
        _ => panic!("known id must be served"),
    }
}

#[test]
fn repeated_requests_get_identical_answers() {
    let m = parse_config(&br#"{"a.mkv": "movies/a.mkv"}"#.to_vec()).expect("well-formed config");
    let dir = b"/data".to_vec();
    let first = retrieve(&m, &dir, &b"a.mkv".to_vec());
    let second = retrieve(&m, &dir, &b"a.mkv".to_vec());
    assert_eq!(first, second);
    let gone_first = retrieve(&m, &dir, &b"x".to_vec());
    let gone_second = retrieve(&m, &dir, &b"x".to_vec());
    assert_eq!(gone_first, gone_second);
}

#[test]
fn missing_file_collapses_to_not_found_status() {
    // An id the table resolves, whose file then fails to open, gets the same
    // 404 as an id the table does not know.
    assert_eq!(retrieve_status(true, false), 404);
    assert_eq!(retrieve_status(false, false), 404);
    assert_eq!(retrieve_status(true, true), 200);
}

#[test]
fn paths_are_joined_under_the_data_dir() {
    assert_eq!(config_file_path(&b"/data".to_vec()), b"/data/config.json".to_vec());
    assert_eq!(
        file_store_path(&b"/data".to_vec(), &b"movies/a.mkv".to_vec()),
        b"/data/file-store/movies/a.mkv".to_vec()
    );
}

#[test]
fn environment_override_wins_over_default() {
    assert_eq!(data_dir(Some(b"/custom".to_vec()), b"/default".to_vec()), b"/custom".to_vec());
    assert_eq!(data_dir(None, b"/default".to_vec()), b"/default".to_vec());
}
