use reversi_engine::board::Player;
use reversi_engine::web::{json_field, move_request, new_game_params, query_field, split_request};
use reversi_engine::api_logic::MoveInput;
use reversi_engine::web::{http_response, move_input_from, request_target, route, Route};

#[test]
fn split_request_at_blank_line() {
    assert_eq!(
        split_request("POST /api/move HTTP/1.1\r\nHost: x\r\n\r\n{\"a\":1}"),
        ("POST /api/move HTTP/1.1\r\nHost: x".to_string(), "{\"a\":1}".to_string())
    );
    assert_eq!(
        split_request("GET / HTTP/1.1"),
        ("GET / HTTP/1.1".to_string(), String::new())
    );
}

#[test]
fn query_field_reads_the_first_match() {
    assert_eq!(query_field("/api/new?depth=5&human=White", "human"), Some("White".to_string()));
    assert_eq!(query_field("/api/new?depth=5&human=White", "depth"), Some("5".to_string()));
    assert_eq!(query_field("/api/new?depth=5&depth=6", "depth"), Some("5".to_string()));
    assert_eq!(query_field("/api/new?flag&depth=3", "depth"), Some("3".to_string()));
    assert_eq!(query_field("/api/new", "depth"), None);
    assert_eq!(query_field("/api/new?human=", "human"), Some(String::new()));
    assert_eq!(query_field("/api/new?humans=1", "human"), None);
}

#[test]
fn json_field_reads_strings_and_numbers() {
    let body = "{\"black\": \"123\", \"depth\" :  7, \"move\":\"d\\\"3\", \"bad\": x}";
    assert_eq!(json_field(body, "black"), Some("123".to_string()));
    assert_eq!(json_field(body, "depth"), Some("7".to_string()));
    assert_eq!(json_field(body, "move"), Some("d\"3".to_string()));
    assert_eq!(json_field(body, "bad"), None);
    assert_eq!(json_field(body, "missing"), None);
    assert_eq!(json_field("{\"open\":\"abc", "open"), None);
    assert_eq!(json_field("{\"k\" 5}", "k"), None);
}

#[test]
fn move_request_reads_a_body() {
    let body = "{\"black\":\"34628173824\",\"white\":\"68853694464\",\"currentPlayer\":\"Black\",\"humanPlayer\":\"White\",\"move\":\"d3\",\"depth\":3}";
    let input = move_request(body).expect("valid request");
    assert_eq!(input.black, 34628173824);
    assert_eq!(input.white, 68853694464);
    assert_eq!(input.current_player, Player::Black);
    assert_eq!(input.human_player, Player::White);
    assert_eq!(input.move_coord, "d3");
    assert_eq!(input.depth, 3);

    let minimal = move_request("{\"black\":1,\"white\":\"2\",\"currentPlayer\":\"White\",\"move\":\"a1\"}")
        .expect("valid request");
    assert_eq!(minimal.human_player, Player::Black);
    assert_eq!(minimal.depth, 7);
}

#[test]
fn move_request_names_the_first_problem() {
    let err = |body: &str| move_request(body).err().expect("rejected");
    assert_eq!(err("{}"), "Missing or invalid black bitboard");
    assert_eq!(err("{\"black\":\"x\"}"), "Missing or invalid black bitboard");
    assert_eq!(err("{\"black\":1}"), "Missing or invalid white bitboard");
    assert_eq!(
        err("{\"black\":1,\"white\":2,\"currentPlayer\":\"Red\"}"),
        "Missing or invalid current player"
    );
    assert_eq!(
        err("{\"black\":1,\"white\":2,\"currentPlayer\":\"Black\"}"),
        "Missing move"
    );
}

#[test]
fn new_game_params_defaults() {
    assert_eq!(new_game_params("/api/new"), (7, Player::Black));
    assert_eq!(new_game_params("/api/new?depth=3&human=White"), (3, Player::White));
    assert_eq!(new_game_params("/api/new?depth=x&human=white"), (7, Player::Black));
    assert_eq!(new_game_params("/api/new?depth=99999999999"), (7, Player::Black));
}


#[test]
fn request_target_reads_method_and_path() {
    assert_eq!(
        request_target("GET /api/new?depth=3 HTTP/1.1\r\nHost: x"),
        Some(("GET".to_string(), "/api/new?depth=3".to_string()))
    );
    assert_eq!(request_target("POST"), Some(("POST".to_string(), "/".to_string())));
    assert_eq!(request_target("\r\nHost: x"), Some((String::new(), "/".to_string())));
    assert_eq!(request_target(""), None);
}

#[test]
fn route_sends_requests_where_they_belong() {
    assert_eq!(route("GET", "/"), Route::Index);
    assert_eq!(route("GET", "/app.js"), Route::Script);
    assert_eq!(route("GET", "/style.css"), Route::Style);
    assert_eq!(route("GET", "/api/new?human=White"), Route::NewGame);
    assert_eq!(route("POST", "/api/move"), Route::Move);
    assert_eq!(route("POST", "/api/analyze"), Route::Analyze);
    assert_eq!(route("POST", "/api/start"), Route::Start);
    assert_eq!(route("GET", "/api/move"), Route::NotFound);
    assert_eq!(route("PUT", "/"), Route::NotFound);
}

#[test]
fn http_response_counts_body_bytes() {
    assert_eq!(
        http_response(404, "text/plain", "Not found"),
        "HTTP/1.1 404 Not Found\r\nContent-Type: text/plain\r\nContent-Length: 9\r\nConnection: close\r\n\r\nNot found"
    );
    assert_eq!(
        http_response(200, "text/plain", "h\u{e9}"),
        "HTTP/1.1 200 OK\r\nContent-Type: text/plain\r\nContent-Length: 3\r\nConnection: close\r\n\r\nh\u{e9}"
    );
    assert!(http_response(400, "text/plain", "Bad request").starts_with("HTTP/1.1 400 Bad Request\r\n"));
}

#[test]
fn move_input_from_checks_fields_and_fills_defaults() {
    assert_eq!(
        move_input_from("x", "1", "Black", None, "d3".to_string(), None).err(),
        Some("Missing or invalid black bitboard".to_string())
    );
    assert_eq!(
        move_input_from("1", "-1", "Black", None, "d3".to_string(), None).err(),
        Some("Missing or invalid white bitboard".to_string())
    );
    assert_eq!(
        move_input_from("1", "2", "black", None, "d3".to_string(), None).err(),
        Some("Missing or invalid current player".to_string())
    );
    let input: MoveInput =
        move_input_from("1", "2", "White", Some("nobody".to_string()), "c1".to_string(), None)
            .expect("valid");
    assert_eq!((input.black, input.white), (1, 2));
    assert_eq!(input.current_player, Player::White);
    assert_eq!(input.human_player, Player::Black);
    assert_eq!(input.move_coord, "c1");
    assert_eq!(input.depth, 7);
    let input = move_input_from("+5", "0", "Black", Some("White".to_string()), "a1".to_string(), Some(2))
        .expect("valid");
    assert_eq!((input.black, input.human_player, input.depth), (5, Player::White, 2));
}
