use forwarder::messages::WsResponse;
use forwarder::protocol::{encode_response, parse_request};

#[test]
fn parse_plain_sub() {
    let req = parse_request("{\"method\":\"sub\",\"resources\":[\"x\",\"y\"]}").unwrap();
    assert_eq!(req.method, "sub");
    assert_eq!(req.resources, Some(vec![String::from("x"), String::from("y")]));
}

#[test]
fn parse_whitespace_and_key_order() {
    let req = parse_request(" { \"resources\" : [ \"a\" , \"b\" ] , \"method\" : \"unsub\" } ")
        .unwrap();
    assert_eq!(req.method, "unsub");
    assert_eq!(req.resources, Some(vec![String::from("a"), String::from("b")]));
}

#[test]
fn parse_method_only() {
    let req = parse_request("{\"method\":\"keepalive\"}").unwrap();
    assert_eq!(req.method, "keepalive");
    assert_eq!(req.resources, None);
}

#[test]
fn parse_empty_resource_list() {
    let req = parse_request("{\"method\":\"sub\",\"resources\":[]}").unwrap();
    assert_eq!(req.method, "sub");
    assert_eq!(req.resources, Some(Vec::new()));
}

#[test]
fn parse_rejects_malformed() {
    assert!(parse_request("").is_none());
    assert!(parse_request("hello").is_none());
    assert!(parse_request("{}").is_none());
    assert!(parse_request("{\"method\":42}").is_none());
    assert!(parse_request("{\"method\":\"sub\"").is_none());
    assert!(parse_request("{\"method\":\"sub\",\"resources\":\"x\"}").is_none());
    assert!(parse_request("{\"method\":\"sub\",\"resources\":[1]}").is_none());
    assert!(parse_request("{\"other\":\"sub\"}").is_none());
    assert!(parse_request("{\"method\":\"sub\"} trailing").is_none());
    assert!(parse_request("{\"method\":\"a\\\"b\"}").is_none());
    assert!(parse_request("{\"method\":\"sub\",}").is_none());
}

#[test]
fn parse_agrees_with_reference_json_reader() {
    let text = "{\"method\":\"sub\",\"resources\":[\"alpha\",\"beta\"]}";
    let mine = parse_request(text).unwrap();
    let value: serde_json::Value = serde_json::from_str(text).unwrap();
    assert_eq!(mine.method, value.get("method").unwrap().as_str().unwrap());
    let arr = value.get("resources").unwrap().as_array().unwrap();
    let theirs: Vec<String> = arr
        .iter()
        .map(|v| v.as_str().unwrap().to_string())
        .collect();
    assert_eq!(mine.resources, Some(theirs));
}

#[test]
fn encode_exact_frames() {
    let resp = WsResponse {
        status: String::from("ok"),
        message: String::from("Subscribed successfully"),
    };
    assert_eq!(
        encode_response(&resp),
        "{\"status\":\"ok\",\"message\":\"Subscribed successfully\"}"
    );
    let resp = WsResponse {
        status: String::from("error"),
        message: String::from("Unknown method"),
    };
    assert_eq!(
        encode_response(&resp),
        "{\"status\":\"error\",\"message\":\"Unknown method\"}"
    );
}

#[test]
fn encoded_frame_is_valid_json() {
    let resp = WsResponse {
        status: String::from("ok"),
        message: String::from("Keepalive received"),
    };
    let value: serde_json::Value = serde_json::from_str(&encode_response(&resp)).unwrap();
    assert_eq!(value.get("status").unwrap().as_str().unwrap(), "ok");
    assert_eq!(
        value.get("message").unwrap().as_str().unwrap(),
        "Keepalive received"
    );
}
