use serde_json::Value;
use std::cell::Cell;
use tiered_storage::admin::{
    answer_reload, chain_config_to_value, describe_node, insert_ttd, log_level_param, node_info,
    parse_log_level, set_log_level, try_set_log_level, ChainConfig, NodeData, RpcErr, RpcRequest,
};
use tiered_storage::log_filter::is_readable;
use tracing_subscriber::EnvFilter;

fn parse(text: &str) -> Value {
    serde_json::from_str(text).expect("json")
}

fn config(ttd: Option<u128>) -> ChainConfig<u64> {
    ChainConfig { terminal_total_difficulty: ttd, rest: 7 }
}

fn serialized(config: &ChainConfig<u64>) -> Result<Value, String> {
    assert_eq!(config.terminal_total_difficulty, None);
    Ok(parse(&format!(
        "{{\"chainId\": {}, \"terminalTotalDifficulty\": null}}",
        config.rest
    )))
}

fn node() -> NodeData {
    let mut node_id = [0u8; 32];
    node_id[0] = 0xab;
    node_id[1] = 0x0c;
    node_id[31] = 0xff;
    NodeData {
        enode_url: "enode://x".to_string(),
        enr_url: Ok("enr:y".to_string()),
        node_id,
        client_version: "client/v1".to_string(),
        ip: "127.0.0.1".to_string(),
        udp_port: 30303,
        tcp_port: 65535,
    }
}

fn request(text: &str) -> RpcRequest {
    match parse(text) {
        Value::Array(params) => RpcRequest { params: Some(params) },
        _ => RpcRequest { params: None },
    }
}

const ACCEPT: Option<fn(EnvFilter) -> Result<(), String>> = Some(accept);

fn accept(_filter: EnvFilter) -> Result<(), String> {
    Ok(())
}

#[test]
fn a_difficulty_of_64_bits_is_a_number() {
    let max = u64::MAX as u128;
    assert_eq!(
        chain_config_to_value(&config(Some(max)), serialized),
        Ok(parse("{\"chainId\": 7, \"terminalTotalDifficulty\": 18446744073709551615}"))
    );
    assert_eq!(
        chain_config_to_value(&config(Some(0)), serialized),
        Ok(parse("{\"chainId\": 7, \"terminalTotalDifficulty\": 0}"))
    );
}

#[test]
fn a_greater_difficulty_is_a_text() {
    let above = u64::MAX as u128 + 1;
    assert_eq!(
        chain_config_to_value(&config(Some(above)), serialized),
        Ok(parse("{\"chainId\": 7, \"terminalTotalDifficulty\": \"18446744073709551616\"}"))
    );
    assert_eq!(
        chain_config_to_value(&config(Some(58_750_000_000_000_000_000_000)), serialized),
        Ok(parse("{\"chainId\": 7, \"terminalTotalDifficulty\": \"58750000000000000000000\"}"))
    );
}

#[test]
fn no_difficulty_is_null() {
    assert_eq!(
        chain_config_to_value(&config(None), serialized),
        Ok(parse("{\"chainId\": 7, \"terminalTotalDifficulty\": null}"))
    );
    // The member is there even where the serialised form left it out.
    assert_eq!(insert_ttd(parse("{}"), None), parse("{\"terminalTotalDifficulty\": null}"));
}

#[test]
fn what_is_no_object_stays_as_it_is() {
    assert_eq!(insert_ttd(parse("[1]"), Some(5)), parse("[1]"));
    assert_eq!(insert_ttd(Value::Null, Some(5)), Value::Null);
}

#[test]
fn a_configuration_that_cannot_be_serialised_is_an_internal_error() {
    let r = chain_config_to_value(&config(None), |_| Err("broken".to_string()));
    assert_eq!(r, Err(RpcErr::Internal("broken".to_string())));
    let r = node_info(&config(None), &node(), |_| Err("broken".to_string()));
    assert_eq!(r, Err(RpcErr::Internal("broken".to_string())));
}

#[test]
fn a_node_tells_of_itself() {
    let id = format!("ab0c{}ff", "0".repeat(58));
    let expected = format!(
        "{{\"enode\": \"enode://x\", \"enr\": \"enr:y\", \"id\": \"{id}\", \
         \"name\": \"client/v1\", \"ip\": \"127.0.0.1\", \
         \"ports\": {{\"discovery\": 30303, \"listener\": 65535}}, \
         \"protocols\": {{\"eth\": {{\"chainId\": 7, \"terminalTotalDifficulty\": 5}}}}}}"
    );
    assert_eq!(node_info(&config(Some(5)), &node(), serialized), Ok(parse(&expected)));
}

#[test]
fn a_node_without_a_record_has_an_empty_url() {
    let mut data = node();
    data.enr_url = Err("unsigned".to_string());
    let told = describe_node(&data, Value::Bool(false));
    assert_eq!(told["enr"], Value::String(String::new()));
    assert_eq!(told["protocols"]["eth"], Value::Bool(false));
}

#[test]
fn a_log_level_is_installed() {
    let seen = Cell::new(false);
    let r = set_log_level(
        &request("[\"info,tiered=debug\"]"),
        Some(|filter: EnvFilter| {
            let text = filter.to_string();
            assert!(text.contains("info") && text.contains("tiered=debug"));
            seen.set(true);
            Ok(())
        }),
    );
    assert_eq!(r, Ok(Value::Bool(true)));
    assert!(seen.get());
}

#[test]
fn a_missing_log_level_is_refused() {
    let missing = Err(RpcErr::MissingParam("log level".to_string()));
    assert_eq!(set_log_level(&request("null"), ACCEPT), missing);
    let missing = Err(RpcErr::MissingParam("log level".to_string()));
    assert_eq!(set_log_level(&request("[]"), ACCEPT), missing);
}

#[test]
fn a_log_level_must_be_a_text() {
    for params in ["[1]", "[null]", "[true]", "[[\"info\"]]", "[{}]"] {
        let wrong = Err(RpcErr::WrongParam("Expected string".to_string()));
        assert_eq!(set_log_level(&request(params), ACCEPT), wrong);
    }
    assert_eq!(log_level_param(&request("[\"info\", 2]")), Ok("info"));
}

#[test]
fn a_text_that_is_no_filter_is_refused_before_the_handler_is_looked_for() {
    let none: Option<fn(EnvFilter) -> Result<(), String>> = None;
    let r = set_log_level(&request("[\"a=b=c\"]"), none);
    assert_eq!(
        r,
        Err(RpcErr::BadParams("Cannot parse a=b=c as a log directive".to_string()))
    );
    assert!(parse_log_level("").is_ok());
    assert!(parse_log_level("?!").is_err());
}

#[test]
fn without_a_handler_no_level_is_set() {
    let none: Option<fn(EnvFilter) -> Result<(), String>> = None;
    let r = set_log_level(&request("[\"info\"]"), none);
    assert_eq!(r, Err(RpcErr::Internal("Log filter handler not available".to_string())));
}

#[test]
fn a_handler_that_fails_is_an_internal_error() {
    let r = set_log_level(&request("[\"info\"]"), Some(|_: EnvFilter| Err("gone".to_string())));
    assert_eq!(r, Err(RpcErr::Internal("Failed to reload log filter: gone".to_string())));
    assert_eq!(answer_reload(Ok(())), Ok(Value::Bool(true)));
}

fn refused(text: &str) -> Option<Result<Value, RpcErr>> {
    let message = format!("Cannot parse {text} as a log directive");
    Some(Err(RpcErr::BadParams(message)))
}

fn asked(text: &str) -> Option<Result<Value, RpcErr>> {
    let req = RpcRequest { params: Some(vec![Value::String(text.to_string())]) };
    try_set_log_level(&req, ACCEPT)
}

#[test]
fn texts_that_are_cut_between_characters_are_readable() {
    assert!(is_readable(""));
    assert!(is_readable(","));
    assert!(is_readable("info"));
    assert!(is_readable(" info, debug"));
    assert!(is_readable("\u{e9}=info"));
    assert!(is_readable("\u{e9}[s{f=1}]=info"));
    assert!(is_readable(" info,\u{e9}=info"));
    assert!(is_readable(" \u{e9},a=info"));
    assert!(is_readable("info,\u{3000}info"));
    assert!(parse_log_level(" \u{e9}").is_ok());
    assert_eq!(asked(" info"), Some(Ok(Value::Bool(true))));
    assert!(try_set_log_level(&request("[]"), ACCEPT).is_some());
}

#[test]
fn texts_that_are_cut_inside_a_character_are_not_readable() {
    for text in [
        " \u{e9}=info",
        " \u{e9}[s]",
        "info,\u{3000}a=info",
        "info,,\u{3000}[s]",
        "\u{2003}a[s]=info",
        "\u{a0}[s{f}]",
        "    [{x=yabcd\u{e9}}]=info",
    ] {
        assert!(!is_readable(text));
        assert!(asked(text).is_none());
    }
}

#[test]
fn an_indented_text_that_is_cut_between_characters_is_parsed() {
    assert_eq!(asked(" a=\u{e9}"), refused(" a=\u{e9}"));
    assert_eq!(asked(" =\u{e9}"), refused(" =\u{e9}"));
    assert_eq!(asked(" \u{2192}=info"), refused(" \u{2192}=info"));
    assert_eq!(asked("    \u{e9}[b]"), Some(Ok(Value::Bool(true))));
    assert_eq!(asked(" [\u{e9}"), refused(" [\u{e9}"));
    assert_eq!(asked("  "), refused("  "));
}

#[test]
fn what_the_parser_does_not_come_to_does_not_matter() {
    // A part behind one that is refused, and a level behind a field that is refused.
    assert_eq!(asked("!, \u{e9}=info"), refused("!, \u{e9}=info"));
    let text = "    [{x=(abcd\u{e9}}]=info";
    assert_eq!(asked(text), refused(text));
}

#[test]
fn the_filter_that_is_installed_is_the_one_asked_for() {
    for (text, other) in [("warn", "info"), ("a=debug", "a=trace"), ("off", "error")] {
        let r = set_log_level(
            &request(&format!("[\"{text}\"]")),
            Some(|filter: EnvFilter| {
                assert_eq!(filter.to_string(), parse_log_level(text).expect("filter").to_string());
                assert_ne!(filter.to_string(), parse_log_level(other).expect("filter").to_string());
                Ok(())
            }),
        );
        assert_eq!(r, Ok(Value::Bool(true)));
    }
}

#[test]
fn a_request_that_is_refused_does_not_reach_the_handler() {
    for params in ["null", "[]", "[1]", "[\"a=b=c\"]"] {
        let handler = |_: EnvFilter| -> Result<(), String> { panic!("the handler was called") };
        assert!(set_log_level(&request(params), Some(handler)).is_err());
        assert!(matches!(try_set_log_level(&request(params), Some(handler)), Some(Err(_))));
    }
}
