//! Answers to administrative requests.

use crate::json::{bool_value, integer_value, json_of, null_value, object_value, text_value};
use crate::json::Json;
use crate::log_filter::{filter_of, is_log_filter, is_readable, readable, try_filter};
use crate::text::{decimal, decimal_text, hex_text, law_decimal_is_injective, lower_hex};
use serde_json::Value;
use tracing_subscriber::EnvFilter;
use vstd::prelude::*;
use vstd::string::StringExecFns;

verus! {

/// Why a request was not answered.
#[derive(Debug, PartialEq, Eq)]
pub enum RpcErr {
    MissingParam(String),
    WrongParam(String),
    BadParams(String),
    Internal(String),
}

/// A request, as far as it is read here.
pub struct RpcRequest {
    pub params: Option<Vec<Value>>,
}

/// A chain configuration: the terminal total difficulty, and all the rest of it.
#[derive(Debug)]
pub struct ChainConfig<R> {
    pub terminal_total_difficulty: Option<u128>,
    pub rest: R,
}

/// What the node knows of itself.
#[derive(Debug)]
pub struct NodeData {
    pub enode_url: String,
    /// The URL of the node record, or why there is none.
    pub enr_url: Result<String, String>,
    pub node_id: [u8; 32],
    pub client_version: String,
    pub ip: String,
    pub udp_port: u16,
    pub tcp_port: u16,
}

/// The name of the member that holds the terminal total difficulty.
pub const TTD_MEMBER: &'static str = "terminalTotalDifficulty";

/// A terminal total difficulty as JSON: a number where it fits in 64 bits, else its
/// decimals.
pub open spec fn ttd_json(ttd: Option<u128>) -> Json {
    match ttd {
        Some(v) => if v <= u64::MAX {
            Json::Integer(v as int)
        } else {
            Json::Text(decimal(v as nat))
        },
        None => Json::Null,
    }
}

/// A JSON object with the terminal total difficulty in it. Any other JSON stays as it is.
pub open spec fn with_ttd(json: Json, ttd: Option<u128>) -> Json {
    match json {
        Json::Object(members) => Json::Object(members.insert(TTD_MEMBER@, ttd_json(ttd))),
        _ => json,
    }
}

/// `cleared` is a copy of `config` without the terminal total difficulty.
pub open spec fn cleared_copy<R: Clone>(config: ChainConfig<R>, cleared: ChainConfig<R>) -> bool {
    cleared.terminal_total_difficulty is None && cloned::<R>(config.rest, cleared.rest)
}

/// `r` is a configuration as JSON, given that `outcome` came of serialising a copy of it
/// without the terminal total difficulty.
pub open spec fn config_answer(
    outcome: Result<Value, String>,
    ttd: Option<u128>,
    r: Result<Value, RpcErr>,
) -> bool {
    match outcome {
        Ok(value) => r matches Ok(answer) && json_of(answer) == with_ttd(json_of(value), ttd),
        Err(text) => r matches Err(RpcErr::Internal(message)) && message@ == text@,
    }
}

/// Puts the terminal total difficulty into a serialised configuration.
pub fn insert_ttd(value: Value, ttd: Option<u128>) -> (r: Value)
    ensures
        json_of(r) == with_ttd(json_of(value), ttd),
{
    let mut value = value;
    if let Some(members) = value.as_object_mut() {
        let ttd_value = match ttd {
            Some(v) => if v <= u64::MAX as u128 {
                integer_value(v as u64)
            } else {
                text_value(decimal_text(v))
            },
            None => null_value(),
        };
        let _ = members.insert(TTD_MEMBER.to_owned(), ttd_value);
    }
    value
}

/// Serialises a chain configuration. A 128-bit number does not fit in a JSON value, so
/// the terminal total difficulty is left out of what `to_value` gets and put in
/// afterwards.
pub fn chain_config_to_value<R: Clone, F: FnOnce(&ChainConfig<R>) -> Result<Value, String>>(
    config: &ChainConfig<R>,
    to_value: F,
) -> (r: Result<Value, RpcErr>)
    requires
        forall|cleared: ChainConfig<R>|
            cleared_copy(*config, cleared) ==> #[trigger] call_requires(to_value, (&cleared,)),
    ensures
        exists|cleared: ChainConfig<R>, outcome: Result<Value, String>|
            {
                &&& cleared_copy(*config, cleared)
                &&& #[trigger] call_ensures(to_value, (&cleared,), outcome)
                &&& config_answer(outcome, config.terminal_total_difficulty, r)
            },
{
    let ttd = config.terminal_total_difficulty;
    let cleared = ChainConfig { terminal_total_difficulty: None, rest: config.rest.clone() };
    assert(cleared_copy(*config, cleared));
    match to_value(&cleared) {
        Ok(value) => Ok(insert_ttd(value, ttd)),
        Err(text) => Err(RpcErr::Internal(text)),
    }
}

/// What is told of a node: its addresses and identity, and the configuration of the
/// chain it follows.
pub open spec fn node_json(node: NodeData, chain: Json) -> Json {
    Json::Object(
        map![
            "enode"@ => Json::Text(node.enode_url@),
            "enr"@ => Json::Text(
                match node.enr_url {
                    Ok(enr) => enr@,
                    Err(_) => Seq::<char>::empty(),
                },
            ),
            "id"@ => Json::Text(lower_hex(node.node_id@)),
            "name"@ => Json::Text(node.client_version@),
            "ip"@ => Json::Text(node.ip@),
            "ports"@ => Json::Object(
                map![
                    "discovery"@ => Json::Integer(node.udp_port as int),
                    "listener"@ => Json::Integer(node.tcp_port as int),
                ],
            ),
            "protocols"@ => Json::Object(map!["eth"@ => chain]),
        ],
    )
}

/// Tells of a node, given its chain configuration as JSON.
pub fn describe_node(node_data: &NodeData, chain_config_value: Value) -> (r: Value)
    ensures
        json_of(r) == node_json(*node_data, json_of(chain_config_value)),
{
    let enr_url = match &node_data.enr_url {
        Ok(enr) => enr.clone(),
        Err(_) => String::new(),
    };
    let mut protocols = serde_json::Map::<String, Value>::new();
    let _ = protocols.insert("eth".to_owned(), chain_config_value);
    let mut ports = serde_json::Map::<String, Value>::new();
    let _ = ports.insert("discovery".to_owned(), integer_value(node_data.udp_port as u64));
    let _ = ports.insert("listener".to_owned(), integer_value(node_data.tcp_port as u64));
    let mut node = serde_json::Map::<String, Value>::new();
    let _ = node.insert("enode".to_owned(), text_value(node_data.enode_url.clone()));
    let _ = node.insert("enr".to_owned(), text_value(enr_url));
    let _ = node.insert("id".to_owned(), text_value(hex_text(node_data.node_id.as_slice())));
    let _ = node.insert("name".to_owned(), text_value(node_data.client_version.clone()));
    let _ = node.insert("ip".to_owned(), text_value(node_data.ip.clone()));
    let _ = node.insert("ports".to_owned(), object_value(ports));
    let _ = node.insert("protocols".to_owned(), object_value(protocols));
    object_value(node)
}

/// Tells of the node and of the chain it follows.
pub fn node_info<R: Clone, F: FnOnce(&ChainConfig<R>) -> Result<Value, String>>(
    chain_config: &ChainConfig<R>,
    node_data: &NodeData,
    to_value: F,
) -> (r: Result<Value, RpcErr>)
    requires
        forall|cleared: ChainConfig<R>|
            cleared_copy(*chain_config, cleared) ==> #[trigger] call_requires(
                to_value,
                (&cleared,),
            ),
    ensures
        exists|cleared: ChainConfig<R>, outcome: Result<Value, String>|
            {
                &&& cleared_copy(*chain_config, cleared)
                &&& #[trigger] call_ensures(to_value, (&cleared,), outcome)
                &&& match outcome {
                    Ok(value) => r matches Ok(answer) && json_of(answer) == node_json(
                        *node_data,
                        with_ttd(json_of(value), chain_config.terminal_total_difficulty),
                    ),
                    Err(text) => r matches Err(RpcErr::Internal(message)) && message@ == text@,
                }
            },
{
    let chain_config_value = chain_config_to_value(chain_config, to_value)?;
    Ok(describe_node(node_data, chain_config_value))
}

/// Whether the terminal total difficulty is absent, and otherwise how great it is, can
/// be told from the JSON.
pub proof fn law_ttd_is_not_lost(a: Option<u128>, b: Option<u128>)
    requires
        ttd_json(a) == ttd_json(b),
    ensures
        a == b,
{
    if a is Some && b is Some && a->0 > u64::MAX && b->0 > u64::MAX {
        law_decimal_is_injective(a->0 as nat, b->0 as nat);
    }
}

/// Putting the terminal total difficulty in changes no other member.
pub proof fn law_other_members_stay(json: Json, ttd: Option<u128>, name: Seq<char>)
    requires
        json is Object,
        name != TTD_MEMBER@,
    ensures
        with_ttd(json, ttd) is Object,
        with_ttd(json, ttd)->Object_0.contains_key(name) == json->Object_0.contains_key(name),
        with_ttd(json, ttd)->Object_0[name] == json->Object_0[name],
{
}

/// The first parameter of a request, if it has one.
pub open spec fn first_param(req: RpcRequest) -> Option<Json> {
    match req.params {
        Some(params) => if params@.len() > 0 {
            Some(json_of(params@[0]))
        } else {
            None
        },
        None => None,
    }
}

/// The log level that a request asks for, if its first parameter is a text.
pub open spec fn asked_level(req: RpcRequest) -> Option<Seq<char>> {
    match first_param(req) {
        Some(Json::Text(level)) => Some(level),
        _ => None,
    }
}

/// Reads the log level out of a request.
pub fn log_level_param(req: &RpcRequest) -> (r: Result<&str, RpcErr>)
    ensures
        match first_param(*req) {
            Some(Json::Text(level)) => r matches Ok(text) && text@ == level,
            Some(_) => r matches Err(RpcErr::WrongParam(message)) && message@
                == "Expected string"@,
            None => r matches Err(RpcErr::MissingParam(message)) && message@ == "log level"@,
        },
{
    match &req.params {
        Some(params) => if params.len() > 0 {
            match params[0].as_str() {
                Some(level) => Ok(level),
                None => Err(RpcErr::WrongParam("Expected string".to_owned())),
            }
        } else {
            Err(RpcErr::MissingParam("log level".to_owned()))
        },
        None => Err(RpcErr::MissingParam("log level".to_owned())),
    }
}

/// Parses a log level.
pub fn parse_log_level(log_level: &str) -> (r: Result<EnvFilter, RpcErr>)
    requires
        readable(log_level@),
    ensures
        is_log_filter(log_level@) ==> (r matches Ok(filter) && filter == filter_of(log_level@)),
        !is_log_filter(log_level@) ==> (r matches Err(RpcErr::BadParams(message)) && message@
            == "Cannot parse "@ + log_level@ + " as a log directive"@),
{
    match try_filter(log_level) {
        Ok(filter) => Ok(filter),
        Err(_) => {
            let mut message = "Cannot parse ".to_owned();
            message.append(log_level);
            message.append(" as a log directive");
            Err(RpcErr::BadParams(message))
        },
    }
}

/// The answer that follows from what came of installing a filter.
pub open spec fn reload_answer(outcome: Result<(), String>, r: Result<Value, RpcErr>) -> bool {
    match outcome {
        Ok(_) => r matches Ok(answer) && json_of(answer) == Json::Bool(true),
        Err(text) => r matches Err(RpcErr::Internal(message)) && message@
            == "Failed to reload log filter: "@ + text@,
    }
}

/// Answers what came of installing a filter.
pub fn answer_reload(outcome: Result<(), String>) -> (r: Result<Value, RpcErr>)
    ensures
        reload_answer(outcome, r),
{
    match outcome {
        Ok(_) => Ok(bool_value(true)),
        Err(text) => {
            let mut message = "Failed to reload log filter: ".to_owned();
            message.append(text.as_str());
            Err(RpcErr::Internal(message))
        },
    }
}

/// `r` answers a request for a log level that could be read: a text that is no filter is
/// refused first, then a missing handler; else the filter that the text stands for has
/// been handed to the handler, whose outcome is the answer.
pub open spec fn level_answer<F: FnOnce(EnvFilter) -> Result<(), String>>(
    level: Seq<char>,
    log_filter_handler: Option<F>,
    r: Result<Value, RpcErr>,
) -> bool {
    if !is_log_filter(level) {
        r matches Err(RpcErr::BadParams(message)) && message@ == "Cannot parse "@ + level
            + " as a log directive"@
    } else {
        match log_filter_handler {
            Some(reload) => exists|outcome: Result<(), String>|
                {
                    &&& #[trigger] call_ensures(reload, (filter_of(level),), outcome)
                    &&& reload_answer(outcome, r)
                },
            None => r matches Err(RpcErr::Internal(message)) && message@
                == "Log filter handler not available"@,
        }
    }
}

/// `r` answers a request for a log level.
pub open spec fn request_answer<F: FnOnce(EnvFilter) -> Result<(), String>>(
    req: RpcRequest,
    log_filter_handler: Option<F>,
    r: Result<Value, RpcErr>,
) -> bool {
    match first_param(req) {
        Some(Json::Text(level)) => level_answer(level, log_filter_handler, r),
        Some(_) => r matches Err(RpcErr::WrongParam(message)) && message@ == "Expected string"@,
        None => r matches Err(RpcErr::MissingParam(message)) && message@ == "log level"@,
    }
}

/// Sets the log level that a request asks for. The handler installs a filter, or says in
/// words why it could not. It need only be ready for the filter that is asked for: a
/// request that is refused does not reach it.
pub fn set_log_level<F: FnOnce(EnvFilter) -> Result<(), String>>(
    req: &RpcRequest,
    log_filter_handler: Option<F>,
) -> (r: Result<Value, RpcErr>)
    requires
        asked_level(*req) matches Some(level) ==> readable(level),
        log_filter_handler matches Some(reload) ==> (asked_level(*req) matches Some(level) ==> (
        is_log_filter(level) ==> call_requires(reload, (filter_of(level),)))),
    ensures
        request_answer(*req, log_filter_handler, r),
{
    let log_level = log_level_param(req)?;
    let filter = parse_log_level(log_level)?;
    match log_filter_handler {
        Some(reload) => answer_reload(reload(filter)),
        None => Err(RpcErr::Internal("Log filter handler not available".to_owned())),
    }
}

/// As [`set_log_level`], for any request: nothing is done, and there is no answer, where
/// the asked level cannot be handed to the parser.
pub fn try_set_log_level<F: FnOnce(EnvFilter) -> Result<(), String>>(
    req: &RpcRequest,
    log_filter_handler: Option<F>,
) -> (r: Option<Result<Value, RpcErr>>)
    requires
        log_filter_handler matches Some(reload) ==> (asked_level(*req) matches Some(level)
            ==> forall|text: &str, filter: EnvFilter|
            text@ == level && #[trigger] call_ensures(parse_log_level, (text,), Ok(filter))
                ==> call_requires(reload, (filter,))),
    ensures
        match r {
            Some(answer) => (asked_level(*req) matches Some(level) ==> readable(level))
                && request_answer(*req, log_filter_handler, answer),
            None => asked_level(*req) matches Some(level) && !readable(level),
        },
{
    if let Ok(log_level) = log_level_param(req) {
        if !is_readable(log_level) {
            return None;
        }
        if let Err(refusal) = parse_log_level(log_level) {
            return Some(Err(refusal));
        }
    }
    Some(set_log_level(req, log_filter_handler))
}

} // verus!
