//! What the answers to administrative requests hold, member by member.

use crate::admin::{answer_reload, chain_config_to_value, describe_node, insert_ttd};
use crate::admin::{log_level_param, node_info, parse_log_level, set_log_level, try_set_log_level};
use crate::admin::asked_level;
use crate::admin::{ChainConfig, NodeData, RpcErr, RpcRequest};
use crate::json::{json_of, Json};
use crate::log_filter::{parsed_filter, readable};
use crate::text::{law_decimal_is_read_back, law_hex_digits, lower_hex};
use serde_json::Value;
use tracing_subscriber::EnvFilter;
use vstd::prelude::*;

verus! {

/// The names of the members of what is told of a node are all different.
proof fn lemma_member_names()
    ensures
        "enode"@ != "enr"@,
        "enode"@ != "id"@,
        "enode"@ != "name"@,
        "enode"@ != "ip"@,
        "enode"@ != "ports"@,
        "enode"@ != "protocols"@,
        "enr"@ != "id"@,
        "enr"@ != "name"@,
        "enr"@ != "ip"@,
        "enr"@ != "ports"@,
        "enr"@ != "protocols"@,
        "id"@ != "name"@,
        "id"@ != "ip"@,
        "id"@ != "ports"@,
        "id"@ != "protocols"@,
        "name"@ != "ip"@,
        "name"@ != "ports"@,
        "name"@ != "protocols"@,
        "ip"@ != "ports"@,
        "ip"@ != "protocols"@,
        "ports"@ != "protocols"@,
        "discovery"@ != "listener"@,
{
    reveal_strlit("enode");
    reveal_strlit("enr");
    reveal_strlit("id");
    reveal_strlit("name");
    reveal_strlit("ip");
    reveal_strlit("ports");
    reveal_strlit("protocols");
    reveal_strlit("discovery");
    reveal_strlit("listener");
    assert("enode"@.len() == 5 && "ports"@.len() == 5 && "enr"@.len() == 3);
    assert("id"@.len() == 2 && "ip"@.len() == 2 && "name"@.len() == 4 && "protocols"@.len() == 9);
    assert("enode"@[0] == 'e' && "ports"@[0] == 'p' && "id"@[1] == 'd' && "ip"@[1] == 'p');
    assert("discovery"@.len() == 9 && "listener"@.len() == 8);
}

/// A serialised configuration that is an object gets the terminal total difficulty as the
/// member `terminalTotalDifficulty`: null without one, the number itself where 64 bits hold
/// it, and else a text of decimal digits, without a leading zero, that reads as the number.
/// No other member changes, and neither does what is no object.
pub proof fn law_ttd_is_told(value: Value, ttd: Option<u128>, r: Value)
    requires
        call_ensures(insert_ttd, (value, ttd), r),
    ensures
        json_of(value) matches Json::Object(before) ==> (json_of(r) matches Json::Object(after) && {
            &&& after.dom() == before.dom().insert("terminalTotalDifficulty"@)
            &&& forall|name: Seq<char>|
                name != "terminalTotalDifficulty"@ && before.contains_key(name)
                    ==> #[trigger] after[name] == before[name]
            &&& ttd is None ==> after["terminalTotalDifficulty"@] == Json::Null
            &&& ttd matches Some(v) ==> v <= 0xffff_ffff_ffff_ffff
                ==> after["terminalTotalDifficulty"@] == Json::Integer(v as int)
            &&& ttd matches Some(v) ==> v > 0xffff_ffff_ffff_ffff ==> (
            after["terminalTotalDifficulty"@] matches Json::Text(digits) && {
                &&& digits.fold_left(0int, |n: int, c: char| 10 * n + (c as u32 - '0' as u32)) == v
                &&& digits[0] != '0'
                &&& forall|i: int| 0 <= i < digits.len() ==> '0' <= #[trigger] digits[i] <= '9'
            })
        }),
        !(json_of(value) is Object) ==> json_of(r) == json_of(value),
{
    if let Some(v) = ttd {
        law_decimal_is_read_back(v as nat);
    }
    if let Json::Object(before) = json_of(value) {
        let after = json_of(r)->Object_0;
        assert(after.dom() =~= before.dom().insert("terminalTotalDifficulty"@));
    }
}

/// Serialising a configuration hands on a copy of it without the terminal total difficulty,
/// and what comes of that, with the difficulty put in, is the answer. A failure is an
/// internal error with its text.
pub proof fn law_config_is_serialised_without_ttd<
    R: Clone,
    F: FnOnce(&ChainConfig<R>) -> Result<Value, String>,
>(config: &ChainConfig<R>, to_value: F, r: Result<Value, RpcErr>)
    requires
        call_ensures(chain_config_to_value::<R, F>, (config, to_value), r),
    ensures
        exists|cleared: ChainConfig<R>, outcome: Result<Value, String>|
            {
                &&& #[trigger] call_ensures(to_value, (&cleared,), outcome)
                &&& cleared.terminal_total_difficulty is None
                &&& cloned::<R>(config.rest, cleared.rest)
                &&& match outcome {
                    Ok(value) => r matches Ok(answer) && match json_of(value) {
                        Json::Object(before) => json_of(answer) matches Json::Object(after) && {
                            &&& after.contains_key("terminalTotalDifficulty"@)
                            &&& config.terminal_total_difficulty is None
                                ==> after["terminalTotalDifficulty"@] == Json::Null
                            &&& config.terminal_total_difficulty matches Some(v) ==> v
                                <= 0xffff_ffff_ffff_ffff ==> after["terminalTotalDifficulty"@]
                                == Json::Integer(v as int)
                            &&& config.terminal_total_difficulty matches Some(v) ==> v
                                > 0xffff_ffff_ffff_ffff ==> (
                            after["terminalTotalDifficulty"@] matches Json::Text(digits)
                                && digits.fold_left(
                                0int,
                                |n: int, c: char| 10 * n + (c as u32 - '0' as u32),
                            ) == v)
                            &&& forall|name: Seq<char>|
                                name != "terminalTotalDifficulty"@ ==> #[trigger] after.contains_key(
                                    name,
                                ) == before.contains_key(name)
                            &&& forall|name: Seq<char>|
                                name != "terminalTotalDifficulty"@ && before.contains_key(name)
                                    ==> #[trigger] after[name] == before[name]
                        },
                        other => json_of(answer) == other,
                    },
                    Err(text) => r matches Err(RpcErr::Internal(message)) && message@ == text@,
                }
            },
{
    if let Some(v) = config.terminal_total_difficulty {
        law_decimal_is_read_back(v as nat);
    }
}

/// What is told of a node is an object of seven members. Each text is the field of that
/// name; the record is the empty text where there is none, and the identity has two
/// hexadecimal digits for each byte. The ports are the two numbers, whatever they are, and
/// the one protocol has the configuration of the chain.
pub proof fn law_node_is_told(node: &NodeData, chain: Value, r: Value)
    requires
        call_ensures(describe_node, (node, chain), r),
    ensures
        json_of(r) matches Json::Object(told) && {
            &&& told.dom() == set![
                "enode"@,
                "enr"@,
                "id"@,
                "name"@,
                "ip"@,
                "ports"@,
                "protocols"@,
            ]
            &&& told["enode"@] == Json::Text(node.enode_url@)
            &&& node.enr_url matches Ok(enr) ==> told["enr"@] == Json::Text(enr@)
            &&& node.enr_url is Err ==> told["enr"@] == Json::Text(Seq::empty())
            &&& told["id"@] matches Json::Text(id) && {
                &&& id.len() == 64
                &&& forall|i: int|
                    #![trigger node.node_id@[i]]
                    0 <= i < 32 ==> {
                        &&& id[2 * i] == "0123456789abcdef"@[node.node_id@[i] as int / 16]
                        &&& id[2 * i + 1] == "0123456789abcdef"@[node.node_id@[i] as int % 16]
                    }
            }
            &&& told["name"@] == Json::Text(node.client_version@)
            &&& told["ip"@] == Json::Text(node.ip@)
            &&& told["ports"@] matches Json::Object(ports) && {
                &&& ports.dom() == set!["discovery"@, "listener"@]
                &&& ports["discovery"@] == Json::Integer(node.udp_port as int)
                &&& ports["listener"@] == Json::Integer(node.tcp_port as int)
            }
            &&& told["protocols"@] matches Json::Object(protocols) && {
                &&& protocols.dom() == set!["eth"@]
                &&& protocols["eth"@] == json_of(chain)
            }
        },
{
    lemma_member_names();
    law_hex_digits(node.node_id@);
    let told = json_of(r)->Object_0;
    assert(told.dom() =~= set![
        "enode"@,
        "enr"@,
        "id"@,
        "name"@,
        "ip"@,
        "ports"@,
        "protocols"@,
    ]);
    let ports = told["ports"@]->Object_0;
    assert(ports.dom() =~= set!["discovery"@, "listener"@]);
    let protocols = told["protocols"@]->Object_0;
    assert(protocols.dom() =~= set!["eth"@]);
}

/// The node is told of with the configuration that serialising gave, the terminal total
/// difficulty in it; a configuration that cannot be serialised is an internal error.
pub proof fn law_node_info_is_told<
    R: Clone,
    F: FnOnce(&ChainConfig<R>) -> Result<Value, String>,
>(config: &ChainConfig<R>, node: &NodeData, to_value: F, r: Result<Value, RpcErr>)
    requires
        call_ensures(node_info::<R, F>, (config, node, to_value), r),
    ensures
        exists|cleared: ChainConfig<R>, outcome: Result<Value, String>|
            {
                &&& #[trigger] call_ensures(to_value, (&cleared,), outcome)
                &&& cleared.terminal_total_difficulty is None
                &&& cloned::<R>(config.rest, cleared.rest)
                &&& match outcome {
                    Ok(value) => r matches Ok(answer) && (json_of(answer) matches Json::Object(told)
                        && {
                        &&& told["enode"@] == Json::Text(node.enode_url@)
                        &&& node.enr_url matches Ok(enr) ==> told["enr"@] == Json::Text(enr@)
                        &&& node.enr_url is Err ==> told["enr"@] == Json::Text(Seq::empty())
                        &&& told["id"@] == Json::Text(lower_hex(node.node_id@))
                        &&& told["name"@] == Json::Text(node.client_version@)
                        &&& told["ip"@] == Json::Text(node.ip@)
                        &&& told["ports"@] matches Json::Object(ports) && ports["discovery"@]
                            == Json::Integer(node.udp_port as int) && ports["listener"@]
                            == Json::Integer(node.tcp_port as int)
                        &&& told["protocols"@] matches Json::Object(protocols) && match json_of(
                            value,
                        ) {
                            Json::Object(before) => protocols["eth"@] matches Json::Object(after)
                                && {
                                &&& config.terminal_total_difficulty is None
                                    ==> after["terminalTotalDifficulty"@] == Json::Null
                                &&& config.terminal_total_difficulty matches Some(v) ==> v
                                    <= 0xffff_ffff_ffff_ffff ==> after["terminalTotalDifficulty"@]
                                    == Json::Integer(v as int)
                                &&& config.terminal_total_difficulty matches Some(v) ==> v
                                    > 0xffff_ffff_ffff_ffff ==> (
                                after["terminalTotalDifficulty"@] matches Json::Text(digits)
                                    && digits.fold_left(
                                    0int,
                                    |n: int, c: char| 10 * n + (c as u32 - '0' as u32),
                                ) == v)
                                &&& forall|name: Seq<char>|
                                    name != "terminalTotalDifficulty"@ && before.contains_key(name)
                                        ==> #[trigger] after[name] == before[name]
                            },
                            other => protocols["eth"@] == other,
                        }
                    }),
                    Err(text) => r matches Err(RpcErr::Internal(message)) && message@ == text@,
                }
            },
{
    lemma_member_names();
    if let Some(v) = config.terminal_total_difficulty {
        law_decimal_is_read_back(v as nat);
    }
}

/// The log level of a request is its first parameter, which must be there and must be a
/// text. What follows it does not matter.
pub proof fn law_level_is_the_first_parameter(req: &RpcRequest, r: Result<&str, RpcErr>)
    requires
        call_ensures(log_level_param, (req,), r),
    ensures
        match req.params {
            Some(params) => if params@.len() == 0 {
                r matches Err(RpcErr::MissingParam(message)) && message@ == "log level"@
            } else {
                match json_of(params@[0]) {
                    Json::Text(level) => r matches Ok(text) && text@ == level,
                    _ => r matches Err(RpcErr::WrongParam(message)) && message@
                        == "Expected string"@,
                }
            },
            None => r matches Err(RpcErr::MissingParam(message)) && message@ == "log level"@,
        },
        req.params is None ==> asked_level(*req) is None,
        req.params matches Some(params) ==> (params@.len() == 0 ==> asked_level(*req) is None),
        req.params matches Some(params) ==> (params@.len() > 0 ==> match json_of(params@[0]) {
            Json::Text(level) => asked_level(*req) == Some(level),
            _ => asked_level(*req) is None,
        }),
{
}

/// A log level is parsed into the filter that its text stands for, or refused with a
/// message that quotes it.
pub proof fn law_level_is_parsed(text: &str, r: Result<EnvFilter, RpcErr>)
    requires
        call_ensures(parse_log_level, (text,), r),
    ensures
        match parsed_filter(text@) {
            Some(filter) => r == Ok::<EnvFilter, RpcErr>(filter),
            None => r matches Err(RpcErr::BadParams(message)) && message@ == "Cannot parse "@
                + text@ + " as a log directive"@,
        },
{
}

/// What came of installing a filter is answered with true, or with an internal error that
/// tells why it failed.
pub proof fn law_outcome_is_answered(outcome: Result<(), String>, r: Result<Value, RpcErr>)
    requires
        call_ensures(answer_reload, (outcome,), r),
    ensures
        outcome is Ok <==> r is Ok,
        r matches Ok(answer) ==> json_of(answer) == Json::Bool(true),
        outcome matches Err(text) ==> (r matches Err(RpcErr::Internal(message)) && message@
            == "Failed to reload log filter: "@ + text@),
{
}

/// A log level that can be parsed is handed to the handler, as the filter that its text
/// stands for, and the answer tells what the handler made of it: true exactly when it
/// succeeded. With a handler that can only fail there is never a good answer.
pub proof fn law_level_reaches_the_handler<F: FnOnce(EnvFilter) -> Result<(), String>>(
    req: &RpcRequest,
    reload: F,
    r: Result<Value, RpcErr>,
    level: Seq<char>,
    filter: EnvFilter,
)
    requires
        call_ensures(set_log_level::<F>, (req, Some(reload)), r),
        req.params matches Some(params) && params@.len() > 0 && json_of(params@[0]) == Json::Text(
            level,
        ),
        parsed_filter(level) == Some(filter),
    ensures
        exists|outcome: Result<(), String>|
            {
                &&& #[trigger] call_ensures(reload, (filter,), outcome)
                &&& outcome is Ok <==> r is Ok
                &&& r matches Ok(answer) ==> json_of(answer) == Json::Bool(true)
                &&& outcome matches Err(text) ==> (r matches Err(RpcErr::Internal(message))
                    && message@ == "Failed to reload log filter: "@ + text@)
            },
        (forall|outcome: Result<(), String>| #[trigger]
            call_ensures(reload, (filter,), outcome) ==> outcome is Err) ==> r is Err,
        (forall|outcome: Result<(), String>| #[trigger]
            call_ensures(reload, (filter,), outcome) ==> outcome is Ok) ==> r is Ok,
{
}

/// A request for a log level is refused, whatever the handler would make of it, where there
/// is no parameter, where the first one is no text, and where that text cannot be parsed.
/// Only then does it matter whether there is a handler.
pub proof fn law_bad_level_is_refused<F: FnOnce(EnvFilter) -> Result<(), String>>(
    req: &RpcRequest,
    handler: Option<F>,
    r: Result<Value, RpcErr>,
)
    requires
        call_ensures(set_log_level::<F>, (req, handler), r),
    ensures
        match req.params {
            Some(params) => if params@.len() == 0 {
                r matches Err(RpcErr::MissingParam(message)) && message@ == "log level"@
            } else {
                match json_of(params@[0]) {
                    Json::Text(level) => {
                        &&& parsed_filter(level) is None ==> (r matches Err(
                            RpcErr::BadParams(message),
                        ) && message@ == "Cannot parse "@ + level + " as a log directive"@)
                        &&& parsed_filter(level) is Some && handler is None ==> (r matches Err(
                            RpcErr::Internal(message),
                        ) && message@ == "Log filter handler not available"@)
                    },
                    _ => r matches Err(RpcErr::WrongParam(message)) && message@
                        == "Expected string"@,
                }
            },
            None => r matches Err(RpcErr::MissingParam(message)) && message@ == "log level"@,
        },
        r is Ok ==> handler is Some,
{
}

/// Any request is answered unless the parser cannot read the text that it asks for, and the
/// answer is the one that [`law_level_reaches_the_handler`] and [`law_bad_level_is_refused`]
/// tell of.
pub proof fn law_any_request_is_answered<F: FnOnce(EnvFilter) -> Result<(), String>>(
    req: &RpcRequest,
    handler: Option<F>,
    r: Option<Result<Value, RpcErr>>,
)
    requires
        call_ensures(try_set_log_level::<F>, (req, handler), r),
    ensures
        r is None <==> (req.params matches Some(params) && params@.len() > 0 && (json_of(
            params@[0],
        ) matches Json::Text(level) && !readable(level))),
        r matches Some(answer) ==> match req.params {
            Some(params) => if params@.len() == 0 {
                answer matches Err(RpcErr::MissingParam(message)) && message@ == "log level"@
            } else {
                match json_of(params@[0]) {
                    Json::Text(level) => match parsed_filter(level) {
                        Some(filter) => match handler {
                            Some(reload) => exists|outcome: Result<(), String>|
                                {
                                    &&& #[trigger] call_ensures(reload, (filter,), outcome)
                                    &&& outcome is Ok <==> answer is Ok
                                    &&& answer matches Ok(value) ==> json_of(value) == Json::Bool(
                                        true,
                                    )
                                    &&& outcome matches Err(text) ==> (answer matches Err(
                                        RpcErr::Internal(message),
                                    ) && message@ == "Failed to reload log filter: "@ + text@)
                                },
                            None => answer matches Err(RpcErr::Internal(message)) && message@
                                == "Log filter handler not available"@,
                        },
                        None => answer matches Err(RpcErr::BadParams(message)) && message@
                            == "Cannot parse "@ + level + " as a log directive"@,
                    },
                    _ => answer matches Err(RpcErr::WrongParam(message)) && message@
                        == "Expected string"@,
                }
            },
            None => answer matches Err(RpcErr::MissingParam(message)) && message@ == "log level"@,
        },
{
}

} // verus!
