use crate::pattern::json::{
    json_as_str, json_get, json_index, json_is_object, json_of, json_to_text, json_written, member,
    member_or_null, same_text, text_of, Json,
};
use crate::pattern::parser::PatternParser;
use serde_json::Value;
use vstd::prelude::*;
use vstd::string::StringExecFns;

verus! {

/// Reads patterns whose files write nodes and edges as the DARPA data sets
/// do.
pub struct DarpaPatternParser;

/// The type of a node: the type it names, or the type that its properties
/// tell of; nothing where the type it names is no text.
pub open spec fn darpa_node_type(properties: Json) -> Option<Seq<char>> {
    match member(properties, "type"@) {
        Some(type_val) => text_of(type_val),
        None => if member(properties, "NetFlowObject_baseObject_epoch"@) is Some {
            Some("OBJECT_SOCKET"@)
        } else if member(properties, "UnnamedPipeObject_baseObject_epoch"@) is Some {
            Some("OBJECT_UNNAMEPIPE"@)
        } else {
            Some("OTHER"@)
        },
    }
}

/// The text of the property, where the properties have it as a text.
pub open spec fn darpa_text(properties: Json, key: Seq<char>) -> Option<Seq<char>> {
    match member(properties, key) {
        Some(inner) => text_of(inner),
        None => None,
    }
}

/// What stands behind the type in the signature of a node: for a process
/// its name, for a file its path, for a socket its remote address and
/// port, and nothing for any other type.
pub open spec fn darpa_node_detail(properties: Json, node_type: Seq<char>) -> Option<Seq<char>> {
    if node_type == "SUBJECT_PROCESS"@ || node_type == "SUBJECT_UNIT"@ {
        darpa_text(properties, "Subject_properties_map_name"@)
    } else if node_type == "FILE_OBJECT_CHAR"@ || node_type == "FILE_OBJECT_FILE"@ || node_type
        == "FILE_OBJECT_DIR"@ {
        darpa_text(properties, "path"@)
    } else if node_type == "OBJECT_SOCKET"@ {
        match (
            darpa_text(properties, "NetFlowObject_remoteAddress"@),
            member(properties, "NetFlowObject_remotePort"@),
        ) {
            (Some(addr), Some(port)) => match port {
                Json::Text(text) => Some(addr + ":"@ + text),
                _ => Some(addr + ":"@ + json_written(port)),
            },
            _ => None,
        }
    } else {
        Some(Seq::empty())
    }
}

/// The signature of a node as the DARPA data sets write it: the type of
/// the node, two colons, and what the type asks for.
pub open spec fn darpa_node_signature(node: Json) -> Option<Seq<char>> {
    let properties = member_or_null(node, "properties"@);
    if !(properties is Object) {
        None
    } else {
        match darpa_node_type(properties) {
            None => None,
            Some(node_type) => match darpa_node_detail(properties, node_type) {
                None => None,
                Some(detail) => Some(node_type + "::"@ + detail),
            },
        }
    }
}

/// The signature of an edge as the DARPA data sets write it: its type.
pub open spec fn darpa_edge_signature(edge: Json) -> Option<Seq<char>> {
    text_of(member_or_null(member_or_null(edge, "properties"@), "type"@))
}

/// The text of the property, where the properties have it as a text.
fn text_property<'a>(properties: &'a Value, key: &str) -> (text: Option<&'a str>)
    ensures
        text is Some <==> darpa_text(json_of(*properties), key@) is Some,
        text matches Some(inner) ==> darpa_text(json_of(*properties), key@) == Some(inner@),
{
    match json_get(properties, key) {
        Some(inner) => json_as_str(inner),
        None => None,
    }
}

impl PatternParser for DarpaPatternParser {
    open spec fn node_signature_of(node: Json) -> Option<Seq<char>> {
        darpa_node_signature(node)
    }

    open spec fn edge_signature_of(edge: Json) -> Option<Seq<char>> {
        darpa_edge_signature(edge)
    }

    fn node_signature(obj: &Value) -> (signature: Option<String>) {
        let properties = json_index(obj, "properties");
        if !json_is_object(properties) {
            return None;
        }
        let node_type: &str = match json_get(properties, "type") {
            Some(type_val) => match json_as_str(type_val) {
                Some(node_type) => node_type,
                None => {
                    return None;
                },
            },
            None => if json_get(properties, "NetFlowObject_baseObject_epoch").is_some() {
                "OBJECT_SOCKET"
            } else if json_get(properties, "UnnamedPipeObject_baseObject_epoch").is_some() {
                "OBJECT_UNNAMEPIPE"
            } else {
                "OTHER"
            },
        };
        let mut signature = String::from_str(node_type);
        signature.append("::");
        if same_text(node_type, "SUBJECT_PROCESS") || same_text(node_type, "SUBJECT_UNIT") {
            match text_property(properties, "Subject_properties_map_name") {
                Some(name) => {
                    signature.append(name);
                },
                None => {
                    return None;
                },
            }
        } else if same_text(node_type, "FILE_OBJECT_CHAR") || same_text(node_type, "FILE_OBJECT_FILE")
            || same_text(node_type, "FILE_OBJECT_DIR") {
            match text_property(properties, "path") {
                Some(path) => {
                    signature.append(path);
                },
                None => {
                    return None;
                },
            }
        } else if same_text(node_type, "OBJECT_SOCKET") {
            let addr = match text_property(properties, "NetFlowObject_remoteAddress") {
                Some(addr) => addr,
                None => {
                    return None;
                },
            };
            let port = match json_get(properties, "NetFlowObject_remotePort") {
                Some(port) => port,
                None => {
                    return None;
                },
            };
            signature.append(addr);
            signature.append(":");
            match json_as_str(port) {
                Some(text) => {
                    signature.append(text);
                },
                None => {
                    let written = json_to_text(port);
                    signature.append(written.as_str());
                },
            }
            proof {
                let detail = darpa_node_detail(json_of(*properties), node_type@).unwrap();
                assert(signature@ == node_type@ + "::"@ + detail);
            }
        } else {
            proof {
                assert(signature@ == node_type@ + "::"@ + Seq::<char>::empty());
            }
        }
        Some(signature)
    }

    fn edge_signature(obj: &Value) -> (signature: Option<String>) {
        match json_as_str(json_index(json_index(obj, "properties"), "type")) {
            Some(edge_type) => Some(String::from_str(edge_type)),
            None => None,
        }
    }
}

} // verus!
