use crate::pattern::json::{
    json_as_str, json_index, json_of, member_or_null, same_text, text_of, Json,
};
use crate::pattern::parser::PatternParser;
use serde_json::Value;
use vstd::prelude::*;
use vstd::string::StringExecFns;

verus! {

/// Reads patterns whose files write nodes and edges as SPADE does.
pub struct SpadePatternParser;

/// The signature of a node as SPADE writes it: for a process its name, for
/// a file or a directory its path, and for a network socket its remote
/// address and port, each behind the type of the node.
pub open spec fn spade_node_signature(node: Json) -> Option<Seq<char>> {
    let properties = member_or_null(node, "properties"@);
    match text_of(member_or_null(properties, "type"@)) {
        None => None,
        Some(node_type) => if node_type == "Process"@ {
            match text_of(member_or_null(properties, "name"@)) {
                Some(name) => Some(node_type + "::"@ + name),
                None => None,
            }
        } else if node_type == "Artifact"@ {
            match text_of(member_or_null(properties, "subtype"@)) {
                None => None,
                Some(subtype) => if subtype == "file"@ || subtype == "directory"@ {
                    match text_of(member_or_null(properties, "path"@)) {
                        Some(path) => Some(node_type + "::"@ + subtype + "::"@ + path),
                        None => None,
                    }
                } else if subtype == "network socket"@ {
                    match (
                        text_of(member_or_null(properties, "remote address"@)),
                        text_of(member_or_null(properties, "remote port"@)),
                    ) {
                        (Some(addr), Some(port)) => Some(
                            node_type + "::"@ + subtype + "::"@ + addr + ":"@ + port,
                        ),
                        _ => None,
                    }
                } else {
                    None
                },
            }
        } else {
            None
        },
    }
}

/// The signature of an edge as SPADE writes it: its operation.
pub open spec fn spade_edge_signature(edge: Json) -> Option<Seq<char>> {
    text_of(member_or_null(member_or_null(edge, "properties"@), "operation"@))
}

impl PatternParser for SpadePatternParser {
    open spec fn node_signature_of(node: Json) -> Option<Seq<char>> {
        spade_node_signature(node)
    }

    open spec fn edge_signature_of(edge: Json) -> Option<Seq<char>> {
        spade_edge_signature(edge)
    }

    fn node_signature(obj: &Value) -> (signature: Option<String>) {
        let properties = json_index(obj, "properties");
        let node_type = match json_as_str(json_index(properties, "type")) {
            Some(node_type) => node_type,
            None => {
                return None;
            },
        };
        if same_text(node_type, "Process") {
            let name = match json_as_str(json_index(properties, "name")) {
                Some(name) => name,
                None => {
                    return None;
                },
            };
            let mut signature = String::from_str(node_type);
            signature.append("::");
            signature.append(name);
            Some(signature)
        } else if same_text(node_type, "Artifact") {
            let subtype = match json_as_str(json_index(properties, "subtype")) {
                Some(subtype) => subtype,
                None => {
                    return None;
                },
            };
            if same_text(subtype, "file") || same_text(subtype, "directory") {
                let path = match json_as_str(json_index(properties, "path")) {
                    Some(path) => path,
                    None => {
                        return None;
                    },
                };
                let mut signature = String::from_str(node_type);
                signature.append("::");
                signature.append(subtype);
                signature.append("::");
                signature.append(path);
                Some(signature)
            } else if same_text(subtype, "network socket") {
                let addr = match json_as_str(json_index(properties, "remote address")) {
                    Some(addr) => addr,
                    None => {
                        return None;
                    },
                };
                let port = match json_as_str(json_index(properties, "remote port")) {
                    Some(port) => port,
                    None => {
                        return None;
                    },
                };
                let mut signature = String::from_str(node_type);
                signature.append("::");
                signature.append(subtype);
                signature.append("::");
                signature.append(addr);
                signature.append(":");
                signature.append(port);
                Some(signature)
            } else {
                None
            }
        } else {
            None
        }
    }

    fn edge_signature(obj: &Value) -> (signature: Option<String>) {
        match json_as_str(json_index(json_index(obj, "properties"), "operation")) {
            Some(operation) => Some(String::from_str(operation)),
            None => None,
        }
    }
}

} // verus!
