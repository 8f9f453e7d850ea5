use crate::pattern::json::{
    json_as_str, json_index, json_of, json_parse, json_parsed, member_or_null, number_of, text_of,
    text_to_u64, Json,
};
use crate::pattern::order_relation::{as_rules, order_rules_of, readable_order, OrderRelation};
use crate::pattern::{Edge, Pattern};
use serde_json::Value;
use std::collections::HashMap;
use vstd::prelude::*;
use vstd::string::StringExecFns;

verus! {

broadcast use vstd::std_specs::hash::group_hash_axioms;

/// Why the files of a pattern cannot be read as a pattern.
pub enum PatternParsingError {
    /// A line is not JSON.
    SerdeError(serde_json::Error),
    /// A line, given by its number from 1 up, does not hold what it has to
    /// hold; 0 stands for a whole file.
    FormatError(usize, &'static str),
}

/// The id that a value holds: a text of decimal digits that fits 64 bits.
pub open spec fn id_of(json: Json) -> Result<u64, Seq<char>> {
    match json {
        Json::Text(text) => match number_of(text) {
            Some(n) => if n <= u64::MAX {
                Ok(n as u64)
            } else {
                Err("ID is not u64"@)
            },
            None => Err("ID is not u64"@),
        },
        _ => Err("ID of node should be a string"@),
    }
}

/// The id that the value holds.
pub fn parse_u64(obj: &Value) -> (id: Result<u64, &'static str>)
    ensures
        id matches Ok(n) ==> id_of(json_of(*obj)) == Ok::<u64, Seq<char>>(n),
        id matches Err(message) ==> id_of(json_of(*obj)) == Err::<u64, Seq<char>>(message@),
{
    match json_as_str(obj) {
        None => Err("ID of node should be a string"),
        Some(text) => match text_to_u64(text) {
            Some(n) => Ok(n),
            None => Err("ID is not u64"),
        },
    }
}

/// The numbers of the lines by the ids that the lines give: an id names the
/// last line that gives it.
pub open spec fn ids_of_lines(given: Seq<Result<(u64, Seq<char>), Option<Seq<char>>>>) -> Map<
    u64,
    usize,
>
    decreases given.len(),
{
    if given.len() == 0 {
        Map::empty()
    } else {
        match given.last() {
            Ok((raw_id, signature)) => ids_of_lines(given.drop_last()).insert(
                raw_id,
                (given.len() - 1) as usize,
            ),
            Err(reason) => ids_of_lines(given.drop_last()),
        }
    }
}

/// The texts of the lines.
pub open spec fn texts(lines: Seq<String>) -> Seq<Seq<char>> {
    Seq::new(lines.len(), |i: int| lines[i]@)
}

/// The error is the one that the reason asks for at the line.
pub open spec fn reports(error: PatternParsingError, line_number: int, reason: Option<Seq<char>>) -> bool {
    match (reason, error) {
        (None, PatternParsingError::SerdeError(inner)) => true,
        (Some(message), PatternParsingError::FormatError(number, text)) => number == line_number
            && text@ == message,
        _ => false,
    }
}

/// How the files of a pattern write the signatures of nodes and edges, and
/// with that the way to read the files.
pub trait PatternParser {
    /// The signature of a node, from what the node file holds of it; none
    /// until a way of writing says otherwise.
    open spec fn node_signature_of(node: Json) -> Option<Seq<char>> {
        None
    }

    /// The signature of an edge, from what the edge file holds of it; none
    /// until a way of writing says otherwise.
    open spec fn edge_signature_of(edge: Json) -> Option<Seq<char>> {
        None
    }

    /// The signature of a node.
    fn node_signature(obj: &Value) -> (signature: Option<String>)
        ensures
            signature is Some <==> Self::node_signature_of(json_of(*obj)) is Some,
            signature matches Some(text) ==> Self::node_signature_of(json_of(*obj)) == Some(text@),
    ;

    /// The signature of an edge.
    fn edge_signature(obj: &Value) -> (signature: Option<String>)
        ensures
            signature is Some <==> Self::edge_signature_of(json_of(*obj)) is Some,
            signature matches Some(text) ==> Self::edge_signature_of(json_of(*obj)) == Some(text@),
    ;

}

/// What a line of the node file gives: the id of the node in the file and
/// the signature of the node; or why it gives none, where no reason stands
/// for a line that is not JSON.
pub open spec fn node_line<P: PatternParser>(line: Seq<char>) -> Result<
    (u64, Seq<char>),
    Option<Seq<char>>,
> {
    match json_parsed(line) {
        None => Err(None),
        Some(json) => {
            let node = member_or_null(json, "node"@);
            match id_of(member_or_null(node, "id"@)) {
                Err(message) => Err(Some(message)),
                Ok(raw_id) => match P::node_signature_of(node) {
                    None => Err(
                        Some("Fail to extract node signature, maybe the pattern format is wrong"@),
                    ),
                    Some(signature) => Ok((raw_id, signature)),
                },
            }
        },
    }
}

/// The line of the node file gives a node of this signature.
pub open spec fn node_signed<P: PatternParser>(line: Seq<char>, signature: Seq<char>) -> bool {
    match node_line::<P>(line) {
        Ok(node) => node.1 == signature,
        Err(reason) => false,
    }
}

/// Line `i` of the node file is the first that gives no node, and the error
/// reports it.
pub open spec fn node_fails_at<P: PatternParser>(lines: Seq<Seq<char>>, i: int, error: PatternParsingError) -> bool {
    &&& match node_line::<P>(lines[i]) {
        Ok(node) => false,
        Err(reason) => reports(error, i + 1, reason),
    }
    &&& forall|j: int| 0 <= j < i ==> node_line::<P>(#[trigger] lines[j]) is Ok
}

/// What the lines of the node file give, line by line.
pub open spec fn lines_given<P: PatternParser>(lines: Seq<Seq<char>>) -> Seq<Result<(u64, Seq<char>), Option<Seq<char>>>> {
    Seq::new(lines.len(), |i: int| node_line::<P>(lines[i]))
}

/// Reads the lines of the node file: the line of each node id, and the
/// signature of the node of each line. The first line that cannot be
/// read is reported.
pub fn parse_node_file<P: PatternParser>(lines: &Vec<String>) -> (parsed: Result<
    (HashMap<u64, usize>, Vec<String>),
    PatternParsingError,
>)
    ensures
        parsed is Ok <==> forall|i: int|
            0 <= i < lines@.len() ==> node_line::<P>(#[trigger] lines@[i]@) is Ok,
        parsed matches Ok(nodes) ==> {
            &&& nodes.0@ == ids_of_lines(lines_given::<P>(texts(lines@)))
            &&& nodes.1@.len() == lines@.len()
            &&& forall|i: int|
                0 <= i < lines@.len() ==> node_signed::<P>(lines@[i]@, (#[trigger] nodes.1@[i])@)
        },
        parsed matches Err(error) ==> exists|i: int|
            0 <= i < lines@.len() && #[trigger] node_fails_at::<P>(texts(lines@), i, error),
{
    let mut id_convert: HashMap<u64, usize> = HashMap::new();
    let mut node_signatures: Vec<String> = Vec::new();
    let mut line_num: usize = 0;
    proof {
        assert(lines_given::<P>(texts(lines@)).take(0) == Seq::<
            Result<(u64, Seq<char>), Option<Seq<char>>>,
        >::empty());
    }
    while line_num < lines.len()
        invariant
            0 <= line_num <= lines@.len(),
            id_convert@ == ids_of_lines(lines_given::<P>(texts(lines@)).take(line_num as int)),
            node_signatures@.len() == line_num,
            forall|i: int|
                0 <= i < line_num ==> node_signed::<P>(lines@[i]@, (#[trigger] node_signatures@[i])@),
        decreases lines@.len() - line_num,
    {
        proof {
            let given = lines_given::<P>(texts(lines@));
            let seen = given.take(line_num as int);
            let more = given.take(line_num + 1);
            assert(more.drop_last() == seen);
            assert(more.last() == node_line::<P>(lines@[line_num as int]@));
        }
        let ghost all = texts(lines@);
        let ghost line = lines@[line_num as int]@;
        proof {
            assert(all[line_num as int] == line);
            assert forall|j: int| 0 <= j < line_num implies node_line::<P>(#[trigger] all[j]) is Ok by {
                assert(node_signed::<P>(lines@[j]@, node_signatures@[j]@));
            }
        }
        let json_obj = match json_parse(lines[line_num].as_str()) {
            Ok(json_obj) => json_obj,
            Err(error) => {
                let failure = PatternParsingError::SerdeError(error);
                proof {
                    assert(node_fails_at::<P>(all, line_num as int, failure));
                    assert(!(node_line::<P>(lines@[line_num as int]@) is Ok));
                }
                return Err(failure);
            },
        };
        let node_obj = json_index(&json_obj, "node");
        let raw_id = match parse_u64(json_index(node_obj, "id")) {
            Ok(raw_id) => raw_id,
            Err(message) => {
                let failure = PatternParsingError::FormatError(line_num + 1, message);
                proof {
                    assert(node_fails_at::<P>(all, line_num as int, failure));
                    assert(!(node_line::<P>(lines@[line_num as int]@) is Ok));
                }
                return Err(failure);
            },
        };
        id_convert.insert(raw_id, line_num);
        let signature = match P::node_signature(node_obj) {
            Some(signature) => signature,
            None => {
                let failure = PatternParsingError::FormatError(
                    line_num + 1,
                    "Fail to extract node signature, maybe the pattern format is wrong",
                );
                proof {
                    assert(node_fails_at::<P>(all, line_num as int, failure));
                    assert(!(node_line::<P>(lines@[line_num as int]@) is Ok));
                }
                return Err(failure);
            },
        };
        proof {
            assert(node_line::<P>(line) == Ok::<(u64, Seq<char>), Option<Seq<char>>>(
                (raw_id, signature@),
            ));
        }
        node_signatures.push(signature);
        line_num += 1;
    }
    proof {
        assert forall|i: int| 0 <= i < lines@.len() implies node_line::<P>(
            #[trigger] lines@[i]@,
        ) is Ok by {
            assert(node_signed::<P>(lines@[i]@, node_signatures@[i]@));
        }
    }
    proof {
        let given = lines_given::<P>(texts(lines@));
        assert(given.take(lines@.len() as int) == given);
    }
    Ok((id_convert, node_signatures))
}

/// What a line of the edge file gives: the signature of the edge with the
/// signatures of its two nodes, and the two nodes; or why it gives none,
/// where no reason stands for a line that is not JSON. The nodes are the
/// lines that the node file has for the node ids of the edge.
pub open spec fn edge_line<P: PatternParser>(
    line: Seq<char>,
    id_convert: Map<u64, usize>,
    node_sigs: Seq<Seq<char>>,
) -> Result<(Seq<char>, usize, usize), Option<Seq<char>>> {
    match json_parsed(line) {
        None => Err(None),
        Some(json) => {
            let edge = member_or_null(json, "edge"@);
            match id_of(member_or_null(member_or_null(edge, "start"@), "id"@)) {
                Err(message) => Err(Some(message)),
                Ok(raw_start) => match id_of(member_or_null(member_or_null(edge, "end"@), "id"@)) {
                    Err(message) => Err(Some(message)),
                    Ok(raw_end) => match P::edge_signature_of(edge) {
                        None => Err(
                            Some(
                                "Fail to extract edge signature, maybe the pattern format is wrong"@,
                            ),
                        ),
                        Some(signature) => if !id_convert.contains_key(raw_start) {
                            Err(Some("The start id not exist in the node file"@))
                        } else if !id_convert.contains_key(raw_end) {
                            Err(Some("The end id not exist in the node file"@))
                        } else {
                            Ok(
                                (
                                    signature + "#"@ + node_sigs[id_convert[raw_start] as int] + "#"@
                                        + node_sigs[id_convert[raw_end] as int],
                                    id_convert[raw_start],
                                    id_convert[raw_end],
                                ),
                            )
                        },
                    },
                },
            }
        },
    }
}

/// Line `i` of the edge file is the first that gives no edge, and the error
/// reports it.
pub open spec fn edge_fails_at<P: PatternParser>(
    lines: Seq<Seq<char>>,
    id_convert: Map<u64, usize>,
    node_sigs: Seq<Seq<char>>,
    i: int,
    error: PatternParsingError,
) -> bool {
    &&& match edge_line::<P>(lines[i], id_convert, node_sigs) {
        Ok(edge) => false,
        Err(reason) => reports(error, i + 1, reason),
    }
    &&& forall|j: int| 0 <= j < i ==> edge_line::<P>(#[trigger] lines[j], id_convert, node_sigs) is Ok
}

/// The edge is the one that line `i` of the edge file gives.
pub open spec fn edge_given<P: PatternParser>(
    line: Seq<char>,
    id_convert: Map<u64, usize>,
    node_sigs: Seq<Seq<char>>,
    i: int,
    edge: Edge,
) -> bool {
    &&& edge.id == i
    &&& edge_line::<P>(line, id_convert, node_sigs) == Ok::<
        (Seq<char>, usize, usize),
        Option<Seq<char>>,
    >((edge.signature@, edge.start, edge.end))
}

/// Reads the lines of the edge file: the edge of each line, with the line
/// number from 0 up as its id. The first line that cannot be read is
/// reported.
pub fn parse_edge_file<P: PatternParser>(
    lines: &Vec<String>,
    id_convert: &HashMap<u64, usize>,
    node_sigs: &Vec<String>,
) -> (parsed: Result<Vec<Edge>, PatternParsingError>)
    requires
        forall|raw_id: u64|
            id_convert@.contains_key(raw_id) ==> #[trigger] id_convert@[raw_id] < node_sigs@.len(),
    ensures
        parsed is Ok <==> forall|i: int|
            0 <= i < lines@.len() ==> edge_line::<P>(
                #[trigger] lines@[i]@,
                id_convert@,
                texts(node_sigs@),
            ) is Ok,
        parsed matches Ok(edges) ==> {
            &&& edges@.len() == lines@.len()
            &&& forall|i: int|
                0 <= i < lines@.len() ==> edge_given::<P>(
                    lines@[i]@,
                    id_convert@,
                    texts(node_sigs@),
                    i,
                    #[trigger] edges@[i],
                )
        },
        parsed matches Err(error) ==> exists|i: int|
            0 <= i < lines@.len() && #[trigger] edge_fails_at::<P>(
                texts(lines@),
                id_convert@,
                texts(node_sigs@),
                i,
                error,
            ),
{
    let mut edges: Vec<Edge> = Vec::new();
    let mut line_num: usize = 0;
    let ghost ids = id_convert@;
    let ghost sigs = texts(node_sigs@);
    while line_num < lines.len()
        invariant
            0 <= line_num <= lines@.len(),
            ids == id_convert@,
            sigs == texts(node_sigs@),
            forall|raw_id: u64| ids.contains_key(raw_id) ==> #[trigger] ids[raw_id] < node_sigs@.len(),
            edges@.len() == line_num,
            forall|i: int|
                0 <= i < line_num ==> edge_given::<P>(lines@[i]@, ids, sigs, i, #[trigger] edges@[i]),
        decreases lines@.len() - line_num,
    {
        let ghost all = texts(lines@);
        let ghost line = lines@[line_num as int]@;
        proof {
            assert(all[line_num as int] == line);
            assert forall|j: int| 0 <= j < line_num implies edge_line::<P>(
                #[trigger] all[j],
                ids,
                sigs,
            ) is Ok by {
                assert(edge_given::<P>(lines@[j]@, ids, sigs, j, edges@[j]));
            }
        }
        let json_obj = match json_parse(lines[line_num].as_str()) {
            Ok(json_obj) => json_obj,
            Err(error) => {
                let failure = PatternParsingError::SerdeError(error);
                proof {
                    assert(edge_fails_at::<P>(all, ids, sigs, line_num as int, failure));
                    assert(!(edge_line::<P>(lines@[line_num as int]@, ids, sigs) is Ok));
                }
                return Err(failure);
            },
        };
        let edge_obj = json_index(&json_obj, "edge");
        let raw_start = match parse_u64(json_index(json_index(edge_obj, "start"), "id")) {
            Ok(raw_start) => raw_start,
            Err(message) => {
                let failure = PatternParsingError::FormatError(line_num + 1, message);
                proof {
                    assert(edge_fails_at::<P>(all, ids, sigs, line_num as int, failure));
                    assert(!(edge_line::<P>(lines@[line_num as int]@, ids, sigs) is Ok));
                }
                return Err(failure);
            },
        };
        let raw_end = match parse_u64(json_index(json_index(edge_obj, "end"), "id")) {
            Ok(raw_end) => raw_end,
            Err(message) => {
                let failure = PatternParsingError::FormatError(line_num + 1, message);
                proof {
                    assert(edge_fails_at::<P>(all, ids, sigs, line_num as int, failure));
                    assert(!(edge_line::<P>(lines@[line_num as int]@, ids, sigs) is Ok));
                }
                return Err(failure);
            },
        };
        let signature = match P::edge_signature(edge_obj) {
            Some(signature) => signature,
            None => {
                let failure = PatternParsingError::FormatError(
                    line_num + 1,
                    "Fail to extract edge signature, maybe the pattern format is wrong",
                );
                proof {
                    assert(edge_fails_at::<P>(all, ids, sigs, line_num as int, failure));
                    assert(!(edge_line::<P>(lines@[line_num as int]@, ids, sigs) is Ok));
                }
                return Err(failure);
            },
        };
        let start_id = match id_convert.get(&raw_start) {
            Some(start_id) => *start_id,
            None => {
                let failure = PatternParsingError::FormatError(
                    line_num + 1,
                    "The start id not exist in the node file",
                );
                proof {
                    assert(edge_fails_at::<P>(all, ids, sigs, line_num as int, failure));
                    assert(!(edge_line::<P>(lines@[line_num as int]@, ids, sigs) is Ok));
                }
                return Err(failure);
            },
        };
        let end_id = match id_convert.get(&raw_end) {
            Some(end_id) => *end_id,
            None => {
                let failure = PatternParsingError::FormatError(
                    line_num + 1,
                    "The end id not exist in the node file",
                );
                proof {
                    assert(edge_fails_at::<P>(all, ids, sigs, line_num as int, failure));
                    assert(!(edge_line::<P>(lines@[line_num as int]@, ids, sigs) is Ok));
                }
                return Err(failure);
            },
        };
        proof {
            assert(ids[raw_start] < node_sigs@.len());
            assert(ids[raw_end] < node_sigs@.len());
        }
        let mut full_signature = signature;
        full_signature.append("#");
        full_signature.append(node_sigs[start_id].as_str());
        full_signature.append("#");
        full_signature.append(node_sigs[end_id].as_str());
        let edge = Edge { id: line_num, signature: full_signature, start: start_id, end: end_id };
        proof {
            assert(sigs[start_id as int] == node_sigs@[start_id as int]@);
            assert(sigs[end_id as int] == node_sigs@[end_id as int]@);
            assert(edge_given::<P>(line, ids, sigs, line_num as int, edge));
        }
        edges.push(edge);
        line_num += 1;
    }
    proof {
        assert forall|i: int| 0 <= i < lines@.len() implies edge_line::<P>(
            #[trigger] lines@[i]@,
            ids,
            sigs,
        ) is Ok by {
            assert(edge_given::<P>(lines@[i]@, ids, sigs, i, edges@[i]));
        }
    }
    Ok(edges)
}

/// The lines of the node file can all be read.
pub open spec fn nodes_readable<P: PatternParser>(node_lines: Seq<Seq<char>>) -> bool {
    forall|i: int| 0 <= i < node_lines.len() ==> node_line::<P>(#[trigger] node_lines[i]) is Ok
}

/// The signatures of the nodes that the lines of the node file give, line
/// by line; an empty signature for a line that gives none.
pub open spec fn signatures_of<P: PatternParser>(node_lines: Seq<Seq<char>>) -> Seq<Seq<char>> {
    Seq::new(
        node_lines.len(),
        |i: int|
            match node_line::<P>(node_lines[i]) {
                Ok(node) => node.1,
                Err(reason) => Seq::empty(),
            },
    )
}

/// The lines of the edge file can all be read, with the nodes that the
/// node file gives.
pub open spec fn edges_readable<P: PatternParser>(
    node_lines: Seq<Seq<char>>,
    edge_lines: Seq<Seq<char>>,
) -> bool {
    forall|i: int|
        0 <= i < edge_lines.len() ==> edge_line::<P>(
            #[trigger] edge_lines[i],
            ids_of_lines(lines_given::<P>(node_lines)),
            signatures_of::<P>(node_lines),
        ) is Ok
}

/// Every id of a node names a line of the node file.
proof fn lemma_ids_name_lines(given: Seq<Result<(u64, Seq<char>), Option<Seq<char>>>>)
    ensures
        forall|raw_id: u64|
            ids_of_lines(given).contains_key(raw_id) ==> #[trigger] ids_of_lines(given)[raw_id]
                < given.len(),
    decreases given.len(),
{
    if given.len() > 0 {
        let rest = given.drop_last();
        lemma_ids_name_lines(rest);
        assert forall|raw_id: u64| ids_of_lines(given).contains_key(raw_id) implies #[trigger] ids_of_lines(
            given,
        )[raw_id] < given.len() by {
            match given.last() {
                Ok((last_id, signature)) => {
                    if raw_id != last_id {
                        assert(ids_of_lines(rest).contains_key(raw_id));
                        assert(ids_of_lines(rest)[raw_id] < rest.len());
                    }
                },
                Err(reason) => {
                    assert(ids_of_lines(rest)[raw_id] < rest.len());
                },
            }
        }
    }
}

/// One more than the greatest node of an edge.
fn count_nodes(edges: &Vec<Edge>) -> (num_nodes: usize)
    requires
        edges@.len() > 0,
        forall|k: int|
            0 <= k < edges@.len() ==> (#[trigger] edges@[k]).start < usize::MAX && edges@[k].end
                < usize::MAX,
    ensures
        forall|k: int|
            0 <= k < edges@.len() ==> (#[trigger] edges@[k]).start < num_nodes && edges@[k].end
                < num_nodes,
        exists|k: int|
            0 <= k < edges@.len() && ((#[trigger] edges@[k]).start + 1 == num_nodes || edges@[k].end
                + 1 == num_nodes),
{
    let mut greatest: usize = if edges[0].start >= edges[0].end {
        edges[0].start
    } else {
        edges[0].end
    };
    let mut i: usize = 1;
    let ghost mut witness: int = 0;
    while i < edges.len()
        invariant
            1 <= i <= edges@.len(),
            forall|k: int| 0 <= k < i ==> (#[trigger] edges@[k]).start <= greatest && edges@[k].end <= greatest,
            0 <= witness < i,
            edges@[witness].start == greatest || edges@[witness].end == greatest,
        decreases edges@.len() - i,
    {
        if edges[i].start > greatest {
            greatest = edges[i].start;
            proof {
                witness = i as int;
            }
        }
        if edges[i].end > greatest {
            greatest = edges[i].end;
            proof {
                witness = i as int;
            }
        }
        i += 1;
    }
    proof {
        assert(edges@[witness].start < usize::MAX);
        assert(edges@[witness].start + 1 == greatest + 1 || edges@[witness].end + 1 == greatest + 1);
    }
    greatest + 1
}

/// What the node file gives is what reading it returned.
proof fn lemma_nodes_read<P: PatternParser>(node_lines: Seq<String>, node_signatures: Seq<String>)
    requires
        node_signatures.len() == node_lines.len(),
        forall|i: int|
            0 <= i < node_lines.len() ==> node_signed::<P>(node_lines[i]@, (#[trigger] node_signatures[i])@),
    ensures
        nodes_readable::<P>(texts(node_lines)),
        texts(node_signatures) == signatures_of::<P>(texts(node_lines)),
{
    let sigs = signatures_of::<P>(texts(node_lines));
    assert(texts(node_signatures) =~= sigs) by {
        assert forall|i: int| 0 <= i < node_lines.len() implies texts(node_signatures)[i] == sigs[i] by {
            assert(node_signed::<P>(node_lines[i]@, node_signatures[i]@));
        }
    }
    assert forall|i: int| 0 <= i < node_lines.len() implies node_line::<P>(
        #[trigger] texts(node_lines)[i],
    ) is Ok by {
        assert(node_signed::<P>(node_lines[i]@, node_signatures[i]@));
    }
}

/// A node file with a line that cannot be read cannot be read.
proof fn lemma_nodes_unread<P: PatternParser>(node_lines: Seq<String>, i: int, error: PatternParsingError)
    requires
        0 <= i < node_lines.len(),
        node_fails_at::<P>(texts(node_lines), i, error),
    ensures
        !nodes_readable::<P>(texts(node_lines)),
{
    assert(!(node_line::<P>(texts(node_lines)[i]) is Ok));
}

/// An edge file with a line that cannot be read cannot be read.
proof fn lemma_edges_unread<P: PatternParser>(
    node_lines: Seq<String>,
    edge_lines: Seq<String>,
    i: int,
    error: PatternParsingError,
)
    requires
        0 <= i < edge_lines.len(),
        edge_fails_at::<P>(
            texts(edge_lines),
            ids_of_lines(lines_given::<P>(texts(node_lines))),
            signatures_of::<P>(texts(node_lines)),
            i,
            error,
        ),
    ensures
        !edges_readable::<P>(texts(node_lines), texts(edge_lines)),
{
    assert(!(edge_line::<P>(
        texts(edge_lines)[i],
        ids_of_lines(lines_given::<P>(texts(node_lines))),
        signatures_of::<P>(texts(node_lines)),
    ) is Ok));
}

/// What the edge file gives is what reading it returned.
proof fn lemma_edges_read<P: PatternParser>(
    node_lines: Seq<String>,
    edge_lines: Seq<String>,
    edges: Seq<Edge>,
)
    requires
        edges.len() == edge_lines.len(),
        forall|i: int|
            0 <= i < edge_lines.len() ==> edge_given::<P>(
                edge_lines[i]@,
                ids_of_lines(lines_given::<P>(texts(node_lines))),
                signatures_of::<P>(texts(node_lines)),
                i,
                #[trigger] edges[i],
            ),
    ensures
        edges_readable::<P>(texts(node_lines), texts(edge_lines)),
        forall|i: int|
            0 <= i < edges.len() ==> (#[trigger] edges[i]).start < node_lines.len() && edges[i].end
                < node_lines.len(),
{
    let ids = ids_of_lines(lines_given::<P>(texts(node_lines)));
    let sigs = signatures_of::<P>(texts(node_lines));
    lemma_ids_name_lines(lines_given::<P>(texts(node_lines)));
    assert forall|i: int| 0 <= i < edge_lines.len() implies edge_line::<P>(
        #[trigger] texts(edge_lines)[i],
        ids,
        sigs,
    ) is Ok by {
        assert(edge_given::<P>(edge_lines[i]@, ids, sigs, i, edges[i]));
    }
    assert forall|i: int| 0 <= i < edges.len() implies (#[trigger] edges[i]).start < node_lines.len()
        && edges[i].end < node_lines.len() by {
        assert(edge_given::<P>(edge_lines[i]@, ids, sigs, i, edges[i]));
    }
}

/// The error is the one that the order relation file asks for: the file is
/// not JSON, or it is JSON that does not give the rules of an order
/// relation.
pub open spec fn order_fails(order_relation: Seq<char>, error: PatternParsingError) -> bool {
    match error {
        PatternParsingError::SerdeError(inner) => json_parsed(order_relation) is None,
        PatternParsingError::FormatError(line, message) => json_parsed(order_relation) is Some
            && !readable_order(order_relation) && line == 0 && message@
            == "Json format of order relation file is not right."@,
    }
}

/// The error is the one that the three files ask for: that of the first
/// line of the node file that cannot be read; else that of the first such
/// line of the edge file; else that of the order relation file.
pub open spec fn parse_fails<P: PatternParser>(
    node_lines: Seq<Seq<char>>,
    edge_lines: Seq<Seq<char>>,
    order_relation: Seq<char>,
    error: PatternParsingError,
) -> bool {
    if !nodes_readable::<P>(node_lines) {
        exists|i: int| 0 <= i < node_lines.len() && #[trigger] node_fails_at::<P>(node_lines, i, error)
    } else if !edges_readable::<P>(node_lines, edge_lines) {
        exists|i: int|
            0 <= i < edge_lines.len() && #[trigger] edge_fails_at::<P>(
                edge_lines,
                ids_of_lines(lines_given::<P>(node_lines)),
                signatures_of::<P>(node_lines),
                i,
                error,
            )
    } else {
        order_fails(order_relation, error)
    }
}

/// Reads a pattern from what its three files hold: the lines of the node
/// file, the lines of the edge file, and the order relation file. The
/// pattern has as many nodes as the greatest node of an edge asks for. The
/// first thing that cannot be read is reported: in the node file, then in
/// the edge file, then the order relation file.
pub fn parse<P: PatternParser>(
    node_lines: &Vec<String>,
    edge_lines: &Vec<String>,
    order_relation: &str,
) -> (parsed: Result<Pattern, PatternParsingError>)
    requires
        edge_lines@.len() > 0,
    ensures
        parsed is Ok <==> nodes_readable::<P>(texts(node_lines@)) && edges_readable::<P>(
            texts(node_lines@),
            texts(edge_lines@),
        ) && readable_order(order_relation@),
        parsed matches Err(error) ==> parse_fails::<P>(
            texts(node_lines@),
            texts(edge_lines@),
            order_relation@,
            error,
        ),
        parsed matches Ok(pattern) ==> {
            &&& pattern.order.wf()
            &&& pattern.order.rules() == as_rules(
                order_rules_of(json_parsed(order_relation@).unwrap()).unwrap(),
            )
            &&& pattern.edges@.len() == edge_lines@.len()
            &&& forall|i: int|
                0 <= i < edge_lines@.len() ==> edge_given::<P>(
                    edge_lines@[i]@,
                    ids_of_lines(lines_given::<P>(texts(node_lines@))),
                    signatures_of::<P>(texts(node_lines@)),
                    i,
                    #[trigger] pattern.edges@[i],
                )
            &&& forall|i: int|
                0 <= i < pattern.edges@.len() ==> (#[trigger] pattern.edges@[i]).start
                    < pattern.num_nodes && pattern.edges@[i].end < pattern.num_nodes
            &&& exists|i: int|
                0 <= i < pattern.edges@.len() && ((#[trigger] pattern.edges@[i]).start + 1
                    == pattern.num_nodes || pattern.edges@[i].end + 1 == pattern.num_nodes)
        },
{
    let (id_convert, node_signatures) = match parse_node_file::<P>(node_lines) {
        Ok(nodes) => nodes,
        Err(error) => {
            proof {
                let i = choose|i: int|
                    0 <= i < node_lines@.len() && #[trigger] node_fails_at::<P>(
                        texts(node_lines@),
                        i,
                        error,
                    );
                lemma_nodes_unread::<P>(node_lines@, i, error);
                assert(node_fails_at::<P>(texts(node_lines@), i, error));
            }
            return Err(error);
        },
    };
    proof {
        lemma_nodes_read::<P>(node_lines@, node_signatures@);
        lemma_ids_name_lines(lines_given::<P>(texts(node_lines@)));
    }
    let edges = match parse_edge_file::<P>(edge_lines, &id_convert, &node_signatures) {
        Ok(edges) => edges,
        Err(error) => {
            proof {
                let i = choose|i: int|
                    0 <= i < edge_lines@.len() && #[trigger] edge_fails_at::<P>(
                        texts(edge_lines@),
                        id_convert@,
                        texts(node_signatures@),
                        i,
                        error,
                    );
                lemma_edges_unread::<P>(node_lines@, edge_lines@, i, error);
                assert(edge_fails_at::<P>(
                    texts(edge_lines@),
                    ids_of_lines(lines_given::<P>(texts(node_lines@))),
                    signatures_of::<P>(texts(node_lines@)),
                    i,
                    error,
                ));
            }
            return Err(error);
        },
    };
    let lines = node_lines.len();
    proof {
        lemma_edges_read::<P>(node_lines@, edge_lines@, edges@);
        assert forall|k: int| 0 <= k < edges@.len() implies (#[trigger] edges@[k]).start < usize::MAX
            && edges@[k].end < usize::MAX by {
            assert(edges@[k].start < lines && edges@[k].end < lines);
        }
    }
    let num_nodes = count_nodes(&edges);
    let order = match OrderRelation::parse(order_relation) {
        Ok(order) => order,
        Err(error) => {
            proof {
                assert(order_fails(order_relation@, error));
            }
            return Err(error);
        },
    };
    let ghost read = edges@;
    let pattern = Pattern { edges, order, num_nodes };
    proof {
        let ids = ids_of_lines(lines_given::<P>(texts(node_lines@)));
        let sigs = signatures_of::<P>(texts(node_lines@));
        assert(pattern.edges@ == read);
        assert(ids == id_convert@);
        assert(sigs == texts(node_signatures@));
        assert forall|i: int| 0 <= i < edge_lines@.len() implies edge_given::<P>(
            edge_lines@[i]@,
            ids,
            sigs,
            i,
            #[trigger] pattern.edges@[i],
        ) by {
            assert(edge_given::<P>(edge_lines@[i]@, id_convert@, texts(node_signatures@), i, read[i]));
        }
        let last = choose|k: int|
            0 <= k < read.len() && ((#[trigger] read[k]).start + 1 == num_nodes || read[k].end + 1
                == num_nodes);
        assert(pattern.edges@[last].start + 1 == pattern.num_nodes || pattern.edges@[last].end + 1
            == pattern.num_nodes);
    }
    Ok(pattern)
}

} // verus!
