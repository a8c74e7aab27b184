//! The shape a version-2 manifest's YAML must have once parsed: one
//! mapping, string keys only, no custom tags, at most
//! `V2_MAX_YAML_NODES` nodes and `V2_MAX_YAML_DEPTH` levels.
use vstd::prelude::*;

use crate::federation::{ParentCorpusError, ParentCorpusErrorCode};
use crate::manifest::{first_forbidden_line, limit_error, limit_message, lines_of, malformed, malformed_message, strict_yaml_lexical_check};
use crate::text::decimal;
use crate::text::{owned, push_str};

verus! {

pub const V2_MAX_YAML_DEPTH: usize = 32;
pub const V2_MAX_YAML_NODES: usize = 16384;

/// A parsed YAML value.
#[derive(Debug)]
pub enum YamlNode {
    Null,
    Bool(bool),
    /// A number, as written.
    Number(String),
    String(String),
    Sequence(Vec<YamlNode>),
    Mapping(Vec<(YamlNode, YamlNode)>),
    /// A value under a custom `!tag`.
    Tagged,
}

/// Why a YAML value does not have the version-2 shape.
#[derive(Debug, Clone, Copy, PartialEq, Eq, Structural)]
pub enum ShapeError {
    TooManyNodes,
    TooDeep,
    NonStringKey,
    CustomTag,
}

/// Walks `n` at `depth` after `nodes` nodes were seen, in document order:
/// the node is counted, then the limits are checked, then its children
/// (each mapping key must be a string before it is walked). The count after
/// the walk, or the first violation.
pub open spec fn shape(n: YamlNode, depth: nat, nodes: nat) -> Result<nat, ShapeError>
    decreases n,
{
    let count = nodes + 1;
    if count > V2_MAX_YAML_NODES {
        Err(ShapeError::TooManyNodes)
    } else if depth > V2_MAX_YAML_DEPTH {
        Err(ShapeError::TooDeep)
    } else {
        match n {
            YamlNode::Sequence(v) => {
                proof {
                    assert(decreases_to!(n => v));
                    assert(decreases_to!(v => v@));
                }
                shape_seq(v@, depth + 1, count)
            },
            YamlNode::Mapping(m) => {
                proof {
                    assert(decreases_to!(n => m));
                    assert(decreases_to!(m => m@));
                }
                shape_map(m@, depth + 1, count)
            },
            YamlNode::Tagged => Err(ShapeError::CustomTag),
            _ => Ok(count),
        }
    }
}

/// Walks the items of a sequence in order.
pub open spec fn shape_seq(s: Seq<YamlNode>, depth: nat, nodes: nat) -> Result<nat, ShapeError>
    decreases s,
{
    if s.len() == 0 {
        Ok(nodes)
    } else {
        proof {
            assert(decreases_to!(s => s[0]));
            assert(decreases_to!(s => s.subrange(1, s.len() as int)));
        }
        match shape(s[0], depth, nodes) {
            Err(e) => Err(e),
            Ok(c) => shape_seq(s.subrange(1, s.len() as int), depth, c),
        }
    }
}

/// Walks the entries of a mapping in order: key, then value.
pub open spec fn shape_map(s: Seq<(YamlNode, YamlNode)>, depth: nat, nodes: nat) -> Result<nat, ShapeError>
    decreases s,
{
    if s.len() == 0 {
        Ok(nodes)
    } else {
        proof {
            assert(decreases_to!(s => s[0]));
            assert(decreases_to!(s[0] => s[0].0));
            assert(decreases_to!(s[0] => s[0].1));
            assert(decreases_to!(s => s.subrange(1, s.len() as int)));
        }
        if !(s[0].0 is String) {
            Err(ShapeError::NonStringKey)
        } else {
            match shape(s[0].0, depth, nodes) {
                Err(e) => Err(e),
                Ok(c) => match shape(s[0].1, depth, c) {
                    Err(e) => Err(e),
                    Ok(c2) => shape_map(s.subrange(1, s.len() as int), depth, c2),
                },
            }
        }
    }
}

/// Checks the shape of `node` at `depth`, counting into `nodes`.
pub fn yaml_shape(node: &YamlNode, depth: usize, nodes: &mut usize) -> (r: Result<(), ShapeError>)
    requires
        *old(nodes) <= V2_MAX_YAML_NODES,
        depth <= V2_MAX_YAML_DEPTH + 1,
    ensures
        match shape(*node, depth as nat, *old(nodes) as nat) {
            Ok(c) => r is Ok && *final(nodes) == c && c <= V2_MAX_YAML_NODES,
            Err(e) => r == Err::<(), ShapeError>(e),
        },
    decreases node,
{
    let ghost n0 = *nodes;
    *nodes = *nodes + 1;
    if *nodes > V2_MAX_YAML_NODES {
        return Err(ShapeError::TooManyNodes);
    }
    if depth > V2_MAX_YAML_DEPTH {
        return Err(ShapeError::TooDeep);
    }
    match node {
        YamlNode::Sequence(values) => {
            let ghost start = *nodes;
            assert(values@.subrange(0, values@.len() as int) =~= values@);
            assert(shape(*node, depth as nat, n0 as nat) == shape_seq(values@, (depth + 1) as nat, start as nat));
            let mut i: usize = 0;
            while i < values.len()
                invariant
                    i <= values@.len(),
                    shape(*node, depth as nat, n0 as nat) == shape_seq(values@, (depth + 1) as nat, start as nat),
                    n0 == *old(nodes),
                    *node == YamlNode::Sequence(*values),
                    *nodes <= V2_MAX_YAML_NODES,
                    depth <= V2_MAX_YAML_DEPTH,
                    shape_seq(values@, (depth + 1) as nat, start as nat)
                        == shape_seq(values@.subrange(i as int, values@.len() as int), (depth + 1) as nat, *nodes as nat),
                decreases values@.len() - i,
            {
                let ghost rest = values@.subrange(i as int, values@.len() as int);
                assert(rest[0] == values@[i as int]);
                assert(rest.subrange(1, rest.len() as int) =~= values@.subrange(i as int + 1, values@.len() as int));
                proof {
                    assert(decreases_to!(*node => *values));
                    assert(decreases_to!(*values => values@));
                    assert(decreases_to!(values@ => values@[i as int]));
                }
                match yaml_shape(&values[i], depth + 1, nodes) {
                    Ok(()) => {},
                    Err(e) => return Err(e),
                }
                i += 1;
            }
            assert(values@.subrange(i as int, values@.len() as int).len() == 0);
            Ok(())
        },
        YamlNode::Mapping(entries) => {
            let ghost start = *nodes;
            assert(entries@.subrange(0, entries@.len() as int) =~= entries@);
            assert(shape(*node, depth as nat, n0 as nat) == shape_map(entries@, (depth + 1) as nat, start as nat));
            let mut i: usize = 0;
            while i < entries.len()
                invariant
                    i <= entries@.len(),
                    shape(*node, depth as nat, n0 as nat) == shape_map(entries@, (depth + 1) as nat, start as nat),
                    n0 == *old(nodes),
                    *node == YamlNode::Mapping(*entries),
                    *nodes <= V2_MAX_YAML_NODES,
                    depth <= V2_MAX_YAML_DEPTH,
                    shape_map(entries@, (depth + 1) as nat, start as nat)
                        == shape_map(entries@.subrange(i as int, entries@.len() as int), (depth + 1) as nat, *nodes as nat),
                decreases entries@.len() - i,
            {
                let ghost rest = entries@.subrange(i as int, entries@.len() as int);
                assert(rest[0] == entries@[i as int]);
                assert(rest.subrange(1, rest.len() as int) =~= entries@.subrange(i as int + 1, entries@.len() as int));
                let entry = &entries[i];
                let is_string = match &entry.0 {
                    YamlNode::String(_) => true,
                    _ => false,
                };
                if !is_string {
                    return Err(ShapeError::NonStringKey);
                }
                proof {
                    assert(decreases_to!(*node => *entries));
                    assert(decreases_to!(*entries => entries@));
                    assert(decreases_to!(entries@ => entries@[i as int]));
                    assert(decreases_to!(entries@[i as int] => entries@[i as int].0));
                    assert(decreases_to!(entries@[i as int] => entries@[i as int].1));
                }
                match yaml_shape(&entry.0, depth + 1, nodes) {
                    Ok(()) => {},
                    Err(e) => return Err(e),
                }
                match yaml_shape(&entry.1, depth + 1, nodes) {
                    Ok(()) => {},
                    Err(e) => return Err(e),
                }
                i += 1;
            }
            assert(entries@.subrange(i as int, entries@.len() as int).len() == 0);
            Ok(())
        },
        YamlNode::Tagged => Err(ShapeError::CustomTag),
        _ => Ok(()),
    }
}

/// How a shape violation is reported.
pub open spec fn shape_refusal(path: Seq<char>, e: ShapeError) -> (ParentCorpusErrorCode, Seq<char>) {
    match e {
        ShapeError::TooManyNodes => (ParentCorpusErrorCode::LimitExceeded,
            limit_message("yaml-nodes"@, V2_MAX_YAML_NODES as nat, (V2_MAX_YAML_NODES + 1) as nat)),
        ShapeError::TooDeep => (ParentCorpusErrorCode::LimitExceeded,
            limit_message("yaml-depth"@, V2_MAX_YAML_DEPTH as nat, (V2_MAX_YAML_DEPTH + 1) as nat)),
        ShapeError::NonStringKey => (ParentCorpusErrorCode::MalformedManifest,
            malformed_message(path, "version 2 YAML mapping keys must be strings"@)),
        ShapeError::CustomTag => (ParentCorpusErrorCode::MalformedManifest,
            malformed_message(path, "version 2 YAML forbids custom tags"@)),
    }
}

/// Why the parsed YAML of a manifest section is refused, if it is: it must
/// be one mapping of the version-2 shape.
pub open spec fn yaml_refusal(path: Seq<char>, section: Seq<char>, node: YamlNode) -> Option<(ParentCorpusErrorCode, Seq<char>)> {
    if !(node is Mapping) {
        Some((ParentCorpusErrorCode::MalformedManifest, malformed_message(path, section + " YAML must be one mapping"@)))
    } else {
        match shape(node, 1, 0) {
            Ok(_) => None,
            Err(e) => Some(shape_refusal(path, e)),
        }
    }
}

/// Checks the parsed YAML of the manifest section `section` (such as
/// `## inherits`).
pub fn check_yaml_mapping(path: &str, section: &str, node: &YamlNode) -> (r: Result<(), ParentCorpusError>)
    ensures
        match yaml_refusal(path@, section@, *node) {
            None => r is Ok,
            Some((code, message)) => r matches Err(e) && e.code == code && e.message@ == message
                && (e.path matches Some(p) && p@ == path@),
        },
{
    let is_mapping = match node {
        YamlNode::Mapping(_) => true,
        _ => false,
    };
    if !is_mapping {
        let mut m = owned(section);
        push_str(&mut m, " YAML must be one mapping");
        return Err(malformed(path, m.as_str()));
    }
    let mut nodes: usize = 0;
    match yaml_shape(node, 1, &mut nodes) {
        Ok(()) => Ok(()),
        Err(ShapeError::TooManyNodes) => Err(limit_error(path, "yaml-nodes", V2_MAX_YAML_NODES, V2_MAX_YAML_NODES + 1)),
        Err(ShapeError::TooDeep) => Err(limit_error(path, "yaml-depth", V2_MAX_YAML_DEPTH, V2_MAX_YAML_DEPTH + 1)),
        Err(ShapeError::NonStringKey) => Err(malformed(path, "version 2 YAML mapping keys must be strings")),
        Err(ShapeError::CustomTag) => Err(malformed(path, "version 2 YAML forbids custom tags")),
    }
}

/// Why the parsed `## inherits` YAML of a version-1 manifest is refused
/// before its fields are read: a list of several parents, or anything but
/// one mapping.
pub open spec fn declaration_shape_refusal(path: Seq<char>, node: YamlNode) -> Option<(ParentCorpusErrorCode, Seq<char>)> {
    if node matches YamlNode::Sequence(items) && items@.len() > 1 {
        Some((ParentCorpusErrorCode::MultipleParents, "the first federation increment accepts exactly one direct parent mapping"@))
    } else if !(node is Mapping) {
        Some((ParentCorpusErrorCode::MalformedManifest, malformed_message(path, "## inherits YAML must be one mapping"@)))
    } else {
        None
    }
}

/// Checks the parsed `## inherits` YAML of a version-1 manifest.
pub fn check_declaration_shape(path: &str, node: &YamlNode) -> (r: Result<(), ParentCorpusError>)
    ensures
        match declaration_shape_refusal(path@, *node) {
            None => r is Ok,
            Some((code, message)) => r matches Err(e) && e.code == code && e.message@ == message
                && (e.path matches Some(p) && p@ == path@),
        },
{
    match node {
        YamlNode::Sequence(items) => {
            if items.len() > 1 {
                return Err(ParentCorpusError::at(ParentCorpusErrorCode::MultipleParents, path,
                    "the first federation increment accepts exactly one direct parent mapping"));
            }
            Err(malformed(path, "## inherits YAML must be one mapping"))
        },
        YamlNode::Mapping(_) => Ok(()),
        _ => Err(malformed(path, "## inherits YAML must be one mapping")),
    }
}

/// A parsed YAML value of `serde_yaml`, carried through unread.
#[verifier::external_type_specification]
#[verifier::external_body]
pub struct ExYamlValue(serde_yaml::Value);

/// What `serde_yaml` makes of a text: the parsed value, or its error's text.
pub uninterp spec fn yaml_parse(text: Seq<char>) -> Result<YamlNode, Seq<char>>;

/// The library's view of a parsed value: each variant one for one, a number
/// as its text, a tagged value as `Tagged`.
#[verifier::external_body]
fn yaml_node(value: &serde_yaml::Value) -> (r: YamlNode) {
    match value {
        serde_yaml::Value::Null => YamlNode::Null,
        serde_yaml::Value::Bool(b) => YamlNode::Bool(*b),
        serde_yaml::Value::Number(n) => YamlNode::Number(n.to_string()),
        serde_yaml::Value::String(s) => YamlNode::String(s.clone()),
        serde_yaml::Value::Sequence(items) => YamlNode::Sequence(items.iter().map(yaml_node).collect()),
        serde_yaml::Value::Mapping(entries) => YamlNode::Mapping(entries.iter().map(|(k, v)| (yaml_node(k), yaml_node(v))).collect()),
        serde_yaml::Value::Tagged(_) => YamlNode::Tagged,
    }
}

/// Parses YAML text with `serde_yaml::from_str` into a `serde_yaml::Value`.
/// Claimed: the library view of the parsed value, or the text of the parse
/// error, is a function of the text alone (named `yaml_parse`); the value is
/// returned beside its view.
#[verifier::external_body]
pub fn parse_yaml(text: &str) -> (r: Result<(serde_yaml::Value, YamlNode), String>)
    ensures
        match r {
            Ok((_, n)) => yaml_parse(text@) == Ok::<YamlNode, Seq<char>>(n),
            Err(m) => yaml_parse(text@) == Err::<YamlNode, Seq<char>>(m@),
        },
{
    match serde_yaml::from_str::<serde_yaml::Value>(text) {
        Ok(value) => {
            let node = yaml_node(&value);
            Ok((value, node))
        },
        Err(error) => Err(error.to_string()),
    }
}

/// Why one fenced block of a version-2 manifest section is refused: the
/// lexical rules first, then the parse, then the parsed value's shape.
pub open spec fn strict_v2_refusal(path: Seq<char>, yaml: Seq<char>, section: Seq<char>) -> Option<(ParentCorpusErrorCode, Seq<char>)> {
    match first_forbidden_line(lines_of(yaml), 0) {
        Some(i) => Some((ParentCorpusErrorCode::MalformedManifest, malformed_message(path,
            "version 2 YAML forbids anchors, aliases, custom tags, and merge keys (line "@ + decimal((i + 1) as nat) + ")"@))),
        None => match yaml_parse(yaml) {
            Err(m) => Some((ParentCorpusErrorCode::MalformedManifest, malformed_message(path, section + " YAML must be one mapping: "@ + m))),
            Ok(n) => yaml_refusal(path, section, n),
        },
    }
}

/// Parses one fenced block of a version-2 manifest section strictly.
pub fn parse_strict_v2_yaml(path: &str, yaml: &str, section: &str) -> (r: Result<(serde_yaml::Value, YamlNode), ParentCorpusError>)
    ensures
        match strict_v2_refusal(path@, yaml@, section@) {
            None => r matches Ok((_, n)) && yaml_parse(yaml@) == Ok::<YamlNode, Seq<char>>(n),
            Some((code, message)) => r matches Err(e) && e.code == code && e.message@ == message
                && (e.path matches Some(p) && p@ == path@),
        },
{
    match strict_yaml_lexical_check(path, yaml) {
        Err(e) => {
            return Err(e);
        },
        Ok(()) => {},
    }
    let (value, node) = match parse_yaml(yaml) {
        Err(m) => {
            let mut reason = owned(section);
            push_str(&mut reason, " YAML must be one mapping: ");
            push_str(&mut reason, m.as_str());
            return Err(malformed(path, reason.as_str()));
        },
        Ok(parsed) => parsed,
    };
    check_yaml_mapping(path, section, &node)?;
    Ok((value, node))
}

/// Why the `## inherits` block of a version-1 manifest is refused before its
/// fields are read: its parse fails, or its value is not one mapping.
pub open spec fn declaration_yaml_refusal(path: Seq<char>, yaml: Seq<char>) -> Option<(ParentCorpusErrorCode, Seq<char>)> {
    match yaml_parse(yaml) {
        Err(m) => Some((ParentCorpusErrorCode::MalformedManifest, malformed_message(path, "## inherits YAML must be one mapping: "@ + m))),
        Ok(n) => declaration_shape_refusal(path, n),
    }
}

/// Parses the `## inherits` block of a version-1 manifest and checks that it
/// declares one mapping.
pub fn parse_declaration_yaml(path: &str, yaml: &str) -> (r: Result<(serde_yaml::Value, YamlNode), ParentCorpusError>)
    ensures
        match declaration_yaml_refusal(path@, yaml@) {
            None => r matches Ok((_, n)) && yaml_parse(yaml@) == Ok::<YamlNode, Seq<char>>(n),
            Some((code, message)) => r matches Err(e) && e.code == code && e.message@ == message
                && (e.path matches Some(p) && p@ == path@),
        },
{
    let (value, node) = match parse_yaml(yaml) {
        Err(m) => {
            let mut reason = owned("## inherits YAML must be one mapping: ");
            push_str(&mut reason, m.as_str());
            return Err(malformed(path, reason.as_str()));
        },
        Ok(parsed) => parsed,
    };
    check_declaration_shape(path, &node)?;
    Ok((value, node))
}

} // verus!
