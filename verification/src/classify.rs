//! Tag-based classification of a node into a small closed set of visual
//! categories: a pure first-match-wins lookup over the tags in order.

use vstd::prelude::*;
use crate::text::{chars_vec, contains_chars, contains_seq, lower_of, lowercase};

verus! {

/// The visual category of a node.
#[derive(Debug, Clone, Copy, PartialEq, Eq, Structural)]
pub enum NodeType {
    Prompt,
    Response,
    Tool,
    Error,
    Event,
    Unknown,
}

/// The category a single tag names, by case-insensitive substring match,
/// with the earlier categories taking priority.
pub open spec fn tag_class(t: Seq<char>) -> NodeType {
    let l = lower_of(t);
    if contains_seq(l, "prompt"@) {
        NodeType::Prompt
    } else if contains_seq(l, "response"@) {
        NodeType::Response
    } else if contains_seq(l, "tool"@) {
        NodeType::Tool
    } else if contains_seq(l, "error"@) {
        NodeType::Error
    } else if contains_seq(l, "event"@) {
        NodeType::Event
    } else {
        NodeType::Unknown
    }
}

/// First-match-wins over the tags in order: the first tag that names a
/// category decides; a node with no such tag is `Unknown`.
pub open spec fn classify_spec(tags: Seq<Seq<char>>) -> NodeType
    decreases tags.len(),
{
    if tags.len() == 0 {
        NodeType::Unknown
    } else if tag_class(tags.first()) != NodeType::Unknown {
        tag_class(tags.first())
    } else {
        classify_spec(tags.drop_first())
    }
}

/// Classifies a node by its tags.
pub fn classify_node_type(tags: &Vec<String>) -> (r: NodeType)
    ensures
        r == classify_spec(tags.deep_view()),
{
    let ghost dv = tags.deep_view();
    let needle_prompt = chars_vec("prompt");
    let needle_response = chars_vec("response");
    let needle_tool = chars_vec("tool");
    let needle_error = chars_vec("error");
    let needle_event = chars_vec("event");
    let n = tags.len();
    proof {
        assert(dv.subrange(0, n as int) =~= dv);
    }
    let mut i: usize = 0;
    while i < n
        invariant
            i <= n,
            n == tags@.len(),
            dv == tags.deep_view(),
            dv.len() == n,
            needle_prompt@ == "prompt"@,
            needle_response@ == "response"@,
            needle_tool@ == "tool"@,
            needle_error@ == "error"@,
            needle_event@ == "event"@,
            classify_spec(dv) == classify_spec(dv.subrange(i as int, n as int)),
        decreases n - i,
    {
        let low = lowercase(tags[i].as_str());
        let lv = chars_vec(low.as_str());
        proof {
            assert(dv[i as int] == tags@[i as int]@);
            assert(lv@ == lower_of(dv[i as int]));
            assert(dv.subrange(i as int, n as int).first() == dv[i as int]);
            assert(dv.subrange(i as int, n as int).drop_first() =~= dv.subrange(
                i + 1,
                n as int,
            ));
        }
        if contains_chars(&lv, &needle_prompt) {
            return NodeType::Prompt;
        }
        if contains_chars(&lv, &needle_response) {
            return NodeType::Response;
        }
        if contains_chars(&lv, &needle_tool) {
            return NodeType::Tool;
        }
        if contains_chars(&lv, &needle_error) {
            return NodeType::Error;
        }
        if contains_chars(&lv, &needle_event) {
            return NodeType::Event;
        }
        proof {
            assert(tag_class(dv[i as int]) == NodeType::Unknown);
        }
        i += 1;
    }
    proof {
        assert(dv.subrange(n as int, n as int) =~= Seq::<Seq<char>>::empty());
    }
    NodeType::Unknown
}

} // verus!
