use riff_dag::classify::{classify_node_type, NodeType};

fn tags(ts: &[&str]) -> Vec<String> {
    ts.iter().map(|t| t.to_string()).collect()
}

#[test]
fn each_category_is_recognized() {
    assert_eq!(classify_node_type(&tags(&["prompt"])), NodeType::Prompt);
    assert_eq!(classify_node_type(&tags(&["response"])), NodeType::Response);
    assert_eq!(classify_node_type(&tags(&["tool"])), NodeType::Tool);
    assert_eq!(classify_node_type(&tags(&["error"])), NodeType::Error);
    assert_eq!(classify_node_type(&tags(&["event"])), NodeType::Event);
}

#[test]
fn no_tags_or_unmatched_tags_are_unknown() {
    assert_eq!(classify_node_type(&tags(&[])), NodeType::Unknown);
    assert_eq!(classify_node_type(&tags(&["misc", "other"])), NodeType::Unknown);
}

#[test]
fn matching_is_by_substring_and_case_insensitive() {
    assert_eq!(classify_node_type(&tags(&["TOOL-call"])), NodeType::Tool);
    assert_eq!(classify_node_type(&tags(&["MyPromptTag"])), NodeType::Prompt);
}

#[test]
fn first_matching_tag_wins() {
    assert_eq!(classify_node_type(&tags(&["misc", "tool", "error"])), NodeType::Tool);
    assert_eq!(classify_node_type(&tags(&["event", "prompt"])), NodeType::Event);
}

#[test]
fn category_priority_within_one_tag() {
    assert_eq!(
        classify_node_type(&tags(&["tool-prompt"])),
        NodeType::Prompt,
        "within a single tag the prompt category is checked first"
    );
}
