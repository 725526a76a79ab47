use dataset_tag_store::codec::{deserialize_tags, serialize_tags};

fn strings(v: Vec<&str>) -> Vec<String> {
    v.into_iter().map(|s| s.to_string()).collect()
}

#[test]
fn serialize_joins_with_period_space() {
    assert_eq!(serialize_tags(&strings(vec!["x", "y"])), "x. y");
    assert_eq!(serialize_tags(&strings(vec!["one"])), "one");
    assert_eq!(serialize_tags(&strings(vec!["a", "b", "c"])), "a. b. c");
}

#[test]
fn serialize_empty_list_is_empty_text() {
    assert_eq!(serialize_tags(&Vec::<String>::new()), "");
}

#[test]
fn serialize_does_not_escape_separator_in_tags() {
    // A tag containing the separator is written as-is: the encoding is
    // deliberately lossy for such tags.
    assert_eq!(serialize_tags(&strings(vec!["a.b", "c"])), "a.b. c");
}

#[test]
fn deserialize_splits_trims_and_drops_empties() {
    assert_eq!(deserialize_tags("x. y"), strings(vec!["x", "y"]));
    assert_eq!(deserialize_tags("  a .b.  c  "), strings(vec!["a", "b", "c"]));
    assert_eq!(deserialize_tags("a..b"), strings(vec!["a", "b"]));
    assert_eq!(deserialize_tags("."), Vec::<String>::new());
    assert_eq!(deserialize_tags("   "), Vec::<String>::new());
}

#[test]
fn deserialize_empty_text_is_zero_tags() {
    assert_eq!(deserialize_tags(""), Vec::<String>::new());
}

#[test]
fn deserialize_keeps_inner_whitespace() {
    assert_eq!(deserialize_tags("a cat. b dog"), strings(vec!["a cat", "b dog"]));
}

#[test]
fn reserializing_parsed_tags_is_stable() {
    // Whatever text a tag file holds, writing its parsed tags back and
    // parsing again reproduces the same tags.
    for text in ["", "  a .b.  c  ", ".x.", "a cat.  ", "...", "one"] {
        let tags = deserialize_tags(text);
        assert_eq!(deserialize_tags(&serialize_tags(&tags)), tags);
    }
}

#[test]
fn round_trip_preserves_clean_tags() {
    let tags = strings(vec!["blue sky", "tree", "golden hour"]);
    assert_eq!(deserialize_tags(&serialize_tags(&tags)), tags);
    let one = strings(vec!["solo"]);
    assert_eq!(deserialize_tags(&serialize_tags(&one)), one);
    let none: Vec<String> = Vec::new();
    assert_eq!(deserialize_tags(&serialize_tags(&none)), none);
}
