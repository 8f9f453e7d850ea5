use ipmes_rust::pattern::get_input_files;

#[test]
fn test_input_file_name_parsing() {
    assert_eq!(
        get_input_files("TTP11"),
        (
            "TTP11_node.json".to_string(),
            "TTP11_edge.json".to_string(),
            "TTP11_oRels.json".to_string()
        )
    );

    assert_eq!(
        get_input_files("TTP11_regex"),
        (
            "TTP11_regex_node.json".to_string(),
            "TTP11_regex_edge.json".to_string(),
            "TTP11_oRels.json".to_string()
        )
    );
}

#[test]
fn input_file_names_of_a_short_prefix() {
    assert_eq!(
        get_input_files(""),
        ("_node.json".to_string(), "_edge.json".to_string(), "_oRels.json".to_string())
    );
    assert_eq!(
        get_input_files("_regex"),
        ("_regex_node.json".to_string(), "_regex_edge.json".to_string(), "_oRels.json".to_string())
    );
    assert_eq!(
        get_input_files("a_regex_"),
        (
            "a_regex__node.json".to_string(),
            "a_regex__edge.json".to_string(),
            "a_regex__oRels.json".to_string()
        )
    );
}
