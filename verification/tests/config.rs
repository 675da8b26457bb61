use streams_subscriber::config::{node_from_config, ConfigError};

#[test]
fn node_is_read_from_the_config_object() {
    assert_eq!(
        node_from_config("{\"node\":\"https://example-node\"}"),
        Ok("https://example-node".to_string())
    );
}

#[test]
fn extra_fields_do_not_matter() {
    assert_eq!(
        node_from_config("{\"node\":\"https://example-node\",\"other\":3}"),
        Ok("https://example-node".to_string())
    );
}

#[test]
fn invalid_json_is_rejected() {
    assert_eq!(node_from_config("not json"), Err(ConfigError::BadJson));
    assert_eq!(node_from_config(""), Err(ConfigError::BadJson));
}

#[test]
fn missing_or_non_string_node_is_rejected() {
    assert_eq!(node_from_config("{}"), Err(ConfigError::MissingNode));
    assert_eq!(
        node_from_config("{\"node\":5}"),
        Err(ConfigError::MissingNode)
    );
    assert_eq!(node_from_config("[1,2]"), Err(ConfigError::MissingNode));
}
