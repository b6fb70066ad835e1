use ramus_core::mcp::mcp_disabled_message;

#[test]
fn mcp_disabled_message_is_none_when_enabled_and_some_when_disabled() {
    assert!(mcp_disabled_message(true).is_none());
    assert!(mcp_disabled_message(false).is_some());
}

#[test]
fn mcp_disabled_message_points_to_the_settings() {
    assert!(mcp_disabled_message(false).unwrap().contains("Impostazioni → MCP"));
}
