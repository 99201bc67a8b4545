//! Which requests of a background tab could be held back.

use velox_browser::network_activity::{classify, NetworkActivityClass, ResourceType};

#[test]
fn websocket_media_and_document_are_protected() {
    for resource_type in [
        ResourceType::WebSocket,
        ResourceType::Media,
        ResourceType::Document,
    ] {
        assert_eq!(
            classify(resource_type),
            NetworkActivityClass::Protected,
            "{resource_type:?} should be protected"
        );
    }
}

#[test]
fn everything_else_is_throttleable() {
    for resource_type in [
        ResourceType::XhrOrFetch,
        ResourceType::Image,
        ResourceType::Script,
        ResourceType::Stylesheet,
        ResourceType::Font,
        ResourceType::Other,
    ] {
        assert_eq!(
            classify(resource_type),
            NetworkActivityClass::Throttleable,
            "{resource_type:?} should be throttleable"
        );
    }
}
