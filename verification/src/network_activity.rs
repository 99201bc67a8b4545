//! Which requests of a background tab could be held back.

use vstd::prelude::*;

verus! {

/// What a request is for.
#[derive(Debug, Clone, Copy, PartialEq, Eq, Structural, Hash)]
pub enum ResourceType {
    Document,
    Stylesheet,
    Image,
    Media,
    Font,
    Script,
    XhrOrFetch,
    WebSocket,
    Other,
}

/// Whether requests of some type could be held back.
#[derive(Debug, Clone, Copy, PartialEq, Eq, Structural, Hash)]
pub enum NetworkActivityClass {
    /// Never: holding them back would break what the user left running.
    Protected,
    /// If they look wasteful, which this alone does not say.
    Throttleable,
}

/// Whether requests of a type are never held back: an open socket, a stream that
/// is played, and a page that is loaded.
pub open spec fn is_protected(resource_type: ResourceType) -> bool {
    ||| resource_type == ResourceType::WebSocket
    ||| resource_type == ResourceType::Media
    ||| resource_type == ResourceType::Document
}

/// Whether requests of a type could be held back.
pub fn classify(resource_type: ResourceType) -> (r: NetworkActivityClass)
    ensures
        r == NetworkActivityClass::Protected <==> is_protected(resource_type),
        r == NetworkActivityClass::Throttleable <==> !is_protected(resource_type),
{
    match resource_type {
        ResourceType::WebSocket | ResourceType::Media | ResourceType::Document => {
            NetworkActivityClass::Protected
        },
        ResourceType::XhrOrFetch
        | ResourceType::Image
        | ResourceType::Script
        | ResourceType::Stylesheet
        | ResourceType::Font
        | ResourceType::Other => NetworkActivityClass::Throttleable,
    }
}

/// How many requests it takes to call them periodic: with three, the second
/// interval can bear the first out.
pub const MIN_SAMPLES_FOR_POLLING: usize = 3;

// ---------------------------------------------------------------------------
// Laws

/// What a page is made of could be held back, whatever it is; what is loaded, played
/// or kept open could not. Requests are called periodic where two intervals between
/// them are known.
pub proof fn parts_of_a_page_could_wait(t: ResourceType)
    ensures
        is_protected(t) <==> !(t is Stylesheet || t is Image || t is Font || t is Script
            || t is XhrOrFetch || t is Other),
        is_protected(t) <==> t is Document || t is Media || t is WebSocket,
        MIN_SAMPLES_FOR_POLLING - 1 == 2,
{
}

} // verus!
