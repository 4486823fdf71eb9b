//! Resource-type options as a bitmask: `$script,~image` restricts a rule to a
//! set of request types, stored as a `u16` so a compiled rule's type test is
//! one `AND`.

use vstd::prelude::*;

use crate::text::{eq_ignore_case, lower_seq};

verus! {

/// The type of resource an HTTP request fetches, as the proxy determines it.
#[derive(Debug, Clone, Copy, PartialEq, Eq, Structural)]
pub enum ResourceType {
    Document,
    Subdocument,
    Script,
    Stylesheet,
    Image,
    Font,
    Media,
    XmlHttpRequest,
    WebSocket,
    Ping,
    Object,
    Other,
    /// The proxy could not tell.
    Unknown,
}

/// Every bit [`bit_for_option`] can produce — what a purely negated set
/// (`~script,~image`) subtracts from.
pub const ALL_TYPES: u16 = 0x0FFF;

/// Equal ignoring ASCII case.
pub open spec fn eq_ci(a: Seq<char>, b: Seq<char>) -> bool {
    lower_seq(a) == lower_seq(b)
}

/// The bit for one `$option` name (case-insensitive, with its aliases), or
/// `None` when the name is not a resource type.
pub open spec fn spec_option_bit(name: Seq<char>) -> Option<u16> {
    if eq_ci(name, seq!['d', 'o', 'c', 'u', 'm', 'e', 'n', 't']) || eq_ci(name, seq!['d', 'o', 'c']) {
        Some(1)
    }     else if eq_ci(name, seq!['s', 'u', 'b', 'd', 'o', 'c', 'u', 'm', 'e', 'n', 't']) || eq_ci(name, seq!['f', 'r', 'a', 'm', 'e']) {
        Some(2)
    }     else if eq_ci(name, seq!['s', 'c', 'r', 'i', 'p', 't']) {
        Some(4)
    }     else if eq_ci(name, seq!['s', 't', 'y', 'l', 'e', 's', 'h', 'e', 'e', 't']) || eq_ci(name, seq!['c', 's', 's']) {
        Some(8)
    }     else if eq_ci(name, seq!['i', 'm', 'a', 'g', 'e']) || eq_ci(name, seq!['i', 'm', 'g']) {
        Some(16)
    }     else if eq_ci(name, seq!['f', 'o', 'n', 't']) {
        Some(32)
    }     else if eq_ci(name, seq!['m', 'e', 'd', 'i', 'a']) {
        Some(64)
    }     else if eq_ci(name, seq!['x', 'm', 'l', 'h', 't', 't', 'p', 'r', 'e', 'q', 'u', 'e', 's', 't']) || eq_ci(name, seq!['x', 'h', 'r']) {
        Some(128)
    }     else if eq_ci(name, seq!['w', 'e', 'b', 's', 'o', 'c', 'k', 'e', 't']) {
        Some(256)
    }     else if eq_ci(name, seq!['p', 'i', 'n', 'g']) || eq_ci(name, seq!['b', 'e', 'a', 'c', 'o', 'n']) {
        Some(512)
    }     else if eq_ci(name, seq!['o', 'b', 'j', 'e', 'c', 't']) {
        Some(1024)
    }     else if eq_ci(name, seq!['o', 't', 'h', 'e', 'r']) {
        Some(2048)
    } else {
        None
    }
}

/// The bit for one `$option` name (case-insensitive, with its aliases), or
/// `None` when the name is not a resource type — see [`spec_option_bit`].
pub fn bit_for_option(name: &str) -> (r: Option<u16>)
    ensures
        r == spec_option_bit(name@),
{
    let v = crate::text::chars_of(name);
    option_bit(v.as_slice())
}

/// [`bit_for_option`] of a name given as characters.
pub fn option_bit(name: &[char]) -> (r: Option<u16>)
    ensures
        r == spec_option_bit(name@),
{
    let n0_0 = ['d', 'o', 'c', 'u', 'm', 'e', 'n', 't'];
    proof {
        assert(n0_0@ == seq!['d', 'o', 'c', 'u', 'm', 'e', 'n', 't']);
    }
    let n0_1 = ['d', 'o', 'c'];
    proof {
        assert(n0_1@ == seq!['d', 'o', 'c']);
    }
    if eq_ignore_case(name, n0_0.as_slice()) || eq_ignore_case(name, n0_1.as_slice()) {
        return Some(1);
    }
    let n1_0 = ['s', 'u', 'b', 'd', 'o', 'c', 'u', 'm', 'e', 'n', 't'];
    proof {
        assert(n1_0@ == seq!['s', 'u', 'b', 'd', 'o', 'c', 'u', 'm', 'e', 'n', 't']);
    }
    let n1_1 = ['f', 'r', 'a', 'm', 'e'];
    proof {
        assert(n1_1@ == seq!['f', 'r', 'a', 'm', 'e']);
    }
    if eq_ignore_case(name, n1_0.as_slice()) || eq_ignore_case(name, n1_1.as_slice()) {
        return Some(2);
    }
    let n2_0 = ['s', 'c', 'r', 'i', 'p', 't'];
    proof {
        assert(n2_0@ == seq!['s', 'c', 'r', 'i', 'p', 't']);
    }
    if eq_ignore_case(name, n2_0.as_slice()) {
        return Some(4);
    }
    let n3_0 = ['s', 't', 'y', 'l', 'e', 's', 'h', 'e', 'e', 't'];
    proof {
        assert(n3_0@ == seq!['s', 't', 'y', 'l', 'e', 's', 'h', 'e', 'e', 't']);
    }
    let n3_1 = ['c', 's', 's'];
    proof {
        assert(n3_1@ == seq!['c', 's', 's']);
    }
    if eq_ignore_case(name, n3_0.as_slice()) || eq_ignore_case(name, n3_1.as_slice()) {
        return Some(8);
    }
    let n4_0 = ['i', 'm', 'a', 'g', 'e'];
    proof {
        assert(n4_0@ == seq!['i', 'm', 'a', 'g', 'e']);
    }
    let n4_1 = ['i', 'm', 'g'];
    proof {
        assert(n4_1@ == seq!['i', 'm', 'g']);
    }
    if eq_ignore_case(name, n4_0.as_slice()) || eq_ignore_case(name, n4_1.as_slice()) {
        return Some(16);
    }
    let n5_0 = ['f', 'o', 'n', 't'];
    proof {
        assert(n5_0@ == seq!['f', 'o', 'n', 't']);
    }
    if eq_ignore_case(name, n5_0.as_slice()) {
        return Some(32);
    }
    let n6_0 = ['m', 'e', 'd', 'i', 'a'];
    proof {
        assert(n6_0@ == seq!['m', 'e', 'd', 'i', 'a']);
    }
    if eq_ignore_case(name, n6_0.as_slice()) {
        return Some(64);
    }
    let n7_0 = ['x', 'm', 'l', 'h', 't', 't', 'p', 'r', 'e', 'q', 'u', 'e', 's', 't'];
    proof {
        assert(n7_0@ == seq!['x', 'm', 'l', 'h', 't', 't', 'p', 'r', 'e', 'q', 'u', 'e', 's', 't']);
    }
    let n7_1 = ['x', 'h', 'r'];
    proof {
        assert(n7_1@ == seq!['x', 'h', 'r']);
    }
    if eq_ignore_case(name, n7_0.as_slice()) || eq_ignore_case(name, n7_1.as_slice()) {
        return Some(128);
    }
    let n8_0 = ['w', 'e', 'b', 's', 'o', 'c', 'k', 'e', 't'];
    proof {
        assert(n8_0@ == seq!['w', 'e', 'b', 's', 'o', 'c', 'k', 'e', 't']);
    }
    if eq_ignore_case(name, n8_0.as_slice()) {
        return Some(256);
    }
    let n9_0 = ['p', 'i', 'n', 'g'];
    proof {
        assert(n9_0@ == seq!['p', 'i', 'n', 'g']);
    }
    let n9_1 = ['b', 'e', 'a', 'c', 'o', 'n'];
    proof {
        assert(n9_1@ == seq!['b', 'e', 'a', 'c', 'o', 'n']);
    }
    if eq_ignore_case(name, n9_0.as_slice()) || eq_ignore_case(name, n9_1.as_slice()) {
        return Some(512);
    }
    let n10_0 = ['o', 'b', 'j', 'e', 'c', 't'];
    proof {
        assert(n10_0@ == seq!['o', 'b', 'j', 'e', 'c', 't']);
    }
    if eq_ignore_case(name, n10_0.as_slice()) {
        return Some(1024);
    }
    let n11_0 = ['o', 't', 'h', 'e', 'r'];
    proof {
        assert(n11_0@ == seq!['o', 't', 'h', 'e', 'r']);
    }
    if eq_ignore_case(name, n11_0.as_slice()) {
        return Some(2048);
    }
    None
}

/// The bit of a resource type in [`ALL_TYPES`]; `Unknown` carries none.
pub open spec fn spec_request_bit(kind: ResourceType) -> u16 {
    match kind {
        ResourceType::Document => 1,
        ResourceType::Subdocument => 2,
        ResourceType::Script => 4,
        ResourceType::Stylesheet => 8,
        ResourceType::Image => 16,
        ResourceType::Font => 32,
        ResourceType::Media => 64,
        ResourceType::XmlHttpRequest => 128,
        ResourceType::WebSocket => 256,
        ResourceType::Ping => 512,
        ResourceType::Object => 1024,
        ResourceType::Other => 2048,
        ResourceType::Unknown => 0,
    }
}

/// The bit for a request's actual type. `Unknown` carries no bit: an
/// undetermined type matches neither `$script` nor `~script`.
pub fn bit_for_request(kind: ResourceType) -> (b: u16)
    ensures
        b == spec_request_bit(kind),
{
    match kind {
        ResourceType::Document => 1,
        ResourceType::Subdocument => 2,
        ResourceType::Script => 4,
        ResourceType::Stylesheet => 8,
        ResourceType::Image => 16,
        ResourceType::Font => 32,
        ResourceType::Media => 64,
        ResourceType::XmlHttpRequest => 128,
        ResourceType::WebSocket => 256,
        ResourceType::Ping => 512,
        ResourceType::Object => 1024,
        ResourceType::Other => 2048,
        ResourceType::Unknown => 0,
    }
}

} // verus!
