//! Deterministic, human-readable rendering of the operator's policy.

use vstd::prelude::*;

use crate::data::NodeId;

verus! {

/// The decimal rendering of one digit.
pub open spec fn digit_seq(d: nat) -> Seq<char> {
    if d == 0 {
        "0"@
    } else if d == 1 {
        "1"@
    } else if d == 2 {
        "2"@
    } else if d == 3 {
        "3"@
    } else if d == 4 {
        "4"@
    } else if d == 5 {
        "5"@
    } else if d == 6 {
        "6"@
    } else if d == 7 {
        "7"@
    } else if d == 8 {
        "8"@
    } else {
        "9"@
    }
}

/// The decimal rendering of a number, most significant digit first.
pub open spec fn dec_str(n: nat) -> Seq<char>
    decreases n,
{
    if n < 10 {
        digit_seq(n)
    } else {
        dec_str(n / 10) + digit_seq(n % 10)
    }
}

/// The rendering of a node identifier: its form's letter, then its index.
pub open spec fn node_str(n: NodeId) -> Seq<char> {
    match n {
        NodeId::Global(i) => "g"@ + dec_str(i as nat),
        NodeId::Local(i) => "l"@ + dec_str(i as nat),
    }
}

fn digit_string(d: usize) -> (r: &'static str)
    requires
        d < 10,
    ensures
        r@ == digit_seq(d as nat),
{
    if d == 0 {
        "0"
    } else if d == 1 {
        "1"
    } else if d == 2 {
        "2"
    } else if d == 3 {
        "3"
    } else if d == 4 {
        "4"
    } else if d == 5 {
        "5"
    } else if d == 6 {
        "6"
    } else if d == 7 {
        "7"
    } else if d == 8 {
        "8"
    } else {
        "9"
    }
}

/// The decimal rendering of a number.
pub fn dec_string(n: usize) -> (r: String)
    ensures
        r@ == dec_str(n as nat),
    decreases n,
{
    if n < 10 {
        String::from_str(digit_string(n))
    } else {
        let mut s = dec_string(n / 10);
        s.append(digit_string(n % 10));
        s
    }
}

impl NodeId {
    /// The identifier's rendering: its form's letter, then its index.
    pub fn render(&self) -> (r: String)
        ensures
            r@ == node_str(*self),
    {
        match self {
            NodeId::Global(i) => {
                let mut s = String::from_str("g");
                let d = dec_string(*i);
                s.append(d.as_str());
                s
            },
            NodeId::Local(i) => {
                let mut s = String::from_str("l");
                let d = dec_string(*i);
                s.append(d.as_str());
                s
            },
        }
    }
}

/// The order in which ancestors are listed: global identifiers first, then
/// local ones, each group by index.
pub open spec fn node_le(a: NodeId, b: NodeId) -> bool {
    match (a, b) {
        (NodeId::Global(x), NodeId::Global(y)) => x <= y,
        (NodeId::Global(_), NodeId::Local(_)) => true,
        (NodeId::Local(_), NodeId::Global(_)) => false,
        (NodeId::Local(x), NodeId::Local(y)) => x <= y,
    }
}

/// Decide the listing order of two identifiers.
pub fn node_le_exec(a: NodeId, b: NodeId) -> (r: bool)
    ensures
        r == node_le(a, b),
{
    match (a, b) {
        (NodeId::Global(x), NodeId::Global(y)) => x <= y,
        (NodeId::Global(_), NodeId::Local(_)) => true,
        (NodeId::Local(_), NodeId::Global(_)) => false,
        (NodeId::Local(x), NodeId::Local(y)) => x <= y,
    }
}

} // verus!
