use vstd::prelude::*;
use vstd::string::*;

verus! {

/// The evaluation rule of a function box, selected by the box's name.
#[derive(Debug, Clone, Copy, PartialEq, Eq, Structural)]
pub enum GateKind {
    /// Output is high unless every input is high.
    Nand,
    /// Constant high source.
    One,
    /// Constant low source.
    Zero,
    /// A name with no evaluation rule.
    Unsupported,
}

/// The evaluation rule that a box name selects.
pub open spec fn gate_kind_of(name: Seq<char>) -> GateKind {
    if name == "nand"@ {
        GateKind::Nand
    } else if name == "1"@ {
        GateKind::One
    } else if name == "0"@ {
        GateKind::Zero
    } else {
        GateKind::Unsupported
    }
}

/// Character-wise equality of two strings.
pub fn same_text(a: &str, b: &str) -> (r: bool)
    ensures
        r == (a@ == b@),
{
    let n = a.unicode_len();
    if n != b.unicode_len() {
        return false;
    }
    let mut i: usize = 0;
    while i < n
        invariant
            n == a@.len(),
            n == b@.len(),
            i <= n,
            forall|k: int| 0 <= k < i ==> a@[k] == b@[k],
        decreases n - i,
    {
        if a.get_char(i) != b.get_char(i) {
            return false;
        }
        i += 1;
    }
    assert(a@ =~= b@);
    true
}

impl GateKind {
    pub fn from_name(name: &str) -> (r: GateKind)
        ensures
            r == gate_kind_of(name@),
    {
        if same_text(name, "nand") {
            GateKind::Nand
        } else if same_text(name, "1") {
            GateKind::One
        } else if same_text(name, "0") {
            GateKind::Zero
        } else {
            GateKind::Unsupported
        }
    }
}

} // verus!
