use vstd::prelude::*;
use vstd::string::StringExecFns;

verus! {

/// The double 0.0001, by which the value axis is widened at both ends.
pub const DOMAIN_PADDING: u64 = 0x3f1a_36e2_eb1c_432d;

/// The double 0.0001, the tolerance of an approximate match that names none.
pub const DEFAULT_EPSILON: u64 = 0x3f1a_36e2_eb1c_432d;

/// Colour of a point whose group names none.
pub const DEFAULT_COLOR: &'static str = "";

/// The characters of [`DEFAULT_COLOR`]: none.
pub open spec fn default_color() -> Seq<char> {
    Seq::empty()
}

/// A fresh string holding [`DEFAULT_COLOR`].
pub fn default_color_string() -> (color: String)
    ensures
        color@ == default_color(),
{
    proof {
        reveal_strlit("");
    }
    let color = String::from_str(DEFAULT_COLOR);
    assert(color@ =~= default_color());
    color
}

} // verus!
