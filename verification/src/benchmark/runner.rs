//! The quantization methods the benchmark harness compares.
use vstd::prelude::*;

use crate::rotor::Rotation;

verus! {

/// A method under benchmark: the baseline or one rotation kind.
#[derive(Clone, Copy, Debug, PartialEq, Eq, Structural)]
pub enum Method {
    TurboVec,
    RvPlanar2,
    RvRotor3,
    RvIso4,
}

/// The label a method's results are printed under (padded to one width
/// for the rotor methods).
pub open spec fn method_label(m: Method) -> Seq<char> {
    match m {
        Method::TurboVec => "turbovec"@,
        Method::RvPlanar2 => "rotorvec planar2"@,
        Method::RvRotor3 => "rotorvec rotor3 "@,
        Method::RvIso4 => "rotorvec iso4   "@,
    }
}

/// Every method, in the order the harness runs them.
pub open spec fn all_methods() -> Seq<Method> {
    seq![Method::TurboVec, Method::RvPlanar2, Method::RvRotor3, Method::RvIso4]
}

/// The rotation a rotor method builds its index with; the baseline has none.
pub open spec fn method_rotation(m: Method) -> Option<Rotation> {
    match m {
        Method::TurboVec => None,
        Method::RvPlanar2 => Some(Rotation::Planar2),
        Method::RvRotor3 => Some(Rotation::Rotor3),
        Method::RvIso4 => Some(Rotation::Iso4),
    }
}

impl Method {
    /// The method's printed label.
    pub fn label(&self) -> (s: &'static str)
        ensures
            s@ == method_label(*self),
    {
        proof {
            reveal_strlit("turbovec");
            reveal_strlit("rotorvec planar2");
            reveal_strlit("rotorvec rotor3 ");
            reveal_strlit("rotorvec iso4   ");
        }
        match self {
            Method::TurboVec => "turbovec",
            Method::RvPlanar2 => "rotorvec planar2",
            Method::RvRotor3 => "rotorvec rotor3 ",
            Method::RvIso4 => "rotorvec iso4   ",
        }
    }

    /// Every method, baseline first.
    pub fn all() -> (v: &'static [Method])
        ensures
            v@ == all_methods(),
    {
        let v: &'static [Method] = &[Method::TurboVec, Method::RvPlanar2, Method::RvRotor3, Method::RvIso4];
        assert(v@ =~= all_methods());
        v
    }

    /// The rotation of a rotor method, `None` for the baseline.
    pub fn rotation(&self) -> (r: Option<Rotation>)
        ensures
            r == method_rotation(*self),
    {
        match self {
            Method::TurboVec => None,
            Method::RvPlanar2 => Some(Rotation::Planar2),
            Method::RvRotor3 => Some(Rotation::Rotor3),
            Method::RvIso4 => Some(Rotation::Iso4),
        }
    }
}

} // verus!
