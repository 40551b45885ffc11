//! Runtime-tunable search parameters, exposed as UCI spin options so an
//! external tuner can vary them without rebuilding. Defaults equal the
//! long-standing constants, so behaviour (and `bench`) is unchanged out of the
//! box.
//!
//! Set via `setoption name <id> value <n>` (ids below, lower case).

use vstd::prelude::*;
use vstd::string::StringSliceAdditionalSpecFns;

verus! {

/// The tunable parameters.
#[derive(PartialEq, Eq, Structural, Clone, Copy, Debug)]
pub enum Param {
    /// LMR reduction: r = LmrBase/100 + ln(d)*ln(mc) / (LmrDiv/100)
    LmrBase,
    LmrDiv,
    /// reverse-futility margin per remaining ply (cp)
    RfpMargin,
    /// futility pruning margin: FutBase + FutScale * depth (cp)
    FutBase,
    FutScale,
    /// singular-extension margin (cp per ply, in hundredths)
    SeMargin,
}

/// Current values of all tunables.
#[derive(Clone, Copy, Debug)]
pub struct Tunables {
    pub lmr_base: i32,
    pub lmr_div: i32,
    pub rfp_margin: i32,
    pub fut_base: i32,
    pub fut_scale: i32,
    pub se_margin: i32,
}

pub open spec fn get_spec(t: Tunables, p: Param) -> i32 {
    match p {
        Param::LmrBase => t.lmr_base,
        Param::LmrDiv => t.lmr_div,
        Param::RfpMargin => t.rfp_margin,
        Param::FutBase => t.fut_base,
        Param::FutScale => t.fut_scale,
        Param::SeMargin => t.se_margin,
    }
}

/// `t` with parameter `p` set to `v`.
pub open spec fn with_spec(t: Tunables, p: Param, v: i32) -> Tunables {
    match p {
        Param::LmrBase => Tunables { lmr_base: v, ..t },
        Param::LmrDiv => Tunables { lmr_div: v, ..t },
        Param::RfpMargin => Tunables { rfp_margin: v, ..t },
        Param::FutBase => Tunables { fut_base: v, ..t },
        Param::FutScale => Tunables { fut_scale: v, ..t },
        Param::SeMargin => Tunables { se_margin: v, ..t },
    }
}

/// The parameter a lower-case UCI id names, given as bytes.
pub open spec fn param_of(name: Seq<u8>) -> Option<Param> {
    if name == seq![108u8, 109, 114, 98, 97, 115, 101] {
        Some(Param::LmrBase)  // "lmrbase"
    } else if name == seq![108u8, 109, 114, 100, 105, 118] {
        Some(Param::LmrDiv)  // "lmrdiv"
    } else if name == seq![114u8, 102, 112, 109, 97, 114, 103, 105, 110] {
        Some(Param::RfpMargin)  // "rfpmargin"
    } else if name == seq![102u8, 117, 116, 98, 97, 115, 101] {
        Some(Param::FutBase)  // "futbase"
    } else if name == seq![102u8, 117, 116, 115, 99, 97, 108, 101] {
        Some(Param::FutScale)  // "futscale"
    } else if name == seq![115u8, 101, 109, 97, 114, 103, 105, 110] {
        Some(Param::SeMargin)  // "semargin"
    } else {
        None
    }
}

/// Byte-wise equality of two slices.
pub fn bytes_eq(a: &[u8], b: &[u8]) -> (r: bool)
    ensures
        r == (a@ == b@),
{
    if a.len() != b.len() {
        return false;
    }
    let mut i: usize = 0;
    while i < a.len()
        invariant
            a.len() == b.len(),
            i <= a.len(),
            forall|j: int| 0 <= j < i ==> a@[j] == b@[j],
        decreases a.len() - i,
    {
        if a[i] != b[i] {
            return false;
        }
        i += 1;
    }
    assert(a@ =~= b@);
    true
}

/// The default values.
pub open spec fn default_spec() -> Tunables {
    Tunables {
        lmr_base: 75,
        lmr_div: 225,
        rfp_margin: 80,
        fut_base: 80,
        fut_scale: 120,
        se_margin: 200,
    }
}

impl Tunables {
    /// The default values.
    pub fn new() -> (r: Tunables)
        ensures
            r == default_spec(),
    {
        Tunables {
            lmr_base: 75,
            lmr_div: 225,
            rfp_margin: 80,
            fut_base: 80,
            fut_scale: 120,
            se_margin: 200,
        }
    }
}

/// Current value of a tunable.
pub fn get(t: &Tunables, p: Param) -> (r: i32)
    ensures
        r == get_spec(*t, p),
{
    match p {
        Param::LmrBase => t.lmr_base,
        Param::LmrDiv => t.lmr_div,
        Param::RfpMargin => t.rfp_margin,
        Param::FutBase => t.fut_base,
        Param::FutScale => t.fut_scale,
        Param::SeMargin => t.se_margin,
    }
}

/// The parameter named by a lower-case UCI id.
pub fn lookup(name: &str) -> (r: Option<Param>)
    ensures
        r == param_of(name.spec_bytes()),
{
    lookup_bytes(name.as_bytes())
}

/// The parameter named by a lower-case UCI id, given as bytes.
pub fn lookup_bytes(b: &[u8]) -> (r: Option<Param>)
    ensures
        r == param_of(b@),
{
    let lmrbase: [u8; 7] = [108, 109, 114, 98, 97, 115, 101];
    let lmrdiv: [u8; 6] = [108, 109, 114, 100, 105, 118];
    let rfpmargin: [u8; 9] = [114, 102, 112, 109, 97, 114, 103, 105, 110];
    let futbase: [u8; 7] = [102, 117, 116, 98, 97, 115, 101];
    let futscale: [u8; 8] = [102, 117, 116, 115, 99, 97, 108, 101];
    let semargin: [u8; 8] = [115, 101, 109, 97, 114, 103, 105, 110];
    proof {
        assert(lmrbase@ =~= seq![108u8, 109, 114, 98, 97, 115, 101]);
        assert(lmrdiv@ =~= seq![108u8, 109, 114, 100, 105, 118]);
        assert(rfpmargin@ =~= seq![114u8, 102, 112, 109, 97, 114, 103, 105, 110]);
        assert(futbase@ =~= seq![102u8, 117, 116, 98, 97, 115, 101]);
        assert(futscale@ =~= seq![102u8, 117, 116, 115, 99, 97, 108, 101]);
        assert(semargin@ =~= seq![115u8, 101, 109, 97, 114, 103, 105, 110]);
    }
    if bytes_eq(b, lmrbase.as_slice()) {
        Some(Param::LmrBase)
    } else if bytes_eq(b, lmrdiv.as_slice()) {
        Some(Param::LmrDiv)
    } else if bytes_eq(b, rfpmargin.as_slice()) {
        Some(Param::RfpMargin)
    } else if bytes_eq(b, futbase.as_slice()) {
        Some(Param::FutBase)
    } else if bytes_eq(b, futscale.as_slice()) {
        Some(Param::FutScale)
    } else if bytes_eq(b, semargin.as_slice()) {
        Some(Param::SeMargin)
    } else {
        None
    }
}

/// Apply a tunable by lower-case UCI id. Returns true if the id matched;
/// otherwise nothing changes.
pub fn set(t: &mut Tunables, name: &str, v: i32) -> (r: bool)
    ensures
        r == param_of(name.spec_bytes()).is_some(),
        match param_of(name.spec_bytes()) {
            Some(p) => *final(t) == with_spec(*old(t), p, v),
            None => *final(t) == *old(t),
        },
{
    match lookup(name) {
        Some(Param::LmrBase) => t.lmr_base = v,
        Some(Param::LmrDiv) => t.lmr_div = v,
        Some(Param::RfpMargin) => t.rfp_margin = v,
        Some(Param::FutBase) => t.fut_base = v,
        Some(Param::FutScale) => t.fut_scale = v,
        Some(Param::SeMargin) => t.se_margin = v,
        None => return false,
    }
    true
}

/// Setting a tunable and reading it back gives the value set; the other
/// tunables keep their values.
pub proof fn lemma_set_then_get(t: Tunables, p: Param, q: Param, v: i32)
    ensures
        get_spec(with_spec(t, p, v), q) == if p == q {
            v
        } else {
            get_spec(t, q)
        },
{
}

} // verus!
