use vstd::prelude::*;

use vstd::string::StringSliceAdditionalSpecFns;

use crate::bytes::{bytes_eq, views};

verus! {

/// What a group must say of supplementary alignments to be kept.
#[derive(Clone, Copy, Debug, PartialEq, Eq, Structural)]
pub enum Mode {
    /// No constraint.
    Unset,
    /// Keep only groups with a supplementary alignment.
    Sel,
    /// Keep only groups without one.
    Del,
}

/// A value given for an option that it cannot take.
#[derive(Clone, Copy, Debug, PartialEq, Eq, Structural)]
pub enum ConfigError {
    /// The supplementary mode is neither `sel` nor `del`.
    UnrecognizedMode,
}

/// The bytes of the word `sel`.
pub open spec fn sel_word() -> Seq<u8> {
    seq![115u8, 101u8, 108u8]
}

/// The bytes of the word `del`.
pub open spec fn del_word() -> Seq<u8> {
    seq![100u8, 101u8, 108u8]
}

impl Mode {
    /// Reads a supplementary mode: `sel` or `del`.
    pub fn from_str(s: &str) -> (r: Result<Mode, ConfigError>)
        ensures
            r == (if s.spec_bytes() == sel_word() {
                Ok::<Mode, ConfigError>(Mode::Sel)
            } else if s.spec_bytes() == del_word() {
                Ok(Mode::Del)
            } else {
                Err(ConfigError::UnrecognizedMode)
            }),
    {
        let b = s.as_bytes();
        if b.len() == 3 && b[1] == 101 && b[2] == 108 {
            if b[0] == 115 {
                assert(b@ =~= sel_word());
                return Ok(Mode::Sel);
            } else if b[0] == 100 {
                assert(b@ =~= del_word());
                return Ok(Mode::Del);
            }
        }
        Err(ConfigError::UnrecognizedMode)
    }
}

/// The rules that a group must meet to be written out.
pub struct FilterParam {
    /// Constraint on supplementary alignments.
    pub supplementary: Mode,
    /// The group's length must be greater than this.
    pub greater_len: u32,
    /// The group's length must be smaller than this.
    pub smaller_len: u32,
    /// When present, the identifiers a group may have.
    pub qname_input: Option<Vec<Vec<u8>>>,
    /// Whether the identifier of each group written out is reported.
    pub qname_output: bool,
}

/// Whether the parameters hold their default values: no constraint on
/// supplementary alignments, the widest bounds, no allow-list.
pub open spec fn is_default(p: FilterParam) -> bool {
    &&& p.supplementary == Mode::Unset
    &&& p.greater_len == 0
    &&& p.smaller_len == u32::MAX
    &&& p.qname_input is None
}

/// Whether `qname` may pass the allow-list of `p`.
pub open spec fn allowed(p: FilterParam, qname: Seq<u8>) -> bool {
    match p.qname_input {
        Some(list) => views(list@).contains(qname),
        None => true,
    }
}

impl FilterParam {
    /// Parameters that keep every group of a length strictly between
    /// 0 and `u32::MAX`, and report no identifier.
    pub fn new() -> (r: FilterParam)
        ensures
            is_default(r),
            !r.qname_output,
    {
        FilterParam {
            supplementary: Mode::Unset,
            greater_len: 0,
            smaller_len: u32::MAX,
            qname_input: None,
            qname_output: false,
        }
    }
}

/// Whether `name` is one of `list`.
pub fn contains_name(list: &Vec<Vec<u8>>, name: &[u8]) -> (r: bool)
    ensures
        r == views(list@).contains(name@),
{
    let mut i: usize = 0;
    while i < list.len()
        invariant
            i <= list@.len(),
            forall|j: int| 0 <= j < i ==> list@[j]@ != name@,
        decreases list@.len() - i,
    {
        if bytes_eq(list[i].as_slice(), name) {
            assert(views(list@)[i as int] == name@);
            return true;
        }
        i = i + 1;
    }
    assert(!views(list@).contains(name@)) by {
        if views(list@).contains(name@) {
            let k = choose|k: int| 0 <= k < views(list@).len() && views(list@)[k] == name@;
            assert(list@[k]@ == name@);
        }
    }
    false
}

} // verus!
