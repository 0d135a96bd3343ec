use vstd::prelude::*;

verus! {

/// Base address of the patchable data region in the normal image.
pub const NORMAL_BASE_ADDRESS: u64 = 0x6D50000;

/// Base address of the patchable data region in the HD image.
pub const HD_BASE_ADDRESS: u64 = 0x6D60000;

/// The two recognized target-image variants, each tied to a fixed base
/// address. The addresses are domain constants of the image layout and are
/// never derived dynamically.
#[derive(Clone, Copy, PartialEq, Eq, Structural, Debug)]
pub enum Variant {
    Normal,
    Hd,
}

/// A bad variant selector: anything but `h`, `H`, `n` or `N`.
#[derive(Clone, Copy, PartialEq, Eq, Structural, Debug)]
pub struct ConfigError;

impl Variant {
    /// The base address this variant maps to.
    pub open spec fn spec_base_address(self) -> u64 {
        match self {
            Variant::Normal => NORMAL_BASE_ADDRESS,
            Variant::Hd => HD_BASE_ADDRESS,
        }
    }

    /// Returns the fixed base address for this variant.
    pub fn base_address(self) -> (r: u64)
        ensures
            r == self.spec_base_address(),
    {
        match self {
            Variant::Normal => NORMAL_BASE_ADDRESS,
            Variant::Hd => HD_BASE_ADDRESS,
        }
    }
}

/// Which variant, if any, a selector string resolves to: exactly the
/// one-character strings `h`/`H` (HD) and `n`/`N` (normal) are recognized.
pub open spec fn spec_resolve_variant(s: Seq<char>) -> Option<Variant> {
    if s.len() == 1 && (s[0] == 'h' || s[0] == 'H') {
        Some(Variant::Hd)
    } else if s.len() == 1 && (s[0] == 'n' || s[0] == 'N') {
        Some(Variant::Normal)
    } else {
        None
    }
}

/// Resolves a selector string to a variant, case-insensitively; every other
/// string is a configuration error.
pub fn resolve_variant(s: &str) -> (r: Result<Variant, ConfigError>)
    ensures
        match r {
            Ok(v) => spec_resolve_variant(s@) == Some(v),
            Err(_) => spec_resolve_variant(s@) is None,
        },
{
    if s.unicode_len() == 1 {
        let c = s.get_char(0);
        if c == 'h' || c == 'H' {
            Ok(Variant::Hd)
        } else if c == 'n' || c == 'N' {
            Ok(Variant::Normal)
        } else {
            Err(ConfigError)
        }
    } else {
        Err(ConfigError)
    }
}

} // verus!
