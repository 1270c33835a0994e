//! Target platforms a module may declare support for.

use vstd::prelude::*;

verus! {

/// A deployment target of a module.
#[derive(Debug, Clone, Copy, PartialEq, Eq, Structural, Hash)]
pub enum Platform {
    Browser,
    Embedded,
    Cloud,
    Desktop,
}

/// The lowercase name of a platform, as it is displayed and serialised.
pub open spec fn platform_name(p: Platform) -> Seq<char> {
    match p {
        Platform::Browser => "browser"@,
        Platform::Embedded => "embedded"@,
        Platform::Cloud => "cloud"@,
        Platform::Desktop => "desktop"@,
    }
}

impl Platform {
    /// Every platform, in declaration order.
    pub fn all() -> (r: Vec<Platform>)
        ensures
            r@ == seq![Platform::Browser, Platform::Embedded, Platform::Cloud, Platform::Desktop],
    {
        vec![Platform::Browser, Platform::Embedded, Platform::Cloud, Platform::Desktop]
    }

    /// The lowercase name of the platform.
    pub fn as_str(&self) -> (r: &'static str)
        ensures
            r@ == platform_name(*self),
    {
        match self {
            Platform::Browser => "browser",
            Platform::Embedded => "embedded",
            Platform::Cloud => "cloud",
            Platform::Desktop => "desktop",
        }
    }

    /// The lowercase name of the platform as an owned string (its display form).
    pub fn to_string(&self) -> (r: String)
        ensures
            r@ == platform_name(*self),
    {
        String::from_str(self.as_str())
    }
}

} // verus!
