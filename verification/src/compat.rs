//! Platform compatibility reports: whether a module declares support for a
//! platform, and warnings about its memory needs there.

use vstd::prelude::*;
use crate::module::{TechModule, supports};
use crate::platform::{Platform, platform_name};
use crate::text::{decimal, append_decimal};
use crate::version::version_text;

verus! {

/// The result of checking one module against one platform.
#[derive(Debug)]
pub struct CompatibilityReport {
    pub module_name: String,
    pub module_version: String,
    pub platform: Platform,
    pub compatible: bool,
    pub issues: Vec<String>,
    pub warnings: Vec<String>,
}

/// The issue raised when a module does not declare support for a platform.
pub open spec fn unsupported_issue(name: Seq<char>, p: Platform) -> Seq<char> {
    "Module "@ + name + " does not declare support for "@ + platform_name(p)
}

/// The warnings about a module's memory needs on a platform: above 64 MB on
/// an embedded target and above 512 MB in a browser; none elsewhere.
pub open spec fn ram_warnings(min_ram_mb: Option<u32>, p: Platform) -> Seq<Seq<char>> {
    match min_ram_mb {
        Some(r) => {
            if p == Platform::Embedded && r > 64 {
                seq![
                    "Module requires "@ + decimal(r as nat)
                        + "MB RAM \u{2014} may exceed typical embedded constraints"@,
                ]
            } else if p == Platform::Browser && r > 512 {
                seq![
                    "Module requires "@ + decimal(r as nat)
                        + "MB RAM \u{2014} may impact browser performance"@,
                ]
            } else {
                Seq::empty()
            }
        },
        None => Seq::empty(),
    }
}

/// `r` is the report of module `m` on platform `p`.
pub open spec fn is_report_for(r: CompatibilityReport, m: TechModule, p: Platform) -> bool {
    &&& r.module_name@ == m.name@
    &&& r.module_version@ == version_text(m.version)
    &&& r.platform == p
    &&& r.compatible == supports(m, p)
    &&& r.issues@.map_values(|s: String| s@) == (if supports(m, p) {
        Seq::<Seq<char>>::empty()
    } else {
        seq![unsupported_issue(m.name@, p)]
    })
    &&& r.warnings@.map_values(|s: String| s@) == ram_warnings(m.min_ram_mb, p)
}

/// `Module requires <r>MB RAM — <tail>`.
fn ram_warning(r: u32, tail: &str) -> (s: String)
    ensures
        s@ == "Module requires "@ + decimal(r as nat) + "MB RAM \u{2014} "@ + tail@,
{
    let mut s = String::from_str("Module requires ");
    append_decimal(&mut s, r as u64);
    s.append("MB RAM \u{2014} ");
    s.append(tail);
    s
}

impl CompatibilityReport {
    /// Checks `module` against `platform`: it is compatible where it supports
    /// the platform, and otherwise carries one issue saying so; a memory need
    /// above 64 MB on an embedded target, or above 512 MB in a browser, adds a
    /// warning.
    pub fn new(module: &TechModule, platform: Platform) -> (r: CompatibilityReport)
        ensures
            is_report_for(r, *module, platform),
    {
        let mut issues: Vec<String> = Vec::new();
        let mut warnings: Vec<String> = Vec::new();
        let compatible = module.supports_platform(platform);
        if !compatible {
            let mut s = String::from_str("Module ");
            s.append(module.name.as_str());
            s.append(" does not declare support for ");
            s.append(platform.as_str());
            issues.push(s);
        }
        match module.min_ram_mb {
            Some(min_ram) => {
                match platform {
                    Platform::Embedded => {
                        if min_ram > 64 {
                            let w = ram_warning(min_ram, "may exceed typical embedded constraints");
                            proof {
                                reveal_strlit("MB RAM \u{2014} ");
                                reveal_strlit("may exceed typical embedded constraints");
                                reveal_strlit("MB RAM \u{2014} may exceed typical embedded constraints");
                                assert(w@ =~= "Module requires "@ + decimal(min_ram as nat)
                                    + "MB RAM \u{2014} may exceed typical embedded constraints"@);
                            }
                            warnings.push(w);
                        }
                    },
                    Platform::Browser => {
                        if min_ram > 512 {
                            let w = ram_warning(min_ram, "may impact browser performance");
                            proof {
                                reveal_strlit("MB RAM \u{2014} ");
                                reveal_strlit("may impact browser performance");
                                reveal_strlit("MB RAM \u{2014} may impact browser performance");
                                assert(w@ =~= "Module requires "@ + decimal(min_ram as nat)
                                    + "MB RAM \u{2014} may impact browser performance"@);
                            }
                            warnings.push(w);
                        }
                    },
                    _ => {},
                }
            },
            None => {},
        }
        let r = CompatibilityReport {
            module_name: module.name.clone(),
            module_version: module.version.to_string(),
            platform,
            compatible,
            issues,
            warnings,
        };
        proof {
            assert(r.issues@.map_values(|s: String| s@) =~= (if supports(*module, platform) {
                Seq::<Seq<char>>::empty()
            } else {
                seq![unsupported_issue(module.name@, platform)]
            }));
            assert(r.warnings@.map_values(|s: String| s@) =~= ram_warnings(module.min_ram_mb, platform));
        }
        r
    }
}

/// The unit that gathers compatibility checks.
pub struct CompatibilityChecker;

impl CompatibilityChecker {
    /// The compatibility report of `module` on `platform`.
    pub fn check(module: &TechModule, platform: Platform) -> (r: CompatibilityReport)
        ensures
            is_report_for(r, *module, platform),
    {
        CompatibilityReport::new(module, platform)
    }

    /// The report of each module on `platform`, in the order of `modules`.
    pub fn check_all(modules: &[TechModule], platform: Platform) -> (r: Vec<CompatibilityReport>)
        ensures
            r@.len() == modules@.len(),
            forall|i: int| 0 <= i < modules@.len() ==> is_report_for(#[trigger] r@[i], modules@[i], platform),
    {
        let mut out: Vec<CompatibilityReport> = Vec::new();
        let mut i: usize = 0;
        while i < modules.len()
            invariant
                i <= modules@.len(),
                out@.len() == i,
                forall|k: int| 0 <= k < i ==> is_report_for(#[trigger] out@[k], modules@[k], platform),
            decreases modules@.len() - i,
        {
            let rep = Self::check(&modules[i], platform);
            out.push(rep);
            i = i + 1;
        }
        out
    }
}

} // verus!
