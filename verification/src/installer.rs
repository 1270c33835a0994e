//! What an installation puts in place: the modules of a load order, each at
//! its latest version. Writing them to disk is left to the caller.

use vstd::prelude::*;
use crate::catalog::{Catalog, has_latest, latest_module};
use crate::error::CatalogError;
use crate::graph::{reaches, reaches_cycle};
use crate::module::{TechModule, strings_view};
use crate::version::version_text;
use crate::resolver::{DependencyResolver, is_load_order, load_edge, cycle_edge, walk, WalkEnd};

verus! {

/// The unit that gathers installation planning.
pub struct ModuleInstaller;

impl ModuleInstaller {
    /// The modules to install for `module_name`, in install order: the latest
    /// version of each name of the load order that `DependencyResolver::resolve`
    /// gives. Fails as `resolve` does.
    pub fn plan_install(module_name: &str, catalog: &Catalog) -> (r: Result<Vec<TechModule>, CatalogError>)
        ensures
            reaches_cycle(cycle_edge(catalog@), module_name@) ==> (r matches Err(
                CatalogError::CircularDependency(n),
            ) && n@ == module_name@),
            !reaches_cycle(cycle_edge(catalog@), module_name@) ==> match walk(
                catalog@,
                module_name@,
                Seq::empty(),
                Seq::empty(),
            ) {
                WalkEnd::Finished(order) => {
                    &&& is_load_order(catalog@, module_name@, order)
                    &&& r matches Ok(ms)
                    &&& ms@.len() == order.len()
                    &&& forall|i: int|
                        0 <= i < order.len() ==> (#[trigger] ms@[i])@ == latest_module(
                            catalog@,
                            order[i],
                        )@
                },
                WalkEnd::Missing(x) => {
                    &&& r matches Err(CatalogError::ModuleNotFound(n)) && n@ == x
                    &&& reaches(load_edge(catalog@), module_name@, x)
                    &&& !has_latest(catalog@, x)
                },
                WalkEnd::Cycle => {
                    &&& r matches Err(CatalogError::CircularDependency(n)) && n@ == module_name@
                    &&& reaches_cycle(load_edge(catalog@), module_name@)
                },
                WalkEnd::Conflict(d, q) => {
                    &&& r matches Err(CatalogError::VersionConflict { module, required, available })
                        && module@ == d && required@ == q && available@ == version_text(
                        latest_module(catalog@, d).version,
                    )
                    &&& reaches(load_edge(catalog@), module_name@, d)
                    &&& has_latest(catalog@, d)
                },
            },
    {
        let order = DependencyResolver::resolve(module_name, catalog)?;
        let ghost o = strings_view(order@);
        let mut out: Vec<TechModule> = Vec::new();
        let mut i: usize = 0;
        while i < order.len()
            invariant
                i <= order@.len(),
                o == strings_view(order@),
                is_load_order(catalog@, module_name@, o),
                out@.len() == i,
                forall|k: int| 0 <= k < i ==> (#[trigger] out@[k])@ == latest_module(catalog@, o[k])@,
            decreases order.len() - i,
        {
            proof {
                assert(o[i as int] == order@[i as int]@);
                assert(has_latest(catalog@, o[i as int]));
            }
            let m = match catalog.get_latest(order[i].as_str()) {
                Ok(m) => m,
                Err(e) => {
                    return Err(e);
                },
            };
            out.push(m.clone());
            i = i + 1;
        }
        Ok(out)
    }
}

} // verus!
