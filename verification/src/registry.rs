//! The read-only module registry.
//!
//! Built once from two blobs — module source text and compiled code — the
//! registry holds one name-to-payload mapping per blob plus the derived
//! set of package names, and answers the four queries an import mechanism
//! needs. Payloads handed out are borrowed views of the backing blobs.

use vstd::prelude::*;
use crate::blob::{ModuleMap, ParseError, parse_modules_blob, parse_result};
use crate::packages::{
    NameSet, packages_of_set, packages_of_names, is_strict_dotted_prefix, ancestors,
    populate_packages,
};

verus! {

/// The requested name is not in the queried mapping: a normal lookup
/// outcome, not a failure of the registry.
#[derive(Clone, Copy, Debug, PartialEq, Eq, Structural)]
pub struct NotFound;

/// Adds to `packages` the packages every entry name of `m` gives rise to.
fn add_map_packages(packages: &mut NameSet, m: &ModuleMap)
    ensures
        final(packages)@ == old(packages)@.union(packages_of_names(m.names_seq())),
{
    let n = m.entry_count();
    let mut i: usize = 0;
    proof {
        assert(packages_of_names(m.names_seq().take(0)) =~= Set::<Seq<u8>>::empty());
        assert(packages@ =~= packages@.union(packages_of_names(m.names_seq().take(0))));
    }
    while i < n
        invariant
            n as int == m.names_seq().len(),
            i <= n,
            packages@ == old(packages)@.union(packages_of_names(m.names_seq().take(i as int))),
        decreases n - i,
    {
        let name = m.entry_name(i);
        populate_packages(packages, name.as_slice());
        proof {
            let names = m.names_seq();
            let prev = packages_of_names(names.take(i as int));
            let next = packages_of_names(names.take(i + 1));
            assert forall|p: Seq<u8>| next.contains(p) implies prev.union(
                ancestors(names[i as int]),
            ).contains(p) by {
                let k = choose|k: int| 0 <= k < names.take(i + 1).len() && is_strict_dotted_prefix(
                    p,
                    #[trigger] names.take(i + 1)[k],
                );
                if k < i as int {
                    assert(names.take(i as int)[k] == names.take(i + 1)[k]);
                } else {
                    assert(names.take(i + 1)[k] == names[i as int]);
                }
            }
            assert forall|p: Seq<u8>| prev.union(ancestors(names[i as int])).contains(p) implies next
                .contains(p) by {
                if prev.contains(p) {
                    let k = choose|k: int| 0 <= k < names.take(i as int).len()
                        && is_strict_dotted_prefix(p, #[trigger] names.take(i as int)[k]);
                    assert(names.take(i + 1)[k] == names.take(i as int)[k]);
                } else {
                    assert(names.take(i + 1)[i as int] == names[i as int]);
                }
            }
            assert(packages@ =~= old(packages)@.union(next));
        }
        i = i + 1;
    }
    proof {
        assert(m.names_seq().take(n as int) =~= m.names_seq());
    }
}

/// An immutable lookup object over two blobs: a "source" mapping, a
/// "compiled code" mapping, and the package names both together give rise
/// to.
pub struct ModuleRegistry<'a> {
    source_data: &'a [u8],
    code_data: &'a [u8],
    source_modules: ModuleMap,
    code_modules: ModuleMap,
    packages: NameSet,
}

impl<'a> ModuleRegistry<'a> {
    /// The two mappings lie inside their blobs, and the package set is
    /// exactly what the registered names of both mappings give rise to.
    pub closed spec fn wf(self) -> bool {
        &&& self.source_modules.wf(self.source_data@)
        &&& self.code_modules.wf(self.code_data@)
        &&& self.packages@ == packages_of_set(
            self.source_map().dom().union(self.code_map().dom()),
        )
    }

    /// The source mapping: module name to source-text payload.
    pub closed spec fn source_map(self) -> Map<Seq<u8>, Seq<u8>> {
        self.source_modules.as_map(self.source_data@)
    }

    /// The compiled-code mapping: module name to code payload.
    pub closed spec fn code_map(self) -> Map<Seq<u8>, Seq<u8>> {
        self.code_modules.as_map(self.code_data@)
    }

    /// The derived set of package names.
    pub closed spec fn package_set(self) -> Set<Seq<u8>> {
        self.packages@
    }

    /// A name is a package exactly when some registered name of either
    /// mapping is a strict dotted descendant of it.
    pub proof fn lemma_packages_derived(self)
        requires
            self.wf(),
        ensures
            self.package_set() == packages_of_set(
                self.source_map().dom().union(self.code_map().dom()),
            ),
    {
    }

    /// Parses both blobs and derives the package set. Fails with the error
    /// of the first blob that does not parse, the source blob tried first;
    /// on success the registry's mappings are exactly what the two blobs
    /// denote.
    pub fn build(source_data: &'a [u8], code_data: &'a [u8]) -> (r: Result<
        ModuleRegistry<'a>,
        ParseError,
    >)
        ensures
            match r {
                Ok(reg) => {
                    &&& reg.wf()
                    &&& parse_result(source_data@) == Ok::<Map<Seq<u8>, Seq<u8>>, ParseError>(
                        reg.source_map(),
                    )
                    &&& parse_result(code_data@) == Ok::<Map<Seq<u8>, Seq<u8>>, ParseError>(
                        reg.code_map(),
                    )
                },
                Err(e) => parse_result(source_data@) == Err::<Map<Seq<u8>, Seq<u8>>, ParseError>(e)
                    || (parse_result(source_data@) is Ok && parse_result(code_data@) == Err::<
                    Map<Seq<u8>, Seq<u8>>,
                    ParseError,
                >(e)),
            },
    {
        let source_modules = match parse_modules_blob(source_data) {
            Ok(m) => m,
            Err(e) => {
                return Err(e);
            },
        };
        let code_modules = match parse_modules_blob(code_data) {
            Ok(m) => m,
            Err(e) => {
                return Err(e);
            },
        };
        let mut packages = NameSet::new();
        add_map_packages(&mut packages, &source_modules);
        add_map_packages(&mut packages, &code_modules);
        proof {
            source_modules.lemma_dom_is_names(source_data@);
            code_modules.lemma_dom_is_names(code_data@);
            let s_names = source_modules.names_seq();
            let c_names = code_modules.names_seq();
            let doms = source_modules.as_map(source_data@).dom().union(
                code_modules.as_map(code_data@).dom(),
            );
            assert forall|p: Seq<u8>| packages@.contains(p) implies packages_of_set(doms).contains(
                p,
            ) by {
                if packages_of_names(s_names).contains(p) {
                    let k = choose|k: int| 0 <= k < s_names.len() && is_strict_dotted_prefix(
                        p,
                        #[trigger] s_names[k],
                    );
                    assert(s_names.contains(s_names[k]));
                    assert(doms.contains(s_names[k]));
                } else {
                    let k = choose|k: int| 0 <= k < c_names.len() && is_strict_dotted_prefix(
                        p,
                        #[trigger] c_names[k],
                    );
                    assert(c_names.contains(c_names[k]));
                    assert(doms.contains(c_names[k]));
                }
            }
            assert forall|p: Seq<u8>| packages_of_set(doms).contains(p) implies packages@.contains(
                p,
            ) by {
                let n = choose|n: Seq<u8>| #[trigger] doms.contains(n) && is_strict_dotted_prefix(
                    p,
                    n,
                );
                if source_modules.as_map(source_data@).dom().contains(n) {
                    assert(s_names.contains(n));
                    let k = choose|k: int| 0 <= k < s_names.len() && s_names[k] == n;
                    assert(is_strict_dotted_prefix(p, s_names[k]));
                    assert(packages_of_names(s_names).contains(p));
                } else {
                    assert(c_names.contains(n));
                    let k = choose|k: int| 0 <= k < c_names.len() && c_names[k] == n;
                    assert(is_strict_dotted_prefix(p, c_names[k]));
                    assert(packages_of_names(c_names).contains(p));
                }
            }
            assert(packages@ =~= packages_of_set(doms));
        }
        Ok(
            ModuleRegistry {
                source_data,
                code_data,
                source_modules,
                code_modules,
                packages,
            },
        )
    }

    /// Payload of `name` in the source mapping, a borrowed view of the
    /// source blob, or `NotFound` if the name is absent.
    pub fn get_source(&self, name: &[u8]) -> (r: Result<&'a [u8], NotFound>)
        requires
            self.wf(),
        ensures
            match r {
                Ok(v) => self.source_map().dom().contains(name@) && v@ == self.source_map()[name@],
                Err(_) => !self.source_map().dom().contains(name@),
            },
    {
        match self.source_modules.get(self.source_data, name) {
            Some(v) => Ok(v),
            None => Err(NotFound),
        }
    }

    /// Payload of `name` in the compiled-code mapping, a borrowed view of
    /// the code blob, or `NotFound` if the name is absent.
    pub fn get_code(&self, name: &[u8]) -> (r: Result<&'a [u8], NotFound>)
        requires
            self.wf(),
        ensures
            match r {
                Ok(v) => self.code_map().dom().contains(name@) && v@ == self.code_map()[name@],
                Err(_) => !self.code_map().dom().contains(name@),
            },
    {
        match self.code_modules.get(self.code_data, name) {
            Some(v) => Ok(v),
            None => Err(NotFound),
        }
    }

    /// Whether `name` is registered in either mapping.
    pub fn has_module(&self, name: &[u8]) -> (r: bool)
        requires
            self.wf(),
        ensures
            r == (self.source_map().dom().contains(name@) || self.code_map().dom().contains(
                name@,
            )),
    {
        match self.source_modules.get(self.source_data, name) {
            Some(_) => true,
            None => match self.code_modules.get(self.code_data, name) {
                Some(_) => true,
                None => false,
            },
        }
    }

    /// Whether `name` is a package: some other registered name descends
    /// from it.
    pub fn is_package(&self, name: &[u8]) -> (r: bool)
        requires
            self.wf(),
        ensures
            r == self.package_set().contains(name@),
    {
        self.packages.contains(name)
    }
}

/// A registry whose two mappings are empty knows no module and no package.
pub proof fn lemma_empty_registry<'a>(reg: ModuleRegistry<'a>)
    requires
        reg.wf(),
        reg.source_map() == Map::<Seq<u8>, Seq<u8>>::empty(),
        reg.code_map() == Map::<Seq<u8>, Seq<u8>>::empty(),
    ensures
        forall|name: Seq<u8>| !reg.source_map().dom().contains(name),
        forall|name: Seq<u8>| !reg.code_map().dom().contains(name),
        forall|name: Seq<u8>| !reg.package_set().contains(name),
{
    reg.lemma_packages_derived();
    let doms = reg.source_map().dom().union(reg.code_map().dom());
    assert forall|name: Seq<u8>| !reg.package_set().contains(name) by {
        if packages_of_set(doms).contains(name) {
            let n = choose|n: Seq<u8>| #[trigger] doms.contains(n) && is_strict_dotted_prefix(
                name,
                n,
            );
            assert(false);
        }
    }
}

} // verus!
