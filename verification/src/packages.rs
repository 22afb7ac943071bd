//! Package derivation over dotted module names.
//!
//! A registered name `X` makes every strict dotted prefix of itself a
//! package: for each dot in `X`, the part before that dot. A name is a
//! package exactly when some registered name is a strict dotted descendant
//! of it.

use vstd::prelude::*;
use crate::blob::bytes_eq;

verus! {

/// The dot separator in module names.
pub open spec fn dot() -> u8 {
    46
}

/// `p` is the part of `n` before one of `n`'s dots.
pub open spec fn is_strict_dotted_prefix(p: Seq<u8>, n: Seq<u8>) -> bool {
    &&& p.len() < n.len()
    &&& n[p.len() as int] == dot()
    &&& p == n.subrange(0, p.len() as int)
}

/// Every strict dotted prefix of `n`.
pub open spec fn ancestors(n: Seq<u8>) -> Set<Seq<u8>> {
    Set::new(|p: Seq<u8>| is_strict_dotted_prefix(p, n))
}

/// The packages a set of registered names gives rise to.
pub open spec fn packages_of_set(names: Set<Seq<u8>>) -> Set<Seq<u8>> {
    Set::new(
        |p: Seq<u8>| exists|n: Seq<u8>| #[trigger] names.contains(n) && is_strict_dotted_prefix(p, n),
    )
}

/// The packages a list of registered names gives rise to.
pub open spec fn packages_of_names(names: Seq<Seq<u8>>) -> Set<Seq<u8>> {
    Set::new(
        |p: Seq<u8>| exists|k: int| 0 <= k < names.len() && is_strict_dotted_prefix(
            p,
            #[trigger] names[k],
        ),
    )
}

/// Two name lists with the same members give rise to the same packages:
/// derivation is insensitive to the order names are processed in and to
/// repetition among them.
pub proof fn lemma_packages_order_independent(ns1: Seq<Seq<u8>>, ns2: Seq<Seq<u8>>)
    requires
        forall|n: Seq<u8>| ns1.contains(n) <==> ns2.contains(n),
    ensures
        packages_of_names(ns1) == packages_of_names(ns2),
{
    assert forall|p: Seq<u8>| packages_of_names(ns1).contains(p) implies packages_of_names(
        ns2,
    ).contains(p) by {
        let k = choose|k: int| 0 <= k < ns1.len() && is_strict_dotted_prefix(p, #[trigger] ns1[k]);
        assert(ns1.contains(ns1[k]));
        assert(ns2.contains(ns1[k]));
        let j = choose|j: int| 0 <= j < ns2.len() && ns2[j] == ns1[k];
        assert(is_strict_dotted_prefix(p, ns2[j]));
    }
    assert forall|p: Seq<u8>| packages_of_names(ns2).contains(p) implies packages_of_names(
        ns1,
    ).contains(p) by {
        let k = choose|k: int| 0 <= k < ns2.len() && is_strict_dotted_prefix(p, #[trigger] ns2[k]);
        assert(ns2.contains(ns2[k]));
        assert(ns1.contains(ns2[k]));
        let j = choose|j: int| 0 <= j < ns1.len() && ns1[j] == ns2[k];
        assert(is_strict_dotted_prefix(p, ns1[j]));
    }
    assert(packages_of_names(ns1) =~= packages_of_names(ns2));
}

/// Processing a name list twice gives rise to the same packages as
/// processing it once: derivation is idempotent.
pub proof fn lemma_packages_idempotent(ns: Seq<Seq<u8>>)
    ensures
        packages_of_names(ns + ns) == packages_of_names(ns),
{
    assert forall|n: Seq<u8>| (ns + ns).contains(n) implies ns.contains(n) by {
        let k = choose|k: int| 0 <= k < (ns + ns).len() && (ns + ns)[k] == n;
        if k < ns.len() {
            assert(ns[k] == n);
        } else {
            assert(ns[k - ns.len()] == n);
        }
    }
    assert forall|n: Seq<u8>| ns.contains(n) implies (ns + ns).contains(n) by {
        let k = choose|k: int| 0 <= k < ns.len() && ns[k] == n;
        assert((ns + ns)[k] == n);
    }
    lemma_packages_order_independent(ns + ns, ns);
}

/// A set of names, held as a list without duplicates being significant:
/// the view is the set of members.
pub struct NameSet {
    names: Vec<Vec<u8>>,
}

impl View for NameSet {
    type V = Set<Seq<u8>>;

    closed spec fn view(&self) -> Set<Seq<u8>> {
        Set::new(
            |s: Seq<u8>| exists|i: int| 0 <= i < self.names@.len() && (#[trigger] self.names@[i])@
                == s,
        )
    }
}

impl NameSet {
    /// The empty set.
    pub fn new() -> (r: Self)
        ensures
            r@ == Set::<Seq<u8>>::empty(),
    {
        let r = NameSet { names: Vec::new() };
        proof {
            assert(r@ =~= Set::<Seq<u8>>::empty());
        }
        r
    }

    /// Membership test.
    pub fn contains(&self, name: &[u8]) -> (r: bool)
        ensures
            r == self@.contains(name@),
    {
        let n = self.names.len();
        let mut i: usize = 0;
        while i < n
            invariant
                n == self.names@.len(),
                i <= n,
                forall|j: int| 0 <= j < i ==> (#[trigger] self.names@[j])@ != name@,
            decreases n - i,
        {
            if bytes_eq(self.names[i].as_slice(), name) {
                assert(self@.contains(name@));
                return true;
            }
            i = i + 1;
        }
        false
    }

    /// Adds one name.
    pub fn insert(&mut self, name: Vec<u8>)
        ensures
            final(self)@ == old(self)@.insert(name@),
    {
        let ghost old_names = self.names@;
        let ghost added = name@;
        self.names.push(name);
        proof {
            assert forall|s: Seq<u8>| self@.contains(s) implies old(self)@.insert(added).contains(
                s,
            ) by {
                let i = choose|i: int| 0 <= i < self.names@.len() && (#[trigger] self.names@[i])@
                    == s;
                if i < old_names.len() {
                    assert(old_names[i]@ == s);
                }
            }
            assert forall|s: Seq<u8>| old(self)@.insert(added).contains(s) implies self@.contains(
                s,
            ) by {
                if s == added {
                    assert(self.names@[self.names@.len() - 1]@ == s);
                } else {
                    let i = choose|i: int| 0 <= i < old_names.len() && (#[trigger] old_names[i])@
                        == s;
                    assert(self.names@[i]@ == s);
                }
            }
            assert(self@ =~= old(self)@.insert(added));
        }
    }
}

/// Largest position below `end` where `name` holds a dot, if any.
fn rfind_dot(name: &[u8], end: usize) -> (r: Option<usize>)
    requires
        end <= name@.len(),
    ensures
        match r {
            Some(i) => i < end && name@[i as int] == dot() && (forall|j: int|
                i < j < end ==> name@[j] != dot()),
            None => forall|j: int| 0 <= j < end ==> name@[j] != dot(),
        },
{
    let mut idx = end;
    while idx > 0
        invariant
            end <= name@.len(),
            idx <= end,
            forall|j: int| idx <= j < end ==> name@[j] != dot(),
        decreases idx,
    {
        idx = idx - 1;
        if name[idx] == 46 {
            return Some(idx);
        }
    }
    None
}

/// An owned copy of `src[0 .. end]`.
fn copy_prefix(src: &[u8], end: usize) -> (r: Vec<u8>)
    requires
        end <= src@.len(),
    ensures
        r@ == src@.subrange(0, end as int),
{
    let mut r: Vec<u8> = Vec::new();
    let mut i: usize = 0;
    while i < end
        invariant
            end <= src@.len(),
            i <= end,
            r@ == src@.subrange(0, i as int),
        decreases end - i,
    {
        r.push(src[i]);
        proof {
            assert(r@ =~= src@.subrange(0, i + 1));
        }
        i = i + 1;
    }
    r
}

/// Adds to `packages` every strict dotted prefix of `name`: for each dot,
/// the part of `name` before it.
pub fn populate_packages(packages: &mut NameSet, name: &[u8])
    ensures
        final(packages)@ == old(packages)@.union(ancestors(name@)),
{
    let mut end: usize = name.len();
    proof {
        assert(Set::new(
            |p: Seq<u8>| exists|i: int| end <= i < name@.len() && name@[i] == dot() && p
                == name@.subrange(0, i),
        ) =~= Set::<Seq<u8>>::empty());
        assert(packages@ =~= packages@.union(Set::<Seq<u8>>::empty()));
    }
    loop
        invariant
            end <= name@.len(),
            packages@ == old(packages)@.union(
                Set::new(
                    |p: Seq<u8>| exists|i: int| end <= i < name@.len() && name@[i] == dot() && p
                        == name@.subrange(0, i),
                ),
            ),
        decreases end,
    {
        match rfind_dot(name, end) {
            Some(idx) => {
                let prefix = copy_prefix(name, idx);
                let ghost before = packages@;
                packages.insert(prefix);
                proof {
                    assert(packages@ =~= old(packages)@.union(
                        Set::new(
                            |p: Seq<u8>| exists|i: int| idx <= i < name@.len() && name@[i] == dot()
                                && p == name@.subrange(0, i),
                        ),
                    ));
                }
                end = idx;
            },
            None => {
                proof {
                    assert forall|p: Seq<u8>| ancestors(name@).contains(p) implies Set::new(
                        |q: Seq<u8>| exists|i: int| end <= i < name@.len() && name@[i] == dot() && q
                            == name@.subrange(0, i),
                    ).contains(p) by {
                        assert(name@[p.len() as int] == dot());
                        assert(p.len() >= end);
                        assert(p == name@.subrange(0, p.len() as int));
                    }
                    assert(Set::new(
                        |q: Seq<u8>| exists|i: int| end <= i < name@.len() && name@[i] == dot() && q
                            == name@.subrange(0, i),
                    ) =~= ancestors(name@));
                    assert(packages@ =~= old(packages)@.union(ancestors(name@)));
                }
                return ;
            },
        }
    }
}

} // verus!
