//! The repository model: package records parsed out of `primary.xml`,
//! and the providers index mapping a capability name to the packages
//! that supply it.
//!
//! A `PackageId` is the package's position in the package vector, and the
//! index is fully characterised by `providers_seq`: for every capability
//! name, the ids of the providing packages in insertion order — packages
//! in id order, each contributing one id per matching `provides` entry,
//! plus one for its own name when it does not list itself.
use vstd::prelude::*;

verus! {

pub type IdT = usize;

pub struct Version {
    pub epoch: u64,
    pub ver: String,
    pub rel: String,
}

pub struct VersionView {
    pub epoch: u64,
    pub ver: Seq<char>,
    pub rel: Seq<char>,
}

impl View for Version {
    type V = VersionView;

    open spec fn view(&self) -> VersionView {
        VersionView { epoch: self.epoch, ver: self.ver@, rel: self.rel@ }
    }
}

/// One capability reference inside a provides / requires / conflicts /
/// obsoletes list. Only `name` takes part in matching; the remaining
/// fields are recorded, not interpreted.
#[derive(Clone)]
pub struct RpmEntry {
    pub name: String,
    pub flags: Option<String>,
    pub epoch: Option<u64>,
    pub ver: Option<String>,
    pub rel: Option<String>,
}

pub struct EntryView {
    pub name: Seq<char>,
    pub flags: Option<Seq<char>>,
    pub epoch: Option<u64>,
    pub ver: Option<Seq<char>>,
    pub rel: Option<Seq<char>>,
}

impl View for RpmEntry {
    type V = EntryView;

    open spec fn view(&self) -> EntryView {
        EntryView {
            name: self.name@,
            flags: match self.flags {
                Some(s) => Some(s@),
                None => None,
            },
            epoch: self.epoch,
            ver: match self.ver {
                Some(s) => Some(s@),
                None => None,
            },
            rel: match self.rel {
                Some(s) => Some(s@),
                None => None,
            },
        }
    }
}

/// The view of a list of entry records.
pub open spec fn rpm_entries_view(v: Seq<RpmEntry>) -> Seq<EntryView> {
    Seq::new(v.len(), |i: int| v[i]@)
}

#[derive(Clone)]
pub struct Entries {
    pub entries: Vec<RpmEntry>,
}

impl View for Entries {
    type V = Seq<EntryView>;

    open spec fn view(&self) -> Seq<EntryView> {
        rpm_entries_view(self.entries@)
    }
}

pub struct Format {
    pub provides: Option<Entries>,
    pub requires: Option<Entries>,
    pub conflicts: Option<Entries>,
    pub obsoletes: Option<Entries>,
}

pub struct FormatView {
    pub provides: Option<Seq<EntryView>>,
    pub requires: Option<Seq<EntryView>>,
    pub conflicts: Option<Seq<EntryView>>,
    pub obsoletes: Option<Seq<EntryView>>,
}

impl View for Format {
    type V = FormatView;

    open spec fn view(&self) -> FormatView {
        FormatView {
            provides: match self.provides {
                Some(ref e) => Some(e@),
                None => None,
            },
            requires: match self.requires {
                Some(ref e) => Some(e@),
                None => None,
            },
            conflicts: match self.conflicts {
                Some(ref e) => Some(e@),
                None => None,
            },
            obsoletes: match self.obsoletes {
                Some(ref e) => Some(e@),
                None => None,
            },
        }
    }
}

pub struct Package {
    pub name: String,
    pub version: Version,
    pub format: Format,
}

pub struct PackageView {
    pub name: Seq<char>,
    pub version: VersionView,
    pub format: FormatView,
}

impl View for Package {
    type V = PackageView;

    open spec fn view(&self) -> PackageView {
        PackageView { name: self.name@, version: self.version@, format: self.format@ }
    }
}

pub open spec fn packages_view(v: Seq<Package>) -> Seq<PackageView> {
    Seq::new(v.len(), |i: int| v[i]@)
}

/// The provides entries of a package, or empty when the section is absent.
pub open spec fn prov_entries(p: PackageView) -> Seq<EntryView> {
    match p.format.provides {
        Some(es) => es,
        None => Seq::empty(),
    }
}

pub open spec fn req_entries(p: PackageView) -> Seq<EntryView> {
    match p.format.requires {
        Some(es) => es,
        None => Seq::empty(),
    }
}

pub open spec fn con_entries(p: PackageView) -> Seq<EntryView> {
    match p.format.conflicts {
        Some(es) => es,
        None => Seq::empty(),
    }
}

pub open spec fn obs_entries(p: PackageView) -> Seq<EntryView> {
    match p.format.obsoletes {
        Some(es) => es,
        None => Seq::empty(),
    }
}

/// How many entries of a list name the capability `n`.
pub open spec fn entries_count(es: Seq<EntryView>, n: Seq<char>) -> nat
    decreases es.len(),
{
    if es.len() == 0 {
        0
    } else {
        entries_count(es.drop_last(), n) + (if es.last().name == n {
            1nat
        } else {
            0nat
        })
    }
}

/// How many times the package at one id is listed as a provider of `n`:
/// once per matching `provides` entry, plus once for its own name when no
/// entry already names it.
pub open spec fn provide_count(p: PackageView, n: Seq<char>) -> nat {
    entries_count(prov_entries(p), n) + (if p.name == n && entries_count(prov_entries(p), n) == 0 {
        1nat
    } else {
        0nat
    })
}

pub open spec fn repeat_id(id: usize, k: nat) -> Seq<IdT> {
    Seq::new(k, |_j: int| id)
}

/// The providers of capability `n`, in index insertion order.
pub open spec fn providers_seq(pkgs: Seq<PackageView>, n: Seq<char>) -> Seq<IdT>
    decreases pkgs.len(),
{
    if pkgs.len() == 0 {
        Seq::empty()
    } else {
        providers_seq(pkgs.drop_last(), n) + repeat_id(
            (pkgs.len() - 1) as usize,
            provide_count(pkgs.last(), n),
        )
    }
}

/// Every recorded provider id is a valid package id.
pub proof fn lemma_providers_seq_bounds(pkgs: Seq<PackageView>, n: Seq<char>)
    ensures
        forall|k: int|
            0 <= k < providers_seq(pkgs, n).len() ==> (#[trigger] providers_seq(pkgs, n)[k])
                < pkgs.len(),
    decreases pkgs.len(),
{
    if pkgs.len() > 0 {
        lemma_providers_seq_bounds(pkgs.drop_last(), n);
        let pre = providers_seq(pkgs.drop_last(), n);
        let rep = repeat_id((pkgs.len() - 1) as usize, provide_count(pkgs.last(), n));
        assert(providers_seq(pkgs, n) == pre + rep);
        assert forall|k: int|
            0 <= k < providers_seq(pkgs, n).len() implies (#[trigger] providers_seq(pkgs, n)[k])
            < pkgs.len() by {
            if k < pre.len() {
                assert(providers_seq(pkgs, n)[k] == pre[k]);
            } else {
                assert(providers_seq(pkgs, n)[k] == rep[k - pre.len()]);
            }
        }
    }
}

/// The first package id whose name is `name`, scanning from position `i`.
pub open spec fn spec_find_from(pkgs: Seq<PackageView>, name: Seq<char>, i: int) -> Option<IdT>
    decreases pkgs.len() - i,
{
    if i < 0 || i >= pkgs.len() {
        None
    } else if pkgs[i].name == name {
        Some(i as usize)
    } else {
        spec_find_from(pkgs, name, i + 1)
    }
}

/// The lowest package id whose name is `name`.
pub open spec fn spec_find_by_name(pkgs: Seq<PackageView>, name: Seq<char>) -> Option<IdT> {
    spec_find_from(pkgs, name, 0)
}

pub proof fn lemma_spec_find_from_props(pkgs: Seq<PackageView>, name: Seq<char>, i: int)
    requires
        0 <= i <= pkgs.len(),
        pkgs.len() <= usize::MAX,
    ensures
        match spec_find_from(pkgs, name, i) {
            Some(id) => i <= id < pkgs.len() && pkgs[id as int].name == name && forall|j: int|
                i <= j < id ==> (#[trigger] pkgs[j]).name != name,
            None => forall|j: int| i <= j < pkgs.len() ==> (#[trigger] pkgs[j]).name != name,
        },
    decreases pkgs.len() - i,
{
    if i >= pkgs.len() {
        assert(spec_find_from(pkgs, name, i) is None);
    } else if pkgs[i].name == name {
        assert(spec_find_from(pkgs, name, i) == Some(i as usize));
    } else {
        lemma_spec_find_from_props(pkgs, name, i + 1);
        assert(spec_find_from(pkgs, name, i) == spec_find_from(pkgs, name, i + 1));
        match spec_find_from(pkgs, name, i) {
            Some(id) => {
                assert forall|j: int| i <= j < id implies (#[trigger] pkgs[j]).name != name by {
                    if j == i {
                        assert(pkgs[i].name != name);
                    }
                }
            },
            None => {
                assert forall|j: int| i <= j < pkgs.len() implies (#[trigger] pkgs[j]).name
                    != name by {
                    if j == i {
                        assert(pkgs[i].name != name);
                    }
                }
            },
        }
    }
}

/// A capability name's providers list is matched by the first association
/// entry that carries the name, or empty when none does.
pub open spec fn assoc_lookup(a: Seq<(String, Vec<IdT>)>, n: Seq<char>) -> Seq<IdT>
    decreases a.len(),
{
    if a.len() == 0 {
        Seq::empty()
    } else if a[0].0@ == n {
        a[0].1@
    } else {
        assoc_lookup(a.drop_first(), n)
    }
}

/// The repository: the parsed package vector, owning PackageId order, and
/// the providers index built once after parsing.
pub struct Repo {
    pub packages: Vec<Package>,
    pub providers: Vec<(String, Vec<IdT>)>,
}

impl View for Repo {
    type V = Seq<PackageView>;

    open spec fn view(&self) -> Seq<PackageView> {
        packages_view(self.packages@)
    }
}

impl Repo {
    /// The providers index holds, for every capability name, exactly the
    /// providers that `providers_seq` prescribes, and never an empty list.
    pub closed spec fn wf(&self) -> bool {
        &&& forall|n: Seq<char>|
            #[trigger] assoc_lookup(self.providers@, n) == providers_seq(self@, n)
        &&& forall|k: int|
            0 <= k < self.providers@.len() ==> (#[trigger] self.providers@[k]).1@.len() > 0
    }

    pub fn packages(&self) -> (r: &Vec<Package>)
        ensures
            r@.len() == self@.len(),
            forall|i: int| 0 <= i < r@.len() ==> (#[trigger] r@[i])@ == self@[i],
    {
        &self.packages
    }

    pub fn package_count(&self) -> (n: usize)
        ensures
            n == self@.len(),
    {
        self.packages.len()
    }

    /// The lowest package id bearing the queried name, if any.
    #[verifier::loop_isolation(false)]
    pub fn get_package_id_by_name(&self, name: &str) -> (r: Option<IdT>)
        ensures
            r == spec_find_by_name(self@, name@),
            match r {
                Some(id) => id < self@.len() && self@[id as int].name == name@,
                None => forall|j: int| 0 <= j < self@.len() ==> (#[trigger] self@[j]).name != name@,
            },
    {
        let mut i: usize = 0;
        while i < self.packages.len()
            invariant
                0 <= i <= self@.len(),
                self@.len() == self.packages@.len(),
                spec_find_from(self@, name@, 0) == spec_find_from(self@, name@, i as int),
            decreases self@.len() - i,
        {
            if crate::text::str_eq(self.packages[i].name.as_str(), name) {
                proof {
                    lemma_spec_find_from_props(self@, name@, 0);
                }
                return Some(i);
            }
            i = i + 1;
        }
        proof {
            lemma_spec_find_from_props(self@, name@, 0);
        }
        None
    }

    pub fn get_package_requires_by_id<'a>(&'a self, package_id: IdT) -> (r: Option<
        &'a Vec<RpmEntry>,
    >)
        ensures
            r is Some <==> (package_id < self@.len() && self@[package_id as int].format.requires
                is Some),
            r is Some ==> rpm_entries_view(r->Some_0@) == req_entries(self@[package_id as int]),
    {
        if package_id < self.packages.len() {
            match self.packages[package_id].format.requires {
                Some(ref e) => Some(&e.entries),
                None => None,
            }
        } else {
            None
        }
    }

    pub fn get_package_conflicts_by_id<'a>(&'a self, package_id: IdT) -> (r: Option<
        &'a Vec<RpmEntry>,
    >)
        ensures
            r is Some <==> (package_id < self@.len() && self@[package_id as int].format.conflicts
                is Some),
            r is Some ==> rpm_entries_view(r->Some_0@) == con_entries(self@[package_id as int]),
    {
        if package_id < self.packages.len() {
            match self.packages[package_id].format.conflicts {
                Some(ref e) => Some(&e.entries),
                None => None,
            }
        } else {
            None
        }
    }

    pub fn get_package_obsoletes_by_id<'a>(&'a self, package_id: IdT) -> (r: Option<
        &'a Vec<RpmEntry>,
    >)
        ensures
            r is Some <==> (package_id < self@.len() && self@[package_id as int].format.obsoletes
                is Some),
            r is Some ==> rpm_entries_view(r->Some_0@) == obs_entries(self@[package_id as int]),
    {
        if package_id < self.packages.len() {
            match self.packages[package_id].format.obsoletes {
                Some(ref e) => Some(&e.entries),
                None => None,
            }
        } else {
            None
        }
    }

    /// The ids providing the entry's capability, by name only.
    #[verifier::loop_isolation(false)]
    pub fn get_entry_provider_id<'a>(&'a self, entry: &RpmEntry) -> (r: Option<&'a Vec<IdT>>)
        requires
            self.wf(),
        ensures
            r is Some <==> providers_seq(self@, entry@.name).len() > 0,
            r is Some ==> (r->Some_0)@ == providers_seq(self@, entry@.name),
    {
        proof {
            assert(self.providers@.skip(0) =~= self.providers@);
        }
        let mut j: usize = 0;
        while j < self.providers.len()
            invariant
                0 <= j <= self.providers@.len(),
                assoc_lookup(self.providers@, entry@.name) == assoc_lookup(
                    self.providers@.skip(j as int),
                    entry@.name,
                ),
            decreases self.providers@.len() - j,
        {
            proof {
                assert(self.providers@.skip(j as int).drop_first() =~= self.providers@.skip(
                    j + 1,
                ));
            }
            if crate::text::str_eq(self.providers[j].0.as_str(), entry.name.as_str()) {
                return Some(&self.providers[j].1);
            }
            j = j + 1;
        }
        proof {
            assert(self.providers@.skip(self.providers@.len() as int) =~= Seq::empty());
        }
        None
    }
}

proof fn lemma_find_from_some(pkgs: Seq<PackageView>, name: Seq<char>, j: int, i: int)
    requires
        0 <= j <= i < pkgs.len(),
        pkgs[i].name == name,
    ensures
        spec_find_from(pkgs, name, j) is Some,
    decreases i - j,
{
    if pkgs[j].name != name {
        lemma_find_from_some(pkgs, name, j + 1, i);
    }
}

/// Self-provide closure: every package in the index can be found under
/// its own name.
pub proof fn lemma_find_by_name_self(pkgs: Seq<PackageView>, i: int)
    requires
        0 <= i < pkgs.len(),
    ensures
        spec_find_by_name(pkgs, pkgs[i].name) is Some,
{
    lemma_find_from_some(pkgs, pkgs[i].name, 0, i);
}

proof fn lemma_entries_count_pos(es: Seq<EntryView>, j: int)
    requires
        0 <= j < es.len(),
    ensures
        entries_count(es, es[j].name) >= 1,
    decreases es.len(),
{
    if j == es.len() - 1 {
        assert(es.last() == es[j]);
    } else {
        assert(es.drop_last()[j] == es[j]);
        lemma_entries_count_pos(es.drop_last(), j);
    }
}

proof fn lemma_providers_seq_contains(pkgs: Seq<PackageView>, i: int, n: Seq<char>)
    requires
        0 <= i < pkgs.len(),
        pkgs.len() <= usize::MAX,
        provide_count(pkgs[i], n) >= 1,
    ensures
        providers_seq(pkgs, n).contains(i as usize),
    decreases pkgs.len(),
{
    let pre = providers_seq(pkgs.drop_last(), n);
    let rep = repeat_id((pkgs.len() - 1) as usize, provide_count(pkgs.last(), n));
    assert(providers_seq(pkgs, n) == pre + rep);
    if i == pkgs.len() - 1 {
        assert(rep[0] == i as usize);
        assert(providers_seq(pkgs, n)[pre.len() as int] == i as usize);
    } else {
        assert(pkgs.drop_last()[i] == pkgs[i]);
        lemma_providers_seq_contains(pkgs.drop_last(), i, n);
        let k = choose|k: int| 0 <= k < pre.len() && pre[k] == i as usize;
        assert(providers_seq(pkgs, n)[k] == i as usize);
    }
}

/// Providers consistency: a package stands in the providers list of every
/// capability its `provides` section names.
pub proof fn lemma_providers_consistency(pkgs: Seq<PackageView>, i: int, j: int)
    requires
        0 <= i < pkgs.len(),
        pkgs.len() <= usize::MAX,
        0 <= j < prov_entries(pkgs[i]).len(),
    ensures
        providers_seq(pkgs, prov_entries(pkgs[i])[j].name).contains(i as usize),
{
    lemma_entries_count_pos(prov_entries(pkgs[i]), j);
    lemma_providers_seq_contains(pkgs, i, prov_entries(pkgs[i])[j].name);
}

/// The association list's first entry for a name holds its providers.
proof fn lemma_assoc_first_match(a: Seq<(String, Vec<IdT>)>, j: int, n: Seq<char>)
    requires
        0 <= j < a.len(),
        forall|k: int| 0 <= k < j ==> (#[trigger] a[k]).0@ != n,
        a[j].0@ == n,
    ensures
        assoc_lookup(a, n) == a[j].1@,
    decreases j,
{
    if j > 0 {
        assert(a.drop_first()[j - 1] == a[j]);
        lemma_assoc_first_match(a.drop_first(), j - 1, n);
    }
}

/// A name carried by no entry resolves to the empty providers list.
proof fn lemma_assoc_no_match(a: Seq<(String, Vec<IdT>)>, n: Seq<char>)
    requires
        forall|k: int| 0 <= k < a.len() ==> (#[trigger] a[k]).0@ != n,
    ensures
        assoc_lookup(a, n) == Seq::<IdT>::empty(),
    decreases a.len(),
{
    if a.len() > 0 {
        lemma_assoc_no_match(a.drop_first(), n);
    }
}

/// Replacing the first entry for a name, keeping its name, rewrites that
/// name's providers and no other's.
proof fn lemma_assoc_update(a: Seq<(String, Vec<IdT>)>, j: int, p2: (String, Vec<IdT>), n: Seq<
    char,
>)
    requires
        0 <= j < a.len(),
        forall|k: int| 0 <= k < j ==> (#[trigger] a[k]).0@ != a[j].0@,
        p2.0@ == a[j].0@,
    ensures
        assoc_lookup(a.update(j, p2), n) == if n == a[j].0@ {
            p2.1@
        } else {
            assoc_lookup(a, n)
        },
    decreases j,
{
    let a2 = a.update(j, p2);
    if j == 0 {
        assert(a2[0] == p2);
        if n != a[0].0@ {
            assert(a2.drop_first() =~= a.drop_first());
        }
    } else {
        assert(a2[0] == a[0]);
        assert(a2.drop_first() =~= a.drop_first().update(j - 1, p2));
        assert(forall|k: int|
            0 <= k < j - 1 ==> (#[trigger] a.drop_first()[k]).0@ == a[k + 1].0@);
        assert(a.drop_first()[j - 1] == a[j]);
        lemma_assoc_update(a.drop_first(), j - 1, p2, n);
    }
}

/// Records one more provider id for a capability name, appending to the
/// name's list or opening a fresh one.
#[verifier::loop_isolation(false)]
fn append_provider(prov: &mut Vec<(String, Vec<IdT>)>, name: &String, id: IdT)
    requires
        forall|k: int| 0 <= k < old(prov)@.len() ==> (#[trigger] old(prov)@[k]).1@.len() > 0,
    ensures
        forall|n: Seq<char>|
            #[trigger] assoc_lookup(final(prov)@, n) == if n == name@ {
                assoc_lookup(old(prov)@, n).push(id)
            } else {
                assoc_lookup(old(prov)@, n)
            },
        forall|k: int| 0 <= k < final(prov)@.len() ==> (#[trigger] final(prov)@[k]).1@.len() > 0,
{
    let mut j: usize = 0;
    while j < prov.len()
        invariant
            0 <= j <= prov@.len(),
            prov@ == old(prov)@,
            forall|k: int| 0 <= k < j ==> (#[trigger] prov@[k]).0@ != name@,
        decreases prov@.len() - j,
    {
        if prov[j].0 == *name {
            let ghost before = prov@;
            prov[j].1.push(id);
            proof {
                assert(prov@ == before.update(j as int, prov@[j as int]));
                assert(prov@[j as int].0@ == name@);
                assert(prov@[j as int].1@ == before[j as int].1@.push(id));
                lemma_assoc_first_match(before, j as int, name@);
                assert forall|n: Seq<char>|
                    #[trigger] assoc_lookup(prov@, n) == (if n == name@ {
                        assoc_lookup(before, n).push(id)
                    } else {
                        assoc_lookup(before, n)
                    }) by {
                    lemma_assoc_update(before, j as int, prov@[j as int], n);
                }
            }
            return ;
        }
        j = j + 1;
    }
    let ghost before = prov@;
    let mut ids: Vec<IdT> = Vec::new();
    ids.push(id);
    prov.push((name.clone(), ids));
    proof {
        lemma_assoc_no_match(before, name@);
        assert forall|n: Seq<char>|
            #[trigger] assoc_lookup(prov@, n) == (if n == name@ {
                assoc_lookup(before, n).push(id)
            } else {
                assoc_lookup(before, n)
            }) by {
            lemma_assoc_append_step(before, prov@[prov@.len() - 1], n);
            if n == name@ {
                assert(assoc_lookup(before, n).push(id) =~= prov@[prov@.len() - 1].1@);
            }
        }
    }
}

/// Appending an entry leaves other names' lookups unchanged and resolves
/// the entry's own name to its list when the name was absent.
proof fn lemma_assoc_append_step(a: Seq<(String, Vec<IdT>)>, p: (String, Vec<IdT>), n: Seq<char>)
    requires
        forall|k: int| 0 <= k < a.len() ==> (#[trigger] a[k]).0@ != p.0@,
    ensures
        assoc_lookup(a.push(p), n) == if n == p.0@ {
            p.1@
        } else {
            assoc_lookup(a, n)
        },
    decreases a.len(),
{
    if a.len() == 0 {
        let ap = a.push(p);
        assert(ap.len() == 1);
        assert(ap[0] == p);
        if n == p.0@ {
            assert(ap[0].0@ == n);
            assert(assoc_lookup(ap, n) == ap[0].1@);
            assert(ap[0].1@ == p.1@);
        } else {
            assert(ap[0].0@ != n);
            assert(assoc_lookup(ap, n) == assoc_lookup(ap.drop_first(), n));
            assert(ap.drop_first() =~= Seq::<(String, Vec<IdT>)>::empty());
            assert(assoc_lookup(a, n) == Seq::<IdT>::empty());
        }
    } else {
        assert(a.push(p)[0] == a[0]);
        assert(a.push(p).drop_first() =~= a.drop_first().push(p));
        assert forall|k: int|
            0 <= k < a.drop_first().len() implies (#[trigger] a.drop_first()[k]).0@ != p.0@ by {
            assert(a.drop_first()[k] == a[k + 1]);
        }
        lemma_assoc_append_step(a.drop_first(), p, n);
    }
}

/// One entry appended to a list bumps its count for that entry's name only.
proof fn lemma_entries_count_step(es: Seq<EntryView>, j: int, n: Seq<char>)
    requires
        0 <= j < es.len(),
    ensures
        entries_count(es.take(j + 1), n) == entries_count(es.take(j), n) + (if es[j].name == n {
            1nat
        } else {
            0nat
        }),
{
    assert(es.take(j + 1).drop_last() =~= es.take(j));
    assert(es.take(j + 1).last() == es[j]);
}

/// Builds the providers index the definition `providers_seq` prescribes.
#[verifier::loop_isolation(false)]
pub(crate) fn build_providers(packages: &Vec<Package>) -> (prov: Vec<(String, Vec<IdT>)>)
    ensures
        forall|n: Seq<char>|
            #[trigger] assoc_lookup(prov@, n) == providers_seq(packages_view(packages@), n),
        forall|k: int| 0 <= k < prov@.len() ==> (#[trigger] prov@[k]).1@.len() > 0,
{
    let ghost pkgs = packages_view(packages@);
    let mut prov: Vec<(String, Vec<IdT>)> = Vec::new();
    proof {
        assert forall|n: Seq<char>|
            #[trigger] assoc_lookup(prov@, n) == providers_seq(pkgs.take(0), n) by {
            assert(pkgs.take(0) =~= Seq::empty());
        }
    }
    let mut i: usize = 0;
    while i < packages.len()
        invariant
            0 <= i <= packages@.len(),
            pkgs == packages_view(packages@),
            pkgs.len() == packages@.len(),
            forall|n: Seq<char>|
                #[trigger] assoc_lookup(prov@, n) == providers_seq(pkgs.take(i as int), n),
            forall|k: int| 0 <= k < prov@.len() ==> (#[trigger] prov@[k]).1@.len() > 0,
        decreases packages@.len() - i,
    {
        let ghost base = prov@;
        let pkg = &packages[i];
        proof {
            assert(pkg@ == pkgs[i as int]);
        }
        let mut saw_own: bool = false;
        if let Some(es) = &pkg.format.provides {
            let ghost pes = prov_entries(pkgs[i as int]);
            proof {
                assert(pes == es@);
            }
            let mut j: usize = 0;
            while j < es.entries.len()
                invariant
                    0 <= j <= es.entries@.len(),
                    pes == es@,
                    pes.len() == es.entries@.len(),
                    forall|jj: int| 0 <= jj < pes.len() ==> pes[jj] == es.entries@[jj]@,
                    saw_own <==> entries_count(pes.take(j as int), pkgs[i as int].name) > 0,
                    forall|n: Seq<char>|
                        #[trigger] assoc_lookup(prov@, n) == providers_seq(pkgs.take(i as int), n)
                            + repeat_id(i, entries_count(pes.take(j as int), n)),
                    forall|k: int| 0 <= k < prov@.len() ==> (#[trigger] prov@[k]).1@.len() > 0,
                decreases es.entries@.len() - j,
            {
                let e = &es.entries[j];
                let ghost mid = prov@;
                if e.name == pkg.name {
                    saw_own = true;
                }
                append_provider(&mut prov, &e.name, i);
                proof {
                    assert(pes[j as int] == es.entries@[j as int]@);
                    assert(pes[j as int].name == e.name@);
                    assert forall|n: Seq<char>|
                        #[trigger] assoc_lookup(prov@, n) == providers_seq(pkgs.take(i as int), n)
                            + repeat_id(i, entries_count(pes.take(j + 1), n)) by {
                        lemma_entries_count_step(pes, j as int, n);
                        if n == e.name@ {
                            assert(assoc_lookup(prov@, n) == assoc_lookup(mid, n).push(i));
                            assert((providers_seq(pkgs.take(i as int), n) + repeat_id(
                                i,
                                entries_count(pes.take(j as int), n),
                            )).push(i) =~= providers_seq(pkgs.take(i as int), n) + repeat_id(
                                i,
                                entries_count(pes.take(j as int), n) + 1,
                            ));
                        } else {
                            assert(assoc_lookup(prov@, n) == assoc_lookup(mid, n));
                        }
                    }
                    lemma_entries_count_step(pes, j as int, pkgs[i as int].name);
                }
                j = j + 1;
            }
            proof {
                assert(pes.take(pes.len() as int) =~= pes);
            }
        }
        proof {
            if pkg.format.provides is None {
                assert(prov_entries(pkgs[i as int]) =~= Seq::empty());
                assert(entries_count(prov_entries(pkgs[i as int]), pkgs[i as int].name) == 0);
                assert forall|n: Seq<char>|
                    #[trigger] assoc_lookup(prov@, n) == providers_seq(pkgs.take(i as int), n)
                        + repeat_id(
                        i,
                        entries_count(prov_entries(pkgs[i as int]), n),
                    ) by {
                    assert(repeat_id(i, 0) =~= Seq::<IdT>::empty());
                    assert(providers_seq(pkgs.take(i as int), n) + repeat_id(i, 0)
                        =~= providers_seq(pkgs.take(i as int), n));
                }
            }
        }
        let ghost own = pkgs[i as int].name;
        let ghost pcount = entries_count(prov_entries(pkgs[i as int]), own);
        if !saw_own {
            let ghost mid = prov@;
            append_provider(&mut prov, &pkg.name, i);
            proof {
                assert forall|n: Seq<char>|
                    #[trigger] assoc_lookup(prov@, n) == providers_seq(pkgs.take(i as int), n)
                        + repeat_id(i, provide_count(pkgs[i as int], n)) by {
                    if n == own {
                        assert(assoc_lookup(prov@, n) == assoc_lookup(mid, n).push(i));
                        assert(provide_count(pkgs[i as int], n) == 1nat);
                        assert((providers_seq(pkgs.take(i as int), n) + repeat_id(i, 0nat)).push(i)
                            =~= providers_seq(pkgs.take(i as int), n) + repeat_id(i, 1nat));
                    } else {
                        assert(assoc_lookup(prov@, n) == assoc_lookup(mid, n));
                        assert(provide_count(pkgs[i as int], n) == entries_count(
                            prov_entries(pkgs[i as int]),
                            n,
                        ));
                    }
                }
            }
        } else {
            proof {
                assert forall|n: Seq<char>|
                    #[trigger] assoc_lookup(prov@, n) == providers_seq(pkgs.take(i as int), n)
                        + repeat_id(i, provide_count(pkgs[i as int], n)) by {
                    assert(provide_count(pkgs[i as int], n) == entries_count(
                        prov_entries(pkgs[i as int]),
                        n,
                    ));
                }
            }
        }
        proof {
            assert forall|n: Seq<char>|
                #[trigger] assoc_lookup(prov@, n) == providers_seq(pkgs.take(i + 1), n) by {
                assert(pkgs.take(i + 1).drop_last() =~= pkgs.take(i as int));
                assert(pkgs.take(i + 1).last() == pkgs[i as int]);
            }
        }
        i = i + 1;
    }
    proof {
        assert(pkgs.take(pkgs.len() as int) =~= pkgs);
    }
    prov
}

#[verifier::rlimit(100)]
fn write_entry(out: &mut String, e: &RpmEntry)
    ensures
        final(out)@ == old(out)@ + crate::xml::spec_xml_entry(e@),
{
    out.append("<rpm:entry name=\"");
    out.append(e.name.as_str());
    out.append("\"");
    proof {
        assert(out@ =~= old(out)@ + "<rpm:entry name=\""@ + e.name@ + "\""@);
    }
    if let Some(f) = &e.flags {
        out.append(" flags=\"");
        out.append(f.as_str());
        out.append("\"");
    }
    if let Some(x) = e.epoch {
        out.append(" epoch=\"");
        let d = crate::text::u64_to_chars(x);
        let ds = crate::text::chars_to_string(&d);
        out.append(ds.as_str());
        out.append("\"");
    }
    proof {
        assert(out@ =~= old(out)@ + "<rpm:entry name=\""@ + e.name@ + "\""@ + crate::xml::spec_xml_opt(
            " flags=\""@,
            e@.flags,
        ) + crate::xml::spec_xml_opt(
            " epoch=\""@,
            match e@.epoch {
                Some(x) => Some(crate::text::decimal_chars(x as int)),
                None => None,
            },
        ));
    }
    if let Some(v) = &e.ver {
        out.append(" ver=\"");
        out.append(v.as_str());
        out.append("\"");
    }
    if let Some(v) = &e.rel {
        out.append(" rel=\"");
        out.append(v.as_str());
        out.append("\"");
    }
    out.append("/>");
    proof {
        assert(out@ =~= old(out)@ + crate::xml::spec_xml_entry(e@));
    }
}

#[verifier::loop_isolation(false)]
fn write_section(out: &mut String, open_tag: &str, close_tag: &str, es: &Option<Entries>)
    ensures
        final(out)@ == old(out)@ + crate::xml::spec_xml_section(
            open_tag@,
            close_tag@,
            match *es {
                Some(ref list) => Some(list@),
                None => None,
            },
        ),
{
    match es {
        None => {
            proof {
                assert(old(out)@ + Seq::<char>::empty() =~= old(out)@);
            }
        },
        Some(list) => {
            out.append(open_tag);
            let ghost base = out@;
            let mut j: usize = 0;
            proof {
                assert(list@.take(0) =~= Seq::<EntryView>::empty());
                assert(base + crate::xml::spec_xml_entries(list@.take(0)) =~= base);
            }
            while j < list.entries.len()
                invariant
                    0 <= j <= list.entries@.len(),
                    list@.len() == list.entries@.len(),
                    out@ == base + crate::xml::spec_xml_entries(list@.take(j as int)),
                decreases list.entries@.len() - j,
            {
                write_entry(out, &list.entries[j]);
                proof {
                    assert(list@[j as int] == list.entries@[j as int]@);
                    assert(list@.take(j + 1).drop_last() =~= list@.take(j as int));
                    assert(list@.take(j + 1).last() == list@[j as int]);
                    assert(out@ =~= base + crate::xml::spec_xml_entries(list@.take(j + 1)));
                }
                j = j + 1;
            }
            out.append(close_tag);
            proof {
                assert(list@.take(list@.len() as int) =~= list@);
                assert(out@ =~= old(out)@ + crate::xml::spec_xml_section(
                    open_tag@,
                    close_tag@,
                    Some(list@),
                ));
            }
        },
    }
}

#[verifier::rlimit(100)]
fn write_package(out: &mut String, p: &Package)
    ensures
        final(out)@ == old(out)@ + crate::xml::spec_xml_package(p@),
{
    out.append("<package type=\"rpm\"><name>");
    out.append(p.name.as_str());
    out.append("</name><version epoch=\"");
    let d = crate::text::u64_to_chars(p.version.epoch);
    let ds = crate::text::chars_to_string(&d);
    out.append(ds.as_str());
    out.append("\" ver=\"");
    out.append(p.version.ver.as_str());
    out.append("\" rel=\"");
    out.append(p.version.rel.as_str());
    out.append("\"/><format>");
    proof {
        assert(out@ =~= old(out)@ + crate::xml::spec_xml_package_head(p@));
    }
    write_section(out, "<rpm:provides>", "</rpm:provides>", &p.format.provides);
    write_section(out, "<rpm:requires>", "</rpm:requires>", &p.format.requires);
    write_section(out, "<rpm:conflicts>", "</rpm:conflicts>", &p.format.conflicts);
    write_section(out, "<rpm:obsoletes>", "</rpm:obsoletes>", &p.format.obsoletes);
    out.append("</format></package>");
    proof {
        assert(out@ =~= old(out)@ + crate::xml::spec_xml_package(p@));
    }
}

impl Repo {
    /// Parses a `primary.xml` text and builds the providers index. Every
    /// index built here satisfies `wf`; the empty text is rejected; the
    /// self-closing empty document parses to the empty index; and on the
    /// canonical serialization of any metacharacter-free package list the
    /// parse succeeds and returns an index that serializes back to the
    /// input text, character for character.
    pub fn from_str(s: &str) -> (r: Result<Repo, crate::xml::ParseError>)
        ensures
            r is Ok ==> r->Ok_0.wf(),
            s@.len() == 0 ==> r is Err,
            s@ == "<metadata/>"@ ==> (r is Ok && r->Ok_0@ == Seq::<PackageView>::empty()),
            s@ == crate::xml::spec_to_xml(Seq::<PackageView>::empty()) ==> (r is Ok && r->Ok_0@
                == Seq::<PackageView>::empty()),
            (exists|ps: Seq<PackageView>|
                crate::xml::wf_packages(ps) && s@ == crate::xml::spec_to_xml(ps)) ==> (r is Ok
                && crate::xml::wf_packages(r->Ok_0@) && s@ == crate::xml::spec_to_xml(r->Ok_0@)),
    {
        let chars = crate::text::str_to_chars(s);
        match crate::xml::parse_document(&chars) {
            Ok(packages) => {
                let providers = build_providers(&packages);
                let repo = Repo { packages, providers };
                proof {
                    assert(repo@ == packages_view(repo.packages@));
                    if repo.packages@.len() == 0 {
                        assert(repo@ =~= Seq::<PackageView>::empty());
                    }
                }
                Ok(repo)
            },
            Err(e) => Err(e),
        }
    }

    /// Writes the index's packages back out as canonical `primary.xml`
    /// text: the exact sequence `spec_to_xml` prescribes, so equal
    /// indices serialize identically.
    #[verifier::loop_isolation(false)]
    pub fn to_xml(&self) -> (r: String)
        ensures
            r@ == crate::xml::spec_to_xml(self@),
    {
        let mut out = String::new();
        out.append("<metadata>");
        let ghost base = out@;
        let mut i: usize = 0;
        proof {
            assert(self@.take(0) =~= Seq::<PackageView>::empty());
            assert(base + crate::xml::spec_xml_packages(self@.take(0)) =~= base);
        }
        while i < self.packages.len()
            invariant
                0 <= i <= self.packages@.len(),
                self@.len() == self.packages@.len(),
                out@ == base + crate::xml::spec_xml_packages(self@.take(i as int)),
            decreases self.packages@.len() - i,
        {
            write_package(&mut out, &self.packages[i]);
            proof {
                assert(self@[i as int] == self.packages@[i as int]@);
                assert(self@.take(i + 1).drop_last() =~= self@.take(i as int));
                assert(self@.take(i + 1).last() == self@[i as int]);
                assert(out@ =~= base + crate::xml::spec_xml_packages(self@.take(i + 1)));
            }
            i = i + 1;
        }
        out.append("</metadata>");
        proof {
            assert(self@.take(self@.len() as int) =~= self@);
            assert(out@ =~= crate::xml::spec_to_xml(self@));
        }
        out
    }
}

impl Package {
    pub fn name(&self) -> (r: &String)
        ensures
            r@ == self@.name,
    {
        &self.name
    }

    pub fn requires_entries(self) -> (r: Option<Vec<RpmEntry>>)
        ensures
            r is Some <==> self@.format.requires is Some,
            r is Some ==> rpm_entries_view(r->Some_0@) == self@.format.requires->Some_0,
    {
        if let Some(e) = self.format.requires {
            Some(e.entries)
        } else {
            None
        }
    }

    pub fn conflicts(self) -> (r: Option<Vec<RpmEntry>>)
        ensures
            r is Some <==> self@.format.conflicts is Some,
            r is Some ==> rpm_entries_view(r->Some_0@) == self@.format.conflicts->Some_0,
    {
        if let Some(e) = self.format.conflicts {
            Some(e.entries)
        } else {
            None
        }
    }

    pub fn obsoletes(self) -> (r: Option<Vec<RpmEntry>>)
        ensures
            r is Some <==> self@.format.obsoletes is Some,
            r is Some ==> rpm_entries_view(r->Some_0@) == self@.format.obsoletes->Some_0,
    {
        if let Some(e) = self.format.obsoletes {
            Some(e.entries)
        } else {
            None
        }
    }

    pub fn provides(self) -> (r: Option<Vec<RpmEntry>>)
        ensures
            r is Some <==> self@.format.provides is Some,
            r is Some ==> rpm_entries_view(r->Some_0@) == self@.format.provides->Some_0,
    {
        if let Some(e) = self.format.provides {
            Some(e.entries)
        } else {
            None
        }
    }
}

impl RpmEntry {
    pub fn get_name(self) -> (r: String)
        ensures
            r@ == self@.name,
    {
        self.name
    }
}

} // verus!
