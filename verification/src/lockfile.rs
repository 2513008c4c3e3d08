//! The lock graph: one entry per resolved `name@version` key, each with its
//! concrete version and its set of dependency keys. Re-adding an existing
//! key overwrites the version and unions the dependency sets; it never
//! duplicates an entry.

use vstd::prelude::*;
use crate::specifier::{spec_name_of, parse_library_name};

verus! {

/// No two elements of `s` are equal.
pub open spec fn distinct_seq<A>(s: Seq<A>) -> bool {
    forall|i: int, j: int| 0 <= i < j < s.len() ==> s[i] != s[j]
}

/// `s` holds no line break, so it can stand on one line of the persisted
/// lock graph file.
pub open spec fn no_newline(s: Seq<char>) -> bool {
    forall|i: int| 0 <= i < s.len() ==> s[i] != '\n'
}

/// Mathematical model of one lock entry: a concrete version and the
/// dependency keys recorded for it, in insertion order and without
/// duplicates.
#[verifier::ext_equal]
pub struct DepModel {
    pub version: Seq<char>,
    pub deps: Seq<Seq<char>>,
}

impl DepModel {
    pub open spec fn wf(self) -> bool {
        distinct_seq(self.deps)
    }

    pub open spec fn text_safe(self) -> bool {
        &&& no_newline(self.version)
        &&& forall|i: int| 0 <= i < self.deps.len() ==> no_newline(#[trigger] self.deps[i])
    }
}

/// Mathematical model of the whole lock graph: the project's name and
/// version, and the entries keyed by `name@version`, in insertion order
/// with no key repeated.
#[verifier::ext_equal]
pub struct LockModel {
    pub name: Seq<char>,
    pub version: Seq<char>,
    pub entries: Seq<(Seq<char>, DepModel)>,
}

impl LockModel {
    pub open spec fn wf(self) -> bool {
        &&& forall|i: int, j: int|
            0 <= i < j < self.entries.len() ==> self.entries[i].0 != self.entries[j].0
        &&& forall|i: int| 0 <= i < self.entries.len() ==> (#[trigger] self.entries[i]).1.wf()
    }

    pub open spec fn text_safe(self) -> bool {
        &&& no_newline(self.name)
        &&& no_newline(self.version)
        &&& forall|i: int|
            0 <= i < self.entries.len() ==> no_newline((#[trigger] self.entries[i]).0)
                && self.entries[i].1.text_safe()
    }

    /// The model of a freshly created, empty lock graph.
    pub open spec fn empty() -> LockModel {
        LockModel { name: Seq::empty(), version: Seq::empty(), entries: Seq::empty() }
    }
}

/// Index of the first entry with key `key`, or -1 if no entry has it.
pub open spec fn first_key_index(es: Seq<(Seq<char>, DepModel)>, key: Seq<char>) -> int
    decreases es.len(),
{
    if es.len() == 0 {
        -1
    } else if es[0].0 == key {
        0
    } else {
        let r = first_key_index(es.skip(1), key);
        if r == -1 {
            -1
        } else {
            r + 1
        }
    }
}

pub proof fn lemma_first_key_index(es: Seq<(Seq<char>, DepModel)>, key: Seq<char>)
    ensures
        first_key_index(es, key) == -1 ==> (forall|i: int|
            0 <= i < es.len() ==> (#[trigger] es[i]).0 != key),
        first_key_index(es, key) != -1 ==> {
            &&& 0 <= first_key_index(es, key) < es.len()
            &&& es[first_key_index(es, key)].0 == key
            &&& forall|i: int| 0 <= i < first_key_index(es, key) ==> (#[trigger] es[i]).0 != key
        },
    decreases es.len(),
{
    if es.len() == 0 {
    } else if es[0].0 == key {
    } else {
        lemma_first_key_index(es.skip(1), key);
        let r = first_key_index(es.skip(1), key);
        if r == -1 {
            assert forall|i: int| 0 <= i < es.len() implies (#[trigger] es[i]).0 != key by {
                if i > 0 {
                    assert(es.skip(1)[i - 1] == es[i]);
                }
            }
        } else {
            assert(es.skip(1)[r] == es[r + 1]);
            assert forall|i: int| 0 <= i < r + 1 implies (#[trigger] es[i]).0 != key by {
                if i > 0 {
                    assert(es.skip(1)[i - 1] == es[i]);
                }
            }
        }
    }
}

/// Union of `ds` into `acc`: each element of `ds` is appended in order
/// unless already present. Keeps `acc`'s order and distinctness.
pub open spec fn merge_deps(acc: Seq<Seq<char>>, ds: Seq<Seq<char>>) -> Seq<Seq<char>>
    decreases ds.len(),
{
    if ds.len() == 0 {
        acc
    } else {
        merge_deps(
            if acc.contains(ds[0]) {
                acc
            } else {
                acc.push(ds[0])
            },
            ds.skip(1),
        )
    }
}

pub proof fn lemma_merge_deps_contains(acc: Seq<Seq<char>>, ds: Seq<Seq<char>>)
    ensures
        forall|x: Seq<char>|
            merge_deps(acc, ds).contains(x) <==> acc.contains(x) || ds.contains(x),
    decreases ds.len(),
{
    if ds.len() == 0 {
        assert(forall|x: Seq<char>| !ds.contains(x));
    } else {
        let acc1 = if acc.contains(ds[0]) {
            acc
        } else {
            acc.push(ds[0])
        };
        lemma_merge_deps_contains(acc1, ds.skip(1));
        assert forall|x: Seq<char>| acc1.contains(x) implies acc.contains(x) || ds.contains(x) by {
            if !acc.contains(x) {
                let i = choose|i: int| 0 <= i < acc1.len() && acc1[i] == x;
                assert(x == ds[0]);
                assert(ds.contains(x)) by {
                    assert(ds[0] == x);
                }
            }
        }
        assert forall|x: Seq<char>| acc.contains(x) || ds.contains(x) implies merge_deps(
            acc,
            ds,
        ).contains(x) by {
            if acc.contains(x) {
                assert(acc1.contains(x)) by {
                    let i = choose|i: int| 0 <= i < acc.len() && acc[i] == x;
                    assert(acc1[i] == x);
                }
            } else {
                let i = choose|i: int| 0 <= i < ds.len() && ds[i] == x;
                if i == 0 {
                    assert(acc1.contains(x)) by {
                        if !acc.contains(ds[0]) {
                            assert(acc1[acc.len() as int] == x);
                        }
                    }
                } else {
                    assert(ds.skip(1)[i - 1] == x);
                    assert(ds.skip(1).contains(x));
                }
            }
        }
    }
}

pub proof fn lemma_merge_deps_distinct(acc: Seq<Seq<char>>, ds: Seq<Seq<char>>)
    requires
        distinct_seq(acc),
    ensures
        distinct_seq(merge_deps(acc, ds)),
    decreases ds.len(),
{
    if ds.len() == 0 {
    } else {
        let acc1 = if acc.contains(ds[0]) {
            acc
        } else {
            acc.push(ds[0])
        };
        assert(distinct_seq(acc1)) by {
            if !acc.contains(ds[0]) {
                assert forall|i: int, j: int| 0 <= i < j < acc1.len() implies acc1[i] != acc1[j] by {
                    if j == acc.len() {
                        assert(acc[i] == acc1[i]);
                        if acc1[i] == ds[0] {
                            assert(acc.contains(ds[0]));
                        }
                    }
                }
            }
        }
        lemma_merge_deps_distinct(acc1, ds.skip(1));
    }
}

/// Merging keys that are all already present changes nothing.
pub proof fn lemma_merge_deps_noop(acc: Seq<Seq<char>>, ds: Seq<Seq<char>>)
    requires
        forall|i: int| 0 <= i < ds.len() ==> acc.contains(#[trigger] ds[i]),
    ensures
        merge_deps(acc, ds) == acc,
    decreases ds.len(),
{
    if ds.len() == 0 {
    } else {
        assert(acc.contains(ds[0]));
        assert(forall|i: int| 0 <= i < ds.skip(1).len() ==> ds.skip(1)[i] == ds[i + 1]);
        lemma_merge_deps_noop(acc, ds.skip(1));
    }
}

/// What adding `(key, version, ds)` does to a lock graph model: an existing
/// entry keeps its place, takes the new version, and unions in `ds`; a new
/// key is appended with `ds` (deduplicated) as its dependency set.
pub open spec fn spec_add(m: LockModel, key: Seq<char>, version: Seq<char>, ds: Seq<Seq<char>>) -> LockModel {
    let i = first_key_index(m.entries, key);
    if i == -1 {
        LockModel {
            entries: m.entries.push(
                (key, DepModel { version, deps: merge_deps(Seq::empty(), ds) }),
            ),
            ..m
        }
    } else {
        LockModel {
            entries: m.entries.update(
                i,
                (key, DepModel { version, deps: merge_deps(m.entries[i].1.deps, ds) }),
            ),
            ..m
        }
    }
}

pub proof fn lemma_add_preserves_wf(m: LockModel, key: Seq<char>, version: Seq<char>, ds: Seq<Seq<char>>)
    requires
        m.wf(),
    ensures
        spec_add(m, key, version, ds).wf(),
{
    lemma_first_key_index(m.entries, key);
    let i = first_key_index(m.entries, key);
    if i == -1 {
        lemma_merge_deps_distinct(Seq::empty(), ds);
    } else {
        lemma_merge_deps_distinct(m.entries[i].1.deps, ds);
    }
}

/// After an add, the key is present, bound to the new version, and its
/// dependency set holds everything from `ds`.
pub proof fn lemma_add_key_present(m: LockModel, key: Seq<char>, version: Seq<char>, ds: Seq<Seq<char>>)
    requires
        m.wf(),
    ensures
        ({
            let m1 = spec_add(m, key, version, ds);
            let i1 = first_key_index(m1.entries, key);
            &&& 0 <= i1 < m1.entries.len()
            &&& m1.entries[i1].0 == key
            &&& m1.entries[i1].1.version == version
            &&& forall|j: int|
                0 <= j < ds.len() ==> m1.entries[i1].1.deps.contains(#[trigger] ds[j])
        }),
{
    lemma_first_key_index(m.entries, key);
    let i = first_key_index(m.entries, key);
    let m1 = spec_add(m, key, version, ds);
    lemma_first_key_index(m1.entries, key);
    let i1 = first_key_index(m1.entries, key);
    if i == -1 {
        let at = m.entries.len() as int;
        assert(m1.entries[at].0 == key);
        assert(i1 != -1) by {
            if i1 == -1 {
                assert(m1.entries[at].0 != key);
            }
        }
        assert(i1 == at) by {
            if i1 < at {
                assert(m.entries[i1].0 == m1.entries[i1].0);
            }
        }
        lemma_merge_deps_contains(Seq::empty(), ds);
        assert(forall|j: int| 0 <= j < ds.len() ==> ds.contains(#[trigger] ds[j]));
    } else {
        assert(m1.entries[i].0 == key);
        assert(i1 != -1) by {
            if i1 == -1 {
                assert(m1.entries[i].0 != key);
            }
        }
        assert(i1 == i) by {
            if i1 < i {
                assert(m.entries[i1].0 == m1.entries[i1].0);
                assert(m.entries[i1].0 != key);
            } else if i1 > i {
                assert(m1.entries[i].0 != key);
            }
        }
        lemma_merge_deps_contains(m.entries[i].1.deps, ds);
        assert(forall|j: int| 0 <= j < ds.len() ==> ds.contains(#[trigger] ds[j]));
    }
}

/// Adding the same `(key, version, dependency keys)` twice leaves the graph
/// exactly as one add does: resolution against an unchanged registry can
/// be re-run without changing the persisted graph.
pub proof fn lemma_add_idempotent(m: LockModel, key: Seq<char>, version: Seq<char>, ds: Seq<Seq<char>>)
    requires
        m.wf(),
    ensures
        spec_add(spec_add(m, key, version, ds), key, version, ds) == spec_add(m, key, version, ds),
{
    let m1 = spec_add(m, key, version, ds);
    let m2 = spec_add(m1, key, version, ds);
    lemma_add_key_present(m, key, version, ds);
    lemma_first_key_index(m1.entries, key);
    let i1 = first_key_index(m1.entries, key);
    lemma_merge_deps_noop(m1.entries[i1].1.deps, ds);
    assert(m2.entries =~= m1.entries.update(
        i1,
        (key, DepModel { version, deps: m1.entries[i1].1.deps }),
    ));
    assert(m1.entries[i1] =~= (key, DepModel { version, deps: m1.entries[i1].1.deps }));
    assert(m2.entries =~= m1.entries);
    assert(m2 =~= m1);
}

/// One resolved package in the lock graph: its concrete version and the
/// dependency keys (`name@range`) it declares.
pub struct Dependency {
    pub(crate) version: String,
    pub(crate) dependencies: Vec<String>,
}

impl View for Dependency {
    type V = DepModel;

    open(crate) spec fn view(&self) -> DepModel {
        DepModel { version: self.version@, deps: self.dependencies.deep_view() }
    }
}

impl Clone for Dependency {
    fn clone(&self) -> (r: Self)
        ensures
            r@ == self@,
    {
        let mut deps: Vec<String> = Vec::new();
        let mut i: usize = 0;
        while i < self.dependencies.len()
            invariant
                i <= self.dependencies.len(),
                deps.deep_view() =~= self.dependencies.deep_view().take(i as int),
            decreases self.dependencies.len() - i,
        {
            let ghost pre = deps.deep_view();
            deps.push(self.dependencies[i].clone());
            proof {
                assert(deps.deep_view() =~= pre.push(self.dependencies.deep_view()[i as int]));
                assert(deps.deep_view() =~= self.dependencies.deep_view().take(i + 1));
            }
            i += 1;
        }
        proof {
            assert(deps.deep_view() =~= self.dependencies.deep_view());
        }
        let r = Dependency { version: self.version.clone(), dependencies: deps };
        proof {
            assert(r@ =~= self@);
        }
        r
    }
}

/// Adding an entry the graph already holds — same key, same version, no
/// new dependency keys — changes nothing at all: re-running resolution
/// against an unchanged registry re-adds exactly what is recorded, so the
/// graph, and with it its saved text, comes out identical.
pub proof fn lemma_add_already_recorded(
    m: LockModel,
    key: Seq<char>,
    version: Seq<char>,
    ds: Seq<Seq<char>>,
)
    requires
        m.wf(),
        ({
            let i = first_key_index(m.entries, key);
            &&& i != -1
            &&& m.entries[i].1.version == version
            &&& forall|j: int|
                0 <= j < ds.len() ==> m.entries[i].1.deps.contains(#[trigger] ds[j])
        }),
    ensures
        spec_add(m, key, version, ds) == m,
{
    lemma_first_key_index(m.entries, key);
    let i = first_key_index(m.entries, key);
    lemma_merge_deps_noop(m.entries[i].1.deps, ds);
    assert(m.entries[i] =~= (key, DepModel { version, deps: m.entries[i].1.deps }));
    assert(spec_add(m, key, version, ds).entries =~= m.entries);
    assert(spec_add(m, key, version, ds) =~= m);
}

/// A key present in a graph stays present through any add.
pub proof fn lemma_add_keeps_keys(
    m: LockModel,
    key: Seq<char>,
    version: Seq<char>,
    ds: Seq<Seq<char>>,
    k: Seq<char>,
)
    requires
        first_key_index(m.entries, k) != -1,
    ensures
        first_key_index(spec_add(m, key, version, ds).entries, k) != -1,
{
    lemma_first_key_index(m.entries, k);
    let i = first_key_index(m.entries, k);
    let m1 = spec_add(m, key, version, ds);
    lemma_first_key_index(m1.entries, k);
    lemma_first_key_index(m.entries, key);
    let j = first_key_index(m.entries, key);
    if j == -1 {
        assert(m1.entries[i] == m.entries[i]);
        if first_key_index(m1.entries, k) == -1 {
            assert(m1.entries[i].0 != k);
        }
    } else {
        if i == j {
            assert(m.entries[i].0 == k && m.entries[j].0 == key);
            assert(m1.entries[j].0 == key);
        } else {
            assert(m1.entries[i] == m.entries[i]);
        }
        if first_key_index(m1.entries, k) == -1 {
            assert(m1.entries[i].0 != k);
        }
    }
}

/// True if some element of `v` reads the same as `x`.
pub(crate) fn vec_contains_string(v: &Vec<String>, x: &String) -> (r: bool)
    ensures
        r == v.deep_view().contains(x@),
{
    let mut i: usize = 0;
    while i < v.len()
        invariant
            i <= v.len(),
            forall|j: int| 0 <= j < i ==> v.deep_view()[j] != x@,
        decreases v.len() - i,
    {
        if v[i] == *x {
            proof {
                assert(v.deep_view()[i as int] == x@);
            }
            return true;
        }
        i += 1;
    }
    proof {
        if v.deep_view().contains(x@) {
            let j = choose|j: int| 0 <= j < v.deep_view().len() && v.deep_view()[j] == x@;
            assert(v.deep_view()[j] != x@);
        }
    }
    false
}

/// Appends each element of `ds` to `acc` unless already present.
fn push_unique_all(acc: &mut Vec<String>, ds: &Vec<String>)
    ensures
        final(acc).deep_view() == merge_deps(old(acc).deep_view(), ds.deep_view()),
{
    let mut i: usize = 0;
    proof {
        assert(ds.deep_view().skip(0) =~= ds.deep_view());
    }
    while i < ds.len()
        invariant
            i <= ds.len(),
            merge_deps(acc.deep_view(), ds.deep_view().skip(i as int)) == merge_deps(
                old(acc).deep_view(),
                ds.deep_view(),
            ),
        decreases ds.len() - i,
    {
        let ghost pre = acc.deep_view();
        let ghost rest = ds.deep_view().skip(i as int);
        if !vec_contains_string(acc, &ds[i]) {
            acc.push(ds[i].clone());
            proof {
                assert(acc.deep_view() =~= pre.push(ds.deep_view()[i as int]));
            }
        }
        proof {
            assert(rest[0] == ds.deep_view()[i as int]);
            assert(rest.skip(1) =~= ds.deep_view().skip(i + 1));
        }
        i += 1;
    }
    proof {
        assert(ds.deep_view().skip(ds.len() as int) =~= Seq::<Seq<char>>::empty());
    }
}

impl Dependency {
    /// A fresh entry at `version` whose dependency set is `dependencies`
    /// with duplicates dropped (first occurrence kept).
    pub fn new(version: String, dependencies: Vec<String>) -> (r: Self)
        ensures
            r@.version == version@,
            r@.deps == merge_deps(Seq::empty(), dependencies.deep_view()),
            r@.wf(),
    {
        let mut deps: Vec<String> = Vec::new();
        proof {
            assert(deps.deep_view() =~= Seq::<Seq<char>>::empty());
        }
        push_unique_all(&mut deps, &dependencies);
        proof {
            lemma_merge_deps_distinct(Seq::<Seq<char>>::empty(), dependencies.deep_view());
        }
        Dependency { version, dependencies: deps }
    }

    /// The entry's concrete version.
    pub fn get_version(&self) -> (r: String)
        ensures
            r@ == self@.version,
    {
        self.version.clone()
    }

    /// The dependency keys recorded for this entry, in order.
    pub fn get_dependency_keys(&self) -> (r: &Vec<String>)
        ensures
            r.deep_view() == self@.deps,
    {
        &self.dependencies
    }

    /// The package names of this entry's dependency keys (the part of each
    /// key before its version request), without duplicates, in first-seen
    /// order.
    pub fn get_dependencies_name(&self) -> (r: Vec<String>)
        ensures
            r.deep_view() == spec_dep_names(self@.deps),
    {
        let mut names: Vec<String> = Vec::new();
        let mut i: usize = 0;
        proof {
            assert(self@.deps.skip(0) =~= self@.deps);
            assert(names.deep_view() =~= Seq::<Seq<char>>::empty());
        }
        while i < self.dependencies.len()
            invariant
                i <= self.dependencies.len(),
                self.dependencies.deep_view() == self@.deps,
                dep_names_acc(names.deep_view(), self@.deps.skip(i as int)) == spec_dep_names(
                    self@.deps,
                ),
            decreases self.dependencies.len() - i,
        {
            let ghost pre = names.deep_view();
            let ghost rest = self@.deps.skip(i as int);
            let (name, _version) = parse_library_name(self.dependencies[i].clone());
            proof {
                assert(rest[0] == self@.deps[i as int]);
                assert(name@ == spec_name_of(rest[0]));
            }
            if !vec_contains_string(&names, &name) {
                names.push(name);
                proof {
                    assert(names.deep_view() =~= pre.push(spec_name_of(rest[0])));
                }
            }
            proof {
                assert(rest.skip(1) =~= self@.deps.skip(i + 1));
            }
            i += 1;
        }
        proof {
            assert(self@.deps.skip(self.dependencies.len() as int) =~= Seq::<Seq<char>>::empty());
        }
        names
    }
}

/// `acc` extended with the name part of each key in `ds`, skipping names
/// already collected.
pub open spec fn dep_names_acc(acc: Seq<Seq<char>>, ds: Seq<Seq<char>>) -> Seq<Seq<char>>
    decreases ds.len(),
{
    if ds.len() == 0 {
        acc
    } else {
        dep_names_acc(
            if acc.contains(spec_name_of(ds[0])) {
                acc
            } else {
                acc.push(spec_name_of(ds[0]))
            },
            ds.skip(1),
        )
    }
}

/// The distinct package names among the dependency keys `ds`.
pub open spec fn spec_dep_names(ds: Seq<Seq<char>>) -> Seq<Seq<char>> {
    dep_names_acc(Seq::empty(), ds)
}

/// The lock graph as held in memory: project name and version, and the
/// resolved entries in insertion order, one per `name@version` key.
pub struct LockFile {
    pub(crate) name: String,
    pub(crate) version: String,
    pub(crate) dependencies: Vec<(String, Dependency)>,
}

impl View for LockFile {
    type V = LockModel;

    open(crate) spec fn view(&self) -> LockModel {
        LockModel {
            name: self.name@,
            version: self.version@,
            entries: Seq::new(
                self.dependencies.len() as nat,
                |i: int| (self.dependencies[i].0@, self.dependencies[i].1@),
            ),
        }
    }
}

impl LockFile {
    /// An empty lock graph for the named project.
    pub fn new(name: String, version: String) -> (r: Self)
        ensures
            r@.name == name@,
            r@.version == version@,
            r@.entries == Seq::<(Seq<char>, DepModel)>::empty(),
            r@.wf(),
    {
        let r = LockFile { name, version, dependencies: Vec::new() };
        proof {
            assert(r@.entries =~= Seq::<(Seq<char>, DepModel)>::empty());
        }
        r
    }

    /// The project name recorded in the graph.
    pub fn get_name(&self) -> (r: &String)
        ensures
            r@ == self@.name,
    {
        &self.name
    }

    /// The project version recorded in the graph.
    pub fn get_project_version(&self) -> (r: &String)
        ensures
            r@ == self@.version,
    {
        &self.version
    }

    /// All resolved packages, as `(key, entry)` pairs in insertion order:
    /// the order is stable within a run, so diagnostics and the persisted
    /// file are deterministic.
    pub fn get_packages(&self) -> (r: &Vec<(String, Dependency)>)
        ensures
            r.len() == self@.entries.len(),
            forall|i: int|
                0 <= i < r.len() ==> (#[trigger] r[i]).0@ == self@.entries[i].0 && r[i].1@
                    == self@.entries[i].1,
    {
        &self.dependencies
    }

    /// Index of the entry keyed `key`, if any.
    fn find_key(&self, key: &String) -> (r: Option<usize>)
        ensures
            match r {
                Some(i) => first_key_index(self@.entries, key@) == i as int && i < self
                    .dependencies
                    .len(),
                None => first_key_index(self@.entries, key@) == -1,
            },
    {
        proof {
            lemma_first_key_index(self@.entries, key@);
        }
        let mut i: usize = 0;
        while i < self.dependencies.len()
            invariant
                i <= self.dependencies.len(),
                forall|j: int| 0 <= j < i ==> (#[trigger] self@.entries[j]).0 != key@,
        decreases self.dependencies.len() - i,
        {
            if self.dependencies[i].0 == *key {
                proof {
                    lemma_first_key_index(self@.entries, key@);
                    assert(self@.entries[i as int].0 == key@);
                    let fi = first_key_index(self@.entries, key@);
                    if fi == -1 {
                        assert(self@.entries[i as int].0 != key@);
                    } else if fi < i {
                        assert(self@.entries[fi].0 != key@);
                    } else if fi > i {
                        assert(self@.entries[i as int].0 != key@);
                    }
                }
                return Some(i);
            }
            i += 1;
        }
        proof {
            lemma_first_key_index(self@.entries, key@);
            let fi = first_key_index(self@.entries, key@);
            if fi != -1 {
                assert(self@.entries[fi].0 != key@);
            }
        }
        None
    }

    /// Merge-insert of a resolved package: a new key is appended with the
    /// given dependency keys (deduplicated); an existing key keeps its
    /// place, is overwritten to `version`, and its dependency set takes
    /// the union. The graph stays well formed.
    pub fn add_dependency(&mut self, name: &String, version: String, dependencies: &mut Vec<String>)
        ensures
            final(self)@ == spec_add(old(self)@, name@, version@, old(dependencies).deep_view()),
            final(dependencies)@ == old(dependencies)@,
            old(self)@.wf() ==> final(self)@.wf(),
    {
        proof {
            lemma_first_key_index(self@.entries, name@);
            if old(self)@.wf() {
                lemma_add_preserves_wf(old(self)@, name@, version@, old(dependencies).deep_view());
            }
        }
        let found = self.find_key(name);
        match found {
            Some(i) => {
                let ghost pre = self@.entries;
                let (k, mut dep) = self.dependencies.remove(i);
                dep.version = version;
                push_unique_all(&mut dep.dependencies, dependencies);
                self.dependencies.insert(i, (k, dep));
                proof {
                    assert(self@.entries =~= pre.update(
                        i as int,
                        (
                            pre[i as int].0,
                            DepModel {
                                version: version@,
                                deps: merge_deps(
                                    pre[i as int].1.deps,
                                    old(dependencies).deep_view(),
                                ),
                            },
                        ),
                    ));
                    assert(pre[i as int].0 == name@);
                    assert(final(self)@ =~= spec_add(
                        old(self)@,
                        name@,
                        version@,
                        old(dependencies).deep_view(),
                    ));
                }
            },
            None => {
                let ghost pre = self@.entries;
                let mut entry = Dependency { version, dependencies: Vec::new() };
                proof {
                    assert(entry.dependencies.deep_view() =~= Seq::<Seq<char>>::empty());
                }
                push_unique_all(&mut entry.dependencies, dependencies);
                self.dependencies.push((name.clone(), entry));
                proof {
                    assert(self@.entries =~= pre.push((name@, self@.entries.last().1)));
                    assert(final(self)@ =~= spec_add(
                        old(self)@,
                        name@,
                        version@,
                        old(dependencies).deep_view(),
                    ));
                }
            },
        }
    }

    /// The entry recorded under `key`, if any.
    pub fn get_dependency(&self, key: &String) -> (r: Option<&Dependency>)
        ensures
            match r {
                Some(d) => {
                    let i = first_key_index(self@.entries, key@);
                    &&& i != -1
                    &&& d@ == self@.entries[i].1
                },
                None => first_key_index(self@.entries, key@) == -1,
            },
    {
        match self.find_key(key) {
            Some(i) => Some(&self.dependencies[i].1),
            None => None,
        }
    }

    /// True if `key` is recorded in the graph.
    pub fn has_key(&self, key: &String) -> (r: bool)
        ensures
            r == (first_key_index(self@.entries, key@) != -1),
    {
        self.find_key(key).is_some()
    }
}

} // verus!
