//! The module linker: turns a finished lock graph into a plan for the
//! on-disk module tree. The first package to claim a name is extracted at
//! the shared top level (hoisting); a conflicting version of the same name
//! is extracted under its full key. A dependency already satisfied at the
//! top level with the same version needs no link; any other dependency
//! gets a symbolic link under its dependent's own nested module directory,
//! pointing at the required version's extracted location.

use vstd::prelude::*;
use vstd::string::*;
use crate::cache::{spec_sanitize, sanitize_key};
use crate::lockfile::{LockFile, DepModel, first_key_index};
use crate::package_json::{first_req_index, lemma_first_req_index, req_lookup};
use crate::resolver::ResolveError;
use crate::specifier::{spec_name_of, spec_parse_specifier, spec_key, parse_library_name, make_key};

verus! {

/// `a/b`: the path of `b` under the directory `a`.
pub open spec fn spec_join(a: Seq<char>, b: Seq<char>) -> Seq<char> {
    a + "/"@ + b
}

/// Joins a directory and a name into one path.
pub fn join_path(a: &str, b: &str) -> (r: String)
    ensures
        r@ == spec_join(a@, b@),
{
    let mut out = String::new();
    out.append(a);
    out.append("/");
    out.append(b);
    proof {
        assert(out@ =~= spec_join(a@, b@));
    }
    out
}

/// The module root directory, under which the tree is built.
pub struct NodeModules {
    pub path: String,
}

impl NodeModules {
    /// A module tree rooted at `path`.
    pub fn new(path: String) -> (r: Self)
        ensures
            r.path@ == path@,
    {
        NodeModules { path }
    }

    /// The root path.
    pub fn get_path(&self) -> (r: String)
        ensures
            r@ == self.path@,
    {
        self.path.clone()
    }

    /// Where the package named `name` lives when hoisted to the top level.
    pub fn get_destination(&mut self, name: String) -> (r: String)
        ensures
            r@ == spec_join(old(self).path@, name@),
            *final(self) == *old(self),
    {
        join_path(self.path.as_str(), name.as_str())
    }

    /// The nested links the lock graph needs under this module root: one
    /// per dependency the shared top level does not satisfy, or the
    /// dangling-dependency failure.
    pub fn linking(&self, lock: &LockFile) -> (r: Result<Vec<LinkAction>, ResolveError>)
        ensures
            match r {
                Ok(links) => links_acc(
                    self.path@,
                    spec_claims(lock@.entries),
                    lock@.entries,
                    lock@.entries,
                ) == Some(links_view(links@)),
                Err(e) => e == ResolveError::NotFound && links_acc(
                    self.path@,
                    spec_claims(lock@.entries),
                    lock@.entries,
                    lock@.entries,
                ) is None,
            },
    {
        match link_plan(lock, self.path.as_str()) {
            Ok(plan) => Ok(plan.links),
            Err(e) => Err(e),
        }
    }
}

/// The top-level claims a lock graph makes, in entry order: the first
/// entry with a given package name claims the shared top-level directory
/// for its version; later versions of the same name do not.
pub open spec fn claims_acc(
    acc: Seq<(Seq<char>, Seq<char>)>,
    entries: Seq<(Seq<char>, DepModel)>,
) -> Seq<(Seq<char>, Seq<char>)>
    decreases entries.len(),
{
    if entries.len() == 0 {
        acc
    } else {
        let name = spec_name_of(entries[0].0);
        let acc1 = if first_req_index(acc, name) != -1 {
            acc
        } else {
            acc.push((name, entries[0].1.version))
        };
        claims_acc(acc1, entries.skip(1))
    }
}

pub open spec fn spec_claims(entries: Seq<(Seq<char>, DepModel)>) -> Seq<(Seq<char>, Seq<char>)> {
    claims_acc(Seq::empty(), entries)
}

/// Where the package under `key` (name `name`, version `version`) is
/// extracted: at the shared top level when it holds the claim for its
/// name, else under its full sanitized key.
pub open spec fn spec_location(
    root: Seq<char>,
    claims: Seq<(Seq<char>, Seq<char>)>,
    key: Seq<char>,
    name: Seq<char>,
    version: Seq<char>,
) -> Seq<char> {
    if req_lookup(claims, name) == Some(version) {
        spec_join(root, name)
    } else {
        spec_join(root, spec_sanitize(key))
    }
}

/// One archive to extract: the lock key and the directory it lands in.
pub struct ExtractAction {
    pub key: String,
    pub dest: String,
}

/// One nested reference to place: create `dir`, then link `dest` at
/// `target` unless `dest` already exists.
pub struct LinkAction {
    pub dir: String,
    pub dest: String,
    pub target: String,
}

/// What one dependency of one installed package needs on disk.
pub enum LinkDecision {
    /// The dependency's name is nowhere in the graph: the lock graph
    /// promised no installation for it.
    Dangling,
    /// The top level already satisfies the dependency: no link.
    Hoisted,
    /// A private nested link is needed.
    Nest { dir: Seq<char>, dest: Seq<char>, target: Seq<char> },
}

/// The decision for one dependency specifier `d` of a package installed at
/// `pkg_loc`: satisfied by the top level when the requested version is
/// unpinned (empty or `*`) or equals the top-level claim; otherwise a
/// nested link to the required version's extracted location, which must be
/// a key of the graph.
pub open spec fn spec_link_decision(
    root: Seq<char>,
    claims: Seq<(Seq<char>, Seq<char>)>,
    entries: Seq<(Seq<char>, DepModel)>,
    pkg_loc: Seq<char>,
    d: Seq<char>,
) -> LinkDecision {
    let parsed = spec_parse_specifier(d);
    let dn = parsed.0;
    let dv = parsed.1;
    match req_lookup(claims, dn) {
        None => LinkDecision::Dangling,
        Some(top_v) => if dv.len() == 0 || dv == "*"@ || top_v == dv {
            LinkDecision::Hoisted
        } else if first_key_index(entries, spec_key(dn, dv)) != -1 {
            let dir = spec_join(pkg_loc, "node_modules"@);
            LinkDecision::Nest {
                dir,
                dest: spec_join(dir, dn),
                target: spec_join(root, spec_sanitize(spec_key(dn, dv))),
            }
        } else {
            LinkDecision::Dangling
        },
    }
}

/// Looks a name up in the built claims.
fn claims_lookup<'a>(claims: &'a Vec<(String, String)>, name: &str) -> (r: Option<&'a String>)
    ensures
        match r {
            Some(v) => req_lookup(claims.deep_view(), name@) == Some(v@),
            None => req_lookup(claims.deep_view(), name@) is None,
        },
{
    let mut i: usize = 0;
    while i < claims.len()
        invariant
            i <= claims.len(),
            forall|j: int| 0 <= j < i ==> (#[trigger] claims.deep_view()[j]).0 != name@,
        decreases claims.len() - i,
    {
        if crate::registry::str_eq(claims[i].0.as_str(), name) {
            proof {
                lemma_first_req_index(claims.deep_view(), name@);
                let fi = first_req_index(claims.deep_view(), name@);
                assert(claims.deep_view()[i as int].0 == name@);
                if fi == -1 {
                    assert(claims.deep_view()[i as int].0 != name@);
                } else if fi < i {
                    assert(claims.deep_view()[fi].0 != name@);
                } else if fi > i {
                    assert(claims.deep_view()[i as int].0 != name@);
                }
                assert(first_req_index(claims.deep_view(), name@) == i as int);
            }
            return Some(&claims[i].1);
        }
        i += 1;
    }
    proof {
        lemma_first_req_index(claims.deep_view(), name@);
        let fi = first_req_index(claims.deep_view(), name@);
        if fi != -1 {
            assert(claims.deep_view()[fi].0 != name@);
        }
    }
    None
}

/// Builds the top-level claims of a graph: for each name, the version of
/// the first entry carrying it.
fn build_claims(lock: &LockFile) -> (r: Vec<(String, String)>)
    ensures
        r.deep_view() == spec_claims(lock@.entries),
{
    let packages = lock.get_packages();
    let mut claims: Vec<(String, String)> = Vec::new();
    let mut i: usize = 0;
    proof {
        assert(claims.deep_view() =~= Seq::<(Seq<char>, Seq<char>)>::empty());
        assert(lock@.entries.skip(0) =~= lock@.entries);
    }
    while i < packages.len()
        invariant
            i <= packages.len(),
            packages.len() == lock@.entries.len(),
            forall|j: int|
                0 <= j < packages.len() ==> (#[trigger] packages[j]).0@ == lock@.entries[j].0
                    && packages[j].1@ == lock@.entries[j].1,
            claims_acc(claims.deep_view(), lock@.entries.skip(i as int)) == spec_claims(
                lock@.entries,
            ),
        decreases packages.len() - i,
    {
        let ghost rest = lock@.entries.skip(i as int);
        let (name, _version) = parse_library_name(packages[i].0.clone());
        proof {
            assert(rest[0] == lock@.entries[i as int]);
            assert(name@ == spec_name_of(rest[0].0));
        }
        let found = claims_lookup(&claims, name.as_str());
        let ghost pre = claims.deep_view();
        proof {
            lemma_first_req_index(pre, name@);
        }
        match found {
            Some(_) => {
                proof {
                    assert(first_req_index(pre, name@) != -1);
                }
            },
            None => {
                let version = packages[i].1.get_version();
                claims.push((name, version));
                proof {
                    assert(first_req_index(pre, name@) == -1);
                    assert(claims.deep_view() =~= pre.push((name@, rest[0].1.version)));
                }
            },
        }
        proof {
            assert(rest.skip(1) =~= lock@.entries.skip(i + 1));
        }
        i += 1;
    }
    proof {
        assert(lock@.entries.skip(packages.len() as int) =~= Seq::<(Seq<char>, DepModel)>::empty());
    }
    claims
}

/// The extraction plan of a graph, walking the entries in order with the
/// claims built so far: a name's first entry is extracted at the top
/// level, an entry whose name is claimed at the same version is already
/// extracted, and a conflicting version is extracted under its full
/// sanitized key.
pub open spec fn extracts_acc(
    root: Seq<char>,
    acc: Seq<(Seq<char>, Seq<char>)>,
    entries: Seq<(Seq<char>, DepModel)>,
) -> Seq<(Seq<char>, Seq<char>)>
    decreases entries.len(),
{
    if entries.len() == 0 {
        Seq::empty()
    } else {
        let key = entries[0].0;
        let name = spec_name_of(key);
        let version = entries[0].1.version;
        match req_lookup(acc, name) {
            None => seq![(key, spec_join(root, name))] + extracts_acc(
                root,
                acc.push((name, version)),
                entries.skip(1),
            ),
            Some(v) => if v == version {
                extracts_acc(root, acc, entries.skip(1))
            } else {
                seq![(key, spec_join(root, spec_sanitize(key)))] + extracts_acc(
                    root,
                    acc,
                    entries.skip(1),
                )
            },
        }
    }
}

pub open spec fn spec_extracts(root: Seq<char>, entries: Seq<(Seq<char>, DepModel)>) -> Seq<
    (Seq<char>, Seq<char>),
> {
    extracts_acc(root, Seq::empty(), entries)
}

/// The extract actions as plain pairs of key and destination.
pub open spec fn extracts_view(acts: Seq<ExtractAction>) -> Seq<(Seq<char>, Seq<char>)> {
    acts.map_values(|a: ExtractAction| (a.key@, a.dest@))
}

/// The link actions as plain triples of directory, destination, and
/// target.
pub open spec fn links_view(acts: Seq<LinkAction>) -> Seq<LinkDecision> {
    acts.map_values(
        |a: LinkAction| LinkDecision::Nest { dir: a.dir@, dest: a.dest@, target: a.target@ },
    )
}

/// The nested links a graph needs: for every entry, in order, one `Nest`
/// decision per dependency specifier that the top level does not satisfy;
/// nothing if any dependency dangles.
pub open spec fn links_acc(
    root: Seq<char>,
    claims: Seq<(Seq<char>, Seq<char>)>,
    all: Seq<(Seq<char>, DepModel)>,
    entries: Seq<(Seq<char>, DepModel)>,
) -> Option<Seq<LinkDecision>>
    decreases entries.len(), 0nat,
{
    if entries.len() == 0 {
        Some(Seq::empty())
    } else {
        let key = entries[0].0;
        let name = spec_name_of(key);
        let pkg_loc = spec_location(root, claims, key, name, entries[0].1.version);
        match entry_links(root, claims, all, pkg_loc, entries[0].1.deps) {
            None => None,
            Some(ls) => match links_acc(root, claims, all, entries.skip(1)) {
                None => None,
                Some(rest) => Some(ls + rest),
            },
        }
    }
}

/// The nested links one entry needs, in dependency order.
pub open spec fn entry_links(
    root: Seq<char>,
    claims: Seq<(Seq<char>, Seq<char>)>,
    all: Seq<(Seq<char>, DepModel)>,
    pkg_loc: Seq<char>,
    deps: Seq<Seq<char>>,
) -> Option<Seq<LinkDecision>>
    decreases deps.len(),
{
    if deps.len() == 0 {
        Some(Seq::empty())
    } else {
        match spec_link_decision(root, claims, all, pkg_loc, deps[0]) {
            LinkDecision::Dangling => None,
            LinkDecision::Hoisted => entry_links(root, claims, all, pkg_loc, deps.skip(1)),
            LinkDecision::Nest { dir, dest, target } => match entry_links(
                root,
                claims,
                all,
                pkg_loc,
                deps.skip(1),
            ) {
                None => None,
                Some(rest) => Some(seq![LinkDecision::Nest { dir, dest, target }] + rest),
            },
        }
    }
}

/// The whole plan for a graph: what to extract where, and which nested
/// links to place.
pub struct LinkPlan {
    pub extracts: Vec<ExtractAction>,
    pub links: Vec<LinkAction>,
}

/// Computes the module tree plan of a finished lock graph: the extraction
/// list (hoisting first claimants, nesting conflicting versions under
/// their sanitized keys) and the nested links, or the dangling-dependency
/// failure when an entry requires a pinned version the graph does not
/// hold.
pub fn link_plan(lock: &LockFile, root: &str) -> (r: Result<LinkPlan, ResolveError>)
    ensures
        match r {
            Ok(plan) => {
                &&& extracts_view(plan.extracts@) == spec_extracts(root@, lock@.entries)
                &&& links_acc(root@, spec_claims(lock@.entries), lock@.entries, lock@.entries)
                    == Some(links_view(plan.links@))
            },
            Err(e) => e == ResolveError::NotFound && links_acc(
                root@,
                spec_claims(lock@.entries),
                lock@.entries,
                lock@.entries,
            ) is None,
        },
{
    let claims = build_claims(lock);
    let packages = lock.get_packages();

    // extraction pass, rebuilding the claims as the walk goes
    let mut extracts: Vec<ExtractAction> = Vec::new();
    let mut walk: Vec<(String, String)> = Vec::new();
    let mut i: usize = 0;
    proof {
        assert(walk.deep_view() =~= Seq::<(Seq<char>, Seq<char>)>::empty());
        assert(extracts_view(extracts@) =~= Seq::<(Seq<char>, Seq<char>)>::empty());
        assert(lock@.entries.skip(0) =~= lock@.entries);
    }
    while i < packages.len()
        invariant
            i <= packages.len(),
            packages.len() == lock@.entries.len(),
            forall|j: int|
                0 <= j < packages.len() ==> (#[trigger] packages[j]).0@ == lock@.entries[j].0
                    && packages[j].1@ == lock@.entries[j].1,
            spec_extracts(root@, lock@.entries) == extracts_view(extracts@) + extracts_acc(
                root@,
                walk.deep_view(),
                lock@.entries.skip(i as int),
            ),
        decreases packages.len() - i,
    {
        let ghost rest = lock@.entries.skip(i as int);
        let ghost pre_walk = walk.deep_view();
        let ghost pre_ext = extracts_view(extracts@);
        let key = packages[i].0.clone();
        let (name, _ignored) = parse_library_name(packages[i].0.clone());
        let version = packages[i].1.get_version();
        proof {
            assert(rest[0] == lock@.entries[i as int]);
            assert(name@ == spec_name_of(rest[0].0));
            assert(key@ == rest[0].0);
            assert(version@ == rest[0].1.version);
        }
        match claims_lookup(&walk, name.as_str()) {
            None => {
                let dest = join_path(root, name.as_str());
                extracts.push(ExtractAction { key, dest });
                walk.push((name, version));
                proof {
                    assert(walk.deep_view() =~= pre_walk.push((spec_name_of(rest[0].0), rest[0].1.version)));
                    assert(extracts_view(extracts@) =~= pre_ext.push(
                        (rest[0].0, spec_join(root@, spec_name_of(rest[0].0))),
                    ));
                    assert(pre_ext + (seq![(rest[0].0, spec_join(root@, spec_name_of(rest[0].0)))]
                        + extracts_acc(root@, walk.deep_view(), rest.skip(1))) =~= extracts_view(
                        extracts@,
                    ) + extracts_acc(root@, walk.deep_view(), rest.skip(1)));
                }
            },
            Some(v) => {
                if crate::registry::str_eq(v.as_str(), version.as_str()) {
                    // the top level already holds this exact version
                } else {
                    let sk = sanitize_key(key.as_str());
                    let dest = join_path(root, sk.as_str());
                    extracts.push(ExtractAction { key, dest });
                    proof {
                        assert(extracts_view(extracts@) =~= pre_ext.push(
                            (rest[0].0, spec_join(root@, spec_sanitize(rest[0].0))),
                        ));
                        assert(pre_ext + (seq![
                            (rest[0].0, spec_join(root@, spec_sanitize(rest[0].0))),
                        ] + extracts_acc(root@, walk.deep_view(), rest.skip(1))) =~= extracts_view(
                            extracts@,
                        ) + extracts_acc(root@, walk.deep_view(), rest.skip(1)));
                    }
                }
            },
        }
        proof {
            assert(rest.skip(1) =~= lock@.entries.skip(i + 1));
        }
        i += 1;
    }
    proof {
        assert(lock@.entries.skip(packages.len() as int) =~= Seq::<(Seq<char>, DepModel)>::empty());
        assert(extracts_view(extracts@) + Seq::<(Seq<char>, Seq<char>)>::empty() =~= extracts_view(
            extracts@,
        ));
    }

    // linking pass against the final claims
    let mut links: Vec<LinkAction> = Vec::new();
    let ghost cl = claims.deep_view();
    let ghost all = lock@.entries;
    let mut i2: usize = 0;
    proof {
        assert(links_view(links@) =~= Seq::<LinkDecision>::empty());
        assert(all.skip(0) =~= all);
        match links_acc(root@, cl, all, all) {
            Some(rest) => {
                assert(links_view(links@) + rest =~= rest);
            },
            None => {},
        }
    }
    while i2 < packages.len()
        invariant
            i2 <= packages.len(),
            packages.len() == all.len(),
            all == lock@.entries,
            cl == spec_claims(all),
            cl == claims.deep_view(),
            forall|j: int|
                0 <= j < packages.len() ==> (#[trigger] packages[j]).0@ == all[j].0 && packages[j].1@
                    == all[j].1,
            links_acc(root@, cl, all, all) == (match links_acc(
                root@,
                cl,
                all,
                all.skip(i2 as int),
            ) {
                Some(rest) => Some(links_view(links@) + rest),
                None => None::<Seq<LinkDecision>>,
            }),
        decreases packages.len() - i2,
    {
        let ghost rest = all.skip(i2 as int);
        let (name, _ignored) = parse_library_name(packages[i2].0.clone());
        let version = packages[i2].1.get_version();
        proof {
            assert(rest[0] == all[i2 as int]);
            assert(name@ == spec_name_of(rest[0].0));
            assert(version@ == rest[0].1.version);
        }
        // where this package itself lives
        let pkg_loc = match claims_lookup(&claims, name.as_str()) {
            Some(v) => {
                if crate::registry::str_eq(v.as_str(), version.as_str()) {
                    join_path(root, name.as_str())
                } else {
                    let sk = sanitize_key(packages[i2].0.as_str());
                    join_path(root, sk.as_str())
                }
            },
            None => {
                let sk = sanitize_key(packages[i2].0.as_str());
                join_path(root, sk.as_str())
            },
        };
        proof {
            assert(pkg_loc@ == spec_location(
                root@,
                cl,
                rest[0].0,
                spec_name_of(rest[0].0),
                rest[0].1.version,
            ));
        }
        let deps = packages[i2].1.get_dependency_keys();
        let ghost dep_seq = rest[0].1.deps;
        let ghost pre_links = links_view(links@);
        let mut k: usize = 0;
        proof {
            assert(dep_seq.skip(0) =~= dep_seq);
            assert(links_view(links@).skip(pre_links.len() as int) =~= Seq::<
                LinkDecision,
            >::empty());
            assert(links_view(links@).take(pre_links.len() as int) =~= pre_links);
            match entry_links(root@, cl, all, pkg_loc@, dep_seq) {
                Some(r2) => {
                    assert(links_view(links@).skip(pre_links.len() as int) + r2 =~= r2);
                },
                None => {},
            }
        }
        while k < deps.len()
            invariant
                k <= deps.len(),
                i2 < packages.len(),
                packages.len() == all.len(),
                all == lock@.entries,
                cl == spec_claims(all),
                cl == claims.deep_view(),
                deps.deep_view() == dep_seq,
                dep_seq == all[i2 as int].1.deps,
                pkg_loc@ == spec_location(
                    root@,
                    cl,
                    all[i2 as int].0,
                    spec_name_of(all[i2 as int].0),
                    all[i2 as int].1.version,
                ),
                links_acc(root@, cl, all, all) == (match links_acc(
                    root@,
                    cl,
                    all,
                    all.skip(i2 as int),
                ) {
                    Some(rest) => Some(pre_links + rest),
                    None => None::<Seq<LinkDecision>>,
                }),
                entry_links(root@, cl, all, pkg_loc@, dep_seq) == (match entry_links(
                    root@,
                    cl,
                    all,
                    pkg_loc@,
                    dep_seq.skip(k as int),
                ) {
                    Some(rest2) => Some(links_view(links@).skip(pre_links.len() as int) + rest2),
                    None => None::<Seq<LinkDecision>>,
                }),
                links_view(links@).take(pre_links.len() as int) == pre_links,
                pre_links.len() <= links_view(links@).len(),
            decreases deps.len() - k,
        {
            let ghost drest = dep_seq.skip(k as int);
            proof {
                assert(drest[0] == dep_seq[k as int]);
                assert(deps.deep_view()[k as int] == drest[0]);
            }
            let (dn, dv) = parse_library_name(deps[k].clone());
            let ghost decision = spec_link_decision(root@, cl, all, pkg_loc@, drest[0]);
            match claims_lookup(&claims, dn.as_str()) {
                None => {
                    proof {
                        assert(decision == LinkDecision::Dangling);
                        assert(entry_links(root@, cl, all, pkg_loc@, drest) is None);
                        assert(entry_links(root@, cl, all, pkg_loc@, dep_seq) is None);
                        assert(all.skip(i2 as int)[0] == all[i2 as int]);
                        assert(links_acc(root@, cl, all, all.skip(i2 as int)) is None);
                        assert(links_acc(root@, cl, all, all) is None);
                    }
                    return Err(ResolveError::NotFound);
                },
                Some(top_v) => {
                    let unpinned = dv.as_str().is_empty() || crate::registry::str_eq(
                        dv.as_str(),
                        "*",
                    );
                    if unpinned || crate::registry::str_eq(top_v.as_str(), dv.as_str()) {
                        // satisfied at the top level
                        proof {
                            assert(decision == LinkDecision::Hoisted);
                        }
                    } else {
                        let dep_key = make_key(dn.as_str(), dv.as_str());
                        if !lock.has_key(&dep_key) {
                            proof {
                                assert(decision == LinkDecision::Dangling);
                                assert(entry_links(root@, cl, all, pkg_loc@, drest) is None);
                                assert(entry_links(root@, cl, all, pkg_loc@, dep_seq) is None);
                                assert(all.skip(i2 as int)[0] == all[i2 as int]);
                                assert(links_acc(root@, cl, all, all.skip(i2 as int)) is None);
                                assert(links_acc(root@, cl, all, all) is None);
                            }
                            return Err(ResolveError::NotFound);
                        }
                        let dir = join_path(pkg_loc.as_str(), "node_modules");
                        let dest = join_path(dir.as_str(), dn.as_str());
                        let sk = sanitize_key(dep_key.as_str());
                        let target = join_path(root, sk.as_str());
                        let ghost pl = links_view(links@);
                        links.push(LinkAction { dir, dest, target });
                        proof {
                            assert(decision == (LinkDecision::Nest {
                                dir: spec_join(pkg_loc@, "node_modules"@),
                                dest: spec_join(spec_join(pkg_loc@, "node_modules"@), dn@),
                                target: spec_join(root@, spec_sanitize(spec_key(dn@, dv@))),
                            }));
                            assert(links_view(links@) =~= pl.push(decision));
                            assert(links_view(links@).take(pre_links.len() as int) =~= pre_links);
                            assert(links_view(links@).skip(pre_links.len() as int) =~= pl.skip(
                                pre_links.len() as int,
                            ).push(decision));
                            match entry_links(root@, cl, all, pkg_loc@, dep_seq.skip(k + 1)) {
                                Some(r2) => {
                                    assert(pl.skip(pre_links.len() as int).push(decision) + r2
                                        =~= pl.skip(pre_links.len() as int) + (seq![decision]
                                        + r2));
                                },
                                None => {},
                            }
                        }
                    }
                },
            }
            proof {
                assert(drest.skip(1) =~= dep_seq.skip(k + 1));
            }
            k += 1;
        }
        proof {
            assert(dep_seq.skip(deps.len() as int) =~= Seq::<Seq<char>>::empty());
            assert(entry_links(root@, cl, all, pkg_loc@, dep_seq) == Some(
                links_view(links@).skip(pre_links.len() as int),
            ));
            assert(pre_links + links_view(links@).skip(pre_links.len() as int) =~= links_view(
                links@,
            ));
            assert(rest.skip(1) =~= all.skip(i2 + 1));
            assert(rest[0] == all[i2 as int]);
            match links_acc(root@, cl, all, all.skip(i2 + 1)) {
                Some(r3) => {
                    assert(links_acc(root@, cl, all, rest) == Some(
                        links_view(links@).skip(pre_links.len() as int) + r3,
                    ));
                    assert(pre_links + (links_view(links@).skip(pre_links.len() as int) + r3)
                        =~= links_view(links@) + r3);
                },
                None => {},
            }
        }
        i2 += 1;
    }
    proof {
        assert(all.skip(packages.len() as int) =~= Seq::<(Seq<char>, DepModel)>::empty());
        assert(links_view(links@) + Seq::<LinkDecision>::empty() =~= links_view(links@));
    }
    Ok(LinkPlan { extracts, links })
}

} // verus!
