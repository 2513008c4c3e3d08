//! The dependency resolver: a work queue of specifiers, a visited set of
//! resolved keys, and one step per registry answer. Each step parses the
//! front specifier, selects its concrete version, and either skips a key
//! already resolved in this run, or records it into the lock graph, queues
//! its declared dependencies, and says whether the caller must download
//! the archive. A key is processed at most once, so resolution terminates
//! on cyclic dependency graphs and downloads each archive at most once.

use vstd::prelude::*;
use crate::cache::TarballCache;
use crate::lockfile::{
    LockFile, distinct_seq, first_key_index, lemma_add_key_present, lemma_add_keeps_keys,
    vec_contains_string,
};
use crate::package_json::{Package, VersionString, req_map_view, spec_insert_req, lemma_insert_pair_view};
use crate::registry::Registry;
use crate::specifier::{parse_library_name, make_key, spec_parse_specifier, spec_key};

verus! {

/// Why a resolution run stops: the registry or the network failed, the
/// answer had the wrong shape, a requested version or tag is missing, the
/// disk failed, or the asked-for operation is not implemented.
#[derive(Debug, PartialEq, Eq, Structural)]
pub enum ResolveError {
    Network,
    Malformed,
    NotFound,
    Filesystem,
    NotImplemented,
}

/// One unit of pending work: a raw specifier, and whether it came straight
/// from the user or manifest (a direct dependency) rather than from
/// another package's dependency list.
pub struct PendingItem {
    pub specifier: String,
    pub direct: bool,
}

/// What one resolution step asks of the caller.
pub enum StepOutcome {
    /// The key was already resolved in this run: nothing to do.
    Skip,
    /// The key was recorded; its archive is already cached.
    Recorded { key: String },
    /// The key was recorded; the caller must fetch `url` and store the
    /// archive under `key` before relying on the cache.
    Download { key: String, url: String },
}

/// The pending items as plain pairs of specifier text and direct flag.
pub open spec fn pending_view(items: Seq<PendingItem>) -> Seq<(Seq<char>, bool)> {
    items.map_values(|it: PendingItem| (it.specifier@, it.direct))
}

/// Dependency keys turned into non-direct pending work.
pub open spec fn as_pending(children: Seq<Seq<char>>) -> Seq<(Seq<char>, bool)> {
    children.map_values(|c: Seq<char>| (c, false))
}

/// The resolver's state between steps: the work queue, the lock graph and
/// cache being built, the manifest to register direct dependencies in, and
/// the keys already resolved in this run.
pub struct Resolver {
    pub pending: Vec<PendingItem>,
    pub lock: LockFile,
    pub cache: TarballCache,
    pub manifest: Package,
    pub visited: Vec<String>,
    pub dev: bool,
}

/// What recording one resolved package does to the resolver: the key joins
/// the visited set, the lock graph takes the entry with the declared
/// dependency keys, those keys join the work queue as non-direct work, and
/// a direct dependency is registered in the manifest (under the dev map
/// when the run is a dev install).
pub open spec fn records_entry(
    pre: Resolver,
    post: Resolver,
    meta: &Registry,
    direct: bool,
    name: Seq<char>,
    version: Seq<char>,
) -> bool {
    let key = spec_key(name, version);
    let children = meta.spec_dependencies();
    &&& !pre.visited.deep_view().contains(key)
    &&& post.visited.deep_view() == pre.visited.deep_view().push(key)
    &&& post.lock@ == crate::lockfile::spec_add(pre.lock@, key, version, children)
    &&& pending_view(post.pending@) == pending_view(pre.pending@).skip(1) + as_pending(children)
    &&& post.dev == pre.dev
    &&& (!direct ==> post.manifest == pre.manifest)
    &&& (direct ==> crate::package_json::manifest_rest_unchanged(pre.manifest, post.manifest))
    &&& (direct && !pre.dev ==> req_map_view(post.manifest.dependencies@) == spec_insert_req(
        req_map_view(pre.manifest.dependencies@),
        name,
        version,
    ) && post.manifest.dev_dependencies == pre.manifest.dev_dependencies)
    &&& (direct && pre.dev ==> (post.manifest.dev_dependencies matches Some(p1) && req_map_view(
        p1@,
    ) == (match pre.manifest.dev_dependencies {
        Some(p0) => spec_insert_req(req_map_view(p0@), name, version),
        None => seq![(name, version)],
    })) && post.manifest.dependencies == pre.manifest.dependencies)
}

impl Resolver {
    /// The resolver's discipline: the lock graph and cache stay well
    /// formed, no key is visited twice, and every visited key has its
    /// entry in the lock graph.
    pub open spec fn wf(&self) -> bool {
        &&& self.lock@.wf()
        &&& self.cache.wf()
        &&& distinct_seq(self.visited.deep_view())
        &&& forall|i: int|
            0 <= i < self.visited.deep_view().len() ==> first_key_index(
                self.lock@.entries,
                #[trigger] self.visited.deep_view()[i],
            ) != -1
    }

    /// A run over `libs`: each becomes pending work, direct when the
    /// caller says so (manifest-level additions), and nothing is visited
    /// yet.
    pub fn new(
        manifest: Package,
        lock: LockFile,
        cache: TarballCache,
        libs: Vec<String>,
        dev: bool,
        direct: bool,
    ) -> (r: Resolver)
        requires
            lock@.wf(),
            cache.wf(),
        ensures
            r.wf(),
            r.lock == lock,
            r.cache == cache,
            r.manifest == manifest,
            r.dev == dev,
            r.visited.deep_view() == Seq::<Seq<char>>::empty(),
            pending_view(r.pending@) == libs.deep_view().map_values(
                |c: Seq<char>| (c, direct),
            ),
    {
        let mut pending: Vec<PendingItem> = Vec::new();
        let mut i: usize = 0;
        proof {
            assert(pending_view(pending@) =~= libs.deep_view().map_values(
                |c: Seq<char>| (c, direct),
            ).take(0));
        }
        while i < libs.len()
            invariant
                i <= libs.len(),
                pending_view(pending@) == libs.deep_view().map_values(
                    |c: Seq<char>| (c, direct),
                ).take(i as int),
            decreases libs.len() - i,
        {
            let ghost pre = pending_view(pending@);
            pending.push(PendingItem { specifier: libs[i].clone(), direct });
            proof {
                assert(pending_view(pending@) =~= pre.push((libs.deep_view()[i as int], direct)));
                assert(pending_view(pending@) =~= libs.deep_view().map_values(
                    |c: Seq<char>| (c, direct),
                ).take(i + 1));
            }
            i += 1;
        }
        proof {
            let all = libs.deep_view().map_values(|c: Seq<char>| (c, direct));
            assert(all.take(libs.len() as int) =~= all);
        }
        let r = Resolver { pending, lock, cache, manifest, visited: Vec::new(), dev };
        proof {
            assert(r.visited.deep_view() =~= Seq::<Seq<char>>::empty());
        }
        r
    }

    /// True when no work is pending: the run is complete.
    pub fn done(&self) -> (r: bool)
        ensures
            r == (self.pending@.len() == 0),
    {
        self.pending.len() == 0
    }

    /// The registry request the caller must answer next: the parsed name
    /// and normalized version request of the front specifier.
    pub fn next_request(&self) -> (r: Option<(String, String)>)
        ensures
            match r {
                Some(req) => self.pending@.len() > 0 && req.0@ == spec_parse_specifier(
                    self.pending@[0].specifier@,
                ).0 && req.1@ == spec_parse_specifier(self.pending@[0].specifier@).1,
                None => self.pending@.len() == 0,
            },
    {
        if self.pending.len() == 0 {
            return None;
        }
        Some(parse_library_name(self.pending[0].specifier.clone()))
    }

    /// One resolution step, fed the registry's answer for the front
    /// specifier. Selects the concrete version; a key already resolved in
    /// this run is skipped (no work, no second lock entry, no second
    /// download); a new key is recorded into the lock graph with its
    /// declared dependency keys, which become pending work, and the caller
    /// is told to download the archive exactly when the cache does not
    /// hold the key yet. Fails only when no version can be selected, or
    /// when a download would be needed and the document offers no archive
    /// URL.
    pub fn on_metadata(&mut self, meta: &Registry) -> (r: Result<StepOutcome, ResolveError>)
        requires
            old(self).pending@.len() > 0,
            old(self).wf(),
        ensures
            final(self).wf(),
            final(self).dev == old(self).dev,
            ({
                let item = old(self).pending@[0];
                let parsed = spec_parse_specifier(item.specifier@);
                let selected = crate::registry::spec_select_version(meta, parsed.1);
                match r {
                    Err(e) => {
                        &&& e == ResolveError::NotFound
                        &&& final(self).pending@ == old(self).pending@.skip(1)
                        &&& final(self).lock == old(self).lock
                        &&& final(self).cache == old(self).cache
                        &&& final(self).manifest == old(self).manifest
                        &&& final(self).visited == old(self).visited
                        &&& (selected is None || (selected matches Some(v) && !old(
                            self,
                        ).visited.deep_view().contains(spec_key(parsed.0, v)) && !old(
                            self,
                        ).cache@.contains(spec_key(parsed.0, v)) && meta.spec_tarball_url()
                            is None))
                    },
                    Ok(out) => match out {
                        StepOutcome::Skip => {
                            &&& selected matches Some(v) && old(self).visited.deep_view().contains(
                                spec_key(parsed.0, v),
                            )
                            &&& final(self).pending@ == old(self).pending@.skip(1)
                            &&& final(self).lock == old(self).lock
                            &&& final(self).cache == old(self).cache
                            &&& final(self).manifest == old(self).manifest
                            &&& final(self).visited == old(self).visited
                        },
                        StepOutcome::Recorded { key } => {
                            &&& selected matches Some(v) && key@ == spec_key(parsed.0, v)
                                && records_entry(
                                *old(self),
                                *final(self),
                                meta,
                                item.direct,
                                parsed.0,
                                v,
                            )
                            &&& old(self).cache@.contains(key@)
                            &&& final(self).cache@ == old(self).cache@
                        },
                        StepOutcome::Download { key, url } => {
                            &&& selected matches Some(v) && key@ == spec_key(parsed.0, v)
                                && records_entry(
                                *old(self),
                                *final(self),
                                meta,
                                item.direct,
                                parsed.0,
                                v,
                            )
                            &&& !old(self).cache@.contains(key@)
                            &&& final(self).cache@ == old(self).cache@.push(key@)
                            &&& meta.spec_tarball_url() == Some(url@)
                        },
                    },
                }
            }),
    {
        let item = self.pending.remove(0);
        proof {
            assert(self.pending@ =~= old(self).pending@.skip(1));
            assert(pending_view(self.pending@) =~= pending_view(old(self).pending@).skip(1));
        }
        let PendingItem { specifier, direct } = item;
        let (name, version_req) = parse_library_name(specifier);
        let selected = match crate::registry::select_version(meta, version_req.as_str()) {
            Some(v) => v,
            None => {
                return Err(ResolveError::NotFound);
            },
        };
        let key = make_key(name.as_str(), selected.as_str());
        if vec_contains_string(&self.visited, &key) {
            return Ok(StepOutcome::Skip);
        }
        let need_download = !self.cache.has(&key);
        let url = if need_download {
            match meta.get_tarball_url() {
                Some(u) => Some(u),
                None => {
                    return Err(ResolveError::NotFound);
                },
            }
        } else {
            None
        };
        // record the resolved package
        let ghost pre_visited = self.visited.deep_view();
        self.visited.push(key.clone());
        proof {
            assert(self.visited.deep_view() =~= pre_visited.push(key@));
        }
        let mut children = meta.get_dependencies();
        let ghost pre_lock = self.lock@;
        self.lock.add_dependency(&key, selected.clone(), &mut children);
        proof {
            lemma_add_key_present(pre_lock, key@, selected@, children.deep_view());
            assert forall|i: int| 0 <= i < self.visited.deep_view().len() implies first_key_index(
                self.lock@.entries,
                #[trigger] self.visited.deep_view()[i],
            ) != -1 by {
                if i < pre_visited.len() {
                    assert(pre_visited[i] == self.visited.deep_view()[i]);
                    lemma_add_keeps_keys(
                        pre_lock,
                        key@,
                        selected@,
                        children.deep_view(),
                        pre_visited[i],
                    );
                }
            }
            assert forall|a: int, b: int|
                0 <= a < b < self.visited.deep_view().len() implies self.visited.deep_view()[a]
                != self.visited.deep_view()[b] by {
                if b == pre_visited.len() {
                    assert(pre_visited[a] == self.visited.deep_view()[a]);
                    if self.visited.deep_view()[a] == key@ {
                        assert(pre_visited.contains(key@));
                    }
                }
            }
        }
        // the declared dependencies become pending, non-direct work
        let ghost pre_pending = pending_view(self.pending@);
        let ghost mid = *self;
        proof {
            assert(pre_pending + as_pending(children.deep_view().take(0)) =~= pre_pending);
        }
        let mut i: usize = 0;
        while i < children.len()
            invariant
                i <= children.len(),
                self.lock == mid.lock,
                self.visited == mid.visited,
                self.cache == mid.cache,
                self.manifest == mid.manifest,
                self.dev == mid.dev,
                pending_view(self.pending@) == pre_pending + as_pending(
                    children.deep_view().take(i as int),
                ),
            decreases children.len() - i,
        {
            let ghost pv = pending_view(self.pending@);
            self.pending.push(PendingItem { specifier: children[i].clone(), direct: false });
            proof {
                assert(pending_view(self.pending@) =~= pv.push(
                    (children.deep_view()[i as int], false),
                ));
                assert(pending_view(self.pending@) =~= pre_pending + as_pending(
                    children.deep_view().take(i + 1),
                ));
            }
            i += 1;
        }
        proof {
            assert(children.deep_view().take(children.len() as int) =~= children.deep_view());
        }
        // a direct dependency is registered in the manifest
        if direct {
            let cloned = selected.clone();
            let ghost gname = name;
            let ghost gver = VersionString { version: cloned };
            if self.dev {
                let ghost pre_dev = self.manifest.dev_dependencies;
                self.manifest.add_dev_dependency(name, cloned);
                proof {
                    match pre_dev {
                        Some(p0) => {
                            lemma_insert_pair_view(p0@, gname, gver);
                        },
                        None => {
                            assert(req_map_view(seq![(gname, gver)]) =~= seq![(gname@, gver@)]);
                        },
                    }
                }
            } else {
                let ghost pre_deps = self.manifest.dependencies@;
                self.manifest.add_dependency(name, cloned);
                proof {
                    lemma_insert_pair_view(pre_deps, gname, gver);
                }
            }
        }
        self.cache.record(&key);
        if need_download {
            match url {
                Some(u) => Ok(StepOutcome::Download { key, url: u }),
                None => Err(ResolveError::NotFound),
            }
        } else {
            Ok(StepOutcome::Recorded { key })
        }
    }
}

/// At most one download per distinct key across a run: a download is
/// issued only for a key the cache does not yet hold, the issuing step
/// leaves the key held, and the cache record never shrinks; so a later
/// step that issues a download must name a different key. Two top-level
/// specifiers that transitively require the same `name@version` therefore
/// cause one download, and — the lock graph's keys staying distinct — one
/// lock entry.
pub proof fn lemma_no_duplicate_download(
    c0: Seq<Seq<char>>,
    k1: Seq<char>,
    c2: Seq<Seq<char>>,
    k2: Seq<char>,
)
    requires
        !c0.contains(k1),
        forall|x: Seq<char>| c0.push(k1).contains(x) ==> c2.contains(x),
        !c2.contains(k2),
    ensures
        k2 != k1,
{
    assert(c0.push(k1).contains(k1)) by {
        assert(c0.push(k1)[c0.len() as int] == k1);
    }
}

impl Resolver {
    /// Hands the built state back when the run is over.
    pub fn finish(self) -> (r: (Package, LockFile, TarballCache))
        ensures
            r.0 == self.manifest,
            r.1 == self.lock,
            r.2 == self.cache,
    {
        (self.manifest, self.lock, self.cache)
    }
}

} // verus!
