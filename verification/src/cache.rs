//! The tarball cache's bookkeeping: which archive keys are present, and
//! the file name a key is stored under. A key is recorded at most once, so
//! at most one download is ever issued per distinct `name@version` across
//! a whole resolution run; the caller does the disk and network work and
//! asks here whether any is needed.

use vstd::prelude::*;
use vstd::string::*;

verus! {

/// A key's text with every path separator replaced, so it can stand as a
/// file name (`@scope/pkg@1.0.0` becomes `@scope-pkg@1.0.0`).
pub open spec fn spec_sanitize(s: Seq<char>) -> Seq<char> {
    s.map_values(
        |c: char|
            if c == '/' {
                '-'
            } else {
                c
            },
    )
}

/// The file name a cached archive is stored under: the sanitized key with
/// the archive suffix.
pub open spec fn spec_cache_file_name(key: Seq<char>) -> Seq<char> {
    spec_sanitize(key) + ".tgz"@
}

/// Replaces each `/` in `key` with `-`.
pub fn sanitize_key(key: &str) -> (r: String)
    ensures
        r@ == spec_sanitize(key@),
{
    let n = key.unicode_len();
    let mut out = String::new();
    let mut i: usize = 0;
    proof {
        assert(out@ =~= spec_sanitize(key@).take(0));
    }
    while i < n
        invariant
            i <= n,
            n == key@.len(),
            out@ == spec_sanitize(key@).take(i as int),
        decreases n - i,
    {
        let ghost pre = out@;
        // scan the separator-free stretch that starts here
        let mut j: usize = i;
        let mut sep = false;
        while j < n && !sep
            invariant
                i <= j <= n,
                n == key@.len(),
                !sep ==> (forall|k: int| i <= k < j ==> key@[k] != '/'),
                sep ==> i <= j < n && key@[j as int] == '/' && (forall|k: int|
                    i <= k < j ==> key@[k] != '/'),
            decreases n - j + (if sep { 0int } else { 1 }),
        {
            if key.get_char(j) == '/' {
                sep = true;
            } else {
                j += 1;
            }
        }
        let piece = key.substring_char(i, j);
        out.append(piece);
        if sep {
            out.append("-");
            proof {
                reveal_strlit("-");
                assert(out@ =~= spec_sanitize(key@).take(j + 1)) by {
                    assert(out@ =~= pre + key@.subrange(i as int, j as int) + "-"@);
                    assert forall|k: int|
                        0 <= k < j + 1 implies (pre + key@.subrange(i as int, j as int) + "-"@)[k]
                        == spec_sanitize(key@)[k] by {
                        if k < i {
                            assert(pre[k] == spec_sanitize(key@).take(i as int)[k]);
                        }
                    }
                }
            }
            i = j + 1;
        } else {
            proof {
                assert(out@ =~= spec_sanitize(key@).take(j as int)) by {
                    assert(out@ =~= pre + key@.subrange(i as int, j as int));
                    assert forall|k: int|
                        0 <= k < j implies (pre + key@.subrange(i as int, j as int))[k]
                        == spec_sanitize(key@)[k] by {
                        if k < i {
                            assert(pre[k] == spec_sanitize(key@).take(i as int)[k]);
                        }
                    }
                }
            }
            i = j;
        }
    }
    proof {
        assert(spec_sanitize(key@).take(n as int) =~= spec_sanitize(key@));
    }
    out
}

/// The file name under which the archive for `key` is cached.
pub fn cache_file_name(key: &str) -> (r: String)
    ensures
        r@ == spec_cache_file_name(key@),
{
    let mut out = sanitize_key(key);
    out.append(".tgz");
    out
}

/// The in-memory record of which archive keys the cache holds. Keys are
/// recorded at most once each.
pub struct TarballCache {
    pub(crate) keys: Vec<String>,
}

impl View for TarballCache {
    type V = Seq<Seq<char>>;

    open(crate) spec fn view(&self) -> Seq<Seq<char>> {
        self.keys.deep_view()
    }
}

impl TarballCache {
    /// No key is recorded twice.
    pub open spec fn wf(&self) -> bool {
        crate::lockfile::distinct_seq(self@)
    }

    /// An empty cache record.
    pub fn new() -> (r: TarballCache)
        ensures
            r@ == Seq::<Seq<char>>::empty(),
            r.wf(),
    {
        let r = TarballCache { keys: Vec::new() };
        proof {
            assert(r@ =~= Seq::<Seq<char>>::empty());
        }
        r
    }

    /// True if the archive for `key` is already cached: then no download
    /// is needed.
    pub fn has(&self, key: &String) -> (r: bool)
        ensures
            r == self@.contains(key@),
    {
        let mut i: usize = 0;
        while i < self.keys.len()
            invariant
                i <= self.keys.len(),
                forall|j: int| 0 <= j < i ==> self@[j] != key@,
            decreases self.keys.len() - i,
        {
            if self.keys[i] == *key {
                proof {
                    assert(self@[i as int] == key@);
                }
                return true;
            }
            i += 1;
        }
        proof {
            if self@.contains(key@) {
                let j = choose|j: int| 0 <= j < self@.len() && self@[j] == key@;
                assert(self@[j] != key@);
            }
        }
        false
    }

    /// Records that the archive for `key` is now cached. A key already
    /// present is not recorded again: the record only ever grows by keys
    /// it did not hold.
    pub fn record(&mut self, key: &String)
        ensures
            old(self)@.contains(key@) ==> final(self)@ == old(self)@,
            !old(self)@.contains(key@) ==> final(self)@ == old(self)@.push(key@),
            final(self)@.contains(key@),
            old(self).wf() ==> final(self).wf(),
    {
        if !self.has(key) {
            let ghost pre = self@;
            self.keys.push(key.clone());
            proof {
                assert(self@ =~= pre.push(key@));
                assert(self@[pre.len() as int] == key@);
                if old(self).wf() {
                    assert forall|a: int, b: int| 0 <= a < b < self@.len() implies self@[a]
                        != self@[b] by {
                        if b == pre.len() {
                            assert(pre[a] == self@[a]);
                            if self@[a] == key@ {
                                assert(pre.contains(key@));
                            }
                        }
                    }
                }
            }
        }
    }
}

} // verus!
