//! The registry metadata model: what a registry query returns, as plain
//! data. A document is either "full" (dist-tags plus a versions map) or
//! "pinned" (a single version's data at the top level). Version selection
//! against a document is a pure function: empty, `*`, or `latest` requests
//! take the `latest` dist-tag (or the pinned version), an exact request is
//! taken literally.

use vstd::prelude::*;
use vstd::string::*;
use crate::specifier::spec_key;

verus! {

/// True if the two texts read the same.
pub fn str_eq(a: &str, b: &str) -> (r: bool)
    ensures
        r == (a@ == b@),
{
    let an = a.unicode_len();
    let bn = b.unicode_len();
    if an != bn {
        proof {
            if a@ == b@ {
                assert(a@.len() == b@.len());
            }
        }
        return false;
    }
    let mut i: usize = 0;
    while i < an
        invariant
            i <= an,
            an == a@.len(),
            bn == b@.len(),
            an == bn,
            forall|k: int| 0 <= k < i ==> a@[k] == b@[k],
        decreases an - i,
    {
        if a.get_char(i) != b.get_char(i) {
            proof {
                if a@ == b@ {
                    assert(a@[i as int] == b@[i as int]);
                }
            }
            return false;
        }
        i += 1;
    }
    proof {
        assert(a@ =~= b@);
    }
    true
}

/// First index in a keyed pair list whose key reads `key`, or -1.
pub open spec fn first_str_index<T>(pairs: Seq<(String, T)>, key: Seq<char>) -> int
    decreases pairs.len(),
{
    if pairs.len() == 0 {
        -1
    } else if pairs[0].0@ == key {
        0
    } else {
        let r = first_str_index(pairs.skip(1), key);
        if r == -1 {
            -1
        } else {
            r + 1
        }
    }
}

pub proof fn lemma_first_str_index<T>(pairs: Seq<(String, T)>, key: Seq<char>)
    ensures
        first_str_index(pairs, key) == -1 ==> (forall|i: int|
            0 <= i < pairs.len() ==> (#[trigger] pairs[i]).0@ != key),
        first_str_index(pairs, key) != -1 ==> {
            &&& 0 <= first_str_index(pairs, key) < pairs.len()
            &&& pairs[first_str_index(pairs, key)].0@ == key
            &&& forall|i: int|
                0 <= i < first_str_index(pairs, key) ==> (#[trigger] pairs[i]).0@ != key
        },
    decreases pairs.len(),
{
    if pairs.len() == 0 {
    } else if pairs[0].0@ == key {
    } else {
        lemma_first_str_index(pairs.skip(1), key);
        let r = first_str_index(pairs.skip(1), key);
        if r == -1 {
            assert forall|i: int| 0 <= i < pairs.len() implies (#[trigger] pairs[i]).0@ != key by {
                if i > 0 {
                    assert(pairs.skip(1)[i - 1] == pairs[i]);
                }
            }
        } else {
            assert(pairs.skip(1)[r] == pairs[r + 1]);
            assert forall|i: int| 0 <= i < r + 1 implies (#[trigger] pairs[i]).0@ != key by {
                if i > 0 {
                    assert(pairs.skip(1)[i - 1] == pairs[i]);
                }
            }
        }
    }
}

/// The value bound to `key` in a keyed pair list, if any (first match).
pub open spec fn spec_lookup<T>(pairs: Seq<(String, T)>, key: Seq<char>) -> Option<T> {
    let i = first_str_index(pairs, key);
    if i == -1 {
        None
    } else {
        Some(pairs[i].1)
    }
}

/// The dist-tags of a registry document: named pointers (such as
/// `latest`) to concrete versions.
pub struct DistTags {
    pub(crate) tags: Vec<(String, String)>,
}

impl View for DistTags {
    type V = Seq<(String, String)>;

    open(crate) spec fn view(&self) -> Seq<(String, String)> {
        self.tags@
    }
}

impl DistTags {
    /// An empty tag map.
    pub fn new() -> (r: Self)
        ensures
            r@ == Seq::<(String, String)>::empty(),
    {
        let r = DistTags { tags: Vec::new() };
        proof {
            assert(r@ =~= Seq::<(String, String)>::empty());
        }
        r
    }

    /// Binds a tag to a version (appended; first binding of a tag wins on
    /// lookup).
    pub fn insert(&mut self, tag: String, version: String)
        ensures
            final(self)@ == old(self)@.push((tag, version)),
    {
        self.tags.push((tag, version));
    }

    /// The version the `latest` tag points at, if the tag is there.
    pub open spec fn spec_latest(&self) -> Option<String> {
        spec_lookup(self@, "latest"@)
    }

    /// Looks the `latest` dist-tag up.
    pub fn get_latest(&self) -> (r: Option<&String>)
        ensures
            match r {
                Some(v) => self.spec_latest() matches Some(w) && v@ == w@,
                None => self.spec_latest() is None,
            },
    {
        proof {
            lemma_first_str_index(self@, "latest"@);
        }
        let mut i: usize = 0;
        while i < self.tags.len()
            invariant
                i <= self.tags.len(),
                forall|j: int| 0 <= j < i ==> (#[trigger] self@[j]).0@ != "latest"@,
            decreases self.tags.len() - i,
        {
            if str_eq(self.tags[i].0.as_str(), "latest") {
                proof {
                    lemma_first_str_index(self@, "latest"@);
                    let fi = first_str_index(self@, "latest"@);
                    if fi == -1 {
                        assert(self@[i as int].0@ != "latest"@);
                    } else if fi < i {
                        assert(self@[fi].0@ != "latest"@);
                    } else if fi > i {
                        assert(self@[i as int].0@ != "latest"@);
                    }
                }
                return Some(&self.tags[i].1);
            }
            i += 1;
        }
        proof {
            lemma_first_str_index(self@, "latest"@);
            let fi = first_str_index(self@, "latest"@);
            if fi != -1 {
                assert(self@[fi].0@ != "latest"@);
            }
        }
        None
    }
}

/// A repository reference in its structured form.
pub struct RepositoryObject {
    pub kind: String,
    pub url: String,
}

/// A repository field is sometimes a bare string and sometimes an object:
/// a tagged two-variant sum, decoded by the document reader.
pub enum Repository {
    StringForm(String),
    ObjectForm(RepositoryObject),
}

/// A detached signature on a published archive (carried, not verified).
pub struct Signature {
    pub keyid: String,
    pub sig: String,
}

/// Where a version's archive lives and its published digests. The digest
/// fields are carried through; this core does not enforce them.
pub struct Dist {
    pub shasum: String,
    pub tarball: String,
    pub integrity: Option<String>,
    pub signature: Option<Signature>,
}

impl Dist {
    /// The archive URL.
    pub fn get_tarball(&self) -> (r: String)
        ensures
            r@ == self.tarball@,
    {
        self.tarball.clone()
    }

    /// The published digest.
    pub fn get_shasum(&self) -> (r: String)
        ensures
            r@ == self.shasum@,
    {
        self.shasum.clone()
    }

    /// Integrity is not cryptographically enforced by this core: every
    /// distribution is accepted.
    pub fn verify(&self) -> (r: bool)
        ensures
            r == true,
    {
        true
    }
}

/// The supported engines of a version: a name-to-range map in newer
/// documents, a bare list in older ones.
pub enum Engines {
    Pairs(Vec<(String, String)>),
    List(Vec<String>),
}

/// One published version out of a registry document.
pub struct Version {
    pub name: String,
    pub version: String,
    pub description: String,
    pub main: Option<String>,
    pub types: Option<String>,
    pub scripts: Option<Vec<(String, String)>>,
    pub repository: Option<Repository>,
    pub dependencies: Option<Vec<(String, String)>>,
    pub dev_dependencies: Option<Vec<(String, String)>>,
    pub peer_dependencies: Option<Vec<(String, String)>>,
    pub optional_dependencies: Option<Vec<(String, String)>>,
    pub bundled_dependencies: Option<Vec<(String, String)>>,
    pub engines: Option<Engines>,
    pub os: Option<Vec<String>>,
    pub cpu: Option<Vec<String>>,
    pub private: Option<bool>,
    pub dist: Dist,
}

/// The dependency pairs of a version, as `name@range` specifier keys.
pub open spec fn spec_dep_keys(pairs: Seq<(String, String)>) -> Seq<Seq<char>> {
    pairs.map_values(|p: (String, String)| spec_key(p.0@, p.1@))
}

/// The dependency keys a version document declares, or none.
pub open spec fn spec_version_dep_keys(deps: &Option<Vec<(String, String)>>) -> Seq<Seq<char>> {
    match deps {
        Some(pairs) => spec_dep_keys(pairs@),
        None => Seq::empty(),
    }
}

/// Formats each `(name, range)` pair as a `name@range` specifier.
pub fn format_dep_keys(pairs: &Vec<(String, String)>) -> (r: Vec<String>)
    ensures
        r.deep_view() == spec_dep_keys(pairs@),
{
    let mut r: Vec<String> = Vec::new();
    let mut i: usize = 0;
    proof {
        assert(r.deep_view() =~= spec_dep_keys(pairs@).take(0));
    }
    while i < pairs.len()
        invariant
            i <= pairs.len(),
            r.deep_view() == spec_dep_keys(pairs@).take(i as int),
        decreases pairs.len() - i,
    {
        let ghost pre = r.deep_view();
        let key = crate::specifier::make_key(pairs[i].0.as_str(), pairs[i].1.as_str());
        r.push(key);
        proof {
            assert(spec_dep_keys(pairs@)[i as int] == spec_key(
                pairs@[i as int].0@,
                pairs@[i as int].1@,
            ));
            assert(r.deep_view() =~= pre.push(spec_dep_keys(pairs@)[i as int]));
            assert(r.deep_view() =~= spec_dep_keys(pairs@).take(i + 1));
        }
        i += 1;
    }
    proof {
        assert(spec_dep_keys(pairs@).take(pairs.len() as int) =~= spec_dep_keys(pairs@));
    }
    r
}

impl Version {
    /// The archive URL of this version.
    pub fn get_tarball(&self) -> (r: String)
        ensures
            r@ == self.dist.tarball@,
    {
        self.dist.get_tarball()
    }

    /// The declared dependencies as `name@range` specifiers, in document
    /// order; empty when the version declares none.
    pub fn get_dependencies(&self) -> (r: Vec<String>)
        ensures
            r.deep_view() == spec_version_dep_keys(&self.dependencies),
    {
        match &self.dependencies {
            Some(pairs) => format_dep_keys(pairs),
            None => {
                let r: Vec<String> = Vec::new();
                proof {
                    assert(r.deep_view() =~= Seq::<Seq<char>>::empty());
                }
                r
            },
        }
    }
}

/// What an RFC 3339 date-and-time text denotes, as seconds since the Unix
/// epoch; nothing if the text is not a valid RFC 3339 date-time. The
/// result depends on the text alone.
pub uninterp spec fn rfc3339_epoch(s: Seq<char>) -> Option<i64>;

/// Relies on chrono's `DateTime::parse_from_rfc3339` and
/// `DateTime::timestamp`: parsing is a pure function of the text, and a
/// parsed instant has one well defined Unix timestamp.
#[verifier::external_body]
fn parse_rfc3339_epoch(s: &str) -> (r: Option<i64>)
    ensures
        r == rfc3339_epoch(s@),
{
    match chrono::DateTime::parse_from_rfc3339(s) {
        Ok(d) => Some(d.timestamp()),
        Err(_) => None,
    }
}

/// The publication instants of a document: when the package was created
/// and last modified, and one instant per version, all as Unix timestamps.
pub struct Time {
    pub created: i64,
    pub modified: i64,
    pub versions: Vec<(String, i64)>,
}

impl Time {
    /// Reads the `created` and `modified` instants of a document; nothing
    /// unless both texts are valid RFC 3339 date-times.
    pub fn new(created: &str, modified: &str) -> (r: Option<Time>)
        ensures
            match r {
                Some(t) => {
                    &&& rfc3339_epoch(created@) == Some(t.created)
                    &&& rfc3339_epoch(modified@) == Some(t.modified)
                    &&& t.versions@.len() == 0
                },
                None => rfc3339_epoch(created@) is None || rfc3339_epoch(modified@) is None,
            },
    {
        let c = parse_rfc3339_epoch(created);
        let m = parse_rfc3339_epoch(modified);
        match (c, m) {
            (Some(created), Some(modified)) => Some(
                Time { created, modified, versions: Vec::new() },
            ),
            _ => None,
        }
    }

    /// Records the publication instant of one version; false (and no
    /// change) when the text is not a valid RFC 3339 date-time.
    pub fn set(&mut self, version: String, time: &str) -> (r: bool)
        ensures
            match rfc3339_epoch(time@) {
                Some(epoch) => r && final(self).versions@ == old(self).versions@.push(
                    (version, epoch),
                ) && final(self).created == old(self).created && final(self).modified == old(
                    self,
                ).modified,
                None => !r && *final(self) == *old(self),
            },
    {
        match parse_rfc3339_epoch(time) {
            Some(epoch) => {
                self.versions.push((version, epoch));
                true
            },
            None => false,
        }
    }

    /// When the package was first published.
    pub fn get_created(&self) -> (r: i64)
        ensures
            r == self.created,
    {
        self.created
    }

    /// When the package was last changed.
    pub fn get_modified(&self) -> (r: i64)
        ensures
            r == self.modified,
    {
        self.modified
    }

    /// The recorded publication instant of `version`, if set.
    pub fn get_version_time(&self, version: &String) -> (r: Option<i64>)
        ensures
            r == spec_lookup(self.versions@, version@),
    {
        proof {
            lemma_first_str_index(self.versions@, version@);
        }
        let mut i: usize = 0;
        while i < self.versions.len()
            invariant
                i <= self.versions.len(),
                forall|j: int| 0 <= j < i ==> (#[trigger] self.versions@[j]).0@ != version@,
            decreases self.versions.len() - i,
        {
            if self.versions[i].0 == *version {
                proof {
                    lemma_first_str_index(self.versions@, version@);
                    let fi = first_str_index(self.versions@, version@);
                    if fi == -1 {
                        assert(self.versions@[i as int].0@ != version@);
                    } else if fi < i {
                        assert(self.versions@[fi].0@ != version@);
                    } else if fi > i {
                        assert(self.versions@[i as int].0@ != version@);
                    }
                }
                return Some(self.versions[i].1);
            }
            i += 1;
        }
        proof {
            lemma_first_str_index(self.versions@, version@);
            let fi = first_str_index(self.versions@, version@);
            if fi != -1 {
                assert(self.versions@[fi].0@ != version@);
            }
        }
        None
    }
}

/// One maintainer of a package.
pub struct Maintainer {
    pub name: Option<String>,
    pub email: Option<String>,
    pub url: Option<String>,
}

/// A bare URL value.
pub struct Url {
    pub(crate) url: String,
}

impl View for Url {
    type V = Seq<char>;

    open(crate) spec fn view(&self) -> Seq<char> {
        self.url@
    }
}

impl Url {
    /// Wraps a URL text.
    pub fn new(url: String) -> (r: Self)
        ensures
            r@ == url@,
    {
        Url { url }
    }

    /// The URL text.
    pub fn get(&self) -> (r: String)
        ensures
            r@ == self@,
    {
        self.url.clone()
    }

    /// Replaces the URL text.
    pub fn set(&mut self, url: String)
        ensures
            final(self)@ == url@,
    {
        self.url = url;
    }
}

/// A package author in structured form.
pub struct Author {
    pub name: Option<String>,
    pub email: Option<String>,
    pub url: Option<String>,
}

impl Author {
    /// An author from its parts.
    pub fn new(name: Option<String>, email: Option<String>, url: Option<String>) -> (r: Self)
        ensures
            r.name == name,
            r.email == email,
            r.url == url,
    {
        Author { name, email, url }
    }
}

/// An author field is sometimes a bare string and sometimes an object.
pub enum AuthorType {
    StringForm(String),
    ObjectForm(Author),
}

/// A registry document: what one query returns. A "full" document carries
/// dist-tags and a versions map; a "pinned" one carries a single version's
/// data (`dist`, `dependencies`, `version`) at the top level.
pub struct Registry {
    pub id: String,
    pub rev: Option<String>,
    pub name: String,
    pub dist_tags: Option<DistTags>,
    pub versions: Option<Vec<(String, Version)>>,
    pub time: Option<Time>,
    pub maintainers: Vec<Maintainer>,
    pub description: String,
    pub homepage: Option<Url>,
    pub keywords: Option<Vec<String>>,
    pub repository: Option<Repository>,
    pub author: Option<AuthorType>,
    pub license: Option<String>,
    pub readme: Option<String>,
    pub readme_file_name: Option<String>,
    pub dist: Option<Dist>,
    pub sequence: Option<i32>,
    pub dependencies: Option<Vec<(String, String)>>,
    pub dev_dependencies: Option<Vec<(String, String)>>,
    pub peer_dependencies: Option<Vec<(String, String)>>,
    pub optional_dependencies: Option<Vec<(String, String)>>,
    pub bundled_dependencies: Option<Vec<(String, String)>>,
    pub version: Option<String>,
}

impl Registry {
    /// The concrete version the document's `latest` pointer denotes: a
    /// pinned document's own version, else the `latest` dist-tag.
    pub open spec fn spec_latest_version(&self) -> Option<String> {
        match self.version {
            Some(v) => Some(v),
            None => match self.dist_tags {
                Some(tags) => tags.spec_latest(),
                None => None,
            },
        }
    }

    /// The version this document pins or tags as latest, if any.
    pub fn get_latest_version(&self) -> (r: Option<&String>)
        ensures
            match r {
                Some(v) => self.spec_latest_version() matches Some(w) && v@ == w@,
                None => self.spec_latest_version() is None,
            },
    {
        match &self.version {
            Some(v) => Some(v),
            None => match &self.dist_tags {
                Some(tags) => tags.get_latest(),
                None => None,
            },
        }
    }

    /// The version record the document's `latest` pointer selects out of a
    /// full document, if dist-tags, the tag, and the record are all there.
    pub open spec fn spec_latest_record(&self) -> Option<Version> {
        match (self.versions, self.dist_tags) {
            (Some(versions), Some(tags)) => match tags.spec_latest() {
                Some(latest) => spec_lookup(versions@, latest@),
                None => None,
            },
            _ => None,
        }
    }

    /// Looks up the version record for `version` in a full document.
    pub fn get_version_record(&self, version: &String) -> (r: Option<&Version>)
        ensures
            self.versions is None ==> r is None,
            self.versions matches Some(versions) ==> match r {
                Some(v) => spec_lookup(versions@, version@) == Some(*v),
                None => spec_lookup(versions@, version@) is None,
            },
    {
        let versions = match &self.versions {
            Some(vs) => vs,
            None => {
                return None;
            },
        };
        proof {
            lemma_first_str_index(versions@, version@);
        }
        let mut i: usize = 0;
        while i < versions.len()
            invariant
                i <= versions.len(),
                self.versions == Some(*versions),
                forall|j: int| 0 <= j < i ==> (#[trigger] versions@[j]).0@ != version@,
            decreases versions.len() - i,
        {
            if versions[i].0 == *version {
                proof {
                    lemma_first_str_index(versions@, version@);
                    let fi = first_str_index(versions@, version@);
                    if fi == -1 {
                        assert(versions@[i as int].0@ != version@);
                    } else if fi < i {
                        assert(versions@[fi].0@ != version@);
                    } else if fi > i {
                        assert(versions@[i as int].0@ != version@);
                    }
                    assert(first_str_index(versions@, version@) == i as int);
                    assert(spec_lookup(versions@, version@) == Some(versions@[i as int].1));
                }
                return Some(&versions[i].1);
            }
            i += 1;
        }
        proof {
            lemma_first_str_index(versions@, version@);
            let fi = first_str_index(versions@, version@);
            if fi != -1 {
                assert(versions@[fi].0@ != version@);
            }
        }
        None
    }

    /// The dependency keys this document declares for its selected
    /// version: out of a full document, the `latest` record's; out of a
    /// pinned one, the top-level pairs.
    pub open spec fn spec_dependencies(&self) -> Seq<Seq<char>> {
        match self.spec_latest_record() {
            Some(record) => spec_version_dep_keys(&record.dependencies),
            None => match self.dependencies {
                Some(pairs) => spec_dep_keys(pairs@),
                None => Seq::empty(),
            },
        }
    }

    /// The declared dependencies of the document's selected version, as
    /// `name@range` specifiers.
    pub fn get_dependencies(&self) -> (r: Vec<String>)
        ensures
            r.deep_view() == self.spec_dependencies(),
    {
        let record = match (&self.versions, &self.dist_tags) {
            (Some(_), Some(tags)) => match tags.get_latest() {
                Some(latest) => {
                    let latest_owned = latest.clone();
                    self.get_version_record(&latest_owned)
                },
                None => None,
            },
            _ => None,
        };
        match record {
            Some(v) => {
                proof {
                    assert(self.spec_latest_record() matches Some(w) && w == *v);
                }
                v.get_dependencies()
            },
            None => {
                proof {
                    assert(self.spec_latest_record() is None);
                }
                match &self.dependencies {
                    Some(pairs) => format_dep_keys(pairs),
                    None => {
                        let r: Vec<String> = Vec::new();
                        proof {
                            assert(r.deep_view() =~= Seq::<Seq<char>>::empty());
                        }
                        r
                    },
                }
            },
        }
    }

    /// The archive URL of the document's selected version: out of a full
    /// document, the `latest` record's; out of a pinned one, the top-level
    /// `dist`.
    pub open spec fn spec_tarball_url(&self) -> Option<Seq<char>> {
        match self.spec_latest_record() {
            Some(record) => Some(record.dist.tarball@),
            None => match self.dist {
                Some(dist) => Some(dist.tarball@),
                None => None,
            },
        }
    }

    /// The archive name of the document's selected version, built from
    /// its tarball URL; nothing when the document offers no archive or the
    /// URL has no `/-/` separator.
    pub fn get_tarball_name(&self) -> (r: Option<String>)
        ensures
            match self.spec_tarball_url() {
                Some(u) => (match r {
                    Some(nm) => spec_tarball_name(u) == Some(nm@),
                    None => spec_tarball_name(u) is None,
                }),
                None => r is None,
            },
    {
        match self.get_tarball_url() {
            Some(url) => tarball_name_of(url.as_str()),
            None => None,
        }
    }

    /// The archive URL this document offers, if any.
    pub fn get_tarball_url(&self) -> (r: Option<String>)
        ensures
            match r {
                Some(url) => self.spec_tarball_url() == Some(url@),
                None => self.spec_tarball_url() is None,
            },
    {
        let record = match (&self.versions, &self.dist_tags) {
            (Some(_), Some(tags)) => match tags.get_latest() {
                Some(latest) => {
                    let latest_owned = latest.clone();
                    self.get_version_record(&latest_owned)
                },
                None => None,
            },
            _ => None,
        };
        match record {
            Some(v) => {
                proof {
                    assert(self.spec_latest_record() matches Some(w) && w == *v);
                }
                Some(v.dist.get_tarball())
            },
            None => {
                proof {
                    assert(self.spec_latest_record() is None);
                }
                match &self.dist {
                    Some(dist) => Some(dist.get_tarball()),
                    None => None,
                }
            },
        }
    }
}

/// The public registry's URL prefix, which archive names strip off.
pub open spec fn registry_prefix() -> Seq<char> {
    "https://registry.npmjs.org/"@
}

/// First index where `/-/` begins in `s`, or -1.
pub open spec fn find_sep(s: Seq<char>) -> int
    decreases s.len(),
{
    if s.len() < 3 {
        -1
    } else if s[0] == '/' && s[1] == '-' && s[2] == '/' {
        0
    } else {
        let r = find_sep(s.skip(1));
        if r == -1 {
            -1
        } else {
            r + 1
        }
    }
}

pub proof fn lemma_find_sep(s: Seq<char>)
    ensures
        find_sep(s) == -1 ==> (forall|i: int|
            0 <= i < s.len() - 2 ==> !((#[trigger] s[i]) == '/' && s[i + 1] == '-' && s[i + 2]
                == '/')),
        find_sep(s) != -1 ==> {
            &&& 0 <= find_sep(s) <= s.len() - 3
            &&& s[find_sep(s)] == '/' && s[find_sep(s) + 1] == '-' && s[find_sep(s) + 2] == '/'
            &&& forall|i: int|
                0 <= i < find_sep(s) ==> !((#[trigger] s[i]) == '/' && s[i + 1] == '-' && s[i + 2]
                    == '/')
        },
    decreases s.len(),
{
    if s.len() < 3 {
    } else if s[0] == '/' && s[1] == '-' && s[2] == '/' {
    } else {
        lemma_find_sep(s.skip(1));
        let r = find_sep(s.skip(1));
        if r == -1 {
            assert forall|i: int|
                0 <= i < s.len() - 2 implies !((#[trigger] s[i]) == '/' && s[i + 1] == '-' && s[i
                + 2] == '/') by {
                if i > 0 {
                    assert(s.skip(1)[i - 1] == s[i]);
                    assert(s.skip(1)[i] == s[i + 1]);
                    assert(s.skip(1)[i + 1] == s[i + 2]);
                }
            }
        } else {
            assert(s.skip(1)[r] == s[r + 1]);
            assert(s.skip(1)[r + 1] == s[r + 2]);
            assert(s.skip(1)[r + 2] == s[r + 3]);
            assert forall|i: int|
                0 <= i < r + 1 implies !((#[trigger] s[i]) == '/' && s[i + 1] == '-' && s[i + 2]
                == '/') by {
                if i > 0 {
                    assert(s.skip(1)[i - 1] == s[i]);
                    assert(s.skip(1)[i] == s[i + 1]);
                    assert(s.skip(1)[i + 1] == s[i + 2]);
                }
            }
        }
    }
}

/// The archive name a tarball URL denotes: the public registry prefix
/// stripped, the name part (before the `/-/` separator) and the file part
/// joined with `-`, and the archive suffix appended; nothing when the URL
/// has no `/-/` separator.
pub open spec fn spec_tarball_name(url: Seq<char>) -> Option<Seq<char>> {
    let u = match crate::lock_text::strip_tag(registry_prefix(), url) {
        Some(x) => x,
        None => url,
    };
    let i = find_sep(u);
    if i == -1 {
        None
    } else {
        Some(u.take(i) + "-"@ + u.skip(i + 3) + ".tgz"@)
    }
}

/// Computes the archive name of a tarball URL.
pub fn tarball_name_of(url: &str) -> (r: Option<String>)
    ensures
        match r {
            Some(nm) => spec_tarball_name(url@) == Some(nm@),
            None => spec_tarball_name(url@) is None,
        },
{
    let stripped = crate::lock_text::strip_tag_exec(url, "https://registry.npmjs.org/");
    let u: &str = match &stripped {
        Some(x) => x.as_str(),
        None => url,
    };
    let ghost uv = u@;
    let n = u.unicode_len();
    if n < 3 {
        proof {
            lemma_find_sep(uv);
        }
        return None;
    }
    let mut i: usize = 0;
    let mut found = false;
    while i <= n - 3 && !found
        invariant
            n >= 3,
            i <= n - 2,
            n == uv.len(),
            u@ == uv,
            !found ==> (forall|k: int|
                0 <= k < i ==> !((#[trigger] uv[k]) == '/' && uv[k + 1] == '-' && uv[k + 2]
                    == '/')),
            found ==> i + 3 <= n && uv[i as int] == '/' && uv[i + 1] == '-' && uv[i + 2] == '/'
                && (forall|k: int|
                0 <= k < i ==> !((#[trigger] uv[k]) == '/' && uv[k + 1] == '-' && uv[k + 2]
                    == '/')),
        decreases n - i + (if found { 0int } else { 1 }),
    {
        if u.get_char(i) == '/' && u.get_char(i + 1) == '-' && u.get_char(i + 2) == '/' {
            found = true;
        } else {
            i += 1;
        }
    }
    proof {
        lemma_find_sep(uv);
    }
    if !found {
        proof {
            let f = find_sep(uv);
            if f != -1 {
                assert(!(uv[f] == '/' && uv[f + 1] == '-' && uv[f + 2] == '/'));
            }
        }
        return None;
    }
    proof {
        let f = find_sep(uv);
        if f == -1 {
            assert(!(uv[i as int] == '/' && uv[i + 1] == '-' && uv[i + 2] == '/'));
        } else if f < i {
            assert(!(uv[f] == '/' && uv[f + 1] == '-' && uv[f + 2] == '/'));
        } else if f > i {
            assert(!(uv[i as int] == '/' && uv[i + 1] == '-' && uv[i + 2] == '/'));
        }
        assert(find_sep(uv) == i as int);
    }
    let mut out = String::new();
    out.append(u.substring_char(0, i));
    out.append("-");
    out.append(u.substring_char(i + 3, n));
    out.append(".tgz");
    proof {
        assert(uv.subrange(0, i as int) =~= uv.take(i as int));
        assert(uv.subrange(i + 3, n as int) =~= uv.skip(i + 3));
        assert(out@ =~= uv.take(i as int) + "-"@ + uv.skip(i + 3) + ".tgz"@);
    }
    Some(out)
}

/// The version a request selects out of a document: an empty, `*`, or
/// `latest` request takes the document's `latest` pointer; any other
/// request is taken as that literal version, without checking that the
/// registry published it (a missing version surfaces later as a lookup
/// failure, not here). A pure function of the document and the request.
pub open spec fn spec_select_version(m: &Registry, request: Seq<char>) -> Option<Seq<char>> {
    if request.len() == 0 || request == "latest"@ || request == "*"@ {
        match m.spec_latest_version() {
            Some(v) => Some(v@),
            None => None,
        }
    } else {
        Some(request)
    }
}

/// Selects the concrete version for a request against a metadata
/// document. Returns nothing only when the request asks for the latest
/// version and the document carries neither a pinned version nor a
/// `latest` dist-tag.
pub fn select_version(m: &Registry, request: &str) -> (r: Option<String>)
    ensures
        match r {
            Some(v) => spec_select_version(m, request@) == Some(v@),
            None => spec_select_version(m, request@) is None,
        },
{
    if request.is_empty() || str_eq(request, "latest") || str_eq(request, "*") {
        match m.get_latest_version() {
            Some(v) => Some(v.clone()),
            None => None,
        }
    } else {
        proof {
            reveal_strlit("latest");
            reveal_strlit("*");
        }
        Some(request.to_owned())
    }
}

/// Two selections from the same document under the same request give the
/// same version: selection is a pure function of its inputs, with no
/// other state.
pub proof fn lemma_select_version_deterministic(
    m1: &Registry,
    m2: &Registry,
    r1: Seq<char>,
    r2: Seq<char>,
)
    requires
        m1 == m2,
        r1 == r2,
    ensures
        spec_select_version(m1, r1) == spec_select_version(m2, r2),
{
}

/// The version segment of a registry request: `*` asks for `latest`, a
/// caret or tilde is stripped off (the literal base version is requested,
/// not a range), anything else is passed through.
pub open spec fn spec_request_segment(v: Seq<char>) -> Seq<char> {
    if v == "*"@ {
        "latest"@
    } else if v.len() > 0 && (v[0] == '^' || v[0] == '~') {
        v.skip(1)
    } else {
        v
    }
}

/// Normalizes a version request into the path segment sent to the
/// registry.
pub fn request_segment(version: &str) -> (r: String)
    ensures
        r@ == spec_request_segment(version@),
{
    let n = version.unicode_len();
    if str_eq(version, "*") {
        let r = String::from_str("latest");
        return r;
    }
    proof {
        reveal_strlit("*");
    }
    if n > 0 {
        let c = version.get_char(0);
        if c == '^' || c == '~' {
            let r = version.substring_char(1, n).to_owned();
            proof {
                assert(version@.subrange(1, n as int) =~= version@.skip(1));
            }
            return r;
        }
    }
    version.to_owned()
}

} // verus!
