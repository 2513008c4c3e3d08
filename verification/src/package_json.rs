//! The project manifest as held in memory: name, version, scripts, and the
//! declared dependency maps. Reading and writing the manifest file is the
//! caller's business; this model carries the dependency-list edits and the
//! version-request normalization.

use vstd::prelude::*;
use vstd::string::*;
use crate::registry::{first_str_index, lemma_first_str_index, spec_lookup, str_eq};

verus! {

/// Index where `||` last begins in `s`, or -1 if it never appears.
pub open spec fn last_alt_index(s: Seq<char>) -> int
    decreases s.len(),
{
    if s.len() < 2 {
        -1
    } else if s[s.len() - 2] == '|' && s[s.len() - 1] == '|' {
        s.len() - 2
    } else {
        last_alt_index(s.drop_last())
    }
}

pub proof fn lemma_last_alt_index(s: Seq<char>)
    ensures
        last_alt_index(s) == -1 ==> (forall|p: int|
            0 <= p < s.len() - 1 ==> !((#[trigger] s[p]) == '|' && s[p + 1] == '|')),
        last_alt_index(s) != -1 ==> {
            &&& 0 <= last_alt_index(s) <= s.len() - 2
            &&& s[last_alt_index(s)] == '|' && s[last_alt_index(s) + 1] == '|'
            &&& forall|p: int|
                last_alt_index(s) < p < s.len() - 1 ==> !((#[trigger] s[p]) == '|' && s[p + 1]
                    == '|')
        },
    decreases s.len(),
{
    if s.len() < 2 {
    } else if s[s.len() - 2] == '|' && s[s.len() - 1] == '|' {
    } else {
        lemma_last_alt_index(s.drop_last());
        assert(forall|i: int| 0 <= i < s.len() - 1 ==> s.drop_last()[i] == s[i]);
    }
}

/// The last `||`-separated alternative of a version expression, or the
/// whole expression if there is no `||`.
pub open spec fn spec_after_alt(s: Seq<char>) -> Seq<char> {
    if last_alt_index(s) == -1 {
        s
    } else {
        s.skip(last_alt_index(s) + 2)
    }
}

pub open spec fn trim_front(s: Seq<char>) -> Seq<char>
    decreases s.len(),
{
    if s.len() > 0 && s[0] == ' ' {
        trim_front(s.skip(1))
    } else {
        s
    }
}

pub open spec fn trim_back(s: Seq<char>) -> Seq<char>
    decreases s.len(),
{
    if s.len() > 0 && s[s.len() - 1] == ' ' {
        trim_back(s.drop_last())
    } else {
        s
    }
}

/// `s` without its leading and trailing spaces.
pub open spec fn spec_trim(s: Seq<char>) -> Seq<char> {
    trim_back(trim_front(s))
}

proof fn lemma_trim_front_at(s: Seq<char>, a: int)
    requires
        0 <= a <= s.len(),
        forall|k: int| 0 <= k < a ==> s[k] == ' ',
        a == s.len() || s[a] != ' ',
    ensures
        trim_front(s) =~= s.skip(a),
    decreases a,
{
    if a == 0 {
        assert(s.skip(0) =~= s);
    } else {
        lemma_trim_front_at(s.skip(1), a - 1);
        assert(s.skip(1).skip(a - 1) =~= s.skip(a));
    }
}

proof fn lemma_trim_back_at(s: Seq<char>, b: int)
    requires
        0 <= b <= s.len(),
        forall|k: int| b <= k < s.len() ==> s[k] == ' ',
        b == 0 || s[b - 1] != ' ',
    ensures
        trim_back(s) =~= s.take(b),
    decreases s.len(),
{
    if b == s.len() {
        if s.len() > 0 && s[s.len() - 1] == ' ' {
            assert(s[b - 1] == ' ');
        }
        assert(s.take(b) =~= s);
    } else {
        assert(s[s.len() - 1] == ' ');
        lemma_trim_back_at(s.drop_last(), b);
        assert(s.drop_last().take(b) =~= s.take(b));
    }
}

/// The normalization a manifest version request gets before resolution:
/// keep only the last `||` alternative, trim spaces, and strip a single
/// leading caret or tilde (ranges are not evaluated; the literal base
/// version is what gets requested).
pub open spec fn spec_specific_version(v: Seq<char>) -> Seq<char> {
    crate::specifier::spec_strip_marker(spec_trim(spec_after_alt(v)))
}

/// A version request as written in the manifest.
pub struct VersionString {
    pub version: String,
}

impl View for VersionString {
    type V = Seq<char>;

    open spec fn view(&self) -> Seq<char> {
        self.version@
    }
}

impl VersionString {
    /// Wraps a raw version request.
    pub fn new(version: String) -> (r: VersionString)
        ensures
            r == (VersionString { version }),
            r@ == version@,
    {
        VersionString { version }
    }

    /// The raw request text, owned.
    pub fn to_string(&self) -> (r: String)
        ensures
            r@ == self@,
    {
        self.version.clone()
    }

    /// A copy of the wrapped request.
    pub fn to_owned(&self) -> (r: VersionString)
        ensures
            r@ == self@,
    {
        VersionString { version: self.version.clone() }
    }

    /// The raw request text, borrowed.
    pub fn to_str(&self) -> (r: &str)
        ensures
            r@ == self@,
    {
        self.version.as_str()
    }

    /// The single version this request is resolved against: the last
    /// `||` alternative, trimmed, with a leading caret or tilde stripped.
    pub fn to_specific_version(&self) -> (r: String)
        ensures
            r@ == spec_specific_version(self@),
    {
        let s = self.version.as_str();
        let n = s.unicode_len();
        // the last alternative of the expression
        let mut j: usize = n;
        let mut alt_plus: usize = 0;
        while j >= 2 && alt_plus == 0
            invariant
                j <= n,
                n == self@.len(),
                s@ == self@,
                alt_plus == 0 ==> (forall|p: int|
                    j - 1 <= p < n - 1 ==> !((#[trigger] self@[p]) == '|' && self@[p + 1] == '|')),
                alt_plus != 0 ==> {
                    &&& 2 <= alt_plus <= n
                    &&& self@[alt_plus - 2] == '|' && self@[alt_plus - 1] == '|'
                    &&& forall|p: int|
                        alt_plus - 2 < p < n - 1 ==> !((#[trigger] self@[p]) == '|' && self@[p + 1]
                            == '|')
                },
            decreases j + (if alt_plus == 0 { 1int } else { 0 }),
        {
            if s.get_char(j - 2) == '|' && s.get_char(j - 1) == '|' {
                alt_plus = j;
            } else {
                j -= 1;
            }
        }
        proof {
            lemma_last_alt_index(self@);
        }
        let seg_start: usize;
        if alt_plus == 0 {
            proof {
                let la = last_alt_index(self@);
                if la != -1 {
                    assert(!(self@[la] == '|' && self@[la + 1] == '|'));
                }
            }
            seg_start = 0;
        } else {
            proof {
                let la = last_alt_index(self@);
                if la == -1 {
                    assert(!(self@[alt_plus - 2] == '|' && self@[alt_plus - 1] == '|'));
                } else if la < alt_plus - 2 {
                    assert(!(self@[alt_plus - 2] == '|' && self@[alt_plus - 1] == '|'));
                } else if la > alt_plus - 2 {
                    assert(!(self@[la] == '|' && self@[la + 1] == '|'));
                }
                assert(last_alt_index(self@) == alt_plus - 2);
            }
            seg_start = alt_plus;
        }
        let ghost seg = spec_after_alt(self@);
        proof {
            assert(seg =~= self@.skip(seg_start as int));
        }
        // trim spaces off both ends of the alternative
        let mut a: usize = seg_start;
        while a < n && s.get_char(a) == ' '
            invariant
                seg_start <= a <= n,
                n == self@.len(),
                s@ == self@,
                forall|k: int| seg_start <= k < a ==> self@[k] == ' ',
            decreases n - a,
        {
            a += 1;
        }
        proof {
            lemma_trim_front_at(seg, a - seg_start);
            assert(trim_front(seg) =~= self@.skip(a as int));
        }
        let mut b: usize = n;
        while b > a && s.get_char(b - 1) == ' '
            invariant
                a <= b <= n,
                n == self@.len(),
                s@ == self@,
                forall|k: int| b <= k < n ==> self@[k] == ' ',
            decreases b,
        {
            b -= 1;
        }
        proof {
            lemma_trim_back_at(trim_front(seg), b - a);
            assert(spec_trim(seg) =~= self@.subrange(a as int, b as int));
        }
        // strip one leading caret or tilde
        let mut start: usize = a;
        if a < b {
            let c = s.get_char(a);
            if c == '^' || c == '~' {
                start = a + 1;
            }
        }
        proof {
            assert(crate::specifier::spec_strip_marker(spec_trim(seg)) =~= self@.subrange(
                start as int,
                b as int,
            ));
        }
        s.substring_char(start, b).to_owned()
    }
}

/// Inserting into a keyed pair list: an existing key keeps its place and
/// takes the new value; a new key is appended.
pub open spec fn spec_insert_pair<T>(pairs: Seq<(String, T)>, key: String, value: T) -> Seq<
    (String, T),
> {
    let i = first_str_index(pairs, key@);
    if i == -1 {
        pairs.push((key, value))
    } else {
        pairs.update(i, (key, value))
    }
}

/// Replaces the value under `key`, or appends the pair if `key` is new.
fn insert_pair(pairs: &mut Vec<(String, VersionString)>, key: String, value: VersionString)
    ensures
        final(pairs)@ == spec_insert_pair(old(pairs)@, key, value),
{
    proof {
        lemma_first_str_index(pairs@, key@);
    }
    let mut i: usize = 0;
    while i < pairs.len()
        invariant
            i <= pairs.len(),
            forall|j: int| 0 <= j < i ==> (#[trigger] pairs@[j]).0@ != key@,
            pairs@ == old(pairs)@,
        decreases pairs.len() - i,
    {
        if str_eq(pairs[i].0.as_str(), key.as_str()) {
            proof {
                lemma_first_str_index(pairs@, key@);
                let fi = first_str_index(pairs@, key@);
                if fi == -1 {
                    assert(pairs@[i as int].0@ != key@);
                } else if fi < i {
                    assert(pairs@[fi].0@ != key@);
                } else if fi > i {
                    assert(pairs@[i as int].0@ != key@);
                }
                assert(first_str_index(pairs@, key@) == i as int);
            }
            let ghost pre = pairs@;
            let _ = pairs.remove(i);
            pairs.insert(i, (key, value));
            proof {
                assert(pairs@ =~= pre.update(i as int, (key, value)));
            }
            return ;
        }
        i += 1;
    }
    proof {
        lemma_first_str_index(pairs@, key@);
        let fi = first_str_index(pairs@, key@);
        if fi != -1 {
            assert(pairs@[fi].0@ != key@);
        }
    }
    pairs.push((key, value));
}

/// A dependency map as plain text pairs: each `(name, request)` by its
/// characters.
pub open spec fn req_map_view(pairs: Seq<(String, VersionString)>) -> Seq<(Seq<char>, Seq<char>)> {
    pairs.map_values(|p: (String, VersionString)| (p.0@, p.1@))
}

/// First index bound to `key` in a text pair map, or -1.
pub open spec fn first_req_index(pairs: Seq<(Seq<char>, Seq<char>)>, key: Seq<char>) -> int
    decreases pairs.len(),
{
    if pairs.len() == 0 {
        -1
    } else if pairs[0].0 == key {
        0
    } else {
        let r = first_req_index(pairs.skip(1), key);
        if r == -1 {
            -1
        } else {
            r + 1
        }
    }
}

pub proof fn lemma_first_req_index(pairs: Seq<(Seq<char>, Seq<char>)>, key: Seq<char>)
    ensures
        first_req_index(pairs, key) == -1 ==> (forall|i: int|
            0 <= i < pairs.len() ==> (#[trigger] pairs[i]).0 != key),
        first_req_index(pairs, key) != -1 ==> {
            &&& 0 <= first_req_index(pairs, key) < pairs.len()
            &&& pairs[first_req_index(pairs, key)].0 == key
            &&& forall|i: int|
                0 <= i < first_req_index(pairs, key) ==> (#[trigger] pairs[i]).0 != key
        },
    decreases pairs.len(),
{
    if pairs.len() == 0 {
    } else if pairs[0].0 == key {
    } else {
        lemma_first_req_index(pairs.skip(1), key);
        let r = first_req_index(pairs.skip(1), key);
        if r == -1 {
            assert forall|i: int| 0 <= i < pairs.len() implies (#[trigger] pairs[i]).0 != key by {
                if i > 0 {
                    assert(pairs.skip(1)[i - 1] == pairs[i]);
                }
            }
        } else {
            assert(pairs.skip(1)[r] == pairs[r + 1]);
            assert forall|i: int| 0 <= i < r + 1 implies (#[trigger] pairs[i]).0 != key by {
                if i > 0 {
                    assert(pairs.skip(1)[i - 1] == pairs[i]);
                }
            }
        }
    }
}

/// The value bound to `key` in a text pair map, if any (first binding).
pub open spec fn req_lookup(pairs: Seq<(Seq<char>, Seq<char>)>, key: Seq<char>) -> Option<
    Seq<char>,
> {
    let i = first_req_index(pairs, key);
    if i == -1 {
        None
    } else {
        Some(pairs[i].1)
    }
}

/// Inserting into a text pair map: an existing key keeps its place and
/// takes the new value; a new key is appended.
pub open spec fn spec_insert_req(
    pairs: Seq<(Seq<char>, Seq<char>)>,
    key: Seq<char>,
    value: Seq<char>,
) -> Seq<(Seq<char>, Seq<char>)> {
    let i = first_req_index(pairs, key);
    if i == -1 {
        pairs.push((key, value))
    } else {
        pairs.update(i, (key, value))
    }
}

proof fn lemma_req_index_agree(pairs: Seq<(String, VersionString)>, key: Seq<char>)
    ensures
        first_str_index(pairs, key) == first_req_index(req_map_view(pairs), key),
    decreases pairs.len(),
{
    if pairs.len() == 0 {
    } else {
        lemma_req_index_agree(pairs.skip(1), key);
        assert(req_map_view(pairs)[0] == (pairs[0].0@, pairs[0].1@));
        assert(req_map_view(pairs).skip(1) =~= req_map_view(pairs.skip(1)));
    }
}

/// The pair-level insert and the text-level insert agree: inserting a
/// request and then reading the map as text is the same as inserting into
/// the text map.
pub proof fn lemma_insert_pair_view(
    pairs: Seq<(String, VersionString)>,
    key: String,
    value: VersionString,
)
    ensures
        req_map_view(spec_insert_pair(pairs, key, value)) == spec_insert_req(
            req_map_view(pairs),
            key@,
            value@,
        ),
{
    lemma_req_index_agree(pairs, key@);
    let i = first_str_index(pairs, key@);
    if i == -1 {
        assert(req_map_view(pairs.push((key, value))) =~= req_map_view(pairs).push((key@, value@)));
    } else {
        lemma_first_str_index(pairs, key@);
        assert(req_map_view(pairs.update(i, (key, value))) =~= req_map_view(pairs).update(
            i,
            (key@, value@),
        ));
    }
}

/// Everything but the two dependency maps reads the same in `a` and `b`.
pub open spec fn manifest_rest_unchanged(a: Package, b: Package) -> bool {
    &&& b.name == a.name
    &&& b.version == a.version
    &&& b.main == a.main
    &&& b.author == a.author
    &&& b.license == a.license
    &&& b.scripts == a.scripts
    &&& b.bin == a.bin
}

/// The project manifest: name, version, scripts, binaries, and the
/// declared dependency maps, as plain keyed pair lists.
pub struct Package {
    pub name: Option<String>,
    pub version: Option<VersionString>,
    pub main: Option<String>,
    pub author: Option<String>,
    pub license: Option<String>,
    pub scripts: Option<Vec<(String, String)>>,
    pub dependencies: Vec<(String, VersionString)>,
    pub dev_dependencies: Option<Vec<(String, VersionString)>>,
    pub bin: Option<Vec<(String, String)>>,
}

/// The `(name, resolvable version)` pairs of a dependency map: each raw
/// request normalized to the single version it is resolved against.
pub open spec fn spec_specific_pairs(pairs: Seq<(String, VersionString)>) -> Seq<
    (Seq<char>, Seq<char>),
> {
    pairs.map_values(|p: (String, VersionString)| (p.0@, spec_specific_version(p.1@)))
}

fn specific_pairs(pairs: &Vec<(String, VersionString)>) -> (r: Vec<(String, String)>)
    ensures
        r@.len() == pairs@.len(),
        forall|i: int|
            0 <= i < r@.len() ==> (#[trigger] r@[i]).0@ == spec_specific_pairs(pairs@)[i].0
                && r@[i].1@ == spec_specific_pairs(pairs@)[i].1,
{
    let mut r: Vec<(String, String)> = Vec::new();
    let mut i: usize = 0;
    while i < pairs.len()
        invariant
            i <= pairs.len(),
            r@.len() == i,
            forall|j: int|
                0 <= j < i ==> (#[trigger] r@[j]).0@ == spec_specific_pairs(pairs@)[j].0
                    && r@[j].1@ == spec_specific_pairs(pairs@)[j].1,
        decreases pairs.len() - i,
    {
        let name = pairs[i].0.clone();
        let version = pairs[i].1.to_specific_version();
        r.push((name, version));
        i += 1;
    }
    r
}

impl Package {
    /// An empty manifest: no name or version, no scripts, no dependencies.
    pub fn new() -> (r: Package)
        ensures
            r.name is None,
            r.version is None,
            r.scripts is None,
            r.dependencies@.len() == 0,
            r.dev_dependencies is None,
            r.bin is None,
    {
        Package {
            name: None,
            version: None,
            main: None,
            author: None,
            license: None,
            scripts: None,
            dependencies: Vec::new(),
            dev_dependencies: None,
            bin: None,
        }
    }

    /// The declared binaries, if the manifest has any.
    pub fn get_bin(&self) -> (r: Option<&Vec<(String, String)>>)
        ensures
            match r {
                Some(b) => self.bin == Some(*b),
                None => self.bin is None,
            },
    {
        self.bin.as_ref()
    }

    /// Declares a runtime dependency: an existing entry for the package is
    /// overwritten, a new one is appended.
    pub fn add_dependency(&mut self, pkg_name: String, version: String)
        ensures
            final(self).dependencies@ == spec_insert_pair(
                old(self).dependencies@,
                pkg_name,
                VersionString { version },
            ),
            final(self).dev_dependencies == old(self).dev_dependencies,
            manifest_rest_unchanged(*old(self), *final(self)),
    {
        insert_pair(&mut self.dependencies, pkg_name, VersionString::new(version));
    }

    /// Declares a development dependency, creating the map on first use:
    /// an existing entry for the package is overwritten, a new one is
    /// appended.
    pub fn add_dev_dependency(&mut self, pkg_name: String, version: String)
        ensures
            final(self).dev_dependencies matches Some(pairs1) && pairs1@ == (match old(
                self,
            ).dev_dependencies {
                Some(pairs0) => spec_insert_pair(pairs0@, pkg_name, VersionString { version }),
                None => seq![(pkg_name, VersionString { version })],
            }),
            final(self).dependencies == old(self).dependencies,
            manifest_rest_unchanged(*old(self), *final(self)),
    {
        match &mut self.dev_dependencies {
            Some(pairs) => {
                insert_pair(pairs, pkg_name, VersionString::new(version));
            },
            None => {
                let mut pairs: Vec<(String, VersionString)> = Vec::new();
                pairs.push((pkg_name, VersionString::new(version)));
                proof {
                    assert(pairs@ =~= seq![(pkg_name, VersionString { version })]);
                }
                self.dev_dependencies = Some(pairs);
            },
        }
    }

    /// The declared runtime dependencies as `(name, version)` pairs, each
    /// raw request normalized to the single version it is resolved
    /// against.
    pub fn get_dependencies(&self) -> (r: Vec<(String, String)>)
        ensures
            r@.len() == self.dependencies@.len(),
            forall|i: int|
                0 <= i < r@.len() ==> (#[trigger] r@[i]).0@ == spec_specific_pairs(
                    self.dependencies@,
                )[i].0 && r@[i].1@ == spec_specific_pairs(self.dependencies@)[i].1,
    {
        specific_pairs(&self.dependencies)
    }

    /// The declared development dependencies, normalized the same way;
    /// empty when the manifest declares none.
    pub fn get_dev_dependencies(&self) -> (r: Vec<(String, String)>)
        ensures
            match self.dev_dependencies {
                Some(pairs) => r@.len() == pairs@.len() && (forall|i: int|
                    0 <= i < r@.len() ==> (#[trigger] r@[i]).0@ == spec_specific_pairs(pairs@)[i].0
                        && r@[i].1@ == spec_specific_pairs(pairs@)[i].1),
                None => r@.len() == 0,
            },
    {
        match &self.dev_dependencies {
            Some(pairs) => specific_pairs(pairs),
            None => Vec::new(),
        }
    }

    /// The script map of the manifest; empty when it declares none.
    pub fn get_scripts(&self) -> (r: Vec<(String, String)>)
        ensures
            match self.scripts {
                Some(scripts) => r@.len() == scripts@.len() && (forall|i: int|
                    0 <= i < r@.len() ==> (#[trigger] r@[i]).0@ == scripts@[i].0@ && r@[i].1@
                        == scripts@[i].1@),
                None => r@.len() == 0,
            },
    {
        match &self.scripts {
            Some(scripts) => {
                let mut r: Vec<(String, String)> = Vec::new();
                let mut i: usize = 0;
                while i < scripts.len()
                    invariant
                        i <= scripts.len(),
                        r@.len() == i,
                        forall|j: int|
                            0 <= j < i ==> (#[trigger] r@[j]).0@ == scripts@[j].0@ && r@[j].1@
                                == scripts@[j].1@,
                    decreases scripts.len() - i,
                {
                    r.push((scripts[i].0.clone(), scripts[i].1.clone()));
                    i += 1;
                }
                r
            },
            None => Vec::new(),
        }
    }

    /// The command text the manifest binds to a script key, if any.
    pub fn get_script(&self, key: &String) -> (r: Option<&String>)
        ensures
            match self.scripts {
                Some(scripts) => match r {
                    Some(text) => spec_lookup(scripts@, key@) == Some(*text),
                    None => spec_lookup(scripts@, key@) is None,
                },
                None => r is None,
            },
    {
        let scripts = match &self.scripts {
            Some(s) => s,
            None => {
                return None;
            },
        };
        let mut i: usize = 0;
        while i < scripts.len()
            invariant
                i <= scripts.len(),
                self.scripts == Some(*scripts),
                forall|j: int| 0 <= j < i ==> (#[trigger] scripts@[j]).0@ != key@,
            decreases scripts.len() - i,
        {
            if scripts[i].0 == *key {
                proof {
                    lemma_first_str_index(scripts@, key@);
                    let fi = first_str_index(scripts@, key@);
                    if fi == -1 {
                        assert(scripts@[i as int].0@ != key@);
                    } else if fi < i {
                        assert(scripts@[fi].0@ != key@);
                    } else if fi > i {
                        assert(scripts@[i as int].0@ != key@);
                    }
                    assert(first_str_index(scripts@, key@) == i as int);
                }
                return Some(&scripts[i].1);
            }
            i += 1;
        }
        proof {
            lemma_first_str_index(scripts@, key@);
            let fi = first_str_index(scripts@, key@);
            if fi != -1 {
                assert(scripts@[fi].0@ != key@);
            }
        }
        None
    }
}

} // verus!
