//! Persisted text form of the lock graph. The file is a sequence of
//! `\n`-terminated lines: a `name = ` line and a `version = ` line for the
//! project, then for each entry a `[key]` line, a `version = ` line, and
//! one `dep = ` line per dependency key. Saving and loading are verified
//! inverses: `load` of a saved graph gives the graph back exactly.

use vstd::prelude::*;
use vstd::string::*;
use crate::lockfile::{DepModel, LockModel, LockFile, Dependency, no_newline};

verus! {

pub open spec fn name_tag() -> Seq<char> {
    "name = "@
}

pub open spec fn version_tag() -> Seq<char> {
    "version = "@
}

pub open spec fn dep_tag() -> Seq<char> {
    "dep = "@
}

pub open spec fn nl() -> Seq<char> {
    "\n"@
}

proof fn lemma_tag_facts()
    ensures
        name_tag().len() == 7,
        version_tag().len() == 10,
        dep_tag().len() == 6,
        nl().len() == 1,
        nl()[0] == '\n',
        name_tag()[0] == 'n',
        version_tag()[0] == 'v',
        dep_tag()[0] == 'd',
        no_newline(name_tag()),
        no_newline(version_tag()),
        no_newline(dep_tag()),
{
    reveal_strlit("name = ");
    reveal_strlit("version = ");
    reveal_strlit("dep = ");
    reveal_strlit("\n");
    assert forall|i: int| 0 <= i < name_tag().len() implies name_tag()[i] != '\n' by {
        if i == 0 {
        } else if i == 1 {
        } else if i == 2 {
        } else if i == 3 {
        } else if i == 4 {
        } else if i == 5 {
        } else {
            assert(i == 6);
        }
    }
    assert forall|i: int| 0 <= i < version_tag().len() implies version_tag()[i] != '\n' by {
        if i == 0 {
        } else if i == 1 {
        } else if i == 2 {
        } else if i == 3 {
        } else if i == 4 {
        } else if i == 5 {
        } else if i == 6 {
        } else if i == 7 {
        } else if i == 8 {
        } else {
            assert(i == 9);
        }
    }
    assert forall|i: int| 0 <= i < dep_tag().len() implies dep_tag()[i] != '\n' by {
        if i == 0 {
        } else if i == 1 {
        } else if i == 2 {
        } else if i == 3 {
        } else if i == 4 {
        } else {
            assert(i == 5);
        }
    }
}

/// The lines joined into one text, each line terminated by `\n`.
pub open spec fn unlines(ls: Seq<Seq<char>>) -> Seq<char>
    decreases ls.len(),
{
    if ls.len() == 0 {
        Seq::empty()
    } else {
        ls[0] + nl() + unlines(ls.skip(1))
    }
}

pub proof fn lemma_unlines_append(a: Seq<Seq<char>>, b: Seq<Seq<char>>)
    ensures
        unlines(a + b) == unlines(a) + unlines(b),
    decreases a.len(),
{
    if a.len() == 0 {
        assert(a + b =~= b);
        assert(unlines(a) + unlines(b) =~= unlines(b));
    } else {
        lemma_unlines_append(a.skip(1), b);
        assert((a + b).skip(1) =~= a.skip(1) + b);
        assert((a + b)[0] == a[0]);
        assert(a[0] + nl() + (unlines(a.skip(1)) + unlines(b)) =~= (a[0] + nl() + unlines(
            a.skip(1),
        )) + unlines(b));
    }
}

/// Index of the first `\n` in `s`, or -1 if there is none.
pub open spec fn find_nl(s: Seq<char>) -> int
    decreases s.len(),
{
    if s.len() == 0 {
        -1
    } else if s[0] == '\n' {
        0
    } else {
        let r = find_nl(s.skip(1));
        if r == -1 {
            -1
        } else {
            r + 1
        }
    }
}

pub proof fn lemma_find_nl(s: Seq<char>)
    ensures
        find_nl(s) == -1 ==> (forall|i: int| 0 <= i < s.len() ==> s[i] != '\n'),
        find_nl(s) != -1 ==> {
            &&& 0 <= find_nl(s) < s.len()
            &&& s[find_nl(s)] == '\n'
            &&& forall|i: int| 0 <= i < find_nl(s) ==> s[i] != '\n'
        },
    decreases s.len(),
{
    if s.len() == 0 {
    } else if s[0] == '\n' {
    } else {
        lemma_find_nl(s.skip(1));
        let r = find_nl(s.skip(1));
        if r == -1 {
            assert forall|i: int| 0 <= i < s.len() implies s[i] != '\n' by {
                if i > 0 {
                    assert(s.skip(1)[i - 1] == s[i]);
                }
            }
        } else {
            assert(s.skip(1)[r] == s[r + 1]);
            assert forall|i: int| 0 <= i < r + 1 implies s[i] != '\n' by {
                if i > 0 {
                    assert(s.skip(1)[i - 1] == s[i]);
                }
            }
        }
    }
}

/// The text split at each `\n`; a trailing piece without `\n` stands as a
/// line of its own.
pub open spec fn to_lines(s: Seq<char>) -> Seq<Seq<char>>
    decreases s.len(),
{
    if s.len() == 0 {
        Seq::empty()
    } else {
        let i = find_nl(s);
        if 0 <= i < s.len() {
            seq![s.take(i)] + to_lines(s.skip(i + 1))
        } else {
            seq![s]
        }
    }
}

/// Splitting joined lines gives the lines back, as long as no line holds
/// a `\n` of its own.
pub proof fn lemma_to_lines_unlines(ls: Seq<Seq<char>>)
    requires
        forall|i: int| 0 <= i < ls.len() ==> no_newline(#[trigger] ls[i]),
    ensures
        to_lines(unlines(ls)) == ls,
    decreases ls.len(),
{
    lemma_tag_facts();
    if ls.len() == 0 {
    } else {
        let l0 = ls[0];
        let rest = unlines(ls.skip(1));
        let u = unlines(ls);
        assert(u =~= l0 + nl() + rest);
        assert(u.len() > 0);
        lemma_find_nl(u);
        assert(u[l0.len() as int] == '\n');
        let f = find_nl(u);
        assert(f != -1) by {
            if f == -1 {
                assert(u[l0.len() as int] != '\n');
            }
        }
        assert(f == l0.len()) by {
            if f < l0.len() {
                assert(u[f] == l0[f]);
                assert(no_newline(l0));
            } else if f > l0.len() {
                assert(u[l0.len() as int] != '\n');
            }
        }
        assert(u.take(f) =~= l0);
        assert(u.skip(f + 1) =~= rest);
        lemma_to_lines_unlines(ls.skip(1));
        assert(seq![l0] + to_lines(rest) =~= ls);
    }
}

/// The rest of `l` after the literal prefix `tag`, if `l` starts with it.
pub open spec fn strip_tag(tag: Seq<char>, l: Seq<char>) -> Option<Seq<char>> {
    if l.len() >= tag.len() && l.take(tag.len() as int) == tag {
        Some(l.skip(tag.len() as int))
    } else {
        None
    }
}

pub proof fn lemma_strip_tag_concat(tag: Seq<char>, v: Seq<char>)
    ensures
        strip_tag(tag, tag + v) == Some(v),
{
    let l = tag + v;
    assert(l.take(tag.len() as int) =~= tag);
    assert(l.skip(tag.len() as int) =~= v);
}

pub proof fn lemma_strip_tag_mismatch(tag: Seq<char>, l: Seq<char>)
    requires
        tag.len() > 0,
        l.len() > 0,
        l[0] != tag[0],
    ensures
        strip_tag(tag, l) is None,
{
    if l.len() >= tag.len() && l.take(tag.len() as int) == tag {
        assert(l.take(tag.len() as int)[0] == l[0]);
    }
}

/// The key of a `[key]` line.
pub open spec fn parse_bracket(l: Seq<char>) -> Option<Seq<char>> {
    if l.len() >= 2 && l[0] == '[' && l[l.len() - 1] == ']' {
        Some(l.subrange(1, l.len() - 1))
    } else {
        None
    }
}

/// A `[key]` line for a key.
pub open spec fn bracket_line(key: Seq<char>) -> Seq<char> {
    seq!['['] + key + seq![']']
}

pub proof fn lemma_parse_bracket_concat(key: Seq<char>)
    ensures
        parse_bracket(bracket_line(key)) == Some(key),
{
    let l = bracket_line(key);
    assert(l[0] == '[');
    assert(l[l.len() - 1] == ']');
    assert(l.subrange(1, l.len() - 1) =~= key);
}

/// The leading `dep = ` lines of `ls`, stripped, and the lines that follow
/// them.
pub open spec fn take_deps(ls: Seq<Seq<char>>) -> (Seq<Seq<char>>, Seq<Seq<char>>)
    decreases ls.len(),
{
    if ls.len() == 0 {
        (Seq::empty(), ls)
    } else {
        match strip_tag(dep_tag(), ls[0]) {
            None => (Seq::empty(), ls),
            Some(d) => {
                let (ds, rest) = take_deps(ls.skip(1));
                (seq![d] + ds, rest)
            },
        }
    }
}

pub proof fn lemma_take_deps_rest_len(ls: Seq<Seq<char>>)
    ensures
        take_deps(ls).1.len() <= ls.len(),
    decreases ls.len(),
{
    if ls.len() == 0 {
    } else {
        match strip_tag(dep_tag(), ls[0]) {
            None => {},
            Some(d) => {
                lemma_take_deps_rest_len(ls.skip(1));
            },
        }
    }
}

/// The entries encoded by `ls`: repeatedly a `[key]` line, a `version = `
/// line, and the `dep = ` lines that follow.
pub open spec fn parse_entries(ls: Seq<Seq<char>>) -> Option<Seq<(Seq<char>, DepModel)>>
    decreases ls.len(),
    via parse_entries_decreases
{
    if ls.len() == 0 {
        Some(Seq::empty())
    } else {
        match parse_bracket(ls[0]) {
            None => None,
            Some(key) => if ls.len() < 2 {
                None
            } else {
                match strip_tag(version_tag(), ls[1]) {
                    None => None,
                    Some(v) => {
                        let (ds, rest) = take_deps(ls.skip(2));
                        match parse_entries(rest) {
                            None => None,
                            Some(es) => Some(
                                seq![(key, DepModel { version: v, deps: ds })] + es,
                            ),
                        }
                    },
                }
            },
        }
    }
}

#[via_fn]
proof fn parse_entries_decreases(ls: Seq<Seq<char>>) {
    if ls.len() >= 2 {
        lemma_take_deps_rest_len(ls.skip(2));
    }
}

/// The whole file as a lock graph model: the two header lines, then the
/// entries; rejected unless the keys are distinct and each entry's
/// dependency keys are distinct.
pub open spec fn parse_lines(ls: Seq<Seq<char>>) -> Option<LockModel> {
    if ls.len() < 2 {
        None
    } else {
        match strip_tag(name_tag(), ls[0]) {
            None => None,
            Some(nm) => match strip_tag(version_tag(), ls[1]) {
                None => None,
                Some(vr) => match parse_entries(ls.skip(2)) {
                    None => None,
                    Some(es) => {
                        let m = LockModel { name: nm, version: vr, entries: es };
                        if m.wf() {
                            Some(m)
                        } else {
                            None
                        }
                    },
                },
            },
        }
    }
}

/// What `load` reads out of a text: an empty text is the empty graph; any
/// other text must parse line by line.
pub open spec fn load_spec(s: Seq<char>) -> Option<LockModel> {
    if s.len() == 0 {
        Some(LockModel::empty())
    } else {
        parse_lines(to_lines(s))
    }
}

/// The `dep = ` lines of an entry.
pub open spec fn dep_lines(ds: Seq<Seq<char>>) -> Seq<Seq<char>> {
    ds.map_values(|d: Seq<char>| dep_tag() + d)
}

/// The lines of one entry.
pub open spec fn entry_lines(key: Seq<char>, d: DepModel) -> Seq<Seq<char>> {
    seq![bracket_line(key), version_tag() + d.version] + dep_lines(d.deps)
}

/// The lines of all entries, in order.
pub open spec fn entries_lines(es: Seq<(Seq<char>, DepModel)>) -> Seq<Seq<char>>
    decreases es.len(),
{
    if es.len() == 0 {
        Seq::empty()
    } else {
        entry_lines(es[0].0, es[0].1) + entries_lines(es.skip(1))
    }
}

/// The lines of the whole graph.
pub open spec fn save_lines(m: LockModel) -> Seq<Seq<char>> {
    seq![name_tag() + m.name, version_tag() + m.version] + entries_lines(m.entries)
}

/// What `save` writes: the graph's lines joined with `\n`. A deterministic
/// function of the graph alone, so saving an unchanged graph reproduces
/// the file byte for byte.
pub open spec fn save_spec(m: LockModel) -> Seq<char> {
    unlines(save_lines(m))
}

/// Saving is deterministic: the text is a function of the graph alone, so
/// two runs that end in the same graph persist byte-identical files.
pub proof fn lemma_save_deterministic(a: LockModel, b: LockModel)
    requires
        a == b,
    ensures
        save_spec(a) == save_spec(b),
{
}

pub proof fn lemma_entries_lines_push(es: Seq<(Seq<char>, DepModel)>, e: (Seq<char>, DepModel))
    ensures
        entries_lines(es.push(e)) == entries_lines(es) + entry_lines(e.0, e.1),
    decreases es.len(),
{
    if es.len() == 0 {
        assert(es.push(e)[0] == e);
        assert(es.push(e).skip(1) =~= Seq::<(Seq<char>, DepModel)>::empty());
        assert(entries_lines(es.push(e).skip(1)) == Seq::<Seq<char>>::empty());
        assert(entries_lines(es.push(e)) == entry_lines(e.0, e.1) + entries_lines(
            es.push(e).skip(1),
        ));
        assert(entries_lines(es.push(e)) =~= entries_lines(es) + entry_lines(e.0, e.1));
    } else {
        lemma_entries_lines_push(es.skip(1), e);
        assert(es.push(e).skip(1) =~= es.skip(1).push(e));
        assert(es.push(e)[0] == es[0]);
        assert(entry_lines(es[0].0, es[0].1) + (entries_lines(es.skip(1)) + entry_lines(e.0, e.1))
            =~= (entry_lines(es[0].0, es[0].1) + entries_lines(es.skip(1))) + entry_lines(
            e.0,
            e.1,
        ));
    }
}

proof fn lemma_take_deps_of_dep_lines(ds: Seq<Seq<char>>, rest: Seq<Seq<char>>)
    requires
        rest.len() == 0 || strip_tag(dep_tag(), rest[0]) is None,
    ensures
        take_deps(dep_lines(ds) + rest) == (ds, rest),
    decreases ds.len(),
{
    let ls = dep_lines(ds) + rest;
    if ds.len() == 0 {
        assert(ls =~= rest);
        if rest.len() == 0 {
        } else {
            assert(take_deps(ls) == (Seq::<Seq<char>>::empty(), ls));
            assert(take_deps(ls).0 =~= ds);
        }
        assert(take_deps(ls).0 =~= ds);
        assert(take_deps(ls) =~= (ds, rest));
    } else {
        assert(ls[0] == dep_tag() + ds[0]);
        lemma_strip_tag_concat(dep_tag(), ds[0]);
        assert(ls.skip(1) =~= dep_lines(ds.skip(1)) + rest) by {
            assert(dep_lines(ds).skip(1) =~= dep_lines(ds.skip(1)));
        }
        lemma_take_deps_of_dep_lines(ds.skip(1), rest);
        assert(seq![ds[0]] + ds.skip(1) =~= ds);
        assert(take_deps(ls) =~= (ds, rest));
    }
}

proof fn lemma_parse_entries_of_entries_lines(es: Seq<(Seq<char>, DepModel)>)
    ensures
        parse_entries(entries_lines(es)) == Some(es),
    decreases es.len(),
{
    lemma_tag_facts();
    if es.len() == 0 {
        assert(parse_entries(entries_lines(es)) =~= Some(es));
    } else {
        let key = es[0].0;
        let d = es[0].1;
        let ls = entries_lines(es);
        let tail = entries_lines(es.skip(1));
        assert(ls =~= entry_lines(key, d) + tail);
        assert(ls[0] == bracket_line(key));
        lemma_parse_bracket_concat(key);
        assert(ls.len() >= 2);
        assert(ls[1] == version_tag() + d.version);
        lemma_strip_tag_concat(version_tag(), d.version);
        assert(ls.skip(2) =~= dep_lines(d.deps) + tail);
        if tail.len() > 0 {
            assert(tail[0] == bracket_line(es.skip(1)[0].0)) by {
                if es.skip(1).len() > 0 {
                }
            }
            lemma_strip_tag_mismatch(dep_tag(), tail[0]);
        }
        lemma_take_deps_of_dep_lines(d.deps, tail);
        lemma_parse_entries_of_entries_lines(es.skip(1));
        assert(DepModel { version: d.version, deps: d.deps } == d);
        assert(seq![(key, d)] + es.skip(1) =~= es);
        assert(parse_entries(ls) == Some(seq![(key, d)] + es.skip(1)));
    }
}

/// Round trip of the lock graph text format: loading what `save` wrote
/// gives back exactly the same graph (name, version, and the entries with
/// their keys and dependency sets, in the same order), for every well
/// formed graph whose strings hold no line break.
pub proof fn lemma_save_load_roundtrip(m: LockModel)
    requires
        m.wf(),
        m.text_safe(),
    ensures
        load_spec(save_spec(m)) == Some(m),
{
    lemma_tag_facts();
    let ls = save_lines(m);
    assert forall|i: int| 0 <= i < ls.len() implies no_newline(#[trigger] ls[i]) by {
        lemma_tag_facts();
        if i == 0 {
            assert(forall|j: int|
                0 <= j < (name_tag() + m.name).len() ==> (name_tag() + m.name)[j] != '\n');
        } else if i == 1 {
            assert(forall|j: int|
                0 <= j < (version_tag() + m.version).len() ==> (version_tag() + m.version)[j]
                    != '\n');
        } else {
            lemma_entries_lines_no_newline(m.entries, i - 2);
        }
    }
    let u = unlines(ls);
    lemma_to_lines_unlines(ls);
    assert(u.len() > 0) by {
        assert(ls[0] + nl() + unlines(ls.skip(1)) == u);
    }
    assert(to_lines(u) == ls);
    assert(ls[0] == name_tag() + m.name);
    lemma_strip_tag_concat(name_tag(), m.name);
    assert(ls[1] == version_tag() + m.version);
    lemma_strip_tag_concat(version_tag(), m.version);
    assert(ls.skip(2) =~= entries_lines(m.entries));
    lemma_parse_entries_of_entries_lines(m.entries);
    assert(LockModel { name: m.name, version: m.version, entries: m.entries } == m);
}

proof fn lemma_entries_lines_no_newline(es: Seq<(Seq<char>, DepModel)>, i: int)
    requires
        forall|k: int|
            0 <= k < es.len() ==> no_newline((#[trigger] es[k]).0) && es[k].1.text_safe(),
        0 <= i < entries_lines(es).len(),
    ensures
        no_newline(entries_lines(es)[i]),
    decreases es.len(),
{
    lemma_tag_facts();
    if es.len() == 0 {
    } else {
        let key = es[0].0;
        let d = es[0].1;
        let head = entry_lines(key, d);
        if i < head.len() {
            if i == 0 {
                assert(head[0] == bracket_line(key));
                assert(forall|j: int|
                    0 <= j < bracket_line(key).len() ==> bracket_line(key)[j] != '\n');
            } else if i == 1 {
                assert(head[1] == version_tag() + d.version);
                assert(forall|j: int|
                    0 <= j < (version_tag() + d.version).len() ==> (version_tag() + d.version)[j]
                        != '\n');
            } else {
                assert(head[i] == dep_lines(d.deps)[i - 2]);
                assert(dep_lines(d.deps)[i - 2] == dep_tag() + d.deps[i - 2]);
                assert(no_newline(d.deps[i - 2]));
                let dl = dep_tag() + d.deps[i - 2];
                assert(forall|j: int| 0 <= j < dl.len() ==> #[trigger] dl[j] != '\n');
            }
        } else {
            assert(entries_lines(es)[i] == entries_lines(es.skip(1))[i - head.len()]);
            lemma_entries_lines_no_newline(es.skip(1), i - head.len());
        }
    }
}

/// Whatever text `load` accepts, the graph it gives back is well formed.
pub proof fn lemma_load_wf(s: Seq<char>)
    ensures
        load_spec(s) matches Some(m) ==> m.wf(),
{
    if s.len() == 0 {
        assert(LockModel::empty().wf());
    }
}

proof fn lemma_char_literals()
    ensures
        "["@ =~= seq!['['],
        "]"@ =~= seq![']'],
        "\n"@ == nl(),
{
    reveal_strlit("[");
    reveal_strlit("]");
    assert("["@ =~= seq!['[']);
    assert("]"@ =~= seq![']']);
}

impl LockFile {
    /// Serializes the graph into its persisted text form: two header
    /// lines, then each entry's `[key]`, `version = `, and `dep = ` lines,
    /// every line `\n`-terminated. The output is a function of the graph
    /// alone, so saving an unchanged graph reproduces the file byte for
    /// byte.
    pub fn save(&self) -> (out: String)
        ensures
            out@ == save_spec(self@),
    {
        let ghost header: Seq<Seq<char>> = seq![
            name_tag() + self@.name,
            version_tag() + self@.version,
        ];
        let mut out = String::new();
        out.append("name = ");
        out.append(self.name.as_str());
        out.append("\n");
        out.append("version = ");
        out.append(self.version.as_str());
        out.append("\n");
        proof {
            lemma_char_literals();
            assert(header.skip(1) =~= seq![version_tag() + self@.version]);
            assert(header.skip(1).skip(1) =~= Seq::<Seq<char>>::empty());
            assert(unlines(header.skip(1)) == (version_tag() + self@.version) + nl() + unlines(
                header.skip(1).skip(1),
            ));
            assert(out@ =~= unlines(header));
            assert(self@.entries.take(0) =~= Seq::<(Seq<char>, DepModel)>::empty());
            assert(unlines(header + entries_lines(self@.entries.take(0))) =~= unlines(header)) by {
                assert(header + entries_lines(self@.entries.take(0)) =~= header);
            }
        }
        let mut i: usize = 0;
        while i < self.dependencies.len()
            invariant
                i <= self.dependencies.len(),
                header == seq![name_tag() + self@.name, version_tag() + self@.version],
                out@ == unlines(header + entries_lines(self@.entries.take(i as int))),
            decreases self.dependencies.len() - i,
        {
            let ghost pre_entry = out@;
            let ghost key_v = self@.entries[i as int].0;
            let ghost d_v = self@.entries[i as int].1;
            let key = &self.dependencies[i].0;
            let dep = &self.dependencies[i].1;
            out.append("[");
            out.append(key.as_str());
            out.append("]");
            out.append("\n");
            out.append("version = ");
            out.append(dep.version.as_str());
            out.append("\n");
            proof {
                lemma_char_literals();
                assert(out@ =~= pre_entry + bracket_line(key_v) + nl() + (version_tag()
                    + d_v.version) + nl());
                assert(dep@.deps.take(0) =~= Seq::<Seq<char>>::empty());
                assert(unlines(dep_lines(d_v.deps.take(0))) =~= Seq::<char>::empty()) by {
                    assert(dep_lines(d_v.deps.take(0)) =~= Seq::<Seq<char>>::empty());
                }
            }
            let ghost base = out@;
            let mut j: usize = 0;
            while j < dep.dependencies.len()
                invariant
                    j <= dep.dependencies.len(),
                    d_v == dep@,
                    out@ == base + unlines(dep_lines(d_v.deps.take(j as int))),
                decreases dep.dependencies.len() - j,
            {
                let ghost pre = out@;
                out.append("dep = ");
                out.append(dep.dependencies[j].as_str());
                out.append("\n");
                proof {
                    lemma_char_literals();
                    let dj = d_v.deps[j as int];
                    assert(dep.dependencies[j as int]@ == dj);
                    assert(out@ =~= pre + (dep_tag() + dj) + nl());
                    assert(dep_lines(d_v.deps.take(j + 1)) =~= dep_lines(
                        d_v.deps.take(j as int),
                    ).push(dep_tag() + dj));
                    lemma_unlines_append(
                        dep_lines(d_v.deps.take(j as int)),
                        seq![dep_tag() + dj],
                    );
                    assert(dep_lines(d_v.deps.take(j as int)).push(dep_tag() + dj) =~= dep_lines(
                        d_v.deps.take(j as int),
                    ) + seq![dep_tag() + dj]);
                    assert(unlines(seq![dep_tag() + dj]) =~= (dep_tag() + dj) + nl()) by {
                        let single = seq![dep_tag() + dj];
                        assert(single[0] == dep_tag() + dj);
                        assert(single.skip(1) =~= Seq::<Seq<char>>::empty());
                        assert(unlines(single.skip(1)) == Seq::<char>::empty());
                        assert(unlines(single) == single[0] + nl() + unlines(single.skip(1)));
                    }
                    assert(out@ =~= base + unlines(dep_lines(d_v.deps.take(j + 1))));
                }
                j += 1;
            }
            proof {
                assert(d_v.deps.take(dep.dependencies.len() as int) =~= d_v.deps);
                assert(out@ == base + unlines(dep_lines(d_v.deps)));
                // the whole entry is now written
                assert(entry_lines(key_v, d_v) =~= seq![
                    bracket_line(key_v),
                    version_tag() + d_v.version,
                ] + dep_lines(d_v.deps));
                lemma_unlines_append(
                    seq![bracket_line(key_v), version_tag() + d_v.version],
                    dep_lines(d_v.deps),
                );
                assert(unlines(seq![bracket_line(key_v), version_tag() + d_v.version])
                    =~= bracket_line(key_v) + nl() + (version_tag() + d_v.version) + nl()) by {
                    let two = seq![bracket_line(key_v), version_tag() + d_v.version];
                    assert(two.skip(1) =~= seq![version_tag() + d_v.version]);
                    assert(two.skip(1).skip(1) =~= Seq::<Seq<char>>::empty());
                    assert(unlines(two.skip(1)) == (version_tag() + d_v.version) + nl() + unlines(
                        two.skip(1).skip(1),
                    ));
                }
                assert(out@ =~= pre_entry + unlines(entry_lines(key_v, d_v)));
                // extend the joined header+entries prefix by one entry
                assert(self@.entries.take(i + 1) =~= self@.entries.take(i as int).push(
                    (key_v, d_v),
                ));
                lemma_entries_lines_push(self@.entries.take(i as int), (key_v, d_v));
                lemma_unlines_append(
                    header + entries_lines(self@.entries.take(i as int)),
                    entry_lines(key_v, d_v),
                );
                assert((header + entries_lines(self@.entries.take(i as int))) + entry_lines(
                    key_v,
                    d_v,
                ) =~= header + entries_lines(self@.entries.take(i + 1)));
                assert(out@ =~= unlines(header + entries_lines(self@.entries.take(i + 1))));
            }
            i += 1;
        }
        proof {
            assert(self@.entries.take(self.dependencies.len() as int) =~= self@.entries);
        }
        out
    }
}

/// Index of the first `\n` at or after `from`, if any.
fn find_newline_from(s: &str, from: usize, n: usize) -> (r: Option<usize>)
    requires
        from <= n,
        n == s@.len(),
    ensures
        match r {
            Some(j) => from <= j < n && s@[j as int] == '\n' && find_nl(s@.skip(from as int)) == j
                - from,
            None => find_nl(s@.skip(from as int)) == -1,
        },
{
    let mut j = from;
    while j < n
        invariant
            from <= j <= n,
            n == s@.len(),
            forall|k: int| from <= k < j ==> s@[k] != '\n',
        decreases n - j,
    {
        if s.get_char(j) == '\n' {
            proof {
                let rem = s@.skip(from as int);
                lemma_find_nl(rem);
                let f = find_nl(rem);
                assert(rem[j - from] == '\n');
                if f == -1 {
                    assert(rem[j - from] != '\n');
                } else if f < j - from {
                    assert(rem[f] == s@[from + f]);
                } else if f > j - from {
                    assert(rem[j - from] != '\n');
                }
            }
            return Some(j);
        }
        j += 1;
    }
    proof {
        let rem = s@.skip(from as int);
        lemma_find_nl(rem);
        let f = find_nl(rem);
        if f != -1 {
            assert(rem[f] == s@[from + f]);
        }
    }
    None
}

/// The text split at each `\n`, as owned lines.
fn split_lines(s: &str) -> (r: Vec<String>)
    ensures
        r.deep_view() == to_lines(s@),
{
    let n = s.unicode_len();
    let mut r: Vec<String> = Vec::new();
    let mut i: usize = 0;
    proof {
        assert(r.deep_view() =~= Seq::<Seq<char>>::empty());
        assert(s@.skip(0) =~= s@);
    }
    while i < n
        invariant
            i <= n,
            n == s@.len(),
            to_lines(s@) == r.deep_view() + to_lines(s@.skip(i as int)),
        decreases n - i,
    {
        let ghost pre = r.deep_view();
        let ghost rem = s@.skip(i as int);
        match find_newline_from(s, i, n) {
            Some(j) => {
                let line = s.substring_char(i, j).to_owned();
                r.push(line);
                proof {
                    assert(find_nl(rem) == j - i);
                    assert(rem.take(j - i) =~= s@.subrange(i as int, j as int));
                    assert(rem.skip(j - i + 1) =~= s@.skip(j + 1));
                    assert(to_lines(rem) == seq![rem.take(j - i)] + to_lines(s@.skip(j + 1)));
                    assert(r.deep_view() =~= pre.push(rem.take(j - i)));
                    assert(pre + to_lines(rem) =~= r.deep_view() + to_lines(s@.skip(j + 1)));
                }
                i = j + 1;
            },
            None => {
                let line = s.substring_char(i, n).to_owned();
                r.push(line);
                proof {
                    assert(rem.len() > 0);
                    assert(to_lines(rem) == seq![rem]);
                    assert(rem =~= s@.subrange(i as int, n as int));
                    assert(r.deep_view() =~= pre.push(rem));
                    assert(s@.skip(n as int) =~= Seq::<char>::empty());
                    assert(pre + to_lines(rem) =~= r.deep_view() + to_lines(s@.skip(n as int)));
                }
                i = n;
            },
        }
    }
    proof {
        assert(s@.skip(n as int) =~= Seq::<char>::empty());
        assert(to_lines(s@) =~= r.deep_view());
    }
    r
}

/// Strips the literal prefix `tag` off `l`, if it is there.
pub(crate) fn strip_tag_exec(l: &str, tag: &str) -> (r: Option<String>)
    ensures
        match strip_tag(tag@, l@) {
            Some(v) => r matches Some(x) && x@ == v,
            None => r is None,
        },
{
    let tn = tag.unicode_len();
    let ln = l.unicode_len();
    if ln < tn {
        return None;
    }
    let mut i: usize = 0;
    while i < tn
        invariant
            i <= tn,
            tn == tag@.len(),
            ln == l@.len(),
            tn <= ln,
            forall|k: int| 0 <= k < i ==> l@[k] == tag@[k],
        decreases tn - i,
    {
        if l.get_char(i) != tag.get_char(i) {
            proof {
                if l@.take(tn as int) == tag@ {
                    assert(l@.take(tn as int)[i as int] == l@[i as int]);
                }
            }
            return None;
        }
        i += 1;
    }
    proof {
        assert(l@.take(tn as int) =~= tag@);
        assert(l@.subrange(tn as int, ln as int) =~= l@.skip(tn as int));
    }
    Some(l.substring_char(tn, ln).to_owned())
}

/// Reads the key out of a `[key]` line.
fn parse_bracket_exec(l: &str) -> (r: Option<String>)
    ensures
        match parse_bracket(l@) {
            Some(k) => r matches Some(x) && x@ == k,
            None => r is None,
        },
{
    let n = l.unicode_len();
    if n < 2 {
        return None;
    }
    if l.get_char(0) != '[' {
        return None;
    }
    if l.get_char(n - 1) != ']' {
        return None;
    }
    Some(l.substring_char(1, n - 1).to_owned())
}

/// True if no two strings in `v` are equal.
fn all_distinct_strings(v: &Vec<String>) -> (r: bool)
    ensures
        r == crate::lockfile::distinct_seq(v.deep_view()),
{
    let mut i: usize = 0;
    while i < v.len()
        invariant
            i <= v.len(),
            forall|a: int, b: int| 0 <= a < b < i ==> v.deep_view()[a] != v.deep_view()[b],
        decreases v.len() - i,
    {
        let mut j: usize = 0;
        while j < i
            invariant
                j <= i < v.len(),
                forall|k: int| 0 <= k < j ==> v.deep_view()[k] != v.deep_view()[i as int],
            decreases i - j,
        {
            if v[j] == v[i] {
                proof {
                    assert(v.deep_view()[j as int] == v.deep_view()[i as int]);
                }
                return false;
            }
            j += 1;
        }
        i += 1;
    }
    true
}

/// True if no two entries share a key.
fn keys_distinct(v: &Vec<(String, Dependency)>) -> (r: bool)
    ensures
        r == (forall|a: int, b: int| 0 <= a < b < v.len() ==> v@[a].0@ != v@[b].0@),
{
    let mut i: usize = 0;
    while i < v.len()
        invariant
            i <= v.len(),
            forall|a: int, b: int| 0 <= a < b < i ==> v@[a].0@ != v@[b].0@,
        decreases v.len() - i,
    {
        let mut j: usize = 0;
        while j < i
            invariant
                j <= i < v.len(),
                forall|k: int| 0 <= k < j ==> v@[k].0@ != v@[i as int].0@,
            decreases i - j,
        {
            if v[j].0 == v[i].0 {
                return false;
            }
            j += 1;
        }
        i += 1;
    }
    true
}

/// The entry models held by a vector of keyed entries.
spec fn entries_view(v: Seq<(String, Dependency)>) -> Seq<(Seq<char>, DepModel)> {
    Seq::new(v.len(), |i: int| (v[i].0@, v[i].1@))
}

impl LockFile {
    /// Reads a lock graph back from its persisted text form. An empty
    /// text is the empty graph. Any other text must hold the two header
    /// lines and well formed entries (distinct keys, distinct dependency
    /// keys per entry), else nothing is returned.
    pub fn load(s: &str) -> (r: Option<LockFile>)
        ensures
            match r {
                Some(lf) => load_spec(s@) == Some(lf@) && lf@.wf(),
                None => load_spec(s@) is None,
            },
    {
        if s.unicode_len() == 0 {
            let lf = LockFile::new(String::new(), String::new());
            proof {
                assert(lf@ =~= LockModel::empty());
            }
            return Some(lf);
        }
        let lines = split_lines(s);
        let ghost ls = to_lines(s@);
        if lines.len() < 2 {
            return None;
        }
        proof {
            assert(lines.deep_view()[0] == ls[0]);
        }
        let name = match strip_tag_exec(lines[0].as_str(), "name = ") {
            Some(x) => x,
            None => {
                return None;
            },
        };
        let version = match strip_tag_exec(lines[1].as_str(), "version = ") {
            Some(x) => x,
            None => {
                return None;
            },
        };
        let mut entries: Vec<(String, Dependency)> = Vec::new();
        let mut p: usize = 2;
        proof {
            assert(entries_view(entries@) =~= Seq::<(Seq<char>, DepModel)>::empty());
        }
        while p < lines.len()
            invariant
                2 <= p <= lines.len(),
                s@.len() > 0,
                ls == to_lines(s@),
                lines.deep_view() == ls,
                strip_tag(name_tag(), ls[0]) == Some(name@),
                strip_tag(version_tag(), ls[1]) == Some(version@),
                parse_entries(ls.skip(2)) == (match parse_entries(ls.skip(p as int)) {
                    Some(rest) => Some(entries_view(entries@) + rest),
                    None => None,
                }),
            decreases lines.len() - p,
        {
            let ghost p0 = p as int;
            proof {
                assert(ls.skip(p0)[0] == ls[p0]);
            }
            let key = match parse_bracket_exec(lines[p].as_str()) {
                Some(k) => k,
                None => {
                    proof {
                        assert(parse_entries(ls.skip(p0)) is None);
                    }
                    return None;
                },
            };
            if p + 1 >= lines.len() {
                proof {
                    assert(ls.skip(p0).len() < 2);
                    assert(parse_entries(ls.skip(p0)) is None);
                }
                return None;
            }
            proof {
                assert(ls.skip(p0)[1] == ls[p0 + 1]);
            }
            let ver = match strip_tag_exec(lines[p + 1].as_str(), "version = ") {
                Some(v) => v,
                None => {
                    proof {
                        assert(parse_entries(ls.skip(p0)) is None);
                    }
                    return None;
                },
            };
            let mut ds: Vec<String> = Vec::new();
            let mut q: usize = p + 2;
            let mut more = true;
            proof {
                assert(ds.deep_view() =~= Seq::<Seq<char>>::empty());
                assert(ds.deep_view() + take_deps(ls.skip(q as int)).0 =~= take_deps(
                    ls.skip(q as int),
                ).0);
            }
            while more && q < lines.len()
                invariant
                    p0 + 2 <= q <= lines.len(),
                    lines.deep_view() == ls,
                    take_deps(ls.skip(p0 + 2)).0 == ds.deep_view() + take_deps(
                        ls.skip(q as int),
                    ).0,
                    take_deps(ls.skip(p0 + 2)).1 == take_deps(ls.skip(q as int)).1,
                    !more ==> q < lines.len() && strip_tag(dep_tag(), ls[q as int]) is None,
                decreases lines.len() - q + (if more { 1int } else { 0 }),
            {
                let ghost q0 = q as int;
                proof {
                    assert(ls.skip(q0)[0] == ls[q0]);
                }
                match strip_tag_exec(lines[q].as_str(), "dep = ") {
                    Some(d) => {
                        let ghost pre_ds = ds.deep_view();
                        ds.push(d);
                        proof {
                            assert(ds.deep_view() =~= pre_ds.push(take_deps(ls.skip(q0)).0[0]))
                                by {
                                assert(take_deps(ls.skip(q0)).0[0] == strip_tag(
                                    dep_tag(),
                                    ls[q0],
                                ).unwrap());
                            }
                            assert(ls.skip(q0).skip(1) =~= ls.skip(q0 + 1));
                            assert(take_deps(ls.skip(q0)).0 == seq![
                                strip_tag(dep_tag(), ls[q0]).unwrap(),
                            ] + take_deps(ls.skip(q0 + 1)).0);
                            assert(pre_ds + take_deps(ls.skip(q0)).0 =~= ds.deep_view()
                                + take_deps(ls.skip(q0 + 1)).0);
                        }
                        q += 1;
                    },
                    None => {
                        more = false;
                    },
                }
            }
            proof {
                // the dep lines stop here: what remains is the next entry or nothing
                if q == lines.len() {
                    assert(ls.skip(q as int).len() == 0);
                } else {
                    assert(!more);
                }
                assert(take_deps(ls.skip(q as int)) == (
                    Seq::<Seq<char>>::empty(),
                    ls.skip(q as int),
                ));
                assert(take_deps(ls.skip(p0 + 2)).0 =~= ds.deep_view());
            }
            let ghost pre_entries = entries_view(entries@);
            let dep_entry = Dependency { version: ver, dependencies: ds };
            entries.push((key, dep_entry));
            proof {
                let e = (ls.skip(p0)[0], ls.skip(p0)[1]);
                let keyv = parse_bracket(ls[p0]).unwrap();
                let verv = strip_tag(version_tag(), ls[p0 + 1]).unwrap();
                let dm = DepModel { version: verv, deps: take_deps(ls.skip(p0 + 2)).0 };
                assert(ls.skip(p0).skip(2) =~= ls.skip(p0 + 2));
                assert(parse_entries(ls.skip(p0)) == (match parse_entries(
                    take_deps(ls.skip(p0 + 2)).1,
                ) {
                    Some(es) => Some(seq![(keyv, dm)] + es),
                    None => None,
                }));
                assert(take_deps(ls.skip(p0 + 2)).1 == ls.skip(q as int));
                assert(entries_view(entries@) =~= pre_entries.push((keyv, dm)));
                if parse_entries(ls.skip(q as int)) is Some {
                    let rest = parse_entries(ls.skip(q as int)).unwrap();
                    assert(pre_entries + (seq![(keyv, dm)] + rest) =~= entries_view(entries@)
                        + rest);
                }
            }
            p = q;
        }
        proof {
            assert(ls.skip(lines.len() as int).len() == 0);
            assert(parse_entries(ls.skip(lines.len() as int)) == Some(
                Seq::<(Seq<char>, DepModel)>::empty(),
            ));
            assert(entries_view(entries@) + Seq::<(Seq<char>, DepModel)>::empty() =~= entries_view(
                entries@,
            ));
            assert(parse_entries(ls.skip(2)) == Some(entries_view(entries@)));
        }
        // the graph must be well formed: distinct keys, distinct dependency
        // keys within each entry
        let ghost m = LockModel { name: name@, version: version@, entries: entries_view(entries@) };
        let keys_ok = keys_distinct(&entries);
        let deps_ok = entries_deps_distinct(&entries);
        if !keys_ok || !deps_ok {
            proof {
                if !keys_ok {
                    let (a, b) = choose|a: int, b: int|
                        0 <= a < b < entries@.len() && entries@[a].0@ == entries@[b].0@;
                    assert(entries_view(entries@)[a].0 == entries_view(entries@)[b].0);
                    assert(!(forall|i: int, j: int|
                        0 <= i < j < m.entries.len() ==> m.entries[i].0 != m.entries[j].0)) by {
                        assert(0 <= a < b < m.entries.len() && m.entries[a].0 == m.entries[b].0);
                    }
                    assert(!m.wf());
                } else {
                    let i = choose|i: int|
                        0 <= i < entries@.len() && !((#[trigger] entries@[i]).1@.wf());
                    assert(entries_view(entries@)[i].1 == entries@[i].1@);
                    assert(!(forall|k: int|
                        0 <= k < m.entries.len() ==> (#[trigger] m.entries[k]).1.wf())) by {
                        assert(0 <= i < m.entries.len() && !m.entries[i].1.wf());
                    }
                    assert(!m.wf());
                }
                assert(parse_lines(ls) is None);
            }
            return None;
        }
        proof {
            assert forall|a: int, b: int|
                0 <= a < b < m.entries.len() implies m.entries[a].0 != m.entries[b].0 by {
                assert(m.entries[a].0 == entries@[a].0@);
                assert(m.entries[b].0 == entries@[b].0@);
            }
            assert forall|i: int| 0 <= i < m.entries.len() implies (#[trigger] m.entries[i]).1.wf()
                by {
                assert(m.entries[i].1 == entries@[i].1@);
            }
            assert(m.wf());
        }
        let lf = LockFile { name, version, dependencies: entries };
        proof {
            assert(lf@ =~= m);
            assert(parse_lines(ls) == Some(m));
        }
        Some(lf)
    }
}

/// True if every entry's dependency keys are distinct.
fn entries_deps_distinct(v: &Vec<(String, Dependency)>) -> (r: bool)
    ensures
        r == (forall|i: int| 0 <= i < v@.len() ==> (#[trigger] v@[i]).1@.wf()),
{
    let mut i: usize = 0;
    while i < v.len()
        invariant
            i <= v.len(),
            forall|k: int| 0 <= k < i ==> (#[trigger] v@[k]).1@.wf(),
        decreases v.len() - i,
    {
        if !all_distinct_strings(&v[i].1.dependencies) {
            proof {
                assert(v@[i as int].1@.deps == v@[i as int].1.dependencies.deep_view());
                assert(!v@[i as int].1@.wf());
            }
            return false;
        }
        proof {
            assert(v@[i as int].1@.deps == v@[i as int].1.dependencies.deep_view());
        }
        i += 1;
    }
    true
}

} // verus!
