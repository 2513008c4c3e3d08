//! Parsing of package specifiers such as `name`, `name@1.2.3`,
//! `@scope/pkg@^1.0.0`: splitting the name from the version request and
//! normalizing the request to a single literal version token.

use vstd::prelude::*;
use vstd::string::*;

verus! {

/// Characters that begin a comparison operator in a range expression
/// such as `>=1.0.1 <3`.
pub open spec fn is_cmp_char(c: char) -> bool {
    c == '<' || c == '>' || c == '='
}

/// Index of the last `@` in `s` that does not stand at the front (a
/// leading `@` marks a scope, as in `@scope/pkg`), or -1 if there is none.
pub open spec fn last_sep_index(s: Seq<char>) -> int
    decreases s.len(),
{
    if s.len() <= 1 {
        -1
    } else if s[s.len() - 1] == '@' {
        s.len() - 1
    } else {
        last_sep_index(s.drop_last())
    }
}

pub proof fn lemma_last_sep_index(s: Seq<char>)
    ensures
        last_sep_index(s) == -1 ==> (forall|i: int| 1 <= i < s.len() ==> s[i] != '@'),
        last_sep_index(s) != -1 ==> {
            &&& 1 <= last_sep_index(s) < s.len()
            &&& s[last_sep_index(s)] == '@'
            &&& forall|i: int| last_sep_index(s) < i < s.len() ==> s[i] != '@'
        },
    decreases s.len(),
{
    if s.len() <= 1 {
    } else if s[s.len() - 1] == '@' {
    } else {
        lemma_last_sep_index(s.drop_last());
        assert(forall|i: int| 0 <= i < s.len() - 1 ==> s.drop_last()[i] == s[i]);
    }
}

/// The name part of a raw specifier: everything before the last
/// non-leading `@`, or the whole string if there is no such `@`.
pub open spec fn spec_name_of(s: Seq<char>) -> Seq<char> {
    if last_sep_index(s) == -1 {
        s
    } else {
        s.take(last_sep_index(s))
    }
}

/// The raw version request of a specifier: everything after the last
/// non-leading `@`, or empty if there is no such `@`.
pub open spec fn spec_raw_request_of(s: Seq<char>) -> Seq<char> {
    if last_sep_index(s) == -1 {
        Seq::empty()
    } else {
        s.skip(last_sep_index(s) + 1)
    }
}

/// Drops a single leading caret or tilde: `^1.0.0` and `~1.0.0` both
/// request the literal version `1.0.0` (no range arithmetic is done).
pub open spec fn spec_strip_marker(v: Seq<char>) -> Seq<char> {
    if v.len() > 0 && (v[0] == '^' || v[0] == '~') {
        v.skip(1)
    } else {
        v
    }
}

/// Drops leading comparison-operator characters (`>=1.0.1` becomes `1.0.1`).
pub open spec fn spec_skip_cmp(v: Seq<char>) -> Seq<char>
    decreases v.len(),
{
    if v.len() > 0 && is_cmp_char(v[0]) {
        spec_skip_cmp(v.skip(1))
    } else {
        v
    }
}

/// The longest prefix free of spaces and comparison operators: the first
/// literal version token of a range expression.
pub open spec fn spec_first_token(v: Seq<char>) -> Seq<char>
    decreases v.len(),
{
    if v.len() > 0 && !is_cmp_char(v[0]) && v[0] != ' ' {
        seq![v[0]] + spec_first_token(v.skip(1))
    } else {
        Seq::empty()
    }
}

/// Normalization of a raw version request: strip one caret/tilde marker,
/// strip leading comparison operators, keep only the first version token.
/// Range syntax is never evaluated; only the first literal version in it
/// is honored.
pub open spec fn spec_normalize_request(v: Seq<char>) -> Seq<char> {
    spec_first_token(spec_skip_cmp(spec_strip_marker(v)))
}

/// What `parse_library_name` returns: the name and the normalized version
/// request of a raw specifier.
pub open spec fn spec_parse_specifier(s: Seq<char>) -> (Seq<char>, Seq<char>) {
    (spec_name_of(s), spec_normalize_request(spec_raw_request_of(s)))
}

/// The lock graph key for a package at a version: `name@version`.
pub open spec fn spec_key(name: Seq<char>, version: Seq<char>) -> Seq<char> {
    name + "@"@ + version
}

/// Builds the `name@version` key of a resolved package.
pub fn make_key(name: &str, version: &str) -> (r: String)
    ensures
        r@ == spec_key(name@, version@),
{
    let mut out = String::new();
    out.append(name);
    out.append("@");
    out.append(version);
    proof {
        assert(out@ =~= spec_key(name@, version@));
    }
    out
}

proof fn lemma_skip_cmp_at(v: Seq<char>, j: int)
    requires
        0 <= j <= v.len(),
        forall|k: int| 0 <= k < j ==> is_cmp_char(v[k]),
        j == v.len() || !is_cmp_char(v[j]),
    ensures
        spec_skip_cmp(v) =~= v.skip(j),
    decreases j,
{
    if j == 0 {
        assert(v.skip(0) =~= v);
    } else {
        lemma_skip_cmp_at(v.skip(1), j - 1);
        assert(v.skip(1).skip(j - 1) =~= v.skip(j));
    }
}

proof fn lemma_first_token_at(v: Seq<char>, j: int)
    requires
        0 <= j <= v.len(),
        forall|k: int| 0 <= k < j ==> !is_cmp_char(v[k]) && v[k] != ' ',
        j == v.len() || is_cmp_char(v[j]) || v[j] == ' ',
    ensures
        spec_first_token(v) =~= v.take(j),
    decreases j,
{
    if j == 0 {
    } else {
        lemma_first_token_at(v.skip(1), j - 1);
        assert(seq![v[0]] + v.skip(1).take(j - 1) =~= v.take(j));
    }
}

fn is_cmp(c: char) -> (r: bool)
    ensures
        r == is_cmp_char(c),
{
    c == '<' || c == '>' || c == '='
}

/// Normalizes a raw version request to its first literal version token,
/// with any leading caret, tilde, or comparison operators stripped.
pub fn normalize_request(v: &str) -> (r: String)
    ensures
        r@ == spec_normalize_request(v@),
{
    let n = v.unicode_len();
    let mut j: usize = 0;
    if n > 0 {
        let c = v.get_char(0);
        if c == '^' || c == '~' {
            j = 1;
        }
    }
    let ghost stripped = spec_strip_marker(v@);
    proof {
        assert(stripped =~= v@.skip(j as int));
    }
    while j < n && is_cmp(v.get_char(j))
        invariant
            0 <= j <= n,
            n == v@.len(),
            stripped == spec_strip_marker(v@),
            stripped.len() >= n - j,
            forall|k: int| 0 <= k < stripped.len() - (n - j) ==> is_cmp_char(#[trigger] stripped[k]),
            stripped =~= v@.skip(n - stripped.len() as int),
        decreases n - j,
    {
        j += 1;
    }
    let ghost j0 = n - stripped.len();
    proof {
        lemma_skip_cmp_at(stripped, j - j0);
        assert(spec_skip_cmp(stripped) =~= v@.skip(j as int));
    }
    let mut k: usize = j;
    while k < n && !is_cmp(v.get_char(k)) && v.get_char(k) != ' '
        invariant
            j <= k <= n,
            n == v@.len(),
            forall|i: int| j <= i < k ==> !is_cmp_char(#[trigger] v@[i]) && v@[i] != ' ',
        decreases n - k,
    {
        k += 1;
    }
    proof {
        lemma_first_token_at(v@.skip(j as int), k - j);
        assert(v@.skip(j as int).take(k - j) =~= v@.subrange(j as int, k as int));
    }
    v.substring_char(j, k).to_owned()
}

/// Splits a raw specifier into its package name and its normalized
/// version request: the split is at the last `@` that is not a leading
/// scope marker, and the version side is reduced to its first literal
/// version token (`>=1.0.1 <3` requests `1.0.1`; `^1.0.0` requests
/// `1.0.0`). A specifier without a version yields an empty request.
pub fn parse_library_name(lib: String) -> (r: (String, String))
    ensures
        r.0@ == spec_parse_specifier(lib@).0,
        r.1@ == spec_parse_specifier(lib@).1,
{
    let s = lib.as_str();
    let n = s.unicode_len();
    let mut j: usize = n;
    let mut sep_plus: usize = 0;
    while j > 1 && sep_plus == 0
        invariant
            j <= n,
            n == lib@.len(),
            s@ == lib@,
            sep_plus == 0 ==> (forall|k: int| j <= k < n ==> lib@[k] != '@'),
            sep_plus != 0 ==> {
                &&& 2 <= sep_plus <= n
                &&& lib@[sep_plus - 1] == '@'
                &&& forall|k: int| sep_plus <= k < n ==> lib@[k] != '@'
            },
        decreases j + (if sep_plus == 0 { 1int } else { 0 }),
    {
        let c = s.get_char(j - 1);
        if c == '@' {
            sep_plus = j;
        } else {
            j -= 1;
        }
    }
    proof {
        lemma_last_sep_index(lib@);
    }
    if sep_plus == 0 {
        proof {
            assert(last_sep_index(lib@) == -1);
        }
        let version = String::new();
        (lib, version)
    } else {
        let sep = sep_plus - 1;
        proof {
            assert(last_sep_index(lib@) == sep as int) by {
                let li = last_sep_index(lib@);
                if li == -1 {
                    assert(lib@[sep as int] == '@');
                } else if li < sep {
                    assert(lib@[sep as int] == '@');
                } else if li > sep {
                    assert(lib@[li] != '@');
                }
            }
        }
        let name = s.substring_char(0, sep).to_owned();
        let rawv = s.substring_char(sep + 1, n);
        let version = normalize_request(rawv);
        proof {
            assert(lib@.subrange(0, sep as int) =~= lib@.take(sep as int));
            assert(lib@.subrange(sep + 1, n as int) =~= lib@.skip(sep + 1));
        }
        (name, version)
    }
}

} // verus!
