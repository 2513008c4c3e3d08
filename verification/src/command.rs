//! The subcommand surface the core is driven from. `add`, `install`, and
//! `run` are implemented; `remove`, `list`, and `version` are declared but
//! answer with an explicit not-implemented error instead of aborting.

use vstd::prelude::*;
use vstd::string::*;
use crate::package_json::Package;
use crate::resolver::ResolveError;

verus! {

/// What the user asked for.
pub enum Command {
    /// Add the named libraries (to the dev map when `dev` is set) and
    /// resolve them.
    Add { libs: Vec<String>, dev: bool },
    /// Resolve everything the manifest declares and rebuild the tree.
    Install,
    /// Build the module tree and run the named manifest script.
    Run { script_key: String },
    /// Declared, not implemented.
    Remove { libs: Vec<String> },
    /// Declared, not implemented.
    List,
    /// Declared, not implemented.
    Version,
}

/// The parsed invocation: one subcommand.
pub struct Opt {
    pub cmd: Command,
}

/// The subcommands this core implements.
pub open spec fn spec_command_supported(cmd: &Command) -> bool {
    match cmd {
        Command::Add { .. } => true,
        Command::Install => true,
        Command::Run { .. } => true,
        Command::Remove { .. } => false,
        Command::List => false,
        Command::Version => false,
    }
}

/// Accepts exactly the implemented subcommands; a declared-only one gets
/// the explicit not-implemented error, never an abort.
pub fn check_command(cmd: &Command) -> (r: Result<(), ResolveError>)
    ensures
        match r {
            Ok(()) => spec_command_supported(cmd),
            Err(e) => !spec_command_supported(cmd) && e == ResolveError::NotImplemented,
        },
{
    match cmd {
        Command::Add { .. } => Ok(()),
        Command::Install => Ok(()),
        Command::Run { .. } => Ok(()),
        Command::Remove { .. } => Err(ResolveError::NotImplemented),
        Command::List => Err(ResolveError::NotImplemented),
        Command::Version => Err(ResolveError::NotImplemented),
    }
}

/// First index of a space in `s`, or -1.
pub open spec fn find_space(s: Seq<char>) -> int
    decreases s.len(),
{
    if s.len() == 0 {
        -1
    } else if s[0] == ' ' {
        0
    } else {
        let r = find_space(s.skip(1));
        if r == -1 {
            -1
        } else {
            r + 1
        }
    }
}

pub proof fn lemma_find_space(s: Seq<char>)
    ensures
        find_space(s) == -1 ==> (forall|i: int| 0 <= i < s.len() ==> s[i] != ' '),
        find_space(s) != -1 ==> {
            &&& 0 <= find_space(s) < s.len()
            &&& s[find_space(s)] == ' '
            &&& forall|i: int| 0 <= i < find_space(s) ==> s[i] != ' '
        },
    decreases s.len(),
{
    if s.len() == 0 {
    } else if s[0] == ' ' {
    } else {
        lemma_find_space(s.skip(1));
        let r = find_space(s.skip(1));
        if r == -1 {
            assert forall|i: int| 0 <= i < s.len() implies s[i] != ' ' by {
                if i > 0 {
                    assert(s.skip(1)[i - 1] == s[i]);
                }
            }
        } else {
            assert(s.skip(1)[r] == s[r + 1]);
            assert forall|i: int| 0 <= i < r + 1 implies s[i] != ' ' by {
                if i > 0 {
                    assert(s.skip(1)[i - 1] == s[i]);
                }
            }
        }
    }
}

/// A script line split at every single space: the command word first, then
/// its arguments. Consecutive spaces yield empty words; the empty line is
/// one empty word.
pub open spec fn spec_words(s: Seq<char>) -> Seq<Seq<char>>
    decreases s.len(),
{
    let i = find_space(s);
    if 0 <= i < s.len() {
        seq![s.take(i)] + spec_words(s.skip(i + 1))
    } else {
        seq![s]
    }
}

/// Splits a manifest script line into its command word and arguments.
pub fn split_words(s: &str) -> (r: Vec<String>)
    ensures
        r.deep_view() == spec_words(s@),
        r@.len() > 0,
{
    let n = s.unicode_len();
    let mut r: Vec<String> = Vec::new();
    let mut i: usize = 0;
    proof {
        assert(r.deep_view() =~= Seq::<Seq<char>>::empty());
        assert(s@.skip(0) =~= s@);
    }
    loop
        invariant
            i <= n,
            n == s@.len(),
            spec_words(s@) == r.deep_view() + spec_words(s@.skip(i as int)),
        ensures
            r.deep_view() == spec_words(s@),
            r@.len() > 0,
        decreases n - i,
    {
        let ghost pre = r.deep_view();
        let ghost rem = s@.skip(i as int);
        // scan for the next space
        let mut j: usize = i;
        let mut found = false;
        while j < n && !found
            invariant
                i <= j <= n,
                n == s@.len(),
                !found ==> (forall|k: int| i <= k < j ==> s@[k] != ' '),
                found ==> j < n && s@[j as int] == ' ' && (forall|k: int|
                    i <= k < j ==> s@[k] != ' '),
            decreases n - j + (if found { 0int } else { 1 }),
        {
            if s.get_char(j) == ' ' {
                found = true;
            } else {
                j += 1;
            }
        }
        proof {
            lemma_find_space(rem);
            let f = find_space(rem);
            if found {
                assert(rem[j - i] == ' ');
                if f == -1 {
                    assert(rem[j - i] != ' ');
                } else if f < j - i {
                    assert(rem[f] == s@[i + f]);
                } else if f > j - i {
                    assert(rem[j - i] != ' ');
                }
                assert(f == j - i);
            } else {
                if f != -1 {
                    assert(rem[f] == s@[i + f]);
                }
                assert(f == -1);
            }
        }
        if found {
            r.push(s.substring_char(i, j).to_owned());
            proof {
                assert(rem.take(j - i) =~= s@.subrange(i as int, j as int));
                assert(rem.skip(j - i + 1) =~= s@.skip(j + 1));
                assert(spec_words(rem) == seq![rem.take(j - i)] + spec_words(s@.skip(j + 1)));
                assert(r.deep_view() =~= pre.push(rem.take(j - i)));
                assert(pre + spec_words(rem) =~= r.deep_view() + spec_words(s@.skip(j + 1)));
            }
            i = j + 1;
        } else {
            r.push(s.substring_char(i, n).to_owned());
            proof {
                assert(spec_words(rem) == seq![rem]);
                assert(rem =~= s@.subrange(i as int, n as int));
                assert(r.deep_view() =~= pre.push(rem));
                assert(pre + spec_words(rem) =~= r.deep_view());
                assert(r.deep_view().len() > 0);
            }
            return r;
        }
    }
}

/// The path a script command resolves to inside the module tree:
/// `./node_modules/<cmd>/<bin path>`.
pub open spec fn spec_bin_path(cmd: Seq<char>, bin_path: Seq<char>) -> Seq<char> {
    "./node_modules/"@ + cmd + "/"@ + bin_path
}

/// Builds the module-tree path of an installed command's binary.
pub fn getbin(cmd: &str, bin_path: &str) -> (r: String)
    ensures
        r@ == spec_bin_path(cmd@, bin_path@),
{
    let mut out = String::new();
    out.append("./node_modules/");
    out.append(cmd);
    out.append("/");
    out.append(bin_path);
    proof {
        assert(out@ =~= spec_bin_path(cmd@, bin_path@));
    }
    out
}

/// The binary path an installed package's manifest declares for `cmd`,
/// if its `bin` map names it.
pub fn get_bing_path<'a>(package: &'a Package, cmd: &String) -> (r: Option<&'a String>)
    ensures
        match package.bin {
            Some(bin) => match r {
                Some(p) => crate::registry::spec_lookup(bin@, cmd@) == Some(*p),
                None => crate::registry::spec_lookup(bin@, cmd@) is None,
            },
            None => r is None,
        },
{
    let bin = match package.get_bin() {
        Some(b) => b,
        None => {
            return None;
        },
    };
    let mut i: usize = 0;
    while i < bin.len()
        invariant
            i <= bin.len(),
            package.bin == Some(*bin),
            forall|j: int| 0 <= j < i ==> (#[trigger] bin@[j]).0@ != cmd@,
        decreases bin.len() - i,
    {
        if bin[i].0 == *cmd {
            proof {
                crate::registry::lemma_first_str_index(bin@, cmd@);
                let fi = crate::registry::first_str_index(bin@, cmd@);
                assert(bin@[i as int].0@ == cmd@);
                if fi == -1 {
                    assert(bin@[i as int].0@ != cmd@);
                } else if fi < i {
                    assert(bin@[fi].0@ != cmd@);
                } else if fi > i {
                    assert(bin@[i as int].0@ != cmd@);
                }
                assert(fi == i as int);
            }
            return Some(&bin[i].1);
        }
        i += 1;
    }
    proof {
        crate::registry::lemma_first_str_index(bin@, cmd@);
        let fi = crate::registry::first_str_index(bin@, cmd@);
        if fi != -1 {
            assert(bin@[fi].0@ != cmd@);
        }
    }
    None
}

} // verus!
