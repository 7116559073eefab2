//! Search-path scanning: locating an external command in the directories of
//! a search path.
//!
//! Reading directories is input/output and happens outside this crate; the
//! logic here receives each directory as a `SearchDir` value, its listing
//! already taken, and is verified against that value.
use crate::command::{ExternalProgramNameAndArgs, MyShellCommand, PathAndType, ShellErrors};
use crate::text::{chars_of, push_char, string_eq_str, string_from_chars};
use vstd::prelude::*;
use vstd::string::StringExecFns;

verus! {

/// One directory of the search path: its path, whether it could be read,
/// and, if so, the file names it contains, in the order they were returned.
/// A directory that could not be opened is skipped, never fatal.
pub struct SearchDir {
    pub path: String,
    pub readable: bool,
    pub entries: Vec<String>,
}

/// Whether the directory is readable and lists a file with this name.
pub open spec fn dir_has(d: SearchDir, name: Seq<char>) -> bool {
    d.readable && exists|j: int| 0 <= j < d.entries@.len() && d.entries@[j]@ == name
}

/// Whether any directory of the search path lists this name.
pub open spec fn any_dir_has(dirs: Seq<SearchDir>, name: Seq<char>) -> bool {
    exists|i: int| 0 <= i < dirs.len() && dir_has(dirs[i], name)
}

/// Whether `i` is the first directory of the search path listing this name.
pub open spec fn first_dir_with(dirs: Seq<SearchDir>, name: Seq<char>, i: int) -> bool {
    0 <= i < dirs.len() && dir_has(dirs[i], name) && (forall|k: int|
        0 <= k < i ==> !dir_has(dirs[k], name))
}

/// Whether any readable directory of the search path lists any file at all.
pub open spec fn any_entries(dirs: Seq<SearchDir>) -> bool {
    exists|i: int| 0 <= i < dirs.len() && dirs[i].readable && dirs[i].entries@.len() > 0
}

/// The full path of a file `name` inside directory `dir`.
pub open spec fn joined_path(dir: Seq<char>, name: Seq<char>) -> Seq<char> {
    dir + seq!['/'] + name
}

/// Every file name listed by a readable directory of the search path.
pub open spec fn listed_names(dirs: Seq<SearchDir>) -> Set<Seq<char>> {
    Set::new(
        |w: Seq<char>|
            exists|i: int, j: int|
                #![auto]
                0 <= i < dirs.len() && dirs[i].readable && 0 <= j < dirs[i].entries@.len()
                    && dirs[i].entries@[j]@ == w,
    )
}

/// The names listed strictly before directory `di`, entry `ej`.
pub open spec fn listed_names_before(dirs: Seq<SearchDir>, di: int, ej: int) -> Set<Seq<char>> {
    Set::new(
        |w: Seq<char>|
            exists|i: int, j: int|
                #![auto]
                0 <= i < dirs.len() && dirs[i].readable && 0 <= j < dirs[i].entries@.len()
                    && dirs[i].entries@[j]@ == w && (i < di || (i == di && j < ej)),
    )
}

/// Splitting the rest of a search-path value: the segments collected so
/// far, the segment being accumulated, and the characters still to read.
pub open spec fn split_acc(parts: Seq<Seq<char>>, cur: Seq<char>, s: Seq<char>) -> Seq<Seq<char>>
    decreases s.len(),
{
    if s.len() == 0 {
        parts.push(cur)
    } else if s[0] == ':' {
        split_acc(parts.push(cur), Seq::empty(), s.drop_first())
    } else {
        split_acc(parts, cur.push(s[0]), s.drop_first())
    }
}

/// The colon-separated segments of a search-path value, empty segments
/// included; the empty string has one empty segment.
pub open spec fn split_colon(s: Seq<char>) -> Seq<Seq<char>> {
    split_acc(Seq::empty(), Seq::empty(), s)
}

/// Splits a search-path value at every colon.
pub fn split_path(s: &str) -> (r: Vec<String>)
    ensures
        r.deep_view() == split_colon(s@),
{
    let chars = chars_of(s);
    let n = chars.len();
    let mut parts: Vec<String> = Vec::new();
    let mut cur: Vec<char> = Vec::new();
    let mut i: usize = 0;
    proof {
        assert(parts.deep_view() =~~= Seq::<Seq<char>>::empty());
        assert(s@.skip(0) =~= s@);
    }
    while i < n
        invariant
            n == chars@.len(),
            chars@ == s@,
            i <= n,
            split_colon(s@) == split_acc(parts.deep_view(), cur@, s@.skip(i as int)),
        decreases n - i,
    {
        let ghost pre_parts = parts.deep_view();
        let ghost pre_cur = cur@;
        let c = chars[i];
        proof {
            assert(s@.skip(i as int).len() > 0);
            assert(s@.skip(i as int)[0] == c);
            assert(s@.skip(i as int).drop_first() =~= s@.skip(i + 1));
        }
        if c == ':' {
            let part = string_from_chars(&cur);
            parts.push(part);
            cur.clear();
            proof {
                assert(parts.deep_view() =~~= pre_parts.push(pre_cur));
            }
        } else {
            cur.push(c);
        }
        i += 1;
    }
    proof {
        assert(s@.skip(n as int).len() == 0);
    }
    let last = string_from_chars(&cur);
    parts.push(last);
    proof {
        assert(parts.deep_view() =~~= split_colon(s@));
    }
    parts
}

/// The index of the first directory listing the name, when any does.
pub open spec fn first_hit(dirs: Seq<SearchDir>, name: Seq<char>) -> int {
    choose|i: int| first_dir_with(dirs, name, i)
}

/// Some directory below `i` listing the name gives a first such directory.
proof fn lemma_min_hit(dirs: Seq<SearchDir>, name: Seq<char>, i: int)
    requires
        0 <= i < dirs.len(),
        dir_has(dirs[i], name),
    ensures
        exists|j: int| first_dir_with(dirs, name, j),
    decreases i,
{
    if forall|k: int| 0 <= k < i ==> !dir_has(dirs[k], name) {
        assert(first_dir_with(dirs, name, i));
    } else {
        let k = choose|k: int| 0 <= k < i && dir_has(dirs[k], name);
        lemma_min_hit(dirs, name, k);
    }
}

/// When any directory lists the name, `first_hit` is the first that does.
pub proof fn lemma_first_dir_exists(dirs: Seq<SearchDir>, name: Seq<char>)
    requires
        any_dir_has(dirs, name),
    ensures
        first_dir_with(dirs, name, first_hit(dirs, name)),
{
    let i = choose|i: int| 0 <= i < dirs.len() && dir_has(dirs[i], name);
    lemma_min_hit(dirs, name, i);
}

/// There is only one first directory listing the name.
pub proof fn lemma_first_dir_unique(dirs: Seq<SearchDir>, name: Seq<char>, i: int, j: int)
    requires
        first_dir_with(dirs, name, i),
        first_dir_with(dirs, name, j),
    ensures
        i == j,
{
}

/// Scans the search-path directories in order for a file named
/// `command_name`. The first directory listing it wins: the result carries
/// the full path under that directory, and, for an execution lookup, the
/// argument list unmodified; a `type` lookup carries no arguments. When no
/// directory lists the name, the error says whether any directory listed
/// files at all.
pub fn locate_command_in_paths(
    dirs: &Vec<SearchDir>,
    command_name: &String,
    args: Option<&Vec<String>>,
) -> (r: Result<MyShellCommand, ShellErrors>)
    ensures
        (r is Ok) == any_dir_has(dirs@, command_name@),
        r is Ok ==> first_dir_with(dirs@, command_name@, first_hit(dirs@, command_name@)),
        r is Ok && args is Some ==> (r->Ok_0 matches MyShellCommand::ExternalProgram(e)
            && e.name@ == command_name@ && e.path@ == joined_path(
            dirs@[first_hit(dirs@, command_name@)].path@,
            command_name@,
        ) && e.args.deep_view() == args->0.deep_view()),
        r is Ok && args is None ==> (r->Ok_0 matches MyShellCommand::Type(tr) && (tr matches Ok(pt)
            && (pt.command@ == command_name@ && (pt.path matches Some(p) && p@ == joined_path(
            dirs@[first_hit(dirs@, command_name@)].path@,
            command_name@,
        ))))),
        r matches Err(e) ==> !any_dir_has(dirs@, command_name@) && (e is FileNotFoundInPath
            <==> any_entries(dirs@)) && (e is NoFilesInPATH <==> !any_entries(dirs@)),
{
    let mut i: usize = 0;
    let mut seen_entries = false;
    while i < dirs.len()
        invariant
            i <= dirs@.len(),
            forall|k: int| 0 <= k < i ==> !dir_has(dirs@[k], command_name@),
            seen_entries == exists|k: int|
                0 <= k < i && dirs@[k].readable && dirs@[k].entries@.len() > 0,
        decreases dirs@.len() - i,
    {
        let d = &dirs[i];
        if d.readable {
            if d.entries.len() > 0 {
                seen_entries = true;
                proof {
                    assert(dirs@[i as int].readable && dirs@[i as int].entries@.len() > 0);
                }
            }
            let mut j: usize = 0;
            while j < d.entries.len()
                invariant
                    d == dirs@[i as int],
                    i < dirs@.len(),
                    d.readable,
                    j <= d.entries@.len(),
                    forall|l: int| 0 <= l < j ==> d.entries@[l]@ != command_name@,
                    forall|k: int| 0 <= k < i ==> !dir_has(dirs@[k], command_name@),
                decreases d.entries@.len() - j,
            {
                if string_eq_str(&d.entries[j], command_name.as_str()) {
                    proof {
                        assert(dirs@[i as int].entries@[j as int]@ == command_name@);
                        assert(dir_has(dirs@[i as int], command_name@));
                        assert(first_dir_with(dirs@, command_name@, i as int));
                        lemma_first_dir_exists(dirs@, command_name@);
                        lemma_first_dir_unique(
                            dirs@,
                            command_name@,
                            i as int,
                            first_hit(dirs@, command_name@),
                        );
                    }
                    let mut full = d.path.clone();
                    push_char(&mut full, '/');
                    full.append(command_name.as_str());
                    proof {
                        assert(full@ =~= joined_path(dirs@[i as int].path@, command_name@));
                    }
                    match args {
                        Some(a) => {
                            let copied = a.clone();
                            proof {
                                assert forall|k: int|
                                    0 <= k < a@.len() implies copied@[k]@ == a@[k]@ by {
                                    assert(cloned::<String>(a@[k], copied@[k]));
                                }
                                assert(copied.deep_view() =~~= a.deep_view());
                            }
                            return Result::Ok(
                                MyShellCommand::ExternalProgram(
                                    ExternalProgramNameAndArgs {
                                        name: command_name.clone(),
                                        path: full,
                                        args: copied,
                                    },
                                ),
                            );
                        },
                        None => {
                            return Result::Ok(
                                MyShellCommand::Type(
                                    Result::Ok(
                                        PathAndType {
                                            path: Some(full),
                                            command: command_name.clone(),
                                        },
                                    ),
                                ),
                            );
                        },
                    }
                }
                j += 1;
            }
        }
        i += 1;
    }
    proof {
        assert(!any_dir_has(dirs@, command_name@)) by {
            if any_dir_has(dirs@, command_name@) {
                let k = choose|k: int| 0 <= k < dirs@.len() && dir_has(dirs@[k], command_name@);
                assert(!dir_has(dirs@[k], command_name@));
            }
        }
    }
    if seen_entries {
        Result::Err(ShellErrors::FileNotFoundInPath)
    } else {
        Result::Err(ShellErrors::NoFilesInPATH)
    }
}

} // verus!
