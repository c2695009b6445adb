//! The compute side of search-path handling: splitting the search-path
//! variable, joining candidate paths, the executable-mode test, ordered
//! first-match selection, and duplicate-free collection of scanned names.
//! Reading directories and file modes is left to the surrounding process.
use crate::text::push_char;
use crate::text::split_char;
use crate::text::split_on;
use crate::text::str_eq;
use vstd::prelude::*;

verus! {

/// The character that separates entries of the search-path variable.
pub fn path_separator(windows: bool) -> (c: char)
    ensures
        c == (if windows {
            ';'
        } else {
            ':'
        }),
{
    if windows {
        ';'
    } else {
        ':'
    }
}

/// The directories named by the search-path variable, in order.
pub fn split_search_path(path_var: &str, sep: char) -> (r: Vec<String>)
    ensures
        r.deep_view() == split_on(path_var@, sep),
{
    split_char(path_var, sep)
}

/// `dir` and `name` joined with a single separating slash.
pub open spec fn joined_path(dir: Seq<char>, name: Seq<char>) -> Seq<char> {
    if dir.len() == 0 {
        name
    } else if dir.last() == '/' {
        dir + name
    } else {
        dir + seq!['/'] + name
    }
}

/// Join a directory and a file name into one path.
pub fn join_path(dir: &str, name: &str) -> (r: String)
    ensures
        r@ == joined_path(dir@, name@),
{
    let dlen = dir.unicode_len();
    if dlen == 0 {
        return String::from_str(name);
    }
    let mut r = String::from_str(dir);
    if dir.get_char(dlen - 1) != '/' {
        push_char(&mut r, '/');
        proof {
            assert(dir@.push('/') =~= dir@ + seq!['/']);
        }
    }
    r.append(name);
    r
}

/// The candidate full paths for `command`, one per search-path directory, in
/// search order.
pub fn candidate_paths(path_var: &str, sep: char, command: &str) -> (r: Vec<String>)
    ensures
        r.deep_view().len() == split_on(path_var@, sep).len(),
        forall|i: int|
            0 <= i < r.deep_view().len() ==> r.deep_view()[i] == joined_path(
                split_on(path_var@, sep)[i],
                command@,
            ),
{
    let dirs = split_search_path(path_var, sep);
    let n = dirs.len();
    let mut r: Vec<String> = Vec::new();
    let mut i: usize = 0;
    while i < n
        invariant
            n == dirs@.len(),
            dirs.deep_view() == split_on(path_var@, sep),
            0 <= i <= n,
            r.deep_view().len() == i,
            forall|j: int|
                0 <= j < i ==> r.deep_view()[j] == joined_path(
                    dirs.deep_view()[j],
                    command@,
                ),
        decreases n - i,
    {
        let ghost pre = r.deep_view();
        let p = join_path(dirs[i].as_str(), command);
        let ghost pv = p@;
        r.push(p);
        proof {
            assert(r.deep_view() =~= pre.push(pv));
            assert(pv == joined_path(dirs.deep_view()[i as int], command@));
        }
        i = i + 1;
    }
    r
}

/// The first candidate marked usable, in order: earlier search-path
/// directories shadow later ones.
pub fn first_executable(candidates: &Vec<(String, bool)>) -> (r: Option<String>)
    ensures
        match r {
            Some(p) => exists|i: int|
                0 <= i < candidates@.len() && (#[trigger] candidates@[i]).1 && p@ == candidates@[i].0@
                    && (forall|j: int| 0 <= j < i ==> !(#[trigger] candidates@[j]).1),
            None => forall|i: int| 0 <= i < candidates@.len() ==> !(#[trigger] candidates@[i]).1,
        },
{
    let n = candidates.len();
    let mut i: usize = 0;
    while i < n
        invariant
            n == candidates@.len(),
            0 <= i <= n,
            forall|j: int| 0 <= j < i ==> !(#[trigger] candidates@[j]).1,
        decreases n - i,
    {
        if candidates[i].1 {
            return Some(candidates[i].0.clone());
        }
        i = i + 1;
    }
    None
}

/// Whether a file mode carries any of the owner, group or other execute
/// permission bits.
pub open spec fn mode_is_executable(mode: u32) -> bool {
    mode & 0o111 != 0
}

/// Executable test on a file's permission bits.
pub fn is_executable_mode(mode: u32) -> (r: bool)
    ensures
        r == mode_is_executable(mode),
{
    mode & 0o111 != 0
}

/// What a directory scan reports about one entry: its file name, whether it
/// is itself a directory, and its permission bits.
pub struct ScanEntry {
    pub name: String,
    pub is_dir: bool,
    pub mode: u32,
}

/// The names of the entries that are not directories and carry an execute
/// bit: the executables a scan of the search path finds.
pub open spec fn executable_names(entries: Seq<ScanEntry>) -> Set<Seq<char>> {
    Set::new(
        |n: Seq<char>|
            exists|i: int|
                0 <= i < entries.len() && !(#[trigger] entries[i]).is_dir && mode_is_executable(
                    entries[i].mode,
                ) && n == entries[i].name@,
    )
}

/// Collect the file names of the executable entries, duplicates across
/// directories collapsed to one.
pub fn collect_executables(entries: &Vec<ScanEntry>) -> (r: Vec<String>)
    ensures
        r.deep_view().no_duplicates(),
        r.deep_view().to_set() == executable_names(entries@),
{
    let n = entries.len();
    let mut r: Vec<String> = Vec::new();
    let mut i: usize = 0;
    proof {
        assert(r.deep_view().to_set() =~= executable_names(entries@.take(0)));
    }
    while i < n
        invariant
            n == entries@.len(),
            0 <= i <= n,
            r.deep_view().no_duplicates(),
            r.deep_view().to_set() == executable_names(entries@.take(i as int)),
        decreases n - i,
    {
        let ghost pre = r.deep_view();
        let e = &entries[i];
        if !e.is_dir && is_executable_mode(e.mode) {
            if !contains_string(&r, e.name.as_str()) {
                r.push(e.name.clone());
                proof {
                    let dv = r.deep_view();
                    assert(dv =~= pre.push(entries@[i as int].name@));
                    assert forall|p: int, q: int| 0 <= p < q < dv.len() implies dv[p] != dv[q] by {
                        if q == dv.len() - 1 {
                            assert(pre[p] == dv[p]);
                            if dv[p] == entries@[i as int].name@ {
                                assert(pre.contains(entries@[i as int].name@));
                            }
                        }
                    }
                    assert(dv.no_duplicates());
                }
            }
        }
        proof {
            let cur = entries@.take(i + 1);
            assert(cur.drop_last() =~= entries@.take(i as int));
            assert(cur.last() == entries@[i as int]);
            let dv = r.deep_view();
            assert forall|w: Seq<char>| dv.to_set().contains(w) <==> executable_names(
                cur,
            ).contains(w) by {
                if dv.to_set().contains(w) {
                    assert(dv.contains(w));
                    if pre.contains(w) {
                        assert(pre.to_set().contains(w));
                        let m = choose|m: int|
                            0 <= m < entries@.take(i as int).len() && !(#[trigger] entries@.take(
                                i as int,
                            )[m]).is_dir && mode_is_executable(entries@.take(i as int)[m].mode)
                                && w == entries@.take(i as int)[m].name@;
                        assert(cur[m] == entries@[m]);
                        assert(executable_names(cur).contains(w));
                    } else {
                        assert(dv == pre.push(entries@[i as int].name@));
                        assert(w == entries@[i as int].name@);
                        assert(cur[i as int] == entries@[i as int]);
                        assert(executable_names(cur).contains(w));
                    }
                }
                if executable_names(cur).contains(w) {
                    let m = choose|m: int|
                        0 <= m < cur.len() && !(#[trigger] cur[m]).is_dir && mode_is_executable(
                            cur[m].mode,
                        ) && w == cur[m].name@;
                    if m < i {
                        assert(cur[m] == entries@.take(i as int)[m]);
                        assert(executable_names(entries@.take(i as int)).contains(w));
                        assert(pre.to_set().contains(w));
                        assert(pre.contains(w));
                        if dv == pre {
                            assert(dv.contains(w));
                        } else {
                            let q = choose|q: int| 0 <= q < pre.len() && pre[q] == w;
                            assert(dv[q] == w);
                            assert(dv.contains(w));
                        }
                    } else {
                        assert(cur[m] == entries@[i as int]);
                        if pre.contains(w) {
                            let q = choose|q: int| 0 <= q < pre.len() && pre[q] == w;
                            if dv != pre {
                                assert(dv[q] == w);
                            }
                            assert(dv.contains(w));
                        } else {
                            assert(dv == pre.push(entries@[i as int].name@));
                            assert(dv.last() == w);
                            assert(dv.contains(w));
                        }
                    }
                }
            }
            assert(dv.to_set() =~= executable_names(cur));
        }
        i = i + 1;
    }
    proof {
        assert(entries@.take(n as int) =~= entries@);
    }
    r
}

/// Whether `v` holds a string equal to `s`.
fn contains_string(v: &Vec<String>, s: &str) -> (r: bool)
    ensures
        r == v.deep_view().contains(s@),
{
    let n = v.len();
    let mut i: usize = 0;
    while i < n
        invariant
            n == v@.len(),
            0 <= i <= n,
            forall|j: int| 0 <= j < i ==> v.deep_view()[j] != s@,
        decreases n - i,
    {
        if str_eq(v[i].as_str(), s) {
            proof {
                assert(v.deep_view()[i as int] == s@);
            }
            return true;
        }
        i = i + 1;
    }
    proof {
        if v.deep_view().contains(s@) {
            let m = choose|m: int| 0 <= m < v.deep_view().len() && v.deep_view()[m] == s@;
            assert(false);
        }
    }
    false
}

} // verus!
