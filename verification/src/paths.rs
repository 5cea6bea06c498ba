//! Names of files: what a typed name becomes, and which files of a directory are
//! projects.

use crate::text::{is_white, trim_end, trim_start, trim_text, trimmed};
use crate::timestamp::{is_moment, stamped_name, timestamped_filename, DateTime};
use vstd::prelude::*;
use vstd::string::{StrSliceExecFns, StringExecFns};

verus! {

/// The text ends with another.
pub open spec fn ends_with(s: Seq<char>, end: Seq<char>) -> bool {
    s.len() >= end.len() && s.subrange(s.len() - end.len(), s.len() as int) == end
}

/// Whether a text ends with another.
pub fn text_ends_with(s: &str, end: &str) -> (r: bool)
    ensures
        r == ends_with(s@, end@),
{
    let n: usize = s.unicode_len();
    let k: usize = end.unicode_len();
    if n < k {
        return false;
    }
    let mut i: usize = 0;
    while i < k
        invariant
            i <= k <= n,
            n == s@.len(),
            k == end@.len(),
            forall|j: int| 0 <= j < i ==> s@[n - k + j] == #[trigger] end@[j],
        decreases k - i,
    {
        if s.get_char(n - k + i) != end.get_char(i) {
            assert(s@.subrange(n - k, n as int)[i as int] != end@[i as int]);
            return false;
        }
        i = i + 1;
    }
    assert(s@.subrange(n - k, n as int) =~= end@);
    true
}

/// The name that a typed name becomes: one made from the moment if nothing was typed,
/// and otherwise what was typed, with the extension if it does not end with that.
pub open spec fn typed_path(input: Seq<char>, dot_ext: Seq<char>, t: DateTime) -> Seq<char> {
    let name = trimmed(input);
    if name.len() == 0 {
        stamped_name("mud-sculpt-"@, t, dot_ext)
    } else if ends_with(name, dot_ext) {
        name
    } else {
        name + dot_ext
    }
}

/// The name that a typed name becomes, with an extension that starts with a dot.
pub fn finalise_typed_path(input: &str, dot_ext: &str, secs: u64) -> (r: String)
    ensures
        exists|t: DateTime| #[trigger]
            is_moment(t, secs) && r@ == typed_path(input@, dot_ext@, t),
{
    let name = trim_text(input);
    let stamped = timestamped_filename("mud-sculpt-", dot_ext, secs);
    let ghost t = choose|t: DateTime| #[trigger]
        is_moment(t, secs) && stamped@ == stamped_name("mud-sculpt-"@, t, dot_ext@);
    assert(is_moment(t, secs));
    if name.as_str().unicode_len() == 0 {
        return stamped;
    }
    if text_ends_with(name.as_str(), dot_ext) {
        return name;
    }
    let mut r = name;
    r.append(dot_ext);
    r
}

/// The name under which a project is saved.
pub fn finalise_save_path(input: &str, secs: u64) -> (r: String)
    ensures
        exists|t: DateTime| #[trigger]
            is_moment(t, secs) && r@ == typed_path(input@, ".mudclay"@, t),
{
    finalise_typed_path(input, ".mudclay", secs)
}

/// The name under which a mesh is exported.
pub fn finalise_export_path(input: &str, secs: u64) -> (r: String)
    ensures
        exists|t: DateTime| #[trigger]
            is_moment(t, secs) && r@ == typed_path(input@, ".stl"@, t),
{
    finalise_typed_path(input, ".stl", secs)
}

proof fn lemma_trim_end(s: Seq<char>)
    ensures
        trim_end(s).len() <= s.len(),
        trim_end(s) == s.subrange(0, trim_end(s).len() as int),
        trim_end(s).len() > 0 ==> !is_white(trim_end(s).last()),
    decreases s.len(),
{
    if s.len() > 0 && is_white(s.last()) {
        lemma_trim_end(s.drop_last());
        assert(s.subrange(0, trim_end(s).len() as int) =~= s.drop_last().subrange(
            0,
            trim_end(s).len() as int,
        ));
    } else {
        assert(s.subrange(0, s.len() as int) =~= s);
    }
}

proof fn lemma_trim_start(s: Seq<char>)
    ensures
        trim_start(s).len() > 0 ==> !is_white(trim_start(s)[0]),
    decreases s.len(),
{
    if s.len() > 0 && is_white(s[0]) {
        lemma_trim_start(s.subrange(1, s.len() as int));
    }
}

/// A name that was finished ends with the extension, and finishing it again changes
/// nothing.
pub proof fn law_finished_name_stays(input: Seq<char>, dot_ext: Seq<char>, t: DateTime, u: DateTime)
    requires
        dot_ext.len() > 0,
        !is_white(dot_ext.last()),
    ensures
        ends_with(typed_path(input, dot_ext, t), dot_ext),
        typed_path(typed_path(input, dot_ext, t), dot_ext, u) == typed_path(input, dot_ext, t),
{
    let name = trimmed(input);
    let r = typed_path(input, dot_ext, t);
    lemma_trim_start(input);
    lemma_trim_end(trim_start(input));
    if name.len() == 0 || !ends_with(name, dot_ext) {
        assert(r.subrange(r.len() - dot_ext.len(), r.len() as int) =~= dot_ext);
        assert(r.last() == dot_ext.last());
    }
    reveal_strlit("mud-sculpt-");
    assert(!is_white(r[0]));
    assert(!is_white(r.last()));
    assert(trimmed(r) == r);
}

/// A file of a directory: its name, and when it was changed.
pub struct FileEntry {
    pub name: String,
    pub modified: i128,
}

/// The name is that of a project: it has the extension, after something.
pub open spec fn is_project_name(name: Seq<char>) -> bool {
    ends_with(name, ".mudclay"@) && name.len() > ".mudclay"@.len()
}

/// File `i` stands before file `j`: it is newer, or as new and listed first.
pub open spec fn stands_before(files: Seq<FileEntry>, i: int, j: int) -> bool {
    files[i].modified > files[j].modified || files[i].modified == files[j].modified && i < j
}

/// The projects among the files, newest first.
pub open spec fn lists_projects(files: Seq<FileEntry>, list: Seq<usize>) -> bool {
    &&& forall|k: int|
        0 <= k < list.len() ==> (#[trigger] list[k]) < files.len() && is_project_name(
            files[list[k] as int].name@,
        )
    &&& forall|i: int|
        0 <= i < files.len() && is_project_name((#[trigger] files[i]).name@) ==> exists|k: int|
            0 <= k < list.len() && #[trigger] list[k] == i
    &&& forall|a: int, b: int|
        0 <= a < b < list.len() ==> stands_before(
            files,
            (#[trigger] list[a]) as int,
            (#[trigger] list[b]) as int,
        )
}

/// The projects among the files of a directory, newest first, by their places.
pub fn list_mudclay_in(files: &Vec<FileEntry>) -> (r: Vec<usize>)
    ensures
        lists_projects(files@, r@),
{
    let mut r: Vec<usize> = Vec::new();
    let mut i: usize = 0;
    while i < files.len()
        invariant
            i <= files.len(),
            forall|k: int|
                0 <= k < r@.len() ==> (#[trigger] r@[k]) < i && is_project_name(
                    files@[r@[k] as int].name@,
                ),
            forall|j: int|
                0 <= j < i && is_project_name((#[trigger] files@[j]).name@) ==> exists|k: int|
                    0 <= k < r@.len() && #[trigger] r@[k] == j,
            forall|a: int, b: int|
                0 <= a < b < r@.len() ==> stands_before(
                    files@,
                    (#[trigger] r@[a]) as int,
                    (#[trigger] r@[b]) as int,
                ),
        decreases files.len() - i,
    {
        let name = files[i].name.as_str();
        if text_ends_with(name, ".mudclay") && name.unicode_len() > ".mudclay".unicode_len() {
            let mut at: usize = 0;
            while at < r.len() && files[r[at]].modified >= files[i].modified
                invariant
                    at <= r.len(),
                    i < files.len(),
                    forall|k: int| 0 <= k < r@.len() ==> (#[trigger] r@[k]) < i,
                    forall|k: int|
                        0 <= k < at ==> files@[(#[trigger] r@[k]) as int].modified
                            >= files@[i as int].modified,
                decreases r.len() - at,
            {
                at = at + 1;
            }
            let ghost was = r@;
            r.insert(at, i);
            proof {
                let now = r@;
                assert(now =~= was.insert(at as int, i));
                assert forall|j: int| 0 <= j < i + 1 && is_project_name((#[trigger] files@[j]).name@) implies exists|
                    k: int,
                |
                    0 <= k < now.len() && #[trigger] now[k] == j by {
                    if j == i {
                        assert(now[at as int] == j);
                    } else {
                        let k = choose|k: int| 0 <= k < was.len() && #[trigger] was[k] == j;
                        if k < at {
                            assert(now[k] == j);
                        } else {
                            assert(now[k + 1] == j);
                        }
                    }
                }
                assert forall|a: int, b: int| 0 <= a < b < now.len() implies stands_before(
                    files@,
                    (#[trigger] now[a]) as int,
                    (#[trigger] now[b]) as int,
                ) by {
                    let old_a = if a < at { a } else { a - 1 };
                    let old_b = if b < at { b } else { b - 1 };
                    if a != at && b != at {
                        assert(now[a] == was[old_a] && now[b] == was[old_b]);
                        assert(stands_before(files@, was[old_a] as int, was[old_b] as int));
                    } else if b == at {
                        assert(now[a] == was[a]);
                    } else {
                        assert(now[b] == was[b - 1]);
                        if b - 1 > at {
                            assert(stands_before(files@, was[at as int] as int, was[b - 1] as int));
                        }
                    }
                }
                assert forall|k: int| 0 <= k < now.len() implies (#[trigger] now[k]) < i + 1
                    && is_project_name(files@[now[k] as int].name@) by {
                    if k < at {
                        assert(now[k] == was[k]);
                    } else if k > at {
                        assert(now[k] == was[k - 1]);
                    }
                }
            }
        } else {
            proof {
                assert forall|j: int| 0 <= j < i + 1 && is_project_name((#[trigger] files@[j]).name@) implies exists|
                    k: int,
                |
                    0 <= k < r@.len() && #[trigger] r@[k] == j by {
                    assert(j != i);
                }
            }
        }
        i = i + 1;
    }
    r
}

/// The newest project among the files of a directory, by its place.
pub fn newest_mudclay_in(files: &Vec<FileEntry>) -> (r: Option<usize>)
    ensures
        r is None <==> forall|i: int|
            0 <= i < files@.len() ==> !is_project_name((#[trigger] files@[i]).name@),
        r matches Some(k) ==> {
            &&& k < files@.len()
            &&& is_project_name(files@[k as int].name@)
            &&& forall|i: int|
                0 <= i < files@.len() && i != k && is_project_name((#[trigger] files@[i]).name@)
                    ==> stands_before(files@, k as int, i)
        },
{
    let list = list_mudclay_in(files);
    if list.len() == 0 {
        return None;
    }
    let k: usize = list[0];
    proof {
        assert(is_project_name(files@[k as int].name@));
        assert forall|i: int|
            0 <= i < files@.len() && i != k && is_project_name((#[trigger] files@[i]).name@) implies stands_before(
            files@,
            k as int,
            i,
        ) by {
            let j = choose|j: int| 0 <= j < list@.len() && #[trigger] list@[j] == i;
            assert(stands_before(files@, list@[0] as int, list@[j] as int));
        }
    }
    Some(k)
}

/// The newest file stands first, of equally new ones the one that was found first; any two files
/// have an order.
pub proof fn law_newest_file_stands_first(files: Seq<FileEntry>, i: int, j: int)
    ensures
        stands_before(files, i, j) ==> files[i].modified >= files[j].modified,
        stands_before(files, i, j) && files[i].modified == files[j].modified ==> i < j,
        i != j ==> stands_before(files, i, j) != stands_before(files, j, i),
        !stands_before(files, i, i),
{
}

} // verus!
