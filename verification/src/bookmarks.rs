//! Saved camera poses, and the text file that keeps them.

use crate::sample::{finite, is_finite, less, lt};
use crate::text::{decimal, is_white, lemma_decimal_injective, lemma_split_join, lemma_split_single, push_decimal, same_text, split_on, split_text, texts, trim_end, trim_start, trim_text, trimmed};
use crate::vec3::BitVec3;
use vstd::prelude::*;
use vstd::string::{StrSliceExecFns, StringExecFns};

verus! {

/// Most bookmarks that are kept.
pub const MAX_CAMERA_BOOKMARKS: usize = 8;

/// Where the camera looks from. Numbers are binary32 bit patterns.
#[derive(Copy, Clone, Debug, PartialEq, Eq, Structural)]
pub struct Pose {
    pub target: BitVec3,
    pub distance: u32,
    pub yaw: u32,
    pub pitch: u32,
}

/// A saved pose.
pub struct CameraBookmark {
    pub name: String,
    pub pose: Pose,
}

/// The saved poses, newest first.
pub struct CameraBookmarks {
    pub slots: Vec<CameraBookmark>,
}

/// The name of bookmark number `n`.
pub open spec fn numbered(n: nat) -> Seq<char> {
    "Bookmark "@ + decimal(n)
}

/// Some bookmark has the name.
pub open spec fn is_taken(slots: Seq<CameraBookmark>, name: Seq<char>) -> bool {
    exists|i: int| 0 <= i < slots.len() && (#[trigger] slots[i]).name@ == name
}

fn numbered_name(n: u64) -> (r: String)
    ensures
        r@ == numbered(n as nat),
{
    let mut r = String::from_str("Bookmark ");
    push_decimal(&mut r, n);
    r
}

proof fn lemma_numbered_injective(a: nat, b: nat)
    requires
        numbered(a) == numbered(b),
    ensures
        a == b,
{
    let k = "Bookmark "@.len() as int;
    assert(numbered(a).subrange(k, numbered(a).len() as int) =~= decimal(a));
    assert(numbered(b).subrange(k, numbered(b).len() as int) =~= decimal(b));
    lemma_decimal_injective(a, b);
}

/// Index of the first bookmark with a name, if any.
fn find_name(slots: &Vec<CameraBookmark>, name: &str) -> (r: Option<usize>)
    ensures
        r is Some <==> is_taken(slots@, name@),
        r matches Some(i) ==> i < slots.len() && slots@[i as int].name@ == name@,
{
    let mut i: usize = 0;
    while i < slots.len()
        invariant
            i <= slots.len(),
            forall|k: int| 0 <= k < i ==> (#[trigger] slots@[k]).name@ != name@,
        decreases slots.len() - i,
    {
        if same_text(slots[i].name.as_str(), name) {
            assert(slots@[i as int].name@ == name@);
            return Some(i);
        }
        i = i + 1;
    }
    None
}

proof fn lemma_range_len(s: Set<int>, n: nat)
    requires
        forall|i: int| s.contains(i) ==> 0 <= i < n,
    ensures
        s.finite(),
        s.len() <= n,
    decreases n,
{
    if n == 0 {
        assert(s =~= Set::empty());
    } else {
        let k = (n - 1) as nat;
        let t = s.remove(k as int);
        assert forall|i: int| t.contains(i) implies 0 <= i < k by {}
        lemma_range_len(t, k);
        assert(s =~= (if s.contains(k as int) { t.insert(k as int) } else { t }));
    }
}

/// The name of a new bookmark: the first number after the count of bookmarks that is
/// not taken.
pub fn next_bookmark_name(slots: &Vec<CameraBookmark>) -> (r: String)
    requires
        slots.len() <= 0x7fff_ffff,
    ensures
        exists|n: nat|
            {
                &&& n > slots.len()
                &&& r@ == #[trigger] numbered(n)
                &&& !is_taken(slots@, numbered(n))
                &&& forall|k: nat|
                    slots.len() < k < n ==> is_taken(slots@, #[trigger] numbered(k))
            },
{
    let start: u64 = slots.len() as u64 + 1;
    let mut n: u64 = start;
    let mut name = numbered_name(n);
    let mut found = find_name(slots, name.as_str());
    let ghost mut used: Set<int> = Set::empty();
    proof {
        lemma_range_len(used, slots.len() as nat);
    }
    while found.is_some()
        invariant
            slots.len() <= 0x7fff_ffff,
            start == slots.len() + 1,
            start <= n,
            name@ == numbered(n as nat),
            found is Some <==> is_taken(slots@, name@),
            found matches Some(i) ==> i < slots.len() && slots@[i as int].name@ == name@,
            forall|k: nat| slots.len() < k < n ==> is_taken(slots@, #[trigger] numbered(k)),
            forall|i: int| used.contains(i) ==> 0 <= i < slots.len(),
            forall|i: int| #[trigger]
                used.contains(i) ==> exists|k: nat|
                    start <= k < n && slots@[i].name@ == #[trigger] numbered(k),
            used.finite(),
            used.len() == n - start,
            used.len() <= slots.len(),
        decreases slots.len() - used.len(),
    {
        proof {
            let i = found->0 as int;
            if used.contains(i) {
                let k = choose|k: nat|
                    start <= k < n && slots@[i].name@ == #[trigger] numbered(k);
                lemma_numbered_injective(k, n as nat);
            }
            let more = used.insert(i);
            assert forall|j: int| #[trigger] more.contains(j) implies exists|k: nat|
                start <= k < n + 1 && slots@[j].name@ == #[trigger] numbered(k) by {
                if j == i {
                    assert(slots@[j].name@ == numbered(n as nat));
                } else {
                    let k = choose|k: nat|
                        start <= k < n && slots@[j].name@ == #[trigger] numbered(k);
                    assert(slots@[j].name@ == numbered(k));
                }
            }
            used = more;
            lemma_range_len(used, slots.len() as nat);
        }
        n = n + 1;
        name = numbered_name(n);
        found = find_name(slots, name.as_str());
    }
    name
}

/// A pose stands in front of the bookmarks that were there, under a new name: the
/// first number after their count that is not taken. Only so many are kept.
pub open spec fn is_saved(
    before: Seq<CameraBookmark>,
    after: Seq<CameraBookmark>,
    pose: Pose,
) -> bool {
    &&& after.len() == (if before.len() < MAX_CAMERA_BOOKMARKS {
        before.len() + 1
    } else {
        MAX_CAMERA_BOOKMARKS as nat
    })
    &&& after[0].pose == pose
    &&& exists|n: nat|
        {
            &&& n > before.len()
            &&& after[0].name@ == #[trigger] numbered(n)
            &&& !is_taken(before, numbered(n))
            &&& forall|k: nat| before.len() < k < n ==> is_taken(before, #[trigger] numbered(k))
        }
    &&& forall|i: int| 1 <= i < after.len() ==> #[trigger] after[i] == before[i - 1]
}

impl CameraBookmarks {
    /// No bookmarks.
    pub fn new() -> (r: CameraBookmarks)
        ensures
            r.slots@.len() == 0,
    {
        CameraBookmarks { slots: Vec::new() }
    }

    /// Save a pose in front of the others under a new name. Only so many are kept.
    pub fn save_current(&mut self, pose: Pose)
        requires
            old(self).slots@.len() <= 0x7fff_ffff,
        ensures
            is_saved(old(self).slots@, final(self).slots@, pose),
    {
        let name = next_bookmark_name(&self.slots);
        self.slots.insert(0, CameraBookmark { name, pose });
        if self.slots.len() > MAX_CAMERA_BOOKMARKS {
            self.slots.truncate(MAX_CAMERA_BOOKMARKS);
        }
    }

    /// Forget all bookmarks.
    pub fn clear(&mut self)
        ensures
            final(self).slots@.len() == 0,
    {
        self.slots.clear();
    }

    /// The pose of a bookmark, if there is one at that place.
    pub fn pose(&self, index: usize) -> (r: Option<Pose>)
        ensures
            r == (if index < self.slots@.len() {
                Some(self.slots@[index as int].pose)
            } else {
                None
            }),
    {
        if index < self.slots.len() {
            Some(self.slots[index].pose)
        } else {
            None
        }
    }

    /// The bookmarks of a file: the first ones that could be read.
    pub fn from_rows(rows: Vec<Option<CameraBookmark>>) -> (r: CameraBookmarks)
        ensures
            r.slots@ == first_read(rows@, rows@.len()),
    {
        let ghost all = rows@;
        let mut rest = rows;
        let mut slots: Vec<CameraBookmark> = Vec::new();
        let ghost mut n: nat = 0;
        while rest.len() > 0
            invariant
                n + rest@.len() == all.len(),
                forall|i: int| 0 <= i < rest@.len() ==> rest@[i] == #[trigger] all[i + n],
                slots@ == first_read(all, n),
                slots@.len() <= MAX_CAMERA_BOOKMARKS,
            decreases rest@.len(),
        {
            assert(rest@[0] == all[0int + n]);
            let row = rest.remove(0);
            match row {
                Some(b) => {
                    if slots.len() < MAX_CAMERA_BOOKMARKS {
                        slots.push(b);
                    }
                },
                None => {},
            }
            proof {
                n = n + 1;
                assert forall|i: int| 0 <= i < rest@.len() implies rest@[i] == #[trigger] all[i + n] by {
                    assert(all[(i + 1) + (n - 1)] == all[i + n]);
                }
            }
        }
        CameraBookmarks { slots }
    }
}

/// The bookmarks among the first `n` rows, as many as are kept.
pub open spec fn first_read(rows: Seq<Option<CameraBookmark>>, n: nat) -> Seq<CameraBookmark>
    decreases n,
{
    if n == 0 {
        Seq::empty()
    } else {
        let before = first_read(rows, (n - 1) as nat);
        match rows[n - 1] {
            Some(b) => if before.len() < MAX_CAMERA_BOOKMARKS {
                before.push(b)
            } else {
                before
            },
            None => before,
        }
    }
}

/// A line of the file: a name and six numbers, still as text.
pub struct BookmarkRow {
    pub name: String,
    pub numbers: Vec<String>,
}

/// What a line says: a name, and what stands in the next six columns. Blank lines,
/// comments, lines without a name and lines with too few columns say nothing.
pub open spec fn row_of(line: Seq<char>) -> Option<(Seq<char>, Seq<Seq<char>>)> {
    let t = trimmed(line);
    if t.len() == 0 || t[0] == '#' {
        None
    } else {
        let parts = split_on(t, '\t');
        let name = trimmed(parts[0]);
        if name.len() == 0 || parts.len() < 7 {
            None
        } else {
            Some((name, parts.subrange(1, 7)))
        }
    }
}

/// Read a line of the file.
pub fn parse_bookmark_line(line: &str) -> (r: Option<BookmarkRow>)
    ensures
        match row_of(line@) {
            None => r is None,
            Some((name, numbers)) => r matches Some(row) && row.name@ == name && texts(row.numbers@)
                == numbers,
        },
{
    let t = trim_text(line);
    if t.as_str().unicode_len() == 0 || t.as_str().get_char(0) == '#' {
        return None;
    }
    let parts = split_text(t.as_str(), '\t');
    let ghost all = texts(parts@);
    assert(all[0] == parts@[0]@);
    let name = trim_text(parts[0].as_str());
    if name.as_str().unicode_len() == 0 || parts.len() < 7 {
        return None;
    }
    let mut numbers: Vec<String> = Vec::new();
    let mut i: usize = 1;
    while i < 7
        invariant
            1 <= i <= 7,
            parts@.len() >= 7,
            all == texts(parts@),
            numbers.len() == i - 1,
            forall|k: int| 0 <= k < i - 1 ==> (#[trigger] numbers@[k])@ == all[k + 1],
        decreases 7 - i,
    {
        assert(all[i as int] == parts@[i as int]@);
        numbers.push(String::from_str(parts[i].as_str()));
        i = i + 1;
    }
    assert(texts(numbers@) =~= all.subrange(1, 7));
    Some(BookmarkRow { name, numbers })
}

/// The bookmark of a name and its numbers. The distance must be a positive number.
pub fn bookmark(name: String, pose: Pose) -> (r: Option<CameraBookmark>)
    ensures
        r is Some <==> is_finite(pose.distance) && lt(0, pose.distance),
        r matches Some(b) ==> b.name == name && b.pose == pose,
{
    if !finite(pose.distance) || !less(0, pose.distance) {
        return None;
    }
    Some(CameraBookmark { name, pose })
}

/// A name on one line and in one column: tabs and line ends become spaces.
pub open spec fn on_line(name: Seq<char>) -> Seq<char> {
    Seq::new(
        name.len(),
        |i: int|
            if name[i] == '\t' || name[i] == '\n' {
                ' '
            } else {
                name[i]
            },
    )
}

/// A line with the first `n` numbers.
pub open spec fn line_of(name: Seq<char>, numbers: Seq<Seq<char>>, n: nat) -> Seq<char>
    decreases n,
{
    if n == 0 {
        on_line(name)
    } else {
        line_of(name, numbers, (n - 1) as nat).push('\t') + numbers[n - 1]
    }
}

/// The line of a bookmark.
pub fn bookmark_line(name: &str, numbers: &Vec<String>) -> (r: String)
    ensures
        r@ == line_of(name@, texts(numbers@), numbers@.len()),
{
    let n: usize = name.unicode_len();
    let mut r = String::from_str("");
    proof {
        reveal_strlit("");
        reveal_strlit(" ");
        reveal_strlit("\t");
        assert(r@ =~= on_line(name@).subrange(0, 0));
    }
    let mut i: usize = 0;
    while i < n
        invariant
            i <= n,
            n == name@.len(),
            r@ == on_line(name@).subrange(0, i as int),
        decreases n - i,
    {
        let c: char = name.get_char(i);
        proof {
            reveal_strlit(" ");
        }
        if c == '\t' || c == '\n' {
            r.append(" ");
        } else {
            r.append(name.substring_char(i, i + 1));
        }
        assert(r@ =~= on_line(name@).subrange(0, i + 1));
        i = i + 1;
    }
    assert(r@ =~= on_line(name@));
    let mut k: usize = 0;
    while k < numbers.len()
        invariant
            k <= numbers.len(),
            r@ == line_of(name@, texts(numbers@), k as nat),
        decreases numbers.len() - k,
    {
        proof {
            reveal_strlit("\t");
            assert(texts(numbers@)[k as int] == numbers@[k as int]@);
        }
        let ghost was = r@;
        r.append("\t");
        r.append(numbers[k].as_str());
        assert(r@ =~= was.push('\t') + numbers@[k as int]@);
        k = k + 1;
    }
    r
}

proof fn lemma_line_splits(head: Seq<char>, name: Seq<char>, numbers: Seq<Seq<char>>, n: nat, cut: int)
    requires
        n <= numbers.len(),
        0 <= cut <= on_line(name).len(),
        head == on_line(name).subrange(cut, on_line(name).len() as int),
        !head.contains('\t'),
        forall|i: int| 0 <= i < numbers.len() ==> !(#[trigger] numbers[i]).contains('\t'),
    ensures
        ({
            let line = line_of(name, numbers, n);
            &&& line.len() >= on_line(name).len()
            &&& line.subrange(0, on_line(name).len() as int) == on_line(name)
            &&& split_on(line.subrange(cut, line.len() as int), '\t') == seq![head] + numbers.subrange(
                0,
                n as int,
            )
        }),
    decreases n,
{
    let line = line_of(name, numbers, n);
    if n == 0 {
        lemma_split_single(head, '\t');
        assert(seq![head] + numbers.subrange(0, 0) =~= seq![head]);
        assert(line.subrange(0, line.len() as int) =~= line);
    } else {
        let m = (n - 1) as nat;
        lemma_line_splits(head, name, numbers, m, cut);
        let part = line_of(name, numbers, m);
        let rest = part.subrange(cut, part.len() as int);
        assert(line.subrange(cut, line.len() as int) =~= rest.push('\t') + numbers[n - 1]);
        lemma_split_join(rest, numbers[n - 1], '\t');
        assert((seq![head] + numbers.subrange(0, m as int)).push(numbers[n - 1]) =~= seq![head]
            + numbers.subrange(0, n as int));
        assert(line.subrange(0, on_line(name).len() as int) =~= part.subrange(
            0,
            on_line(name).len() as int,
        ));
    }
}

/// Dropping white space at the start is cutting off what stands before some place.
proof fn lemma_start_cut(s: Seq<char>, t: Seq<char>) -> (cut: int)
    requires
        trim_start(s).len() > 0,
    ensures
        0 <= cut < s.len(),
        trim_start(s) == s.subrange(cut, s.len() as int),
        !is_white(s[cut]),
        trim_start(s + t) == (s + t).subrange(cut, (s + t).len() as int),
    decreases s.len(),
{
    if s.len() > 0 && is_white(s[0]) {
        let rest = s.subrange(1, s.len() as int);
        let c = lemma_start_cut(rest, t);
        assert(rest.subrange(c, rest.len() as int) =~= s.subrange(c + 1, s.len() as int));
        assert((s + t).subrange(1, (s + t).len() as int) =~= rest + t);
        assert((rest + t).subrange(c, (rest + t).len() as int) =~= (s + t).subrange(
            c + 1,
            (s + t).len() as int,
        ));
        c + 1
    } else {
        assert(s.subrange(0, s.len() as int) =~= s);
        assert((s + t).subrange(0, (s + t).len() as int) =~= s + t);
        0
    }
}

proof fn lemma_trim_start_twice(s: Seq<char>)
    ensures
        trim_start(trim_start(s)) == trim_start(s),
    decreases s.len(),
{
    if s.len() > 0 && is_white(s[0]) {
        lemma_trim_start_twice(s.subrange(1, s.len() as int));
    }
}

proof fn lemma_on_line_has_no_tab(name: Seq<char>, lo: int)
    requires
        0 <= lo <= name.len(),
    ensures
        !on_line(name).subrange(lo, name.len() as int).contains('\t'),
{
    let s = on_line(name).subrange(lo, name.len() as int);
    if s.contains('\t') {
        let i = choose|i: int| 0 <= i < s.len() && s[i] == '\t';
        assert(on_line(name)[lo + i] == '\t');
    }
}

/// A bookmark comes back from its line: the name without white space at its ends and
/// with spaces for tabs and line ends, and the numbers as they were. The name must
/// have more than white space and not start a comment; the numbers have no tabs, and
/// the last has no white space at its end.
pub proof fn law_bookmark_round_trip(name: Seq<char>, numbers: Seq<Seq<char>>)
    requires
        trimmed(on_line(name)).len() > 0,
        trimmed(on_line(name))[0] != '#',
        numbers.len() == 6,
        forall|i: int| 0 <= i < numbers.len() ==> !(#[trigger] numbers[i]).contains('\t'),
        numbers[5].len() > 0,
        !is_white(numbers[5].last()),
    ensures
        row_of(line_of(name, numbers, 6)) == Some((trimmed(on_line(name)), numbers)),
{
    let line = line_of(name, numbers, 6);
    let s = on_line(name);
    lemma_line_splits(s.subrange(s.len() as int, s.len() as int), name, numbers, 6, s.len() as int);
    let t = line.subrange(s.len() as int, line.len() as int);
    assert(line =~= s + t);
    assert(trim_start(s).len() > 0) by {
        if trim_start(s).len() == 0 {
            assert(trim_end(trim_start(s)) == trim_start(s));
        }
    }
    let cut = lemma_start_cut(s, t);
    let head = s.subrange(cut, s.len() as int);
    lemma_on_line_has_no_tab(name, cut);
    lemma_line_splits(head, name, numbers, 6, cut);
    let whole = line.subrange(cut, line.len() as int);
    assert(trim_start(line) == whole);
    assert(line.last() == numbers[5].last());
    assert(whole.last() == line.last());
    assert(trim_end(whole) == whole);
    assert(whole[0] == s[cut]);
    assert(head[0] == s[cut]);
    lemma_trim_start_twice(s);
    assert(trim_start(head) == head);
    lemma_trim_end_first(head);
    let parts = seq![head] + numbers.subrange(0, 6);
    assert(parts[0] == head);
    assert(parts.subrange(1, 7) =~= numbers);
}

proof fn lemma_trim_end_first(s: Seq<char>)
    ensures
        trim_end(s).len() > 0 ==> trim_end(s)[0] == s[0],
    decreases s.len(),
{
    if s.len() > 0 && is_white(s.last()) {
        lemma_trim_end_first(s.drop_last());
    }
}

/// What the first `n` lines of a file say.
pub open spec fn rows_of(lines: Seq<Seq<char>>, n: nat) -> Seq<(Seq<char>, Seq<Seq<char>>)>
    decreases n,
{
    if n == 0 {
        Seq::empty()
    } else {
        let before = rows_of(lines, (n - 1) as nat);
        match row_of(lines[n - 1]) {
            Some(row) => before.push(row),
            None => before,
        }
    }
}

/// What rows hold.
pub open spec fn row_texts(rows: Seq<BookmarkRow>) -> Seq<(Seq<char>, Seq<Seq<char>>)> {
    Seq::new(rows.len(), |i: int| (rows[i].name@, texts(rows[i].numbers@)))
}

/// Read the lines of a file.
pub fn load_bookmarks(text: &str) -> (r: Vec<BookmarkRow>)
    ensures
        row_texts(r@) == rows_of(split_on(text@, '\n'), split_on(text@, '\n').len()),
{
    let lines = split_text(text, '\n');
    let ghost all = texts(lines@);
    let mut r: Vec<BookmarkRow> = Vec::new();
    let mut i: usize = 0;
    assert(row_texts(r@) =~= rows_of(all, 0));
    while i < lines.len()
        invariant
            i <= lines.len(),
            all == texts(lines@),
            row_texts(r@) == rows_of(all, i as nat),
        decreases lines.len() - i,
    {
        assert(all[i as int] == lines@[i as int]@);
        let ghost was = row_texts(r@);
        match parse_bookmark_line(lines[i].as_str()) {
            Some(row) => {
                let ghost said = (row.name@, texts(row.numbers@));
                r.push(row);
                assert(row_texts(r@) =~= was.push(said));
            },
            None => {},
        }
        i = i + 1;
    }
    r
}

/// The first `n` lines, with a line end between them.
pub open spec fn joined(lines: Seq<Seq<char>>, n: nat) -> Seq<char>
    decreases n,
{
    if n == 0 {
        Seq::empty()
    } else if n == 1 {
        lines[0]
    } else {
        joined(lines, (n - 1) as nat).push('\n') + lines[n - 1]
    }
}

/// The text of a file with these lines.
pub fn save_bookmarks(lines: &Vec<String>) -> (r: String)
    ensures
        r@ == joined(texts(lines@), lines@.len()),
{
    let mut r = String::from_str("");
    proof {
        reveal_strlit("");
        assert(r@ =~= joined(texts(lines@), 0));
    }
    let mut i: usize = 0;
    while i < lines.len()
        invariant
            i <= lines.len(),
            r@ == joined(texts(lines@), i as nat),
        decreases lines.len() - i,
    {
        let ghost was = r@;
        proof {
            reveal_strlit("\n");
            assert(texts(lines@)[i as int] == lines@[i as int]@);
        }
        if i > 0 {
            r.append("\n");
        }
        r.append(lines[i].as_str());
        assert(r@ =~= joined(texts(lines@), (i + 1) as nat));
        i = i + 1;
    }
    r
}

/// The lines of a file come back from its text, if there is one and none has a line
/// end.
pub proof fn law_lines_round_trip(lines: Seq<Seq<char>>, n: nat)
    requires
        0 < n <= lines.len(),
        forall|i: int| 0 <= i < lines.len() ==> !(#[trigger] lines[i]).contains('\n'),
    ensures
        split_on(joined(lines, n), '\n') == lines.subrange(0, n as int),
    decreases n,
{
    if n == 1 {
        lemma_split_single(lines[0], '\n');
        assert(lines.subrange(0, 1) =~= seq![lines[0]]);
    } else {
        law_lines_round_trip(lines, (n - 1) as nat);
        lemma_split_join(joined(lines, (n - 1) as nat), lines[n - 1], '\n');
        assert(lines.subrange(0, n - 1).push(lines[n - 1]) =~= lines.subrange(0, n as int));
    }
}

} // verus!
