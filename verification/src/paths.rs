//! Paths as text, as Unix writes them: their parts, their directories, and when
//! two of them are the same. Parts stand between slashes; empty parts and `.` are
//! none, but for a `.` in front.
use vstd::prelude::*;

use crate::text::{chars_of, opt_text, same_texts, text_range, texts};

verus! {

/// The length of what stands before the parts of a path: the root, or a `.` in
/// front.
pub open spec fn head_len(path: Seq<char>) -> int {
    if path.len() > 0 && (path[0] == '/' || (path[0] == '.' && (path.len() == 1 || path[1]
        == '/'))) {
        1
    } else {
        0
    }
}

/// Where `path[..to]` ends without the slashes and `.` parts at its end.
pub open spec fn solid_end(path: Seq<char>, to: int) -> int
    decreases to,
{
    if to <= head_len(path) || to > path.len() {
        to
    } else if path[to - 1] == '/' || (path[to - 1] == '.' && (to - 1 == head_len(path) || path[to
        - 2] == '/')) {
        solid_end(path, to - 1)
    } else {
        to
    }
}

/// Where the last part of `path[..to]` begins.
pub open spec fn part_start(path: Seq<char>, to: int) -> int
    decreases to,
{
    if head_len(path) < to <= path.len() && path[to - 1] != '/' {
        part_start(path, to - 1)
    } else {
        to
    }
}

/// The directory of a path: what stands before its last part. The root and the
/// empty path have none.
pub open spec fn parent_of(path: Seq<char>) -> Option<Seq<char>> {
    let end = solid_end(path, path.len() as int);
    if end > head_len(path) {
        Some(path.take(solid_end(path, part_start(path, end))))
    } else if path.len() > 0 && path[0] == '.' {
        Some(Seq::empty())
    } else {
        None
    }
}

/// The last part of a path, empty where it has none.
pub open spec fn last_part(path: Seq<char>) -> Seq<char> {
    let end = solid_end(path, path.len() as int);
    if end > head_len(path) {
        path.subrange(part_start(path, end), end)
    } else {
        Seq::empty()
    }
}

/// The parts of `path[..to]`, last first, and what stands before them.
pub open spec fn parts_back(path: Seq<char>, to: int) -> Seq<Seq<char>>
    decreases to,
{
    let end = solid_end(path, to);
    let start = part_start(path, end);
    if end > head_len(path) && 0 <= start < to {
        seq![path.subrange(start, end)] + parts_back(path, start)
    } else if head_len(path) > 0 {
        seq![path.take(1)]
    } else {
        Seq::empty()
    }
}

/// Whether two texts are the same path: they have the same parts.
pub open spec fn is_same_path(a: Seq<char>, b: Seq<char>) -> bool {
    parts_back(a, a.len() as int) == parts_back(b, b.len() as int)
}

fn find_head(s: &[char]) -> (head: usize)
    ensures
        head == head_len(s@),
        head <= s@.len(),
{
    if s.len() > 0 && (s[0] == '/' || (s[0] == '.' && (s.len() == 1 || s[1] == '/'))) {
        1
    } else {
        0
    }
}

fn find_solid_end(s: &[char], from: usize) -> (end: usize)
    requires
        head_len(s@) <= from <= s@.len(),
    ensures
        end == solid_end(s@, from as int),
        head_len(s@) <= end <= from,
{
    let head = find_head(s);
    let mut to: usize = from;
    while to > head && (s[to - 1] == '/' || (s[to - 1] == '.' && (to - 1 == head || s[to - 2]
        == '/')))
        invariant
            head == head_len(s@),
            head <= to <= from <= s@.len(),
            solid_end(s@, from as int) == solid_end(s@, to as int),
        decreases to,
    {
        to -= 1;
    }
    to
}

fn find_part_start(s: &[char], from: usize) -> (start: usize)
    requires
        head_len(s@) <= from <= s@.len(),
    ensures
        start == part_start(s@, from as int),
        head_len(s@) <= start <= from,
{
    let head = find_head(s);
    let mut to: usize = from;
    while to > head && s[to - 1] != '/'
        invariant
            head == head_len(s@),
            head <= to <= from <= s@.len(),
            part_start(s@, from as int) == part_start(s@, to as int),
        decreases to,
    {
        to -= 1;
    }
    to
}

/// Computes [`parent_of`].
pub fn parent_dir(path: &str) -> (dir: Option<String>)
    ensures
        opt_text(dir) == parent_of(path@),
{
    let s = chars_of(path);
    let end = find_solid_end(&s, s.len());
    if end > find_head(&s) {
        let stop = find_solid_end(&s, find_part_start(&s, end));
        let dir = text_range(&s, 0, stop);
        proof {
            assert(dir@ =~= s@.take(stop as int));
        }
        return Some(dir);
    }
    if s.len() > 0 && s[0] == '.' {
        let dir = String::new();
        proof {
            assert(dir@ =~= Seq::<char>::empty());
        }
        return Some(dir);
    }
    None
}

/// Computes [`last_part`].
pub fn file_name(path: &str) -> (name: String)
    ensures
        name@ == last_part(path@),
{
    let s = chars_of(path);
    let end = find_solid_end(&s, s.len());
    if end > find_head(&s) {
        return text_range(&s, find_part_start(&s, end), end);
    }
    let name = String::new();
    proof {
        assert(name@ =~= Seq::<char>::empty());
    }
    name
}

/// Computes [`parts_back`] of a whole path.
fn collect_parts(path: &str) -> (out: Vec<String>)
    ensures
        texts(out@) == parts_back(path@, path@.len() as int),
{
    let s = chars_of(path);
    let head = find_head(&s);
    let ghost stated = parts_back(s@, s@.len() as int);
    let mut out: Vec<String> = Vec::new();
    let mut to: usize = s.len();
    proof {
        assert(texts(out@) + stated =~= stated);
    }
    loop
        invariant
            head == head_len(s@),
            head <= to <= s@.len(),
            s@ == path@,
            stated == parts_back(path@, path@.len() as int),
            texts(out@) + parts_back(s@, to as int) == stated,
        decreases to,
    {
        let end = find_solid_end(&s, to);
        let start = find_part_start(&s, end);
        let ghost had = texts(out@);
        let ghost before = out@;
        if end <= head || start >= to {
            if head > 0 {
                let first = text_range(&s, 0, 1);
                let ghost view = first@;
                out.push(first);
                proof {
                    assert(view =~= s@.take(1));
                    assert(texts(out@) =~= texts(before).push(view));
                    assert(texts(out@) =~= had + seq![view]);
                }
            } else {
                proof {
                    assert(had + Seq::<Seq<char>>::empty() =~= had);
                }
            }
            return out;
        }
        let part = text_range(&s, start, end);
        let ghost view = part@;
        out.push(part);
        proof {
            assert(texts(out@) =~= texts(before).push(view));
            let rest = parts_back(s@, start as int);
            assert(had + (seq![view] + rest) =~= texts(out@) + rest);
        }
        to = start;
    }
}

/// Computes [`is_same_path`].
pub fn same_path(a: &str, b: &str) -> (yes: bool)
    ensures
        yes == is_same_path(a@, b@),
{
    same_texts(&collect_parts(a), &collect_parts(b))
}

/// Whether a path is among others, however it is written.
pub open spec fn is_among(list: Seq<Seq<char>>, path: Seq<char>) -> bool {
    exists|i: int| 0 <= i < list.len() && is_same_path(#[trigger] list[i], path)
}

/// Computes [`is_among`].
pub fn holds_path(list: &[String], path: &str) -> (found: bool)
    ensures
        found == is_among(texts(list@), path@),
{
    let mut i: usize = 0;
    while i < list.len()
        invariant
            i <= list@.len(),
            forall|k: int| 0 <= k < i ==> !is_same_path(#[trigger] texts(list@)[k], path@),
        decreases list@.len() - i,
    {
        if same_path(&list[i], path) {
            proof {
                assert(is_same_path(texts(list@)[i as int], path@));
            }
            return true;
        }
        i += 1;
    }
    false
}

/// A directory is the beginning of its path, and never longer.
pub proof fn law_directories_begin_their_paths(path: Seq<char>)
    ensures
        parent_of(path) matches Some(dir) ==> dir.len() < path.len() && dir == path.take(
            dir.len() as int,
        ),
{
    let end = solid_end(path, path.len() as int);
    lemma_solid_end(path, path.len() as int);
    if end > head_len(path) {
        lemma_part_start(path, end);
        lemma_solid_end(path, part_start(path, end));
    }
    assert(path.take(0) =~= Seq::<char>::empty());
}

proof fn lemma_solid_end(path: Seq<char>, to: int)
    requires
        head_len(path) <= to <= path.len(),
    ensures
        head_len(path) <= solid_end(path, to) <= to,
        solid_end(path, to) > head_len(path) ==> path[solid_end(path, to) - 1] != '/',
    decreases to,
{
    if to > head_len(path) && (path[to - 1] == '/' || (path[to - 1] == '.' && (to - 1 == head_len(
        path,
    ) || path[to - 2] == '/'))) {
        lemma_solid_end(path, to - 1);
    }
}

proof fn lemma_part_start(path: Seq<char>, to: int)
    requires
        head_len(path) <= to <= path.len(),
    ensures
        head_len(path) <= part_start(path, to) <= to,
        to > head_len(path) && path[to - 1] != '/' ==> part_start(path, to) < to,
    decreases to,
{
    if to > head_len(path) && path[to - 1] != '/' {
        lemma_part_start(path, to - 1);
    }
}

} // verus!
