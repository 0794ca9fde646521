//! File-system paths as text: joining, final components, stems, and the
//! locations the tools keep their configuration, cache and checkpoints in.
//!
//! Separators are `/`. A path's final component is what follows its last
//! separator once trailing separators and `.` components are dropped; `.` and
//! `..` name no file.

use vstd::prelude::*;
use crate::text::{str_chars, string_from_chars};

verus! {

// ---------------------------------------------------------------- specs

pub open spec fn path_join(base: Seq<char>, name: Seq<char>) -> Seq<char> {
    if name.len() > 0 && name[0] == '/' {
        name
    } else if base.len() == 0 || base.last() == '/' {
        base + name
    } else {
        base + seq!['/'] + name
    }
}

/// Index of the last `c` in `s`.
pub open spec fn last_index(s: Seq<char>, c: char) -> Option<int>
    decreases s.len(),
{
    if s.len() == 0 {
        None
    } else if s.last() == c {
        Some(s.len() - 1)
    } else {
        last_index(s.drop_last(), c)
    }
}

/// `s` without trailing separators and trailing `.` components, which name
/// no component of their own; a lone `/` or `.` is kept.
pub open spec fn trim_slashes(s: Seq<char>) -> Seq<char>
    decreases s.len(),
{
    if s.len() > 1 && (s.last() == '/' || (s.last() == '.' && s[s.len() - 2] == '/')) {
        trim_slashes(s.drop_last())
    } else {
        s
    }
}

pub open spec fn final_component(p: Seq<char>) -> Seq<char> {
    let t = trim_slashes(p);
    match last_index(t, '/') {
        Some(i) => t.subrange(i + 1, t.len() as int),
        None => t,
    }
}

/// The file name a path ends in, if it names one.
pub open spec fn file_name(p: Seq<char>) -> Option<Seq<char>> {
    let n = final_component(p);
    if n.len() == 0 || n == seq!['.'] || n == seq!['.', '.'] {
        None
    } else {
        Some(n)
    }
}

/// The path with its final component removed.
pub open spec fn parent_path(p: Seq<char>) -> Seq<char> {
    let t = trim_slashes(p);
    match last_index(t, '/') {
        Some(i) => if i == 0 {
            seq!['/']
        } else {
            trim_slashes(t.subrange(0, i))
        },
        None => Seq::<char>::empty(),
    }
}

/// A file name without its extension; a leading dot starts no extension.
pub open spec fn stem_of(name: Seq<char>) -> Seq<char> {
    match last_index(name, '.') {
        Some(i) => if i == 0 {
            name
        } else {
            name.take(i)
        },
        None => name,
    }
}

/// `p` with its file name replaced by `name` (or `name` appended when `p`
/// names no file).
pub open spec fn with_file_name(p: Seq<char>, name: Seq<char>) -> Seq<char> {
    if file_name(p) is Some {
        path_join(parent_path(p), name)
    } else {
        path_join(p, name)
    }
}

/// The stem of the file `p` names, empty when it names none.
pub open spec fn path_stem(p: Seq<char>) -> Seq<char> {
    match file_name(p) {
        Some(n) => stem_of(n),
        None => Seq::<char>::empty(),
    }
}

// ---------------------------------------------------------------- exec

pub proof fn lemma_last_index_bounds(s: Seq<char>, c: char)
    ensures
        last_index(s, c) matches Some(i) ==> 0 <= i < s.len() && s[i] == c,
        last_index(s, c) is None ==> forall|j: int| 0 <= j < s.len() ==> #[trigger] s[j] != c,
    decreases s.len(),
{
    if s.len() > 0 && s.last() != c {
        lemma_last_index_bounds(s.drop_last(), c);
        if last_index(s.drop_last(), c) is None {
            assert forall|j: int| 0 <= j < s.len() implies #[trigger] s[j] != c by {
                if j < s.len() - 1 {
                    assert(s[j] == s.drop_last()[j]);
                }
            }
        }
    }
}

pub fn find_last(s: &[char], c: char) -> (r: Option<usize>)
    ensures
        r matches Some(i) ==> last_index(s@, c) == Some(i as int) && i < s@.len() && s@[i as int]
            == c,
        r is None ==> last_index(s@, c) is None,
{
    proof {
        lemma_last_index_bounds(s@, c);
    }
    let mut k: usize = s.len();
    assert(s@.take(k as int) == s@);
    while k > 0
        invariant
            k <= s.len(),
            last_index(s@, c) == last_index(s@.take(k as int), c),
        decreases k,
    {
        let ghost t = s@.take(k as int);
        assert(t.drop_last() == s@.take(k - 1));
        if s[k - 1] == c {
            return Some(k - 1);
        }
        k = k - 1;
    }
    assert(s@.take(0) =~= Seq::<char>::empty());
    None
}

pub proof fn lemma_trim_slashes_prefix(s: Seq<char>)
    ensures
        trim_slashes(s).len() <= s.len(),
        trim_slashes(s) == s.take(trim_slashes(s).len() as int),
        s.len() > 0 ==> trim_slashes(s).len() > 0,
    decreases s.len(),
{
    if s.len() > 1 && (s.last() == '/' || (s.last() == '.' && s[s.len() - 2] == '/')) {
        lemma_trim_slashes_prefix(s.drop_last());
        assert(s.drop_last().take(trim_slashes(s).len() as int) == s.take(
            trim_slashes(s).len() as int,
        ));
    } else {
        assert(s.take(s.len() as int) == s);
    }
}

pub fn trim_trailing_slashes(s: &[char]) -> (t: Vec<char>)
    ensures
        t@ == trim_slashes(s@),
{
    let mut k: usize = s.len();
    assert(s@.take(k as int) == s@);
    while k > 1 && (s[k - 1] == '/' || (s[k - 1] == '.' && s[k - 2] == '/'))
        invariant
            k <= s.len(),
            trim_slashes(s@) == trim_slashes(s@.take(k as int)),
        decreases k,
    {
        assert(s@.take(k as int).drop_last() == s@.take(k - 1));
        k = k - 1;
    }
    let mut t: Vec<char> = Vec::new();
    let mut i: usize = 0;
    while i < k
        invariant
            i <= k <= s.len(),
            t@ == s@.take(i as int),
        decreases k - i,
    {
        t.push(s[i]);
        i = i + 1;
        assert(s@.take(i as int) == s@.take(i - 1).push(s@[i - 1]));
    }
    assert(trim_slashes(s@.take(k as int)) == s@.take(k as int));
    t
}

/// `s[lo..hi]` as a vector.
pub fn sub_chars(s: &[char], lo: usize, hi: usize) -> (t: Vec<char>)
    requires
        lo <= hi <= s.len(),
    ensures
        t@ == s@.subrange(lo as int, hi as int),
{
    let mut t: Vec<char> = Vec::new();
    let mut i: usize = lo;
    while i < hi
        invariant
            lo <= i <= hi <= s.len(),
            t@ == s@.subrange(lo as int, i as int),
        decreases hi - i,
    {
        t.push(s[i]);
        i = i + 1;
        assert(s@.subrange(lo as int, i as int) == s@.subrange(lo as int, i - 1).push(s@[i - 1]));
    }
    t
}

pub fn join_chars(base: &[char], name: &[char]) -> (r: Vec<char>)
    ensures
        r@ == path_join(base@, name@),
{
    if name.len() > 0 && name[0] == '/' {
        return sub_chars(name, 0, name.len());
    }
    let mut r = sub_chars(base, 0, base.len());
    if !(base.len() == 0 || base[base.len() - 1] == '/') {
        r.push('/');
    }
    let mut i: usize = 0;
    let ghost start = r@;
    while i < name.len()
        invariant
            i <= name.len(),
            r@ == start + name@.take(i as int),
        decreases name.len() - i,
    {
        r.push(name[i]);
        i = i + 1;
        assert(name@.take(i as int) == name@.take(i - 1).push(name@[i - 1]));
    }
    assert(name@.take(name.len() as int) == name@);
    assert(base@.subrange(0, base.len() as int) == base@);
    assert(name@.subrange(0, name.len() as int) == name@);
    r
}

/// `base` joined with `name`, as `Path::join` does: an absolute `name` wins.
pub fn join_path(base: &str, name: &str) -> (r: String)
    ensures
        r@ == path_join(base@, name@),
{
    let b = str_chars(base);
    let n = str_chars(name);
    let j = join_chars(b.as_slice(), n.as_slice());
    string_from_chars(j.as_slice())
}

/// The final component of `p` and whether it names a file.
pub fn file_name_chars(p: &[char]) -> (r: Option<Vec<char>>)
    ensures
        r matches Some(v) ==> file_name(p@) == Some(v@),
        r is None ==> file_name(p@) is None,
{
    let t = trim_trailing_slashes(p);
    proof {
        lemma_last_index_bounds(t@, '/');
    }
    let ts = t.as_slice();
    let found = find_last(ts, '/');
    let n = match found {
        Some(i) => {
            assert(i < ts.len());
            sub_chars(ts, i + 1, ts.len())
        },
        None => sub_chars(ts, 0, ts.len()),
    };
    assert(t@.subrange(0, t@.len() as int) == t@);
    assert(n@ == final_component(p@));
    if n.len() == 0 || (n.len() == 1 && n[0] == '.') || (n.len() == 2 && n[0] == '.' && n[1]
        == '.') {
        proof {
            if n@.len() == 1 {
                assert(n@ =~= seq!['.']);
            }
            if n@.len() == 2 {
                assert(n@ =~= seq!['.', '.']);
            }
        }
        None
    } else {
        proof {
            if n@ == seq!['.'] {
                assert(n@.len() == 1 && n@[0] == '.');
            }
            if n@ == seq!['.', '.'] {
                assert(n@.len() == 2 && n@[0] == '.' && n@[1] == '.');
            }
        }
        Some(n)
    }
}

pub fn parent_chars(p: &[char]) -> (r: Vec<char>)
    ensures
        r@ == parent_path(p@),
{
    let t = trim_trailing_slashes(p);
    proof {
        lemma_last_index_bounds(t@, '/');
    }
    match find_last(t.as_slice(), '/') {
        Some(i) => {
            if i == 0 {
                let mut r = Vec::new();
                r.push('/');
                assert(r@ =~= seq!['/']);
                r
            } else {
                let q = sub_chars(t.as_slice(), 0, i);
                trim_trailing_slashes(q.as_slice())
            }
        },
        None => Vec::new(),
    }
}

pub fn stem_chars(name: &[char]) -> (r: Vec<char>)
    ensures
        r@ == stem_of(name@),
{
    proof {
        lemma_last_index_bounds(name@, '.');
    }
    match find_last(name, '.') {
        Some(i) => if i == 0 {
            sub_chars(name, 0, name.len())
        } else {
            sub_chars(name, 0, i)
        },
        None => sub_chars(name, 0, name.len()),
    }
}

pub fn with_file_name_chars(p: &[char], name: &[char]) -> (r: Vec<char>)
    ensures
        r@ == with_file_name(p@, name@),
{
    match file_name_chars(p) {
        Some(_) => {
            let parent = parent_chars(p);
            join_chars(parent.as_slice(), name)
        },
        None => join_chars(p, name),
    }
}

pub fn stem_of_path(p: &[char]) -> (r: Vec<char>)
    ensures
        r@ == path_stem(p@),
{
    match file_name_chars(p) {
        Some(n) => stem_chars(n.as_slice()),
        None => Vec::new(),
    }
}

} // verus!

verus! {

/// The final component of `p`, empty for the root or an empty path.
pub fn final_component_of(p: &[char]) -> (r: Vec<char>)
    ensures
        r@ == final_component(p@),
{
    let t = trim_trailing_slashes(p);
    let ts = t.as_slice();
    match find_last(ts, '/') {
        Some(i) => {
            assert(i < ts.len());
            sub_chars(ts, i + 1, ts.len())
        },
        None => {
            assert(ts@.subrange(0, ts@.len() as int) == ts@);
            sub_chars(ts, 0, ts.len())
        },
    }
}


/// The extension of the file `p` names: what follows the last `.` of its
/// name, when that dot does not begin the name.
pub open spec fn path_extension(p: Seq<char>) -> Option<Seq<char>> {
    match file_name(p) {
        Some(n) => match last_index(n, '.') {
            Some(i) => if i == 0 {
                None
            } else {
                Some(n.subrange(i + 1, n.len() as int))
            },
            None => None,
        },
        None => None,
    }
}

/// The extension of the file `p` names, if it has one.
pub fn extension_of(p: &str) -> (r: Option<String>)
    ensures
        match (r, path_extension(p@)) {
            (Some(a), Some(b)) => a@ == b,
            (None, None) => true,
            _ => false,
        },
{
    let cs = str_chars(p);
    match file_name_chars(cs.as_slice()) {
        Some(n) => {
            proof {
                lemma_last_index_bounds(n@, '.');
            }
            match find_last(n.as_slice(), '.') {
                Some(i) => if i == 0 {
                    None
                } else {
                    assert(i < n.len());
                    let e = sub_chars(n.as_slice(), i + 1, n.len());
                    Some(string_from_chars(e.as_slice()))
                },
                None => None,
            }
        },
        None => None,
    }
}

/// Whether the file `p` names has the extension `mp4`.
pub fn has_mp4_extension(p: &str) -> (b: bool)
    ensures
        b == (path_extension(p@) == Some("mp4"@)),
{
    match extension_of(p) {
        Some(e) => {
            let a = str_chars(e.as_str());
            let m = str_chars("mp4");
            crate::text::chars_eq(a.as_slice(), m.as_slice())
        },
        None => false,
    }
}

} // verus!
