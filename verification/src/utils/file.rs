//! File names: their extension and stem as `std::path::Path` reads them,
//! whether a file is a spreadsheet, and the name of a derived file.
use vstd::prelude::*;
use crate::utils::text::{chars_of, push_char, string_from_chars};

verus! {

/// The position of the last `.` in `name`, if any.
pub open spec fn last_dot(name: Seq<char>) -> Option<int>
    decreases name.len(),
{
    if name.len() == 0 {
        None
    } else if name.last() == '.' {
        Some(name.len() - 1)
    } else {
        last_dot(name.drop_last())
    }
}

/// The name `..`, which has no extension.
pub open spec fn is_parent_name(name: Seq<char>) -> bool {
    name == seq!['.', '.']
}

/// The extension of a file name, as `Path::extension` gives it: the part
/// after the last `.`, but none when there is no `.`, or when the only one
/// starts the name.
pub open spec fn extension_of(name: Seq<char>) -> Option<Seq<char>> {
    if is_parent_name(name) {
        None
    } else {
        match last_dot(name) {
            Some(k) => if k > 0 { Some(name.subrange(k + 1, name.len() as int)) } else { None },
            None => None,
        }
    }
}

/// The stem of a file name, as `Path::file_stem` gives it: the part before
/// the last `.`, or the whole name when it has no extension.
pub open spec fn stem_of(name: Seq<char>) -> Seq<char> {
    if is_parent_name(name) {
        name
    } else {
        match last_dot(name) {
            Some(k) => if k > 0 { name.subrange(0, k) } else { name },
            None => name,
        }
    }
}

/// The name of a file derived from `name`: `suffix` after its stem, then
/// its extension. As `Path::with_extension` does, the extension takes the
/// place of any extension that the stem and suffix form.
pub open spec fn new_file_name(name: Seq<char>, suffix: Seq<char>) -> Seq<char> {
    let n = stem_of(name) + suffix;
    match extension_of(name) {
        None => n,
        Some(e) => stem_of(n) + if e.len() > 0 { seq!['.'] + e } else { seq![] },
    }
}

fn last_dot_of(v: &Vec<char>) -> (r: Option<usize>)
    ensures
        (r is Some) == (last_dot(v@) is Some),
        r matches Some(k) ==> last_dot(v@) == Some(k as int) && k < v@.len(),
{
    proof {
        lemma_last_dot_bound(v@);
    }
    let mut i = v.len();
    assert(v@.take(i as int) =~= v@);
    while i > 0
        invariant
            i <= v@.len(),
            last_dot(v@) == last_dot(v@.take(i as int)),
        decreases i,
    {
        assert(v@.take(i as int).drop_last() =~= v@.take(i - 1));
        assert(v@.take(i as int).last() == v@[i - 1]);
        if v[i - 1] == '.' {
            return Some(i - 1);
        }
        i -= 1;
    }
    assert(v@.take(0) =~= Seq::<char>::empty());
    None
}

proof fn lemma_last_dot_bound(name: Seq<char>)
    ensures
        last_dot(name) matches Some(k) ==> 0 <= k < name.len() && name[k] == '.',
    decreases name.len(),
{
    if name.len() > 0 && name.last() != '.' {
        lemma_last_dot_bound(name.drop_last());
    }
}

fn is_parent(v: &Vec<char>) -> (b: bool)
    ensures
        b == is_parent_name(v@),
{
    let r = v.len() == 2 && v[0] == '.' && v[1] == '.';
    proof {
        if v@.len() == 2 && v@[0] == '.' && v@[1] == '.' {
            assert(v@ =~= seq!['.', '.']);
        }
    }
    r
}

/// The extension of `v`, or `None`.
fn extension_chars(v: &Vec<char>) -> (r: Option<(usize, usize)>)
    ensures
        match extension_of(v@) {
            Some(e) => r matches Some((from, to)) && from <= to == v@.len() && v@.subrange(from as int, to as int) == e,
            None => r is None,
        },
{
    proof {
        lemma_last_dot_bound(v@);
    }
    let len = v.len();
    if is_parent(v) {
        return None;
    }
    match last_dot_of(v) {
        Some(k) => if k > 0 { Some((k + 1, len)) } else { None },
        None => None,
    }
}

/// The stem of `v`, as the end of its first part.
fn stem_end(v: &Vec<char>) -> (r: usize)
    ensures
        r <= v@.len(),
        v@.subrange(0, r as int) == stem_of(v@),
{
    proof {
        lemma_last_dot_bound(v@);
    }
    if is_parent(v) {
        assert(v@.subrange(0, v@.len() as int) =~= v@);
        return v.len();
    }
    match last_dot_of(v) {
        Some(k) => if k > 0 {
            k
        } else {
            assert(v@.subrange(0, v@.len() as int) =~= v@);
            v.len()
        },
        None => {
            assert(v@.subrange(0, v@.len() as int) =~= v@);
            v.len()
        },
    }
}

/// Whether the file name has the extension of a spreadsheet, `xlsx` or
/// `xls`.
pub fn is_excel(file_name: &str) -> (b: bool)
    ensures
        b == (extension_of(file_name@) == Some(seq!['x', 'l', 's', 'x'])
            || extension_of(file_name@) == Some(seq!['x', 'l', 's'])),
{
    let v = chars_of(file_name);
    match extension_chars(&v) {
        None => false,
        Some((from, to)) => {
            let n = to - from;
            let four = n == 4 && v[from] == 'x' && v[from + 1] == 'l' && v[from + 2] == 's' && v[from + 3] == 'x';
            let three = n == 3 && v[from] == 'x' && v[from + 1] == 'l' && v[from + 2] == 's';
            let ghost e = v@.subrange(from as int, to as int);
            assert(extension_of(v@) == Some(e));
            proof {
                if four {
                    assert(e =~= seq!['x', 'l', 's', 'x']);
                }
                if three {
                    assert(e =~= seq!['x', 'l', 's']);
                }
                if e == seq!['x', 'l', 's', 'x'] {
                    assert(e.len() == 4);
                    assert(e[0] == v@[from as int] && e[1] == v@[from + 1] && e[2] == v@[from + 2] && e[3] == v@[from + 3]);
                    assert(four);
                }
                if e == seq!['x', 'l', 's'] {
                    assert(e.len() == 3);
                    assert(e[0] == v@[from as int] && e[1] == v@[from + 1] && e[2] == v@[from + 2]);
                    assert(three);
                }
                assert(!(four && three));
            }
            four || three
        },
    }
}

/// The name of a file derived from the file name `name`, as `new_file_name`
/// says; for a file's own name (never `.` or `..`) this is the name that
/// `Path::with_file_name` and then `Path::with_extension` give.
pub fn new_path(name: &str, suffix: &str) -> (r: String)
    ensures
        r@ == new_file_name(name@, suffix@),
{
    let v = chars_of(name);
    let s = chars_of(suffix);
    let mut n: Vec<char> = Vec::new();
    let k = stem_end(&v);
    let mut i: usize = 0;
    while i < k
        invariant
            i <= k <= v@.len(),
            n@ == v@.subrange(0, i as int),
        decreases k - i,
    {
        n.push(v[i]);
        i += 1;
    }
    let mut j: usize = 0;
    while j < s.len()
        invariant
            j <= s@.len(),
            n@ == stem_of(v@) + s@.subrange(0, j as int),
        decreases s@.len() - j,
    {
        n.push(s[j]);
        j += 1;
    }
    assert(s@.subrange(0, s@.len() as int) =~= s@);
    match extension_chars(&v) {
        None => string_from_chars(&n, 0, n.len()),
        Some((from, to)) => {
            let m = stem_end(&n);
            let mut r = string_from_chars(&n, 0, m);
            if from < to {
                push_char(&mut r, '.');
                let mut t = from;
                while t < to
                    invariant
                        from <= t <= to == v@.len(),
                        r@ == stem_of(n@) + seq!['.'] + v@.subrange(from as int, t as int),
                    decreases to - t,
                {
                    push_char(&mut r, v[t]);
                    t += 1;
                }
            }
            proof {
                assert(n@.subrange(0, n@.len() as int) =~= n@);
            }
            r
        },
    }
}

} // verus!
