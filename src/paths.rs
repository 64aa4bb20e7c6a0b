//! Naming of the file that receives a minified file.
use vstd::prelude::*;
use crate::text::{chars_of, string_of};

verus! {

/// The position of the last `c` in `s`, or `-1` when there is none.
pub open spec fn last_index_of(s: Seq<char>, c: char) -> int
    decreases s.len(),
{
    if s.len() == 0 {
        -1
    } else if s.last() == c {
        s.len() - 1
    } else {
        last_index_of(s.drop_last(), c)
    }
}

/// The path of the minified file for `path`: `_minified` inserted before the
/// last `.`; none when `path` has no `.`.
pub open spec fn minified_path_of(path: Seq<char>) -> Option<Seq<char>> {
    let k = last_index_of(path, '.');
    if k < 0 {
        None
    } else {
        Some(path.take(k) + "_minified"@ + path.skip(k))
    }
}

proof fn lemma_last_index_bounds(s: Seq<char>, c: char)
    ensures
        -1 <= last_index_of(s, c) < s.len(),
        last_index_of(s, c) >= 0 ==> s[last_index_of(s, c)] == c,
    decreases s.len(),
{
    if s.len() > 0 {
        lemma_last_index_bounds(s.drop_last(), c);
    }
}

/// The path of the minified file for `path`, `file.sql` giving
/// `file_minified.sql`; none when `path` has no `.`.
pub fn minified_path(path: &str) -> (r: Option<String>)
    ensures
        r is Some <==> minified_path_of(path@) is Some,
        r is Some ==> r->Some_0@ == minified_path_of(path@)->Some_0,
{
    let p = chars_of(path);
    let mut i: usize = p.len();
    proof {
        assert(p@.take(i as int) =~= p@);
    }
    while i > 0 && p[i - 1] != '.'
        invariant
            i <= p.len(),
            last_index_of(p@, '.') == last_index_of(p@.take(i as int), '.'),
        decreases i,
    {
        proof {
            assert(p@.take(i as int).drop_last() =~= p@.take(i - 1));
        }
        i = i - 1;
    }
    proof {
        lemma_last_index_bounds(p@, '.');
        if i == 0 {
            assert(p@.take(0) =~= Seq::<char>::empty());
        } else {
            assert(p@.take(i as int).last() == p@[i - 1]);
        }
    }
    if i == 0 {
        return None;
    }
    let k = i - 1;
    let suffix = chars_of("_minified");
    let mut out: Vec<char> = Vec::new();
    let mut j: usize = 0;
    while j < k
        invariant
            j <= k,
            k < p.len(),
            out@ == p@.take(j as int),
        decreases k - j,
    {
        out.push(p[j]);
        proof {
            assert(out@ =~= p@.take(j as int + 1));
        }
        j = j + 1;
    }
    let mut m: usize = 0;
    while m < suffix.len()
        invariant
            m <= suffix.len(),
            out@ == p@.take(k as int) + suffix@.take(m as int),
        decreases suffix.len() - m,
    {
        out.push(suffix[m]);
        proof {
            assert(out@ =~= p@.take(k as int) + suffix@.take(m as int + 1));
        }
        m = m + 1;
    }
    proof {
        assert(suffix@.take(m as int) =~= suffix@);
    }
    let mut n: usize = k;
    while n < p.len()
        invariant
            k <= n <= p.len(),
            out@ == p@.take(k as int) + suffix@ + p@.subrange(k as int, n as int),
        decreases p.len() - n,
    {
        out.push(p[n]);
        proof {
            assert(out@ =~= p@.take(k as int) + suffix@ + p@.subrange(k as int, n + 1));
        }
        n = n + 1;
    }
    proof {
        assert(p@.subrange(k as int, n as int) =~= p@.skip(k as int));
    }
    Some(string_of(&out))
}

} // verus!
