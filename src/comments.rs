//! Removal of block comments (`/* ... */`, nesting) and of line comments
//! (`--` up to the end of the line).
use vstd::prelude::*;
use crate::text::{chars_of, string_of};

verus! {

/// The state of the block-comment scanner after some prefix of the text:
/// the nesting depth, the previous character (`'\0'` right after a
/// delimiter was consumed) and the text kept so far.
pub struct BlockScan {
    pub depth: nat,
    pub last: char,
    pub kept: Seq<char>,
}

/// One step of the block-comment scanner on character `c`.
///
/// A `*/` closes a comment only when one is open; a `/*` opens one at any
/// depth. Outside comments a `/` is held back until the next character shows
/// that it does not start an opener; it is then emitted.
pub open spec fn block_step(st: BlockScan, c: char) -> BlockScan {
    if st.depth > 0 && st.last == '*' && c == '/' {
        BlockScan { depth: (st.depth - 1) as nat, last: '\0', kept: st.kept }
    } else if st.last == '/' && c == '*' {
        BlockScan { depth: st.depth + 1, last: '\0', kept: st.kept }
    } else if st.depth == 0 {
        let kept = if st.last == '/' { st.kept.push('/') } else { st.kept };
        BlockScan { depth: 0, last: c, kept: if c == '/' { kept } else { kept.push(c) } }
    } else {
        BlockScan { depth: st.depth, last: c, kept: st.kept }
    }
}

/// The scanner's state after reading all of `s`.
pub open spec fn block_scan(s: Seq<char>) -> BlockScan
    decreases s.len(),
{
    if s.len() == 0 {
        BlockScan { depth: 0, last: '\0', kept: Seq::empty() }
    } else {
        block_step(block_scan(s.drop_last()), s.last())
    }
}

/// The text kept by scanner state `st`, with a `/` it still holds outside
/// comments emitted.
pub open spec fn flushed(st: BlockScan) -> Seq<char> {
    if st.depth == 0 && st.last == '/' { st.kept.push('/') } else { st.kept }
}

/// `s` without its block comments. Text after an opener that is never
/// closed is dropped; every `/` that opens no comment is kept.
pub open spec fn without_block_comments(s: Seq<char>) -> Seq<char> {
    flushed(block_scan(s))
}

/// Removes every block comment of `s`, counting nested openers.
pub fn remove_multiline_comments(sql_content: &str) -> (r: String)
    ensures
        r@ == without_block_comments(sql_content@),
{
    let s = chars_of(sql_content);
    let mut out: Vec<char> = Vec::new();
    let mut last: char = '\0';
    let mut depth: usize = 0;
    let mut i: usize = 0;
    while i < s.len()
        invariant
            i <= s.len(),
            depth <= i,
            block_scan(s@.take(i as int)) == (BlockScan { depth: depth as nat, last, kept: out@ }),
        decreases s.len() - i,
    {
        let c = s[i];
        proof {
            assert(s@.take(i as int + 1).drop_last() =~= s@.take(i as int));
        }
        if depth > 0 && last == '*' && c == '/' {
            depth = depth - 1;
            last = '\0';
        } else if last == '/' && c == '*' {
            depth = depth + 1;
            last = '\0';
        } else if depth == 0 {
            if last == '/' {
                out.push('/');
            }
            if c != '/' {
                out.push(c);
            }
            last = c;
        } else {
            last = c;
        }
        i = i + 1;
    }
    proof {
        assert(s@.take(i as int) =~= s@);
    }
    if depth == 0 && last == '/' {
        out.push('/');
    }
    string_of(&out)
}

/// The lines of a text, as `str::lines` gives them: split at each `\n`, a
/// `\r` right before the `\n` is dropped, and a last line is there only when
/// it is not empty.
pub open spec fn lines_of(s: Seq<char>) -> Seq<Seq<char>> {
    let st = line_scan(s);
    if st.1.len() > 0 { st.0.push(st.1) } else { st.0 }
}

/// The line without a trailing `\r`.
pub open spec fn chomp_cr(l: Seq<char>) -> Seq<char> {
    if l.len() > 0 && l.last() == '\r' { l.drop_last() } else { l }
}

/// The finished lines and the line in progress after reading `s`.
pub open spec fn line_scan(s: Seq<char>) -> (Seq<Seq<char>>, Seq<char>)
    decreases s.len(),
{
    if s.len() == 0 {
        (Seq::empty(), Seq::empty())
    } else {
        let st = line_scan(s.drop_last());
        if s.last() == '\n' {
            (st.0.push(chomp_cr(st.1)), Seq::empty())
        } else {
            (st.0, st.1.push(s.last()))
        }
    }
}

/// Splits `s` into its lines.
pub fn split_lines(s: &Vec<char>) -> (r: Vec<Vec<char>>)
    ensures
        r.len() == lines_of(s@).len(),
        forall|k: int| 0 <= k < r.len() ==> #[trigger] r[k]@ == lines_of(s@)[k],
{
    let mut done: Vec<Vec<char>> = Vec::new();
    let mut cur: Vec<char> = Vec::new();
    let mut i: usize = 0;
    while i < s.len()
        invariant
            i <= s.len(),
            line_scan(s@.take(i as int)).1 == cur@,
            line_scan(s@.take(i as int)).0.len() == done.len(),
            forall|k: int| 0 <= k < done.len() ==> #[trigger] done[k]@ == line_scan(s@.take(i as int)).0[k],
        decreases s.len() - i,
    {
        let c = s[i];
        proof {
            assert(s@.take(i as int + 1).drop_last() =~= s@.take(i as int));
        }
        if c == '\n' {
            if cur.len() > 0 && cur[cur.len() - 1] == '\r' {
                cur.pop();
            }
            done.push(cur);
            cur = Vec::new();
        } else {
            cur.push(c);
        }
        i = i + 1;
    }
    proof {
        assert(s@.take(i as int) =~= s@);
    }
    if cur.len() > 0 {
        done.push(cur);
    }
    done
}

/// The part of a line before its first `--`.
pub open spec fn before_dashes(l: Seq<char>) -> Seq<char>
    decreases l.len(),
{
    if l.len() < 2 {
        l
    } else if l[0] == '-' && l[1] == '-' {
        Seq::empty()
    } else {
        seq![l[0]] + before_dashes(l.drop_first())
    }
}

/// Each line of `ls` cut at its first `--` and followed by one space.
pub open spec fn cut_lines(ls: Seq<Seq<char>>) -> Seq<char>
    decreases ls.len(),
{
    if ls.len() == 0 {
        Seq::empty()
    } else {
        cut_lines(ls.drop_last()) + before_dashes(ls.last()) + seq![' ']
    }
}

/// `s` without its line comments: every line cut at its first `--`, each
/// followed by one space.
pub open spec fn without_line_comments(s: Seq<char>) -> Seq<char> {
    cut_lines(lines_of(s))
}

/// Appends to `out` the part of `l` before its first `--`.
fn push_before_dashes(out: &mut Vec<char>, l: &Vec<char>)
    ensures
        final(out)@ == old(out)@ + before_dashes(l@),
{
    let mut j: usize = 0;
    proof {
        assert(l@.skip(0) =~= l@);
    }
    while j < l.len()
        invariant
            j <= l.len(),
            old(out)@ + before_dashes(l@) == out@ + before_dashes(l@.skip(j as int)),
        decreases l.len() - j,
    {
        let rest = Ghost(l@.skip(j as int));
        if j + 1 < l.len() && l[j] == '-' && l[j + 1] == '-' {
            proof {
                assert(out@ + before_dashes(rest@) =~= out@);
            }
            return;
        }
        out.push(l[j]);
        proof {
            assert(rest@.drop_first() =~= l@.skip(j as int + 1));
            if rest@.len() < 2 {
                assert(l@.skip(j as int + 1) =~= Seq::<char>::empty());
                assert(before_dashes(rest@) =~= seq![l@[j as int]] + before_dashes(l@.skip(j as int + 1)));
            }
            assert(out@ + before_dashes(l@.skip(j as int + 1)) =~= old(out)@ + before_dashes(l@));
        }
        j = j + 1;
    }
    proof {
        assert(out@ + before_dashes(l@.skip(j as int)) =~= out@);
    }
}

/// Removes every line comment of `s` and ends each line with one space.
pub fn remove_single_line_comments(document: &str) -> (r: String)
    ensures
        r@ == without_line_comments(document@),
{
    let ls = split_lines(&chars_of(document));
    let ghost gl = lines_of(document@);
    let mut out: Vec<char> = Vec::new();
    let mut k: usize = 0;
    while k < ls.len()
        invariant
            k <= ls.len(),
            ls.len() == gl.len(),
            forall|m: int| 0 <= m < ls.len() ==> #[trigger] ls[m]@ == gl[m],
            out@ == cut_lines(gl.take(k as int)),
        decreases ls.len() - k,
    {
        push_before_dashes(&mut out, &ls[k]);
        out.push(' ');
        proof {
            assert(gl.take(k as int + 1).drop_last() =~= gl.take(k as int));
        }
        k = k + 1;
    }
    proof {
        assert(gl.take(k as int) =~= gl);
    }
    string_of(&out)
}

/// `pat` occurs nowhere in `s`.
pub open spec fn occurs_nowhere(s: Seq<char>, pat: Seq<char>) -> bool {
    forall|i: int| 0 <= i && i + pat.len() <= s.len() ==> #[trigger] s.subrange(i, i + pat.len()) != pat
}

proof fn lemma_line_scan_one_line(s: Seq<char>)
    requires
        !s.contains('\n'),
    ensures
        line_scan(s) == (Seq::<Seq<char>>::empty(), s),
    decreases s.len(),
{
    if s.len() > 0 {
        let u = s.drop_last();
        assert(!u.contains('\n')) by {
            if u.contains('\n') {
                let k = choose|k: int| 0 <= k < u.len() && u[k] == '\n';
                assert(s[k] == '\n');
            }
        }
        lemma_line_scan_one_line(u);
        assert(s[s.len() - 1] != '\n');
        assert(u.push(s.last()) =~= s);
    }
}

proof fn lemma_before_dashes_plain(l: Seq<char>)
    requires
        occurs_nowhere(l, seq!['-', '-']),
    ensures
        before_dashes(l) == l,
    decreases l.len(),
{
    if l.len() >= 2 {
        let z: int = 0;
        assert(l.subrange(z, z + 2) =~= seq![l[0], l[1]]);
        let u = l.drop_first();
        let dd = seq!['-', '-'];
        assert forall|i: int| 0 <= i && i + 2 <= u.len() implies #[trigger] u.subrange(i, i + 2) != seq!['-', '-'] by {
            let j = i + 1;
            assert(u.subrange(i, i + 2) =~= l.subrange(j, j + dd.len()));
        }
        lemma_before_dashes_plain(u);
        assert(seq![l[0]] + u =~= l);
    }
}

/// A single line without `--` loses no text to line-comment removal; it
/// only gains the space that ends it.
pub proof fn lemma_no_line_comment(s: Seq<char>)
    requires
        !s.contains('\n'),
        occurs_nowhere(s, seq!['-', '-']),
    ensures
        without_line_comments(s) == (if s.len() > 0 { s + seq![' '] } else { s }),
{
    lemma_line_scan_one_line(s);
    lemma_before_dashes_plain(s);
    if s.len() > 0 {
        let ls = seq![s];
        assert(lines_of(s) == ls);
        assert(ls.drop_last() =~= Seq::<Seq<char>>::empty());
        assert(ls.last() == s);
        assert(cut_lines(ls.drop_last()) == Seq::<char>::empty());
        assert(cut_lines(ls) =~= s + seq![' ']);
    } else {
        assert(lines_of(s) =~= Seq::<Seq<char>>::empty());
    }
}

/// One step of the line splitter.
pub open spec fn line_step(st: (Seq<Seq<char>>, Seq<char>), c: char) -> (Seq<Seq<char>>, Seq<char>) {
    if c == '\n' {
        (st.0.push(chomp_cr(st.1)), Seq::empty())
    } else {
        (st.0, st.1.push(c))
    }
}

/// The line splitter's state after reading `q` from state `st`.
pub open spec fn line_steps(st: (Seq<Seq<char>>, Seq<char>), q: Seq<char>) -> (Seq<Seq<char>>, Seq<char>)
    decreases q.len(),
{
    if q.len() == 0 {
        st
    } else {
        line_step(line_steps(st, q.drop_last()), q.last())
    }
}

proof fn lemma_line_scan_concat(a: Seq<char>, q: Seq<char>)
    ensures
        line_scan(a + q) == line_steps(line_scan(a), q),
    decreases q.len(),
{
    if q.len() == 0 {
        assert(a + q =~= a);
    } else {
        lemma_line_scan_concat(a, q.drop_last());
        assert((a + q).drop_last() =~= a + q.drop_last());
        assert((a + q).last() == q.last());
    }
}

/// The finished lines only grow at the end: reading `q` from `(d, c)` adds
/// to `d` what reading it from `([], c)` finishes.
proof fn lemma_line_steps_append(d: Seq<Seq<char>>, c: Seq<char>, q: Seq<char>)
    ensures
        line_steps((d, c), q).0 == d + line_steps((Seq::empty(), c), q).0,
        line_steps((d, c), q).1 == line_steps((Seq::empty(), c), q).1,
    decreases q.len(),
{
    if q.len() > 0 {
        lemma_line_steps_append(d, c, q.drop_last());
        let e = line_steps((Seq::<Seq<char>>::empty(), c), q.drop_last()).0;
        if q.last() == '\n' {
            let x = chomp_cr(line_steps((Seq::<Seq<char>>::empty(), c), q.drop_last()).1);
            assert((d + e).push(x) =~= d + e.push(x));
        }
    }
}

/// Text without a line break only extends the line in progress.
proof fn lemma_line_steps_no_break(st: (Seq<Seq<char>>, Seq<char>), w: Seq<char>)
    requires
        !w.contains('\n'),
    ensures
        line_steps(st, w) == (st.0, st.1 + w),
    decreases w.len(),
{
    if w.len() == 0 {
        assert(st.1 + w =~= st.1);
    } else {
        let u = w.drop_last();
        assert(!u.contains('\n')) by {
            if u.contains('\n') {
                let k = choose|k: int| 0 <= k < u.len() && u[k] == '\n';
                assert(w[k] == '\n');
            }
        }
        lemma_line_steps_no_break(st, u);
        assert(w.last() == w[w.len() - 1]);
        assert((st.1 + u).push(w.last()) =~= st.1 + w);
    }
}

proof fn lemma_cut_lines_concat(a: Seq<Seq<char>>, b: Seq<Seq<char>>)
    ensures
        cut_lines(a + b) == cut_lines(a) + cut_lines(b),
    decreases b.len(),
{
    if b.len() == 0 {
        assert(a + b =~= a);
        assert(cut_lines(a) + cut_lines(b) =~= cut_lines(a));
    } else {
        lemma_cut_lines_concat(a, b.drop_last());
        assert((a + b).drop_last() =~= a + b.drop_last());
        assert((a + b).last() == b.last());
        assert(cut_lines(a + b) =~= cut_lines(a) + cut_lines(b));
    }
}

/// The part of `u + "--" + v` before its first `--` is `u`, when `u` holds
/// no `--` and does not end with `-`.
proof fn lemma_before_added_dashes(u: Seq<char>, v: Seq<char>)
    requires
        occurs_nowhere(u, seq!['-', '-']),
        !(u.len() > 0 && u.last() == '-'),
    ensures
        before_dashes(u + seq!['-', '-'] + v) == u,
    decreases u.len(),
{
    let l = u + seq!['-', '-'] + v;
    if u.len() == 0 {
        assert(l[0] == '-' && l[1] == '-');
    } else {
        if u.len() == 1 {
            assert(l[1] == '-');
            assert(u.last() == u[0]);
        } else {
            let z: int = 0;
            let dd = seq!['-', '-'];
            assert(u.subrange(z, z + dd.len()) =~= seq![u[0], u[1]]);
        }
        let w = u.drop_first();
        let dd = seq!['-', '-'];
        assert forall|i: int| 0 <= i && i + 2 <= w.len() implies #[trigger] w.subrange(i, i + 2) != seq!['-', '-'] by {
            let j = i + 1;
            assert(w.subrange(i, i + 2) =~= u.subrange(j, j + dd.len()));
        }
        if w.len() > 0 {
            assert(w.last() == u.last());
        }
        lemma_before_added_dashes(w, v);
        assert(l.drop_first() =~= w + seq!['-', '-'] + v);
        assert(seq![u[0]] + w =~= u);
    }
}

/// Comment transparency for line comments: appending `--` and a comment
/// text at the end of a line that holds no `--` and does not end with `-`
/// or `\r` leaves the text without line comments as it was.
pub proof fn lemma_line_comment_transparent(p: Seq<char>, b: Seq<char>, q: Seq<char>)
    requires
        !b.contains('\n'),
        q.len() > 0,
        q[0] == '\n',
        occurs_nowhere(line_scan(p).1, seq!['-', '-']),
        !(p.len() > 0 && (p.last() == '-' || p.last() == '\r')),
    ensures
        without_line_comments(p + seq!['-', '-'] + b + q) == without_line_comments(p + q),
{
    let st = line_scan(p);
    let cur = st.1;
    let w = seq!['-', '-'] + b;
    assert(!w.contains('\n')) by {
        if w.contains('\n') {
            let k = choose|k: int| 0 <= k < w.len() && w[k] == '\n';
            assert(b[k - 2] == '\n');
        }
    }
    lemma_line_scan_concat(p, w);
    lemma_line_steps_no_break(st, w);
    let x = cur + w;
    lemma_line_scan_tail(p);
    let q1 = q.drop_first();
    let lhs = p + seq!['-', '-'] + b + q;
    let rhs = p + q;
    let pl = p + w + seq!['\n'];
    let pr = p + seq!['\n'];
    assert(lhs =~= pl + q1);
    assert(rhs =~= pr + q1);
    assert(pl.drop_last() =~= p + w);
    assert(pr.drop_last() =~= p);
    let xl = chomp_cr(x);
    assert(line_scan(pl) == (st.0.push(xl), Seq::<char>::empty()));
    assert(line_scan(pr) == (st.0.push(chomp_cr(cur)), Seq::<char>::empty()));
    assert(chomp_cr(cur) == cur);
    let v = if b.len() > 0 && b.last() == '\r' { b.drop_last() } else { b };
    assert(xl =~= cur + seq!['-', '-'] + v) by {
        if b.len() > 0 {
            assert(x.last() == b.last());
            if b.last() == '\r' {
                assert(x.drop_last() =~= cur + seq!['-', '-'] + b.drop_last());
            }
        } else {
            assert(x.last() == '-');
        }
        assert(cur + w =~= cur + seq!['-', '-'] + b);
    }
    lemma_before_added_dashes(cur, v);
    lemma_before_dashes_plain(cur);
    lemma_line_scan_concat(pl, q1);
    lemma_line_scan_concat(pr, q1);
    let e = Seq::<char>::empty();
    lemma_line_steps_append(st.0.push(xl), e, q1);
    lemma_line_steps_append(st.0.push(cur), e, q1);
    let fin = line_steps((Seq::<Seq<char>>::empty(), e), q1);
    let tail = if fin.1.len() > 0 { fin.0.push(fin.1) } else { fin.0 };
    assert(lines_of(lhs) =~= st.0.push(xl) + tail);
    assert(lines_of(rhs) =~= st.0.push(cur) + tail);
    lemma_cut_lines_concat(st.0.push(xl), tail);
    lemma_cut_lines_concat(st.0.push(cur), tail);
    assert(st.0.push(xl).drop_last() =~= st.0);
    assert(st.0.push(cur).drop_last() =~= st.0);
}

/// The line in progress ends with the last character read, unless that was
/// a line break.
proof fn lemma_line_scan_tail(p: Seq<char>)
    ensures
        line_scan(p).1.len() > 0 ==> p.len() > 0 && line_scan(p).1.last() == p.last(),
    decreases p.len(),
{
    if p.len() > 0 {
        lemma_line_scan_tail(p.drop_last());
    }
}

/// The block-comment opener `/*`.
pub open spec fn opener() -> Seq<char> {
    seq!['/', '*']
}

/// The block-comment closer `*/`.
pub open spec fn closer() -> Seq<char> {
    seq!['*', '/']
}

/// The scanner's previous character is `'\0'` or the last character read.
proof fn lemma_block_last(s: Seq<char>)
    ensures
        block_scan(s).last == '\0' || (s.len() > 0 && block_scan(s).last == s.last()),
    decreases s.len(),
{
    if s.len() > 0 {
        lemma_block_last(s.drop_last());
    }
}

/// After a delimiter outside comments the scanner starts afresh: what
/// follows is scanned as on its own, after the text kept so far.
proof fn lemma_scan_after_fresh(a: Seq<char>, q: Seq<char>)
    requires
        block_scan(a).depth == 0,
        block_scan(a).last == '\0',
    ensures
        block_scan(a + q) == (BlockScan {
            depth: block_scan(q).depth,
            last: block_scan(q).last,
            kept: block_scan(a).kept + block_scan(q).kept,
        }),
    decreases q.len(),
{
    let k = block_scan(a).kept;
    if q.len() == 0 {
        assert(a + q =~= a);
        assert(k + block_scan(q).kept =~= k);
    } else {
        let u = q.drop_last();
        lemma_scan_after_fresh(a, u);
        assert((a + q).drop_last() =~= a + u);
        assert((a + q).last() == q.last());
        let st = block_scan(u);
        assert((k + st.kept).push('/') =~= k + st.kept.push('/'));
        assert((k + st.kept).push('/').push(q.last()) =~= k + st.kept.push('/').push(q.last()));
        assert((k + st.kept).push(q.last()) =~= k + st.kept.push(q.last()));
    }
}

/// Reading `/*` raises the depth by one and keeps what was kept, with a held
/// `/` emitted, unless its `/` closes an open comment.
proof fn lemma_opener_step(p: Seq<char>)
    requires
        !(block_scan(p).depth > 0 && block_scan(p).last == '*'),
    ensures
        block_scan(p + opener()).depth == block_scan(p).depth + 1,
        block_scan(p + opener()).kept == flushed(block_scan(p)),
        block_scan(p + opener()).last == '\0',
{
    let q = p + opener();
    assert((p + seq!['/']).drop_last() =~= p);
    assert(q.drop_last() =~= p + seq!['/']);
    assert(block_scan(p + seq!['/']) == block_step(block_scan(p), '/'));
    assert(block_scan(q) == block_step(block_scan(p + seq!['/']), '*'));
}

/// Text without `/*` leaves no comment open.
pub proof fn lemma_no_opener_no_depth(p: Seq<char>)
    requires
        occurs_nowhere(p, opener()),
    ensures
        block_scan(p).depth == 0,
    decreases p.len(),
{
    if p.len() > 0 {
        let u = p.drop_last();
        assert forall|i: int| 0 <= i && i + 2 <= u.len() implies #[trigger] u.subrange(i, i + 2) != opener() by {
            assert(u.subrange(i, i + 2) =~= p.subrange(i, i + 2));
        }
        lemma_no_opener_no_depth(u);
        lemma_block_last(u);
        if block_scan(u).last == '/' && p.last() == '*' {
            let i = p.len() - 2;
            assert(p.subrange(i, i + 2) =~= seq![u.last(), p.last()]);
        }
    }
}

/// Without `/*`, a comment opened before `c` stays open: the depth stays
/// positive and nothing more is kept.
proof fn lemma_stays_open(s: Seq<char>, c: Seq<char>)
    requires
        block_scan(s).depth > 0,
        block_scan(s).last != '*',
        occurs_nowhere(c, closer()),
    ensures
        block_scan(s + c).depth > 0,
        block_scan(s + c).kept == block_scan(s).kept,
    decreases c.len(),
{
    if c.len() == 0 {
        assert(s + c =~= s);
    } else {
        let u = c.drop_last();
        assert forall|i: int| 0 <= i && i + 2 <= u.len() implies #[trigger] u.subrange(i, i + 2) != closer() by {
            assert(u.subrange(i, i + 2) =~= c.subrange(i, i + 2));
        }
        lemma_stays_open(s, u);
        assert((s + c).drop_last() =~= s + u);
        assert((s + c).last() == c.last());
        lemma_block_last(s + u);
        if u.len() > 0 {
            assert((s + u).last() == u.last());
            if u.last() == '*' && c.last() == '/' {
                let i = c.len() - 2;
                assert(c.subrange(i, i + 2) =~= seq![u.last(), c.last()]);
            }
        } else {
            assert(s + u =~= s);
        }
    }
}

/// An opener that is never matched removes all the text after it: when `p`
/// leaves no comment open and `c` holds no `*/`, nothing of `/*` and `c` is
/// kept.
pub proof fn lemma_unclosed_comment_drops_rest(p: Seq<char>, c: Seq<char>)
    requires
        block_scan(p).depth == 0,
        occurs_nowhere(c, closer()),
    ensures
        without_block_comments(p + opener() + c) == without_block_comments(p),
{
    lemma_opener_step(p);
    lemma_stays_open(p + opener(), c);
}

/// Two scanner states outside comments that kept the same text and hold no
/// pending `/` act alike on whatever follows.
proof fn lemma_same_outside_state(a: Seq<char>, b: Seq<char>, q: Seq<char>)
    requires
        block_scan(a).depth == 0,
        block_scan(b).depth == 0,
        block_scan(a).kept == block_scan(b).kept,
        block_scan(a).last != '/',
        block_scan(b).last != '/',
    ensures
        without_block_comments(a + q) == without_block_comments(b + q),
        q.len() > 0 ==> block_scan(a + q) == block_scan(b + q),
    decreases q.len(),
{
    if q.len() == 0 {
        assert(a + q =~= a);
        assert(b + q =~= b);
    } else {
        let u = q.drop_last();
        lemma_same_outside_state(a, b, u);
        assert((a + q).drop_last() =~= a + u);
        assert((b + q).drop_last() =~= b + u);
        assert(block_scan(a + q) == block_step(block_scan(a + u), q.last()));
        assert(block_scan(b + q) == block_step(block_scan(b + u), q.last()));
        if u.len() == 0 {
            assert(a + u =~= a);
            assert(b + u =~= b);
        }
    }
}

/// A text without `/*` stays outside comments and keeps all its characters
/// but a `/` at its end, which is still held.
proof fn lemma_block_scan_plain(s: Seq<char>)
    requires
        occurs_nowhere(s, opener()),
    ensures
        block_scan(s).depth == 0,
        block_scan(s).last == (if s.len() > 0 { s.last() } else { '\0' }),
        block_scan(s).kept == (if s.len() > 0 && s.last() == '/' { s.drop_last() } else { s }),
    decreases s.len(),
{
    if s.len() > 0 {
        let u = s.drop_last();
        assert forall|i: int| 0 <= i && i + 2 <= u.len() implies #[trigger] u.subrange(i, i + 2) != opener() by {
            assert(u.subrange(i, i + 2) =~= s.subrange(i, i + 2));
        }
        lemma_block_scan_plain(u);
        if u.len() > 0 {
            let i = s.len() - 2;
            assert(s.subrange(i, i + 2) =~= seq![u.last(), s.last()]);
            if u.last() == '/' {
                assert(u.drop_last().push('/') =~= u);
            }
        }
    }
}

/// A text without `/*` has no block comment to remove.
pub proof fn lemma_no_block_comment(s: Seq<char>)
    requires
        occurs_nowhere(s, opener()),
    ensures
        without_block_comments(s) == s,
{
    lemma_block_scan_plain(s);
    if s.len() > 0 && s.last() == '/' {
        assert(s.drop_last().push('/') =~= s);
    }
}

/// `c` is a properly nested block comment of nesting height at most `h`:
/// `/*`, a body, then `*/`.
pub open spec fn nested_comment(c: Seq<char>, h: nat) -> bool
    decreases h, 0int, 0int, 0int,
{
    &&& h > 0
    &&& c.len() >= 4
    &&& c.take(2) == opener()
    &&& c.skip(c.len() - 2) == closer()
    &&& comment_body(c.subrange(2, c.len() - 2), (h - 1) as nat, '\0')
}

/// `b` is a comment body of nesting height at most `h`, read after the
/// character `prev` (`'\0'` right after a delimiter): characters that form
/// no delimiter with the one before them, and nested comments that do not
/// follow a `*`. It does not end with `/`, which would open a comment with
/// the closing `*`.
pub open spec fn comment_body(b: Seq<char>, h: nat, prev: char) -> bool
    decreases h, 1int, b.len(), b.len() + 1,
{
    if b.len() == 0 {
        prev != '/'
    } else {
        (!(prev == '*' && b[0] == '/') && !(prev == '/' && b[0] == '*') && comment_body(b.drop_first(), h, b[0]))
            || (prev != '*' && nested_then_body(b, h, b.len() as int))
    }
}

/// For some `k` from 4 to `m`, `b` starts with a nested comment of length
/// `k` followed by a comment body.
pub open spec fn nested_then_body(b: Seq<char>, h: nat, m: int) -> bool
    decreases h, 1int, b.len(), m,
{
    if m < 4 || m > b.len() {
        false
    } else {
        (nested_comment(b.take(m), h) && comment_body(b.skip(m), h, '\0')) || nested_then_body(b, h, m - 1)
    }
}

/// Reading a comment body inside a comment keeps the depth and the kept
/// text, and does not end on a `/`.
proof fn lemma_body_inside_comment(s: Seq<char>, b: Seq<char>, h: nat, prev: char)
    requires
        block_scan(s).depth > 0,
        block_scan(s).last == prev,
        comment_body(b, h, prev),
    ensures
        block_scan(s + b).depth == block_scan(s).depth,
        block_scan(s + b).kept == block_scan(s).kept,
        block_scan(s + b).last != '/',
    decreases h, 1int, b.len(), b.len() + 1,
{
    if b.len() == 0 {
        assert(s + b =~= s);
    } else if !(prev == '*' && b[0] == '/') && !(prev == '/' && b[0] == '*') && comment_body(b.drop_first(), h, b[0]) {
        let s1 = s + seq![b[0]];
        assert(s1.drop_last() =~= s);
        assert(block_scan(s1) == block_step(block_scan(s), b[0]));
        lemma_body_inside_comment(s1, b.drop_first(), h, b[0]);
        assert(s1 + b.drop_first() =~= s + b);
    } else {
        lemma_split_inside_comment(s, b, h, b.len() as int);
    }
}

/// The case of `lemma_body_inside_comment` where the body starts with a
/// nested comment of length at most `m`.
proof fn lemma_split_inside_comment(s: Seq<char>, b: Seq<char>, h: nat, m: int)
    requires
        block_scan(s).depth > 0,
        block_scan(s).last != '*',
        nested_then_body(b, h, m),
    ensures
        block_scan(s + b).depth == block_scan(s).depth,
        block_scan(s + b).kept == block_scan(s).kept,
        block_scan(s + b).last != '/',
    decreases h, 1int, b.len(), m,
{
    if nested_comment(b.take(m), h) && comment_body(b.skip(m), h, '\0') {
        lemma_nested_comment_scan(s, b.take(m), h);
        let s1 = s + b.take(m);
        lemma_body_inside_comment(s1, b.skip(m), h, '\0');
        assert(s1 + b.skip(m) =~= s + b);
    } else {
        lemma_split_inside_comment(s, b, h, m - 1);
    }
}

/// Reading a properly nested comment, where its `/` cannot close an
/// enclosing comment, keeps the depth, emits a held `/`, keeps nothing of
/// the comment, and leaves no previous character.
proof fn lemma_nested_comment_scan(s: Seq<char>, c: Seq<char>, h: nat)
    requires
        !(block_scan(s).depth > 0 && block_scan(s).last == '*'),
        nested_comment(c, h),
    ensures
        block_scan(s + c).depth == block_scan(s).depth,
        block_scan(s + c).kept == flushed(block_scan(s)),
        block_scan(s + c).last == '\0',
    decreases h, 0int, 0int, 0int,
{
    let body = c.subrange(2, c.len() - 2);
    let q = s + opener();
    lemma_opener_step(s);
    lemma_body_inside_comment(q, body, (h - 1) as nat, '\0');
    let r = q + body;
    assert((r + seq!['*']).drop_last() =~= r);
    assert((r + closer()).drop_last() =~= r + seq!['*']);
    assert(block_scan(r + seq!['*']) == block_step(block_scan(r), '*'));
    assert(block_scan(r + closer()) == block_step(block_scan(r + seq!['*']), '/'));
    assert(c =~= opener() + body + closer()) by {
        assert forall|i: int| 0 <= i < c.len() implies c[i] == (opener() + body + closer())[i] by {
            if i < 2 {
                assert(c.take(2)[i] == c[i]);
            } else if i >= c.len() - 2 {
                assert(c.skip(c.len() - 2)[i - (c.len() - 2)] == c[i]);
            }
        }
    }
    assert(r + closer() =~= s + c);
}

/// Balanced nesting: after text `p` that leaves no comment open, a properly
/// nested block comment is removed whole, the depth is back to zero, and
/// the text after it is kept as if it stood alone.
pub proof fn lemma_nested_comment_removed(p: Seq<char>, c: Seq<char>, h: nat, q: Seq<char>)
    requires
        block_scan(p).depth == 0,
        nested_comment(c, h),
    ensures
        block_scan(p + c).depth == 0,
        without_block_comments(p + c + q) == without_block_comments(p) + without_block_comments(q),
{
    lemma_nested_comment_scan(p, c, h);
    lemma_scan_after_fresh(p + c, q);
    let st = block_scan(q);
    let f = flushed(block_scan(p));
    assert((f + st.kept).push('/') =~= f + st.kept.push('/'));
}

/// Comment transparency for block comments: inserting a properly nested
/// comment after text that leaves no comment open and holds no `/` leaves
/// the text without block comments as it was.
pub proof fn lemma_nested_comment_transparent(p: Seq<char>, c: Seq<char>, h: nat, q: Seq<char>)
    requires
        nested_comment(c, h),
        block_scan(p).depth == 0,
        block_scan(p).last != '/',
    ensures
        without_block_comments(p + c + q) == without_block_comments(p + q),
{
    lemma_nested_comment_scan(p, c, h);
    lemma_same_outside_state(p + c, p, q);
}

} // verus!
