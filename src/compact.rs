//! Whitespace collapsing, removal of spaces around punctuation and
//! operators, and trimming of one trailing statement terminator.
use vstd::prelude::*;
use crate::comments::occurs_nowhere;

verus! {

/// Characters with Unicode's `White_Space` property, as `char::is_whitespace`
/// documents them.
pub open spec fn is_space(c: char) -> bool {
    ('\u{9}' <= c && c <= '\u{d}') || c == ' ' || c == '\u{85}' || c == '\u{a0}'
        || c == '\u{1680}' || ('\u{2000}' <= c && c <= '\u{200a}') || c == '\u{2028}'
        || c == '\u{2029}' || c == '\u{202f}' || c == '\u{205f}' || c == '\u{3000}'
}

/// Whether `c` is a whitespace character.
pub fn is_space_char(c: char) -> (r: bool)
    ensures
        r == is_space(c),
{
    ('\u{9}' <= c && c <= '\u{d}') || c == ' ' || c == '\u{85}' || c == '\u{a0}'
        || c == '\u{1680}' || ('\u{2000}' <= c && c <= '\u{200a}') || c == '\u{2028}'
        || c == '\u{2029}' || c == '\u{202f}' || c == '\u{205f}' || c == '\u{3000}'
}

/// Text collapsed so far, and whether a space is owed before the next word.
pub open spec fn collapse_scan(s: Seq<char>) -> (Seq<char>, bool)
    decreases s.len(),
{
    if s.len() == 0 {
        (Seq::empty(), false)
    } else {
        let st = collapse_scan(s.drop_last());
        let c = s.last();
        if is_space(c) {
            (st.0, st.0.len() > 0)
        } else {
            ((if st.1 { st.0.push(' ') } else { st.0 }).push(c), false)
        }
    }
}

/// The words of `s` (its maximal runs of non-whitespace characters), joined
/// by single spaces.
pub open spec fn collapsed(s: Seq<char>) -> Seq<char> {
    collapse_scan(s).0
}

/// Collapses every run of whitespace to one space and drops leading and
/// trailing whitespace.
pub fn collapse_whitespace(s: &Vec<char>) -> (r: Vec<char>)
    ensures
        r@ == collapsed(s@),
{
    let mut out: Vec<char> = Vec::new();
    let mut pending = false;
    let mut i: usize = 0;
    while i < s.len()
        invariant
            i <= s.len(),
            collapse_scan(s@.take(i as int)) == (out@, pending),
        decreases s.len() - i,
    {
        let c = s[i];
        proof {
            assert(s@.take(i as int + 1).drop_last() =~= s@.take(i as int));
        }
        if is_space_char(c) {
            pending = out.len() > 0;
        } else {
            if pending {
                out.push(' ');
            }
            out.push(c);
            pending = false;
        }
        i = i + 1;
    }
    proof {
        assert(s@.take(i as int) =~= s@);
    }
    out
}

/// `s` with every occurrence of `pat` replaced by `rep`, scanning from the
/// left without overlap, as `str::replace` does.
pub open spec fn replaced(s: Seq<char>, pat: Seq<char>, rep: Seq<char>) -> Seq<char>
    decreases s.len(),
{
    if pat.len() == 0 || s.len() < pat.len() {
        s
    } else if s.take(pat.len() as int) == pat {
        rep + replaced(s.skip(pat.len() as int), pat, rep)
    } else {
        seq![s[0]] + replaced(s.drop_first(), pat, rep)
    }
}

/// Whether `pat` occurs in `s` at position `i`.
fn occurs_at(s: &Vec<char>, i: usize, pat: &Vec<char>) -> (r: bool)
    requires
        i <= s.len(),
    ensures
        r == (pat.len() <= s.len() - i && s@.subrange(i as int, i + pat.len()) == pat@),
{
    if pat.len() > s.len() - i {
        return false;
    }
    let mut j: usize = 0;
    while j < pat.len()
        invariant
            j <= pat.len(),
            pat.len() <= s.len() - i,
            s@.subrange(i as int, i + j) == pat@.take(j as int),
        decreases pat.len() - j,
    {
        if s[i + j] != pat[j] {
            proof {
                assert(s@.subrange(i as int, i + pat.len())[j as int] != pat@[j as int]);
            }
            return false;
        }
        proof {
            assert(s@.subrange(i as int, i + j + 1) =~= pat@.take(j as int + 1));
        }
        j = j + 1;
    }
    proof {
        assert(pat@.take(j as int) =~= pat@);
    }
    true
}

/// Replaces every occurrence of a non-empty `pat` in `s` by `rep`.
pub fn replace_all(s: &Vec<char>, pat: &Vec<char>, rep: &Vec<char>) -> (r: Vec<char>)
    requires
        pat.len() > 0,
    ensures
        r@ == replaced(s@, pat@, rep@),
{
    let mut out: Vec<char> = Vec::new();
    let mut i: usize = 0;
    proof {
        assert(s@.skip(0) =~= s@);
    }
    while i < s.len()
        invariant
            i <= s.len(),
            pat.len() > 0,
            out@ + replaced(s@.skip(i as int), pat@, rep@) == replaced(s@, pat@, rep@),
        decreases s.len() - i,
    {
        let ghost rest = s@.skip(i as int);
        if occurs_at(s, i, pat) {
            let mut k: usize = 0;
            let ghost before = out@;
            while k < rep.len()
                invariant
                    k <= rep.len(),
                    out@ == before + rep@.take(k as int),
                decreases rep.len() - k,
            {
                out.push(rep[k]);
                proof {
                    assert(out@ =~= before + rep@.take(k as int + 1));
                }
                k = k + 1;
            }
            proof {
                assert(rest.take(pat.len() as int) =~= s@.subrange(i as int, i + pat.len()));
                assert(rest.skip(pat.len() as int) =~= s@.skip(i + pat.len()));
                assert(rep@.take(k as int) =~= rep@);
                assert(out@ + replaced(s@.skip(i + pat.len()), pat@, rep@) =~= before + replaced(rest, pat@, rep@));
            }
            i = i + pat.len();
        } else {
            let ghost before = out@;
            out.push(s[i]);
            proof {
                if rest.len() >= pat.len() {
                    assert(rest.take(pat.len() as int) =~= s@.subrange(i as int, i + pat.len()));
                }
                assert(rest.drop_first() =~= s@.skip(i + 1));
                if rest.len() < pat.len() {
                    assert(s@.skip(i + 1).len() < pat.len());
                    assert(replaced(rest, pat@, rep@) == rest);
                    assert(replaced(s@.skip(i + 1), pat@, rep@) == s@.skip(i + 1));
                    assert(rest =~= seq![s@[i as int]] + s@.skip(i + 1));
                }
                assert(out@ + replaced(s@.skip(i + 1), pat@, rep@) =~= before + replaced(rest, pat@, rep@));
            }
            i = i + 1;
        }
    }
    proof {
        assert(s@.skip(i as int) =~= Seq::<char>::empty());
    }
    out
}

/// The punctuation and operator symbols around which spaces are dropped, in
/// the order in which they are handled.
pub open spec fn symbols() -> Seq<Seq<char>> {
    seq![
        seq![','], seq![';'], seq!['('], seq![')'], seq!['>'], seq!['<'],
        seq!['>', '='], seq!['<', '='], seq!['!', '='], seq!['<', '>'],
        seq!['='], seq!['+'], seq!['-'], seq!['*'], seq!['/'],
    ]
}

/// The symbols of `symbols()` as vectors.
fn symbol_list() -> (r: Vec<Vec<char>>)
    ensures
        r.len() == symbols().len(),
        forall|k: int| 0 <= k < r.len() ==> #[trigger] r[k]@ == symbols()[k],
{
    let r: Vec<Vec<char>> = vec![
        vec![','], vec![';'], vec!['('], vec![')'], vec!['>'], vec!['<'],
        vec!['>', '='], vec!['<', '='], vec!['!', '='], vec!['<', '>'],
        vec!['='], vec!['+'], vec!['-'], vec!['*'], vec!['/'],
    ];
    proof {
        assert forall|k: int| 0 <= k < r.len() implies #[trigger] r[k]@ == symbols()[k] by {
            assert(r[k]@ =~= symbols()[k]);
        }
    }
    r
}

/// `s` without one space right before and one space right after each
/// occurrence of `sym`.
pub open spec fn unspaced(s: Seq<char>, sym: Seq<char>) -> Seq<char> {
    replaced(replaced(s, seq![' '] + sym, sym), sym + seq![' '], sym)
}

/// `unspaced` applied for each symbol of `syms`, in order.
pub open spec fn unspaced_all(s: Seq<char>, syms: Seq<Seq<char>>) -> Seq<char>
    decreases syms.len(),
{
    if syms.len() == 0 {
        s
    } else {
        unspaced_all(unspaced(s, syms[0]), syms.drop_first())
    }
}

/// `s` without its last character when that is the terminator `;`.
pub open spec fn without_terminator(s: Seq<char>) -> Seq<char> {
    if s.len() > 0 && s.last() == ';' { s.drop_last() } else { s }
}

/// The compacted form of `s`: whitespace collapsed, spaces around the symbols
/// dropped, and one trailing `;` removed.
pub open spec fn compacted(s: Seq<char>) -> Seq<char> {
    without_terminator(unspaced_all(collapsed(s), symbols()))
}

/// Removes one trailing `;`, if there is one.
pub fn trim_terminator(s: &mut Vec<char>)
    ensures
        final(s)@ == without_terminator(old(s)@),
        old(s)@.len() > 0 && old(s)@.last() == ';' ==> final(s)@ == old(s)@.drop_last(),
        !(old(s)@.len() > 0 && old(s)@.last() == ';') ==> final(s)@ == old(s)@,
{
    if s.len() > 0 && s[s.len() - 1] == ';' {
        s.pop();
    }
}

/// Collapses whitespace, drops the spaces around punctuation and operators,
/// and removes one trailing `;`.
pub fn compact(s: &Vec<char>) -> (r: Vec<char>)
    ensures
        r@ == compacted(s@),
{
    let syms = symbol_list();
    let mut cur = collapse_whitespace(s);
    let mut k: usize = 0;
    let ghost all = symbols();
    proof {
        assert(all.skip(0) =~= all);
    }
    while k < syms.len()
        invariant
            k <= syms.len(),
            syms.len() == all.len(),
            all == symbols(),
            forall|m: int| 0 <= m < syms.len() ==> #[trigger] syms[m]@ == all[m],
            unspaced_all(cur@, all.skip(k as int)) == unspaced_all(collapsed(s@), all),
        decreases syms.len() - k,
    {
        let sym = &syms[k];
        let mut before: Vec<char> = vec![' '];
        let mut after: Vec<char> = sym.clone();
        let mut j: usize = 0;
        while j < sym.len()
            invariant
                j <= sym.len(),
                before@ == seq![' '] + sym@.take(j as int),
            decreases sym.len() - j,
        {
            before.push(sym[j]);
            proof {
                assert(before@ =~= seq![' '] + sym@.take(j as int + 1));
            }
            j = j + 1;
        }
        after.push(' ');
        proof {
            assert(sym@.take(j as int) =~= sym@);
            assert(all.skip(k as int).drop_first() =~= all.skip(k as int + 1));
        }
        let ghost prev = cur@;
        let once = replace_all(&cur, &before, sym);
        cur = replace_all(&once, &after, sym);
        proof {
            assert(after@ =~= sym@ + seq![' ']);
            assert(all.skip(k as int)[0] == sym@);
            assert(cur@ == unspaced(prev, sym@));
        }
        k = k + 1;
    }
    proof {
        assert(all.skip(k as int) =~= Seq::<Seq<char>>::empty());
    }
    trim_terminator(&mut cur);
    cur
}

/// One trailing terminator is removed and no more: text that ends with `;`
/// loses that character only, so text that ends with `;;` keeps one `;`.
pub proof fn lemma_terminator_trimmed_once(s: Seq<char>)
    ensures
        s.len() > 0 && s.last() == ';' ==> without_terminator(s) == s.drop_last(),
        s.len() > 1 && s.last() == ';' && s[s.len() - 2] == ';' ==> without_terminator(s).len() > 0
            && without_terminator(s).last() == ';',
        !(s.len() > 0 && s.last() == ';') ==> without_terminator(s) == s,
{
}

/// No character `a` of `s` is directly followed by `b`.
pub open spec fn no_pair(s: Seq<char>, a: char, b: char) -> bool {
    forall|i: int| 0 <= i < s.len() - 1 ==> !(#[trigger] s[i] == a && s[i + 1] == b)
}

/// The only whitespace character of `s` is the plain space.
pub open spec fn plain_spaces(s: Seq<char>) -> bool {
    forall|i: int| 0 <= i < s.len() ==> is_space(#[trigger] s[i]) ==> s[i] == ' '
}

/// `s` holds no whitespace but single spaces between non-space characters.
pub open spec fn single_spaced(s: Seq<char>) -> bool {
    &&& plain_spaces(s)
    &&& no_pair(s, ' ', ' ')
    &&& s.len() > 0 ==> s[0] != ' ' && s.last() != ' '
}

/// Whether `w` holds no whitespace character.
pub open spec fn no_space_in(w: Seq<char>) -> bool {
    forall|i: int| 0 <= i < w.len() ==> !is_space(#[trigger] w[i])
}

proof fn lemma_collapse_scan_spaced(s: Seq<char>)
    ensures
        single_spaced(collapse_scan(s).0),
        collapse_scan(s).1 ==> collapse_scan(s).0.len() > 0,
    decreases s.len(),
{
    if s.len() > 0 {
        lemma_collapse_scan_spaced(s.drop_last());
        let st = collapse_scan(s.drop_last());
        let c = s.last();
        if !is_space(c) {
            let mid = if st.1 { st.0.push(' ') } else { st.0 };
            let out = mid.push(c);
            assert(out.len() > 0);
            assert forall|i: int| 0 <= i < out.len() - 1 implies !(#[trigger] out[i] == ' ' && out[i + 1] == ' ') by {
                if i + 1 < st.0.len() {
                    assert(out[i] == st.0[i] && out[i + 1] == st.0[i + 1]);
                } else if i + 1 == st.0.len() {
                    assert(out[i] == st.0.last());
                }
            }
            assert forall|i: int| 0 <= i < out.len() && is_space(#[trigger] out[i]) implies out[i] == ' ' by {
                if i < st.0.len() {
                    assert(out[i] == st.0[i]);
                }
            }
            if st.0.len() > 0 {
                assert(out[0] == st.0[0]);
            }
        }
    }
}

/// The first character that `replaced` gives.
proof fn lemma_replaced_first(s: Seq<char>, pat: Seq<char>, rep: Seq<char>)
    requires
        pat.len() > 0,
        rep.len() > 0,
        s.len() > 0,
    ensures
        replaced(s, pat, rep).len() > 0,
        replaced(s, pat, rep)[0] == (if s.len() >= pat.len() && s.take(pat.len() as int) == pat {
            rep[0]
        } else {
            s[0]
        }),
{
}

/// A text that does not end with a space gives a text that does not end with
/// a space, when the replacement holds no space.
proof fn lemma_replaced_last(s: Seq<char>, pat: Seq<char>, rep: Seq<char>)
    requires
        pat.len() > 0,
        rep.len() > 0,
        no_space_in(rep),
        s.len() > 0,
        s.last() != ' ',
    ensures
        replaced(s, pat, rep).len() > 0,
        replaced(s, pat, rep).last() != ' ',
    decreases s.len(),
{
    let r = replaced(s, pat, rep);
    if s.len() < pat.len() {
    } else if s.take(pat.len() as int) == pat {
        let rest = s.skip(pat.len() as int);
        if rest.len() > 0 {
            lemma_replaced_last(rest, pat, rep);
            assert(rest.last() == s.last());
        } else {
            assert(replaced(rest, pat, rep) =~= rest);
            assert(r =~= rep);
            assert(!is_space(rep[rep.len() - 1]));
        }
    } else {
        let rest = s.drop_first();
        if rest.len() > 0 {
            lemma_replaced_last(rest, pat, rep);
            assert(rest.last() == s.last());
        } else {
            assert(r =~= seq![s[0]]);
        }
    }
}

/// Dropping one space before or after each occurrence of `rep`: pairs that
/// involve a space and are absent stay absent, no whitespace is added, and
/// for a one-character `rep` no space is left on the side that was handled.
proof fn lemma_replaced_spacing(s: Seq<char>, pat: Seq<char>, rep: Seq<char>)
    requires
        rep.len() > 0,
        no_space_in(rep),
        pat == seq![' '] + rep || pat == rep + seq![' '],
        no_pair(s, ' ', ' '),
        plain_spaces(s),
    ensures
        plain_spaces(replaced(s, pat, rep)),
        forall|a: char, b: char| (a == ' ' || b == ' ') && no_pair(s, a, b) ==> #[trigger] no_pair(replaced(s, pat, rep), a, b),
        rep.len() == 1 && pat == seq![' '] + rep ==> no_pair(replaced(s, pat, rep), ' ', rep[0]),
        rep.len() == 1 && pat == rep + seq![' '] ==> no_pair(replaced(s, pat, rep), rep[0], ' '),
    decreases s.len(),
{
    let r = replaced(s, pat, rep);
    let n = pat.len() as int;
    assert(rep[0] != ' ' && rep.last() != ' ') by {
        assert(!is_space(rep[0]));
        assert(!is_space(rep[rep.len() - 1]));
    }
    if s.len() < n {
        assert(r == s);
        if rep.len() == 1 && pat == seq![' '] + rep {
            assert forall|i: int| 0 <= i < r.len() - 1 implies !(#[trigger] r[i] == ' ' && r[i + 1] == rep[0]) by {
                if r[i] == ' ' && r[i + 1] == rep[0] {
                    assert(s.len() >= 2);
                }
            }
        }
        if rep.len() == 1 && pat == rep + seq![' '] {
            assert forall|i: int| 0 <= i < r.len() - 1 implies !(#[trigger] r[i] == rep[0] && r[i + 1] == ' ') by {
                if r[i] == rep[0] && r[i + 1] == ' ' {
                    assert(s.len() >= 2);
                }
            }
        }
    } else if s.take(n) == pat {
        let rest = s.skip(n);
        let rr = replaced(rest, pat, rep);
        assert forall|i: int| 0 <= i < rest.len() - 1 implies !(#[trigger] rest[i] == ' ' && rest[i + 1] == ' ') by {
            assert(rest[i] == s[i + n] && rest[i + 1] == s[i + n + 1]);
        }
        assert forall|i: int| 0 <= i < rest.len() && is_space(#[trigger] rest[i]) implies rest[i] == ' ' by {
            assert(rest[i] == s[i + n]);
        }
        lemma_replaced_spacing(rest, pat, rep);
        assert(r == rep + rr);
        if rest.len() > 0 {
            lemma_replaced_first(rest, pat, rep);
            assert(rr[0] == ' ' ==> rest[0] == ' ');
            assert(rest[0] == s[n]);
            assert(s[n - 1] == pat[n - 1]);
            if pat == rep + seq![' '] {
                assert(s[n - 1] == ' ');
            } else {
                assert(s[n - 1] == rep.last());
            }
        }
        assert forall|i: int| 0 <= i < r.len() && is_space(#[trigger] r[i]) implies r[i] == ' ' by {
            if i >= rep.len() {
                assert(r[i] == rr[i - rep.len()]);
            } else {
                assert(!is_space(rep[i]));
            }
        }
        assert forall|a: char, b: char| (a == ' ' || b == ' ') && no_pair(s, a, b) implies #[trigger] no_pair(r, a, b) by {
            if (a == ' ' || b == ' ') && no_pair(s, a, b) {
                assert(no_pair(rest, a, b)) by {
                    assert forall|i: int| 0 <= i < rest.len() - 1 implies !(#[trigger] rest[i] == a && rest[i + 1] == b) by {
                        assert(rest[i] == s[i + n] && rest[i + 1] == s[i + n + 1]);
                    }
                }
                assert(no_pair(rr, a, b));
                assert forall|i: int| 0 <= i < r.len() - 1 implies !(#[trigger] r[i] == a && r[i + 1] == b) by {
                    if i + 1 < rep.len() {
                        assert(!is_space(rep[i]) && !is_space(rep[i + 1]));
                    } else if i + 1 == rep.len() {
                        assert(r[i] == rep.last());
                        assert(r[i + 1] == rr[0]);
                        assert(!(s[n - 1] == a && s[n] == b));
                        assert(!(s[n - 1] == ' ' && s[n] == ' '));
                    } else {
                        assert(r[i] == rr[i - rep.len()] && r[i + 1] == rr[i + 1 - rep.len()]);
                    }
                }
            }
        }
        if rep.len() == 1 {
            if pat == seq![' '] + rep {
                assert forall|i: int| 0 <= i < r.len() - 1 implies !(#[trigger] r[i] == ' ' && r[i + 1] == rep[0]) by {
                    if i >= 1 {
                        assert(r[i] == rr[i - 1] && r[i + 1] == rr[i]);
                    }
                }
            }
            if pat == rep + seq![' '] {
                assert forall|i: int| 0 <= i < r.len() - 1 implies !(#[trigger] r[i] == rep[0] && r[i + 1] == ' ') by {
                    if i >= 1 {
                        assert(r[i] == rr[i - 1] && r[i + 1] == rr[i]);
                    } else if rest.len() > 0 {
                        assert(rest[0] == s[2] && s[1] == ' ');
                        assert(s[1] == ' ' && s[2] == ' ' ==> !no_pair(s, ' ', ' '));
                    }
                }
            }
        }
    } else {
        let rest = s.drop_first();
        let rr = replaced(rest, pat, rep);
        assert forall|i: int| 0 <= i < rest.len() - 1 implies !(#[trigger] rest[i] == ' ' && rest[i + 1] == ' ') by {
            assert(rest[i] == s[i + 1] && rest[i + 1] == s[i + 2]);
        }
        assert forall|i: int| 0 <= i < rest.len() && is_space(#[trigger] rest[i]) implies rest[i] == ' ' by {
            assert(rest[i] == s[i + 1]);
        }
        lemma_replaced_spacing(rest, pat, rep);
        assert(r == seq![s[0]] + rr);
        let starts = rest.len() >= n && rest.take(n) == pat;
        if rest.len() > 0 {
            lemma_replaced_first(rest, pat, rep);
            if starts {
                assert(rest[0] == pat[0]);
                if pat == seq![' '] + rep {
                    assert(s[1] == ' ');
                } else {
                    assert(s[1] == rep[0]);
                }
            }
        }
        assert forall|i: int| 0 <= i < r.len() && is_space(#[trigger] r[i]) implies r[i] == ' ' by {
            if i >= 1 {
                assert(r[i] == rr[i - 1]);
            }
        }
        assert forall|a: char, b: char| (a == ' ' || b == ' ') && no_pair(s, a, b) implies #[trigger] no_pair(r, a, b) by {
            if (a == ' ' || b == ' ') && no_pair(s, a, b) {
                assert(no_pair(rest, a, b)) by {
                    assert forall|i: int| 0 <= i < rest.len() - 1 implies !(#[trigger] rest[i] == a && rest[i + 1] == b) by {
                        assert(rest[i] == s[i + 1] && rest[i + 1] == s[i + 2]);
                    }
                }
                assert(no_pair(rr, a, b));
                assert forall|i: int| 0 <= i < r.len() - 1 implies !(#[trigger] r[i] == a && r[i + 1] == b) by {
                    if i >= 1 {
                        assert(r[i] == rr[i - 1] && r[i + 1] == rr[i]);
                    } else {
                        assert(r[0] == s[0] && r[1] == rr[0]);
                        assert(!(s[0] == a && s[1] == b));
                        assert(!(s[0] == ' ' && s[1] == ' '));
                    }
                }
            }
        }
        if rep.len() == 1 && pat == seq![' '] + rep {
            assert forall|i: int| 0 <= i < r.len() - 1 implies !(#[trigger] r[i] == ' ' && r[i + 1] == rep[0]) by {
                if i >= 1 {
                    assert(r[i] == rr[i - 1] && r[i + 1] == rr[i]);
                } else if s[0] == ' ' && rr[0] == rep[0] {
                    if !starts {
                        assert(s[1] == rep[0]);
                        assert(s.take(n) =~= pat);
                    }
                }
            }
        }
        if rep.len() == 1 && pat == rep + seq![' '] {
            assert forall|i: int| 0 <= i < r.len() - 1 implies !(#[trigger] r[i] == rep[0] && r[i + 1] == ' ') by {
                if i >= 1 {
                    assert(r[i] == rr[i - 1] && r[i + 1] == rr[i]);
                } else if s[0] == rep[0] && rr[0] == ' ' {
                    assert(s[1] == ' ');
                    assert(s.take(n) =~= pat);
                }
            }
        }
    }
}

/// One round of `unspaced` keeps a single-spaced text single-spaced, keeps
/// absent the pairs that involve a space, and for a one-character symbol
/// leaves no space on either side of it.
proof fn lemma_unspaced_spacing(s: Seq<char>, sym: Seq<char>)
    requires
        single_spaced(s),
        sym.len() > 0,
        no_space_in(sym),
    ensures
        single_spaced(unspaced(s, sym)),
        forall|a: char, b: char| (a == ' ' || b == ' ') && no_pair(s, a, b) ==> #[trigger] no_pair(unspaced(s, sym), a, b),
        sym.len() == 1 ==> no_pair(unspaced(s, sym), ' ', sym[0]) && no_pair(unspaced(s, sym), sym[0], ' '),
{
    let before = seq![' '] + sym;
    let after = sym + seq![' '];
    let r1 = replaced(s, before, sym);
    let r2 = replaced(r1, after, sym);
    lemma_replaced_spacing(s, before, sym);
    assert(no_pair(r1, ' ', ' '));
    lemma_replaced_spacing(r1, after, sym);
    assert(no_pair(r2, ' ', ' '));
    assert(!is_space(sym[0]));
    if s.len() > 0 {
        lemma_replaced_first(s, before, sym);
        lemma_replaced_last(s, before, sym);
        lemma_replaced_first(r1, after, sym);
        lemma_replaced_last(r1, after, sym);
    } else {
        assert(r1 == s);
        assert(r2 == r1);
    }
    if sym.len() == 1 {
        assert(no_pair(r1, ' ', sym[0]));
        assert(no_pair(r2, ' ', sym[0]));
    }
}

/// `unspaced_all` keeps a single-spaced text single-spaced and leaves no
/// space beside any of the one-character symbols.
proof fn lemma_unspaced_all_spacing(s: Seq<char>, syms: Seq<Seq<char>>)
    requires
        single_spaced(s),
        forall|k: int| 0 <= k < syms.len() ==> (#[trigger] syms[k]).len() > 0 && no_space_in(syms[k]),
    ensures
        single_spaced(unspaced_all(s, syms)),
        forall|k: int| 0 <= k < syms.len() && (#[trigger] syms[k]).len() == 1 ==> no_pair(unspaced_all(s, syms), ' ', syms[k][0])
            && no_pair(unspaced_all(s, syms), syms[k][0], ' '),
        forall|a: char, b: char| (a == ' ' || b == ' ') && no_pair(s, a, b) ==> #[trigger] no_pair(unspaced_all(s, syms), a, b),
    decreases syms.len(),
{
    if syms.len() > 0 {
        let u = unspaced(s, syms[0]);
        let rest = syms.drop_first();
        lemma_unspaced_spacing(s, syms[0]);
        assert forall|k: int| 0 <= k < rest.len() implies (#[trigger] rest[k]).len() > 0 && no_space_in(rest[k]) by {
            assert(rest[k] == syms[k + 1]);
        }
        lemma_unspaced_all_spacing(u, rest);
        let r = unspaced_all(s, syms);
        assert(r == unspaced_all(u, rest));
        assert forall|k: int| 0 <= k < syms.len() && (#[trigger] syms[k]).len() == 1 implies no_pair(r, ' ', syms[k][0])
            && no_pair(r, syms[k][0], ' ') by {
            if k == 0 {
                assert(no_pair(u, ' ', syms[0][0]));
                assert(no_pair(u, syms[0][0], ' '));
            } else {
                assert(rest[k - 1] == syms[k]);
            }
        }
        assert forall|a: char, b: char| (a == ' ' || b == ' ') && no_pair(s, a, b) implies #[trigger] no_pair(r, a, b) by {
            assert(no_pair(u, a, b));
        }
    }
}

/// The characters that are symbols on their own: `, ; ( ) > < = + - * /`.
pub open spec fn symbol_chars() -> Seq<char> {
    seq![',', ';', '(', ')', '>', '<', '=', '+', '-', '*', '/']
}

/// Whitespace normalization: the compacted text holds no whitespace but
/// single spaces, neither starts nor ends with a space, and has no space
/// right before or right after any one-character symbol.
pub proof fn lemma_compacted_spacing(s: Seq<char>)
    ensures
        single_spaced(compacted(s)),
        forall|c: char| symbol_chars().contains(c) ==> no_pair(compacted(s), ' ', c) && no_pair(compacted(s), c, ' '),
{
    let syms = symbols();
    let cs = collapsed(s);
    lemma_collapse_scan_spaced(s);
    assert forall|k: int| 0 <= k < syms.len() implies (#[trigger] syms[k]).len() > 0 && no_space_in(syms[k]) by {
        assert forall|i: int| 0 <= i < syms[k].len() implies !is_space(#[trigger] syms[k][i]) by {
        }
    }
    lemma_unspaced_all_spacing(cs, syms);
    let u = unspaced_all(cs, syms);
    let r = compacted(s);
    assert forall|c: char| symbol_chars().contains(c) implies no_pair(u, ' ', c) && no_pair(u, c, ' ') by {
        let k = choose|k: int| 0 <= k < symbol_chars().len() && symbol_chars()[k] == c;
        let j: int = if k < 6 { k } else { k + 4 };
        assert(syms[j].len() == 1 && syms[j][0] == c);
    }
    if u.len() > 0 && u.last() == ';' {
        assert(r == u.drop_last());
        assert(no_pair(u, ' ', ';'));
        if r.len() > 0 {
            assert(r.last() == u[u.len() - 2]);
            assert(!(u[u.len() - 2] == ' ' && u[u.len() - 1] == ';'));
            assert(r[0] == u[0]);
        }
        assert(plain_spaces(r)) by {
            assert forall|i: int| 0 <= i < r.len() && is_space(#[trigger] r[i]) implies r[i] == ' ' by {
                assert(r[i] == u[i]);
            }
        }
        assert forall|c: char| symbol_chars().contains(c) implies no_pair(r, ' ', c) && no_pair(r, c, ' ') by {
            assert(no_pair(u, ' ', c) && no_pair(u, c, ' '));
            assert forall|i: int| 0 <= i < r.len() - 1 implies !(#[trigger] r[i] == ' ' && r[i + 1] == c) by {
                assert(r[i] == u[i] && r[i + 1] == u[i + 1]);
            }
            assert forall|i: int| 0 <= i < r.len() - 1 implies !(#[trigger] r[i] == c && r[i + 1] == ' ') by {
                assert(r[i] == u[i] && r[i + 1] == u[i + 1]);
            }
        }
        assert forall|i: int| 0 <= i < r.len() - 1 implies !(#[trigger] r[i] == ' ' && r[i + 1] == ' ') by {
            assert(r[i] == u[i] && r[i + 1] == u[i + 1]);
        }
    }
}

/// Collapsing whitespace leaves a single-spaced text as it is (a trailing
/// space of a prefix is held as an owed space).
proof fn lemma_collapse_scan_single_spaced(s: Seq<char>)
    requires
        plain_spaces(s),
        no_pair(s, ' ', ' '),
        s.len() > 0 ==> s[0] != ' ',
    ensures
        collapse_scan(s) == (if s.len() > 0 && s.last() == ' ' { (s.drop_last(), true) } else { (s, false) }),
    decreases s.len(),
{
    if s.len() > 0 {
        let u = s.drop_last();
        assert forall|i: int| 0 <= i < u.len() && is_space(#[trigger] u[i]) implies u[i] == ' ' by {
            assert(u[i] == s[i]);
        }
        assert forall|i: int| 0 <= i < u.len() - 1 implies !(#[trigger] u[i] == ' ' && u[i + 1] == ' ') by {
            assert(u[i] == s[i] && u[i + 1] == s[i + 1]);
        }
        if u.len() > 0 {
            assert(u[0] == s[0]);
        }
        lemma_collapse_scan_single_spaced(u);
        let c = s.last();
        if is_space(c) {
            assert(s[s.len() - 1] == ' ');
            if u.len() > 0 {
                assert(u.last() == s[s.len() - 2]);
            }
        } else {
            if u.len() > 0 && u.last() == ' ' {
                assert(u.drop_last().push(' ').push(c) =~= s);
            } else {
                assert(u.push(c) =~= s);
            }
        }
    }
}

/// Replacing a pattern that does not occur changes nothing.
proof fn lemma_replaced_absent(s: Seq<char>, pat: Seq<char>, rep: Seq<char>)
    requires
        occurs_nowhere(s, pat),
    ensures
        replaced(s, pat, rep) == s,
    decreases s.len(),
{
    if pat.len() > 0 && s.len() >= pat.len() {
        assert(s.subrange(0, pat.len() as int) =~= s.take(pat.len() as int));
        let z: int = 0;
        assert(s.subrange(z, z + pat.len()) != pat);
        let u = s.drop_first();
        assert forall|i: int| 0 <= i && i + pat.len() <= u.len() implies #[trigger] u.subrange(i, i + pat.len()) != pat by {
            assert(u.subrange(i, i + pat.len()) =~= s.subrange(i + 1, i + 1 + pat.len()));
        }
        lemma_replaced_absent(u, pat, rep);
        assert(seq![s[0]] + u =~= s);
    }
}

/// No space stands before `!=`.
pub open spec fn no_space_before_not_equal(s: Seq<char>) -> bool {
    forall|i: int| 0 <= i < s.len() - 2 ==> !(#[trigger] s[i] == ' ' && s[i + 1] == '!' && s[i + 2] == '=')
}

/// A single-spaced text with no space beside a one-character symbol and no
/// space before `!=` is left as it is by every round of `unspaced`.
proof fn lemma_unspaced_all_fixed(s: Seq<char>, syms: Seq<Seq<char>>)
    requires
        forall|c: char| symbol_chars().contains(c) ==> no_pair(s, ' ', c) && no_pair(s, c, ' '),
        no_space_before_not_equal(s),
        forall|k: int| 0 <= k < syms.len() ==> symbols().contains(#[trigger] syms[k]),
    ensures
        unspaced_all(s, syms) == s,
    decreases syms.len(),
{
    if syms.len() > 0 {
        let sym = syms[0];
        assert(symbols().contains(sym));
        let j = choose|j: int| 0 <= j < symbols().len() && symbols()[j] == sym;
        let before = seq![' '] + sym;
        let after = sym + seq![' '];
        assert(symbol_chars().contains(sym.last())) by {
            let m: int = if j < 6 { j } else if j < 9 { 6 } else if j == 9 { 4 } else { j - 4 };
            assert(symbol_chars()[m] == sym.last());
        }
        assert(no_pair(s, sym.last(), ' '));
        assert forall|i: int| 0 <= i && i + before.len() <= s.len() implies #[trigger] s.subrange(i, i + before.len()) != before by {
            if s.subrange(i, i + before.len()) == before {
                assert(s[i] == before[0] && s[i + 1] == before[1]);
                if j == 8 {
                    assert(s[i + 2] == before[2]);
                } else {
                    let m: int = if j < 6 { j } else if j < 8 { j - 2 } else if j == 9 { 5 } else { j - 4 };
                    assert(symbol_chars()[m] == sym[0]);
                    assert(no_pair(s, ' ', sym[0]));
                }
            }
        }
        assert forall|i: int| 0 <= i && i + after.len() <= s.len() implies #[trigger] s.subrange(i, i + after.len()) != after by {
            if s.subrange(i, i + after.len()) == after {
                let n = sym.len() as int;
                assert(s[i + n - 1] == after[n - 1] && s[i + n] == after[n]);
            }
        }
        lemma_replaced_absent(s, before, sym);
        lemma_replaced_absent(s, after, sym);
        let rest = syms.drop_first();
        assert forall|k: int| 0 <= k < rest.len() implies symbols().contains(#[trigger] rest[k]) by {
            assert(rest[k] == syms[k + 1]);
        }
        lemma_unspaced_all_fixed(s, rest);
    }
}

/// A single-spaced text with no space beside a one-character symbol, no
/// space before `!=` and no trailing `;` is already compacted, also when one
/// space follows it.
pub proof fn lemma_compacted_fixed(y: Seq<char>)
    requires
        single_spaced(y),
        forall|c: char| symbol_chars().contains(c) ==> no_pair(y, ' ', c) && no_pair(y, c, ' '),
        no_space_before_not_equal(y),
        !(y.len() > 0 && y.last() == ';'),
    ensures
        compacted(y) == y,
        compacted(y + seq![' ']) == y,
{
    lemma_collapse_scan_single_spaced(y);
    assert(collapsed(y) == y);
    let z = y + seq![' '];
    assert(z.drop_last() =~= y);
    assert(z.last() == ' ');
    assert(collapsed(z) == y);
    assert forall|k: int| 0 <= k < symbols().len() implies symbols().contains(#[trigger] symbols()[k]) by {
    }
    lemma_unspaced_all_fixed(y, symbols());
}

/// Compacting is idempotent: compacting the compacted text again changes
/// nothing, unless that text ends with `;` (one more terminator goes) or has
/// a space before `!=` (that space goes).
pub proof fn lemma_compacted_idempotent(s: Seq<char>)
    requires
        !(compacted(s).len() > 0 && compacted(s).last() == ';'),
        no_space_before_not_equal(compacted(s)),
    ensures
        compacted(compacted(s)) == compacted(s),
{
    lemma_compacted_spacing(s);
    lemma_compacted_fixed(compacted(s));
}

/// The characters of `s` that are not whitespace, in order.
pub open spec fn visible(s: Seq<char>) -> Seq<char>
    decreases s.len(),
{
    if s.len() == 0 {
        Seq::empty()
    } else {
        visible(s.drop_last()) + (if is_space(s.last()) { Seq::empty() } else { seq![s.last()] })
    }
}

proof fn lemma_visible_concat(a: Seq<char>, b: Seq<char>)
    ensures
        visible(a + b) == visible(a) + visible(b),
    decreases b.len(),
{
    if b.len() == 0 {
        assert(a + b =~= a);
        assert(visible(a) + visible(b) =~= visible(a));
    } else {
        lemma_visible_concat(a, b.drop_last());
        assert((a + b).drop_last() =~= a + b.drop_last());
        assert((a + b).last() == b.last());
        assert(visible(a + b) =~= visible(a) + visible(b));
    }
}

proof fn lemma_visible_no_space(w: Seq<char>)
    requires
        no_space_in(w),
    ensures
        visible(w) == w,
    decreases w.len(),
{
    if w.len() > 0 {
        lemma_visible_no_space(w.drop_last());
        assert(!is_space(w[w.len() - 1]));
        assert(w.drop_last().push(w.last()) =~= w);
        assert(visible(w) =~= w);
    }
}

proof fn lemma_visible_one(c: char)
    ensures
        visible(seq![c]) == (if is_space(c) { Seq::<char>::empty() } else { seq![c] }),
{
    assert(seq![c].drop_last() =~= Seq::<char>::empty());
    assert(seq![c].last() == c);
    assert(visible(Seq::<char>::empty()) == Seq::<char>::empty());
    assert(visible(seq![c]) =~= (if is_space(c) { Seq::<char>::empty() } else { seq![c] }));
}

proof fn lemma_collapse_visible(s: Seq<char>)
    ensures
        visible(collapse_scan(s).0) == visible(s),
    decreases s.len(),
{
    if s.len() > 0 {
        lemma_collapse_scan_spaced(s.drop_last());
        lemma_collapse_visible(s.drop_last());
        let st = collapse_scan(s.drop_last());
        let c = s.last();
        assert(s.drop_last() + seq![c] =~= s);
        lemma_visible_concat(s.drop_last(), seq![c]);
        lemma_visible_one(c);
        if !is_space(c) {
            let mid = if st.1 { st.0.push(' ') } else { st.0 };
            lemma_visible_concat(st.0, seq![' ']);
            lemma_visible_one(' ');
            assert(st.0.push(' ') =~= st.0 + seq![' ']);
            assert(visible(mid) == visible(st.0)) by {
                if st.1 {
                    assert(visible(st.0 + seq![' ']) =~= visible(st.0));
                }
            }
            assert(mid.push(c) =~= mid + seq![c]);
            lemma_visible_concat(mid, seq![c]);
        } else {
            assert(visible(s) =~= visible(s.drop_last()));
        }
    }
}

/// Dropping spaces next to a symbol keeps every visible character.
proof fn lemma_replaced_visible(s: Seq<char>, pat: Seq<char>, rep: Seq<char>)
    requires
        rep.len() > 0,
        no_space_in(rep),
        pat == seq![' '] + rep || pat == rep + seq![' '],
    ensures
        visible(replaced(s, pat, rep)) == visible(s),
    decreases s.len(),
{
    let n = pat.len() as int;
    if s.len() >= n {
        if s.take(n) == pat {
            let rest = s.skip(n);
            lemma_replaced_visible(rest, pat, rep);
            assert(s =~= pat + rest);
            lemma_visible_concat(pat, rest);
            lemma_visible_concat(rep, replaced(rest, pat, rep));
            lemma_visible_no_space(rep);
            lemma_visible_one(' ');
            if pat == seq![' '] + rep {
                lemma_visible_concat(seq![' '], rep);
            } else {
                lemma_visible_concat(rep, seq![' ']);
            }
            assert(visible(pat) =~= rep);
        } else {
            let rest = s.drop_first();
            lemma_replaced_visible(rest, pat, rep);
            assert(s =~= seq![s[0]] + rest);
            lemma_visible_concat(seq![s[0]], rest);
            lemma_visible_concat(seq![s[0]], replaced(rest, pat, rep));
        }
    }
}

proof fn lemma_unspaced_all_visible(s: Seq<char>, syms: Seq<Seq<char>>)
    requires
        forall|k: int| 0 <= k < syms.len() ==> (#[trigger] syms[k]).len() > 0 && no_space_in(syms[k]),
    ensures
        visible(unspaced_all(s, syms)) == visible(s),
    decreases syms.len(),
{
    if syms.len() > 0 {
        let sym = syms[0];
        lemma_replaced_visible(s, seq![' '] + sym, sym);
        lemma_replaced_visible(replaced(s, seq![' '] + sym, sym), sym + seq![' '], sym);
        let rest = syms.drop_first();
        assert forall|k: int| 0 <= k < rest.len() implies (#[trigger] rest[k]).len() > 0 && no_space_in(rest[k]) by {
            assert(rest[k] == syms[k + 1]);
        }
        lemma_unspaced_all_visible(unspaced(s, sym), rest);
    }
}

/// Compacting changes only whitespace and one trailing terminator: the
/// visible characters of the compacted text are those of `s`, without the
/// last one when that is `;`. So a single trailing `;` is removed, and of a
/// doubled `;;` exactly one is left, which ends the compacted text.
pub proof fn lemma_compacted_visible(s: Seq<char>)
    ensures
        visible(compacted(s)) == (if visible(s).len() > 0 && visible(s).last() == ';' {
            visible(s).drop_last()
        } else {
            visible(s)
        }),
        visible(s).len() > 1 && visible(s).last() == ';' && visible(s)[visible(s).len() - 2] == ';'
            ==> compacted(s).len() > 0 && compacted(s).last() == ';',
{
    let syms = symbols();
    let cs = collapsed(s);
    lemma_collapse_visible(s);
    lemma_collapse_scan_spaced(s);
    assert forall|k: int| 0 <= k < syms.len() implies (#[trigger] syms[k]).len() > 0 && no_space_in(syms[k]) by {
        assert forall|i: int| 0 <= i < syms[k].len() implies !is_space(#[trigger] syms[k][i]) by {
        }
    }
    lemma_unspaced_all_visible(cs, syms);
    lemma_unspaced_all_spacing(cs, syms);
    let u = unspaced_all(cs, syms);
    lemma_compacted_spacing(s);
    if u.len() > 0 {
        assert(u =~= u.drop_last() + seq![u.last()]);
        lemma_visible_concat(u.drop_last(), seq![u.last()]);
        lemma_visible_one(u.last());
        assert(u.last() != ' ');
        assert(!is_space(u.last()));
        assert(visible(u).last() == u.last());
    } else {
        assert(visible(u) =~= Seq::<char>::empty());
    }
    let r = compacted(s);
    if r.len() > 0 && visible(s).len() > 1 && visible(s).last() == ';' {
        assert(r =~= r.drop_last() + seq![r.last()]);
        lemma_visible_concat(r.drop_last(), seq![r.last()]);
        lemma_visible_one(r.last());
        assert(!is_space(r.last()));
    }
    if visible(s).len() > 1 && visible(s).last() == ';' && r.len() == 0 {
        assert(visible(r) =~= Seq::<char>::empty());
    }
}

} // verus!
