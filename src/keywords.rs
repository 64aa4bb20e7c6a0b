//! Abbreviation of long keywords (`INTEGER` to `INT`, ...) on whole words.
use vstd::prelude::*;
use crate::text::chars_of;

verus! {

/// Whether `c` is a word character for the regex engine's `\b`: a character
/// that is alphabetic, a decimal digit, a mark, a connector punctuation or a
/// join control.
pub uninterp spec fn unicode_word_char(c: char) -> bool;

/// Whether the character before position `i` of `t` is in the word class
/// `wc`.
pub open spec fn word_before(wc: spec_fn(char) -> bool, t: Seq<char>, i: int) -> bool {
    0 < i && i <= t.len() && wc(t[i - 1])
}

/// Whether the character at position `i` of `t` is in the word class `wc`.
pub open spec fn word_after(wc: spec_fn(char) -> bool, t: Seq<char>, i: int) -> bool {
    0 <= i < t.len() && wc(t[i])
}

/// A word boundary at position `i` of `t`: a word character on exactly one
/// side.
pub open spec fn at_boundary(wc: spec_fn(char) -> bool, t: Seq<char>, i: int) -> bool {
    word_before(wc, t, i) != word_after(wc, t, i)
}

/// `w` stands in `t` at position `i` with a word boundary on each side.
pub open spec fn whole_word_at(wc: spec_fn(char) -> bool, t: Seq<char>, i: int, w: Seq<char>) -> bool {
    &&& 0 <= i
    &&& i + w.len() <= t.len()
    &&& t.subrange(i, i + w.len()) == w
    &&& at_boundary(wc, t, i)
    &&& at_boundary(wc, t, i + w.len())
}

/// The text from position `i` of `t` on, with each whole-word occurrence of
/// `w` replaced by `s`, scanning from the left.
pub open spec fn words_replaced_from(
    wc: spec_fn(char) -> bool,
    t: Seq<char>,
    i: int,
    w: Seq<char>,
    s: Seq<char>,
) -> Seq<char>
    decreases t.len() - i,
{
    if i < 0 || i >= t.len() {
        Seq::empty()
    } else if w.len() > 0 && whole_word_at(wc, t, i, w) {
        s + words_replaced_from(wc, t, i + w.len(), w, s)
    } else {
        seq![t[i]] + words_replaced_from(wc, t, i + 1, w, s)
    }
}

/// `t` with each whole-word occurrence of `w` replaced by `s`, words being
/// made of the characters of class `wc`.
pub open spec fn words_replaced(wc: spec_fn(char) -> bool, t: Seq<char>, w: Seq<char>, s: Seq<char>) -> Seq<char> {
    words_replaced_from(wc, t, 0, w, s)
}

/// The word class of the regex engine.
pub open spec fn regex_word_class() -> spec_fn(char) -> bool {
    |c: char| unicode_word_char(c)
}

/// Whether every character of `w` is an ASCII capital letter.
pub open spec fn is_upper_word(w: Seq<char>) -> bool {
    forall|k: int| 0 <= k < w.len() ==> 'A' <= #[trigger] w[k] && w[k] <= 'Z'
}

/// Relies on `regex::Regex::new` and `regex::Regex::replace_all` with the
/// pattern `\b<word>\b`: all non-overlapping matches, leftmost first, are
/// replaced, and `\b` is the Unicode word boundary. A word of capital letters
/// of at most 64 letters makes a valid pattern, well within the compiled
/// size limit, and a replacement without `$` is taken literally.
#[verifier::external_body]
fn replace_whole_word(text: &str, word: &str, short: &str) -> (r: String)
    requires
        0 < word@.len() <= 64,
        is_upper_word(word@),
        is_upper_word(short@),
    ensures
        r@ == words_replaced(|c: char| unicode_word_char(c), text@, word@, short@),
{
    let re = regex::Regex::new(&format!(r"\b{}\b", word)).unwrap();
    re.replace_all(text, short).into_owned()
}

/// The SQL dialect whose abbreviations are allowed.
#[derive(Clone, Copy, Debug, PartialEq, Eq, Structural)]
pub enum Dialect {
    /// All abbreviations.
    Standard,
    /// SQLite: `INTEGER` is kept, as it differs from `INT` there.
    Sqlite,
    /// GlueSQL: `BOOLEAN` is kept.
    GlueSql,
}

/// The long keywords of a dialect and their short forms, in the order in
/// which they are applied.
pub open spec fn keyword_table(d: Dialect) -> Seq<(Seq<char>, Seq<char>)> {
    let integer = ("INTEGER"@, "INT"@);
    let boolean = ("BOOLEAN"@, "BOOL"@);
    let character = ("CHARACTER"@, "CHAR"@);
    let decimal = ("DECIMAL"@, "DEC"@);
    let temporary = ("TEMPORARY"@, "TEMP"@);
    match d {
        Dialect::Standard => seq![integer, boolean, character, decimal, temporary],
        Dialect::Sqlite => seq![boolean, character, decimal, temporary],
        Dialect::GlueSql => seq![integer, character, decimal, temporary],
    }
}

/// `t` with the abbreviations of `table` applied one after the other.
pub open spec fn abbreviated_by(t: Seq<char>, table: Seq<(Seq<char>, Seq<char>)>) -> Seq<char>
    decreases table.len(),
{
    if table.len() == 0 {
        t
    } else {
        abbreviated_by(words_replaced(regex_word_class(), t, table[0].0, table[0].1), table.drop_first())
    }
}

/// `t` with the abbreviations of dialect `d` applied.
pub open spec fn abbreviated(t: Seq<char>, d: Dialect) -> Seq<char> {
    abbreviated_by(t, keyword_table(d))
}

/// The keyword table of dialect `d`.
pub fn long_format_types(d: Dialect) -> (r: Vec<(&'static str, &'static str)>)
    ensures
        r.len() == keyword_table(d).len(),
        forall|k: int| 0 <= k < r.len() ==> (#[trigger] r[k]).0@ == keyword_table(d)[k].0
            && r[k].1@ == keyword_table(d)[k].1,
{
    let integer = ("INTEGER", "INT");
    let boolean = ("BOOLEAN", "BOOL");
    let character = ("CHARACTER", "CHAR");
    let decimal = ("DECIMAL", "DEC");
    let temporary = ("TEMPORARY", "TEMP");
    match d {
        Dialect::Standard => vec![integer, boolean, character, decimal, temporary],
        Dialect::Sqlite => vec![boolean, character, decimal, temporary],
        Dialect::GlueSql => vec![integer, character, decimal, temporary],
    }
}

/// Every keyword of every table and its short form are non-empty words of
/// capital letters.
pub proof fn lemma_table_upper(d: Dialect)
    ensures
        forall|k: int| 0 <= k < keyword_table(d).len() ==> (#[trigger] keyword_table(d)[k]).0.len() > 0
            && keyword_table(d)[k].0.len() <= 64 && is_upper_word(keyword_table(d)[k].0) && is_upper_word(keyword_table(d)[k].1),
{
    reveal_strlit("INTEGER");
    reveal_strlit("INT");
    reveal_strlit("BOOLEAN");
    reveal_strlit("BOOL");
    reveal_strlit("CHARACTER");
    reveal_strlit("CHAR");
    reveal_strlit("DECIMAL");
    reveal_strlit("DEC");
    reveal_strlit("TEMPORARY");
    reveal_strlit("TEMP");
}

/// Applies the abbreviations of dialect `d` to `t`, on whole words only.
pub fn abbreviate(t: &str, d: Dialect) -> (r: String)
    ensures
        r@ == abbreviated(t@, d),
{
    let table = long_format_types(d);
    let ghost all = keyword_table(d);
    proof {
        lemma_table_upper(d);
        assert(all.skip(0) =~= all);
    }
    let mut cur = t.to_owned();
    let mut k: usize = 0;
    while k < table.len()
        invariant
            k <= table.len(),
            all == keyword_table(d),
            table.len() == all.len(),
            forall|m: int| 0 <= m < table.len() ==> (#[trigger] table[m]).0@ == all[m].0
                && table[m].1@ == all[m].1,
            forall|m: int| 0 <= m < all.len() ==> (#[trigger] all[m]).0.len() > 0
                && all[m].0.len() <= 64 && is_upper_word(all[m].0) && is_upper_word(all[m].1),
            abbreviated_by(cur@, all.skip(k as int)) == abbreviated(t@, d),
        decreases table.len() - k,
    {
        let (long, short) = table[k];
        proof {
            assert(all.skip(k as int).drop_first() =~= all.skip(k as int + 1));
            assert(all.skip(k as int)[0] == all[k as int]);
        }
        cur = replace_whole_word(cur.as_str(), long, short);
        proof {
            assert(regex_word_class() =~= |c: char| unicode_word_char(c));
        }
        k = k + 1;
    }
    proof {
        assert(all.skip(k as int) =~= Seq::<(Seq<char>, Seq<char>)>::empty());
    }
    cur
}

/// Whether every character of `t` is in the word class `wc`.
pub open spec fn all_word_chars(wc: spec_fn(char) -> bool, t: Seq<char>) -> bool {
    forall|j: int| 0 <= j < t.len() ==> wc(#[trigger] t[j])
}

/// Inside a run of word characters no replacement starts: from any position
/// `i > 0`, or from `0` when the run is not `w` itself, the text is copied.
proof fn lemma_run_copied(wc: spec_fn(char) -> bool, t: Seq<char>, i: int, w: Seq<char>, s: Seq<char>)
    requires
        all_word_chars(wc, t),
        t != w,
        0 <= i <= t.len(),
    ensures
        words_replaced_from(wc, t, i, w, s) == t.skip(i),
    decreases t.len() - i,
{
    if i < t.len() {
        lemma_run_copied(wc, t, i + 1, w, s);
        if w.len() > 0 && whole_word_at(wc, t, i, w) {
            if i > 0 {
                assert(wc(t[i - 1]) && wc(t[i]));
            } else if w.len() < t.len() {
                assert(wc(t[w.len() - 1]) && wc(t[w.len() as int]));
            } else {
                assert(t =~= w);
            }
        }
        assert(t.skip(i) =~= seq![t[i]] + t.skip(i + 1));
    } else {
        assert(t.skip(i) =~= Seq::<char>::empty());
    }
}

/// A run of word characters that is not the keyword `w` is left as it is
/// when `w` is replaced on whole words.
pub proof fn lemma_word_run_kept(wc: spec_fn(char) -> bool, t: Seq<char>, w: Seq<char>, s: Seq<char>)
    requires
        all_word_chars(wc, t),
        t != w,
    ensures
        words_replaced(wc, t, w, s) == t,
{
    lemma_run_copied(wc, t, 0, w, s);
    assert(t.skip(0) =~= t);
}

/// A run of word characters that is none of the keywords of `table` is left
/// as it is by all the table's abbreviations.
proof fn lemma_word_run_kept_by(t: Seq<char>, table: Seq<(Seq<char>, Seq<char>)>)
    requires
        all_word_chars(regex_word_class(), t),
        forall|k: int| 0 <= k < table.len() ==> (#[trigger] table[k]).0 != t,
    ensures
        abbreviated_by(t, table) == t,
    decreases table.len(),
{
    if table.len() > 0 {
        lemma_word_run_kept(regex_word_class(), t, table[0].0, table[0].1);
        let rest = table.drop_first();
        assert forall|k: int| 0 <= k < rest.len() implies (#[trigger] rest[k]).0 != t by {
            assert(rest[k] == table[k + 1]);
        }
        lemma_word_run_kept_by(t, rest);
    }
}

/// A keyword of the table followed by a non-boundary suffix is not
/// abbreviated: when every character of `kw + suffix` is a word character for
/// the regex engine and `suffix` is not empty, the abbreviations of dialect
/// `d` leave that identifier as it is.
pub proof fn lemma_keyword_with_suffix_kept(d: Dialect, k: int, suffix: Seq<char>)
    requires
        0 <= k < keyword_table(d).len(),
        suffix.len() > 0,
        all_word_chars(regex_word_class(), keyword_table(d)[k].0 + suffix),
    ensures
        abbreviated(keyword_table(d)[k].0 + suffix, d) == keyword_table(d)[k].0 + suffix,
{
    reveal_strlit("INTEGER");
    reveal_strlit("BOOLEAN");
    reveal_strlit("CHARACTER");
    reveal_strlit("DECIMAL");
    reveal_strlit("TEMPORARY");
    let table = keyword_table(d);
    let ident = table[k].0 + suffix;
    assert forall|j: int| 0 <= j < table.len() implies (#[trigger] table[j]).0 != ident by {
        if table[j].0 == ident {
            assert(table[j].0[0] == ident[0]);
            assert(table[j].0.len() == ident.len());
        }
    }
    lemma_word_run_kept_by(ident, table);
}

/// `w` stands nowhere in `t` as a whole word of class `wc`.
pub open spec fn no_whole_word(wc: spec_fn(char) -> bool, t: Seq<char>, w: Seq<char>) -> bool {
    forall|i: int| !#[trigger] whole_word_at(wc, t, i, w)
}

proof fn lemma_no_whole_word_copied(wc: spec_fn(char) -> bool, t: Seq<char>, i: int, w: Seq<char>, s: Seq<char>)
    requires
        no_whole_word(wc, t, w),
        0 <= i <= t.len(),
    ensures
        words_replaced_from(wc, t, i, w, s) == t.skip(i),
    decreases t.len() - i,
{
    if i < t.len() {
        assert(!whole_word_at(wc, t, i, w));
        lemma_no_whole_word_copied(wc, t, i + 1, w, s);
        assert(t.skip(i) =~= seq![t[i]] + t.skip(i + 1));
    } else {
        assert(t.skip(i) =~= Seq::<char>::empty());
    }
}

/// A text in which no keyword of `table` stands as a whole word is left as
/// it is by the table's abbreviations.
proof fn lemma_no_keyword_kept_by(t: Seq<char>, table: Seq<(Seq<char>, Seq<char>)>)
    requires
        forall|k: int| 0 <= k < table.len() ==> no_whole_word(regex_word_class(), t, (#[trigger] table[k]).0),
    ensures
        abbreviated_by(t, table) == t,
    decreases table.len(),
{
    if table.len() > 0 {
        assert(no_whole_word(regex_word_class(), t, table[0].0));
        lemma_no_whole_word_copied(regex_word_class(), t, 0, table[0].0, table[0].1);
        assert(t.skip(0) =~= t);
        let rest = table.drop_first();
        assert forall|k: int| 0 <= k < rest.len() implies no_whole_word(regex_word_class(), t, (#[trigger] rest[k]).0) by {
            assert(rest[k] == table[k + 1]);
        }
        lemma_no_keyword_kept_by(t, rest);
    }
}

/// A text in which no keyword of dialect `d` stands as a whole word is left
/// as it is by the abbreviations.
pub proof fn lemma_no_keyword_kept(t: Seq<char>, d: Dialect)
    requires
        forall|k: int| 0 <= k < keyword_table(d).len() ==> no_whole_word(regex_word_class(), t, (#[trigger] keyword_table(d)[k]).0),
    ensures
        abbreviated(t, d) == t,
{
    lemma_no_keyword_kept_by(t, keyword_table(d));
}

/// Whether `c` is an ASCII letter, an ASCII digit or `_`.
pub open spec fn is_identifier_char(c: char) -> bool {
    ('a' <= c && c <= 'z') || ('A' <= c && c <= 'Z') || ('0' <= c && c <= '9') || c == '_'
}

/// A keyword of the table followed by a non-boundary suffix and then by a
/// space is not a whole word there.
pub proof fn lemma_identifier_then_space_has_no_keyword(d: Dialect, k: int, suffix: Seq<char>)
    requires
        0 <= k < keyword_table(d).len(),
        suffix.len() > 0,
        all_word_chars(regex_word_class(), keyword_table(d)[k].0 + suffix),
        forall|j: int| 0 <= j < suffix.len() ==> is_identifier_char(#[trigger] suffix[j]),
    ensures
        forall|m: int| 0 <= m < keyword_table(d).len() ==> no_whole_word(
            regex_word_class(),
            keyword_table(d)[k].0 + suffix + seq![' '],
            (#[trigger] keyword_table(d)[m]).0,
        ),
{
    reveal_strlit("INTEGER");
    reveal_strlit("BOOLEAN");
    reveal_strlit("CHARACTER");
    reveal_strlit("DECIMAL");
    reveal_strlit("TEMPORARY");
    let table = keyword_table(d);
    let ident = table[k].0 + suffix;
    let t = ident + seq![' '];
    let wc = regex_word_class();
    assert forall|m: int| 0 <= m < table.len() implies no_whole_word(wc, t, (#[trigger] table[m]).0) by {
        let w = table[m].0;
        assert forall|i: int| !#[trigger] whole_word_at(wc, t, i, w) by {
            if whole_word_at(wc, t, i, w) {
                assert(t.subrange(i, i + w.len())[0] == t[i]);
                if i > 0 && i < ident.len() {
                    assert(t[i - 1] == ident[i - 1] && t[i] == ident[i]);
                    assert(wc(ident[i - 1]) && wc(ident[i]));
                } else if i >= ident.len() {
                    assert(t[i] == ' ');
                    assert(w[0] != ' ');
                } else if w.len() < ident.len() {
                    assert(t[w.len() - 1] == ident[w.len() - 1] && t[w.len() as int] == ident[w.len() as int]);
                    assert(wc(ident[w.len() - 1]) && wc(ident[w.len() as int]));
                } else if w.len() == ident.len() {
                    assert(w =~= ident) by {
                        assert forall|j: int| 0 <= j < w.len() implies w[j] == ident[j] by {
                            assert(t.subrange(i, i + w.len())[j] == t[j]);
                        }
                    }
                    assert(w[0] == ident[0]);
                } else {
                    let j = ident.len() as int;
                    assert(t.subrange(i, i + w.len())[j] == t[j]);
                    assert(w[j] == ' ');
                }
            }
        }
    }
}

} // verus!
