//! A minifier for SQL text: strips block and line comments, abbreviates long
//! type keywords on word boundaries, collapses whitespace and drops the
//! spaces around punctuation and operators.
use vstd::prelude::*;
use crate::comments::{
    block_scan, block_step, lemma_nested_comment_transparent, lemma_no_block_comment, lemma_no_line_comment,
    nested_comment, occurs_nowhere, opener,
    remove_multiline_comments, remove_single_line_comments, without_block_comments,
    without_line_comments,
};
use crate::compact::{
    compact, compacted, is_space, lemma_compacted_fixed, lemma_compacted_spacing,
    lemma_compacted_visible, no_pair, no_space_before_not_equal, single_spaced, symbol_chars,
    visible,
};
use crate::keywords::{
    abbreviate, abbreviated, all_word_chars, is_identifier_char, is_upper_word, keyword_table,
    lemma_identifier_then_space_has_no_keyword, lemma_no_keyword_kept, lemma_table_upper,
    no_whole_word, regex_word_class, whole_word_at, Dialect,
};
use crate::text::{chars_of, string_of};

pub mod comments;
pub mod compact;
pub mod keywords;
pub mod paths;
pub mod text;
pub mod types;

verus! {

/// The minified form of `s` in dialect `d`: block comments removed, then
/// line comments, then the dialect's abbreviations applied, then the text
/// compacted.
pub open spec fn minified(s: Seq<char>, d: Dialect) -> Seq<char> {
    compacted(stripped_abbreviated(s, d))
}

/// `s` without comments and with the abbreviations of dialect `d` applied:
/// the text that is compacted.
pub open spec fn stripped_abbreviated(s: Seq<char>, d: Dialect) -> Seq<char> {
    abbreviated(without_line_comments(without_block_comments(s)), d)
}

/// Minifies `document` with the abbreviations of dialect `d`.
pub fn minify_sql_for(document: &str, d: Dialect) -> (r: String)
    ensures
        r@ == minified(document@, d),
{
    let no_blocks = remove_multiline_comments(document);
    let no_comments = remove_single_line_comments(no_blocks.as_str());
    let short = abbreviate(no_comments.as_str(), d);
    let short_chars = chars_of(short.as_str());
    let out = compact(&short_chars);
    string_of(&out)
}

/// Minifies `document` with all abbreviations.
pub fn minify_sql(document: &str) -> (r: String)
    ensures
        r@ == minified(document@, Dialect::Standard),
{
    minify_sql_for(document, Dialect::Standard)
}

/// Comment transparency for block comments: after text `p` that leaves no
/// comment open and a space, inserting a properly nested comment does not
/// change the minified text.
pub proof fn lemma_minified_ignores_block_comment(p: Seq<char>, c: Seq<char>, h: nat, q: Seq<char>, d: Dialect)
    requires
        nested_comment(c, h),
        block_scan(p).depth == 0,
    ensures
        minified(p + seq![' '] + c + q, d) == minified(p + seq![' '] + q, d),
{
    let ps = p + seq![' '];
    assert(ps.drop_last() =~= p);
    assert(block_scan(ps) == block_step(block_scan(p), ' '));
    lemma_nested_comment_transparent(ps, c, h, q);
}

/// Whitespace normalization of the minified text: no whitespace but single
/// spaces, none at either end, and none beside a one-character symbol.
pub proof fn lemma_minified_spacing(s: Seq<char>, d: Dialect)
    ensures
        single_spaced(minified(s, d)),
        forall|c: char| symbol_chars().contains(c) ==> no_pair(minified(s, d), ' ', c) && no_pair(minified(s, d), c, ' '),
{
    lemma_compacted_spacing(abbreviated(without_line_comments(without_block_comments(s)), d));
}

/// Idempotence: minifying a minified text again gives it back, when that
/// text holds no `/*` or `--`, does not end with `;`, has no
/// space before `!=`, and no keyword of the dialect stands in it, followed by
/// a space, as a whole word of the regex engine's word class.
pub proof fn lemma_minified_idempotent(x: Seq<char>, d: Dialect)
    requires
        occurs_nowhere(minified(x, d), opener()),
        occurs_nowhere(minified(x, d), seq!['-', '-']),
        !(minified(x, d).len() > 0 && minified(x, d).last() == ';'),
        no_space_before_not_equal(minified(x, d)),
        forall|k: int| 0 <= k < keyword_table(d).len() ==> no_whole_word(
            regex_word_class(),
            minified(x, d) + seq![' '],
            (#[trigger] keyword_table(d)[k]).0,
        ),
    ensures
        minified(minified(x, d), d) == minified(x, d),
{
    let y = minified(x, d);
    lemma_minified_spacing(x, d);
    lemma_no_block_comment(y);
    assert(!y.contains('\n')) by {
        if y.contains('\n') {
            let k = choose|k: int| 0 <= k < y.len() && y[k] == '\n';
            assert(is_space(y[k]));
        }
    }
    lemma_no_line_comment(y);
    lemma_compacted_fixed(y);
    if y.len() > 0 {
        lemma_no_keyword_kept(y + seq![' '], d);
    } else {
        assert(forall|k: int| 0 <= k < keyword_table(d).len() ==> no_whole_word(regex_word_class(), y, (#[trigger] keyword_table(d)[k]).0)) by {
            assert(y + seq![' '] =~= seq![' ']);
            assert forall|k: int| 0 <= k < keyword_table(d).len() implies no_whole_word(regex_word_class(), y, (#[trigger] keyword_table(d)[k]).0) by {
                assert forall|i: int| !#[trigger] whole_word_at(regex_word_class(), y, i, keyword_table(d)[k].0) by {
                }
            }
        }
        lemma_no_keyword_kept(y, d);
    }
}

/// Whole-word abbreviation safety: an identifier made of a keyword of the
/// dialect and a non-empty suffix of ASCII letters, digits or `_` (all of
/// them word characters for the regex engine) is minified to itself, not
/// abbreviated.
pub proof fn lemma_keyword_prefixed_identifier_kept(d: Dialect, k: int, suffix: Seq<char>)
    requires
        0 <= k < keyword_table(d).len(),
        suffix.len() > 0,
        forall|j: int| 0 <= j < suffix.len() ==> is_identifier_char(#[trigger] suffix[j]),
        all_word_chars(regex_word_class(), keyword_table(d)[k].0 + suffix),
    ensures
        minified(keyword_table(d)[k].0 + suffix, d) == keyword_table(d)[k].0 + suffix,
{
    let ident = keyword_table(d)[k].0 + suffix;
    lemma_table_upper(d);
    let w = keyword_table(d)[k].0;
    assert(is_upper_word(w));
    assert forall|j: int| 0 <= j < ident.len() implies is_identifier_char(#[trigger] ident[j]) by {
        if j < w.len() {
            assert(ident[j] == w[j]);
        } else {
            assert(ident[j] == suffix[j - w.len()]);
        }
    }
    assert forall|i: int| 0 <= i && i + 2 <= ident.len() implies #[trigger] ident.subrange(i, i + 2) != opener() by {
        assert(ident.subrange(i, i + 2)[0] == ident[i]);
    }
    assert forall|i: int| 0 <= i && i + 2 <= ident.len() implies #[trigger] ident.subrange(i, i + 2) != seq!['/', '/'] by {
        assert(ident.subrange(i, i + 2)[0] == ident[i]);
    }
    assert forall|i: int| 0 <= i && i + 2 <= ident.len() implies #[trigger] ident.subrange(i, i + 2) != seq!['-', '-'] by {
        assert(ident.subrange(i, i + 2)[0] == ident[i]);
    }
    assert(ident.last() == ident[ident.len() - 1]);
    lemma_no_block_comment(ident);
    assert(!ident.contains('\n'));
    lemma_no_line_comment(ident);
    lemma_identifier_then_space_has_no_keyword(d, k, suffix);
    lemma_no_keyword_kept(ident + seq![' '], d);
    assert(forall|j: int| 0 <= j < ident.len() ==> !is_space(#[trigger] ident[j]));
    lemma_compacted_fixed(ident);
}

/// Terminator trimming of the minified text: its visible characters are
/// those of the text it compacts, without the last one when that is `;`; a
/// doubled `;;` at the end leaves one `;`, which ends the minified text.
pub proof fn lemma_minified_terminator(s: Seq<char>, d: Dialect)
    ensures
        visible(minified(s, d)) == (if visible(stripped_abbreviated(s, d)).len() > 0 && visible(stripped_abbreviated(s, d)).last() == ';' {
            visible(stripped_abbreviated(s, d)).drop_last()
        } else {
            visible(stripped_abbreviated(s, d))
        }),
        visible(stripped_abbreviated(s, d)).len() > 1 && visible(stripped_abbreviated(s, d)).last() == ';'
            && visible(stripped_abbreviated(s, d))[visible(stripped_abbreviated(s, d)).len() - 2] == ';'
            ==> minified(s, d).len() > 0 && minified(s, d).last() == ';',
{
    lemma_compacted_visible(stripped_abbreviated(s, d));
}

} // verus!
