//! The SQL types that have a short form, and a minifier that abbreviates
//! them word by word.
use vstd::prelude::*;
use crate::comments::{lines_of, split_lines};
use crate::compact::{collapse_whitespace, collapsed, is_space, is_space_char};
use crate::text::{chars_of, string_of};

verus! {

/// SQL types that can be abbreviated.
#[derive(Clone, Copy, Debug, PartialEq, Eq, Structural)]
pub enum Sqltypes {
    /// INTEGER can be abbreviated as INT
    Integer,
    /// INTEGER with comma can be abbreviated as INT,
    IntegerComma,
    /// CHARACTER can be abbreviated as CHAR
    Character,
    /// CHARACTER with comma can be abbreviated as CHAR,
    CharacterComma,
    /// BOOLEAN can be abbreviated as BOOL
    Boolean,
    /// BOOLEAN with comma can be abbreviated as BOOL,
    BooleanComma,
    /// DECIMAL can be abbreviated as DEC
    Decimal,
    /// DECIMAL with comma can be abbreviated as DEC,
    DecimalComma,
}

/// The type that the word `w` names, if any.
pub open spec fn sqltype_named(w: Seq<char>) -> Option<Sqltypes> {
    if w == "INTEGER"@ {
        Some(Sqltypes::Integer)
    } else if w == "CHARACTER"@ {
        Some(Sqltypes::Character)
    } else if w == "BOOLEAN"@ {
        Some(Sqltypes::Boolean)
    } else if w == "DECIMAL"@ {
        Some(Sqltypes::Decimal)
    } else if w == "INTEGER,"@ {
        Some(Sqltypes::IntegerComma)
    } else if w == "CHARACTER,"@ {
        Some(Sqltypes::CharacterComma)
    } else if w == "BOOLEAN,"@ {
        Some(Sqltypes::BooleanComma)
    } else if w == "DECIMAL,"@ {
        Some(Sqltypes::DecimalComma)
    } else {
        None
    }
}

/// Whether the two vectors hold the same characters.
fn same_chars(a: &Vec<char>, b: &Vec<char>) -> (r: bool)
    ensures
        r == (a@ == b@),
{
    if a.len() != b.len() {
        return false;
    }
    let mut i: usize = 0;
    while i < a.len()
        invariant
            i <= a.len(),
            a.len() == b.len(),
            a@.take(i as int) == b@.take(i as int),
        decreases a.len() - i,
    {
        if a[i] != b[i] {
            return false;
        }
        proof {
            assert(a@.take(i as int + 1) =~= a@.take(i as int).push(a@[i as int]));
            assert(b@.take(i as int + 1) =~= b@.take(i as int).push(b@[i as int]));
        }
        i = i + 1;
    }
    proof {
        assert(a@.take(i as int) =~= a@);
        assert(b@.take(i as int) =~= b@);
    }
    true
}

/// Whether `w` holds the characters of `lit`.
fn is_word(w: &Vec<char>, lit: &str) -> (r: bool)
    ensures
        r == (w@ == lit@),
{
    same_chars(w, &chars_of(lit))
}

impl Sqltypes {
    /// The short form of the type.
    pub open spec fn short_form(self) -> Seq<char> {
        match self {
            Sqltypes::Integer => "INT"@,
            Sqltypes::Character => "CHAR"@,
            Sqltypes::Boolean => "BOOL"@,
            Sqltypes::Decimal => "DEC"@,
            Sqltypes::IntegerComma => "INT,"@,
            Sqltypes::CharacterComma => "CHAR,"@,
            Sqltypes::BooleanComma => "BOOL,"@,
            Sqltypes::DecimalComma => "DEC,"@,
        }
    }

    /// The short form of the type, as text.
    pub fn to_string(&self) -> (r: String)
        ensures
            r@ == self.short_form(),
    {
        let s = match self {
            Sqltypes::Integer => "INT",
            Sqltypes::Character => "CHAR",
            Sqltypes::Boolean => "BOOL",
            Sqltypes::Decimal => "DEC",
            Sqltypes::IntegerComma => "INT,",
            Sqltypes::CharacterComma => "CHAR,",
            Sqltypes::BooleanComma => "BOOL,",
            Sqltypes::DecimalComma => "DEC,",
        };
        s.to_owned()
    }

    /// The type whose long form is `w`, or an error when there is none.
    pub fn from_chars(w: &Vec<char>) -> (r: Result<Sqltypes, &'static str>)
        ensures
            r is Ok <==> sqltype_named(w@) is Some,
            r is Ok ==> sqltype_named(w@) == Some(r->Ok_0),
            r is Err ==> r->Err_0@ == "Invalid type"@,
    {
        if is_word(w, "INTEGER") {
            Ok(Sqltypes::Integer)
        } else if is_word(w, "CHARACTER") {
            Ok(Sqltypes::Character)
        } else if is_word(w, "BOOLEAN") {
            Ok(Sqltypes::Boolean)
        } else if is_word(w, "DECIMAL") {
            Ok(Sqltypes::Decimal)
        } else if is_word(w, "INTEGER,") {
            Ok(Sqltypes::IntegerComma)
        } else if is_word(w, "CHARACTER,") {
            Ok(Sqltypes::CharacterComma)
        } else if is_word(w, "BOOLEAN,") {
            Ok(Sqltypes::BooleanComma)
        } else if is_word(w, "DECIMAL,") {
            Ok(Sqltypes::DecimalComma)
        } else {
            Err("Invalid type")
        }
    }

    /// The type whose long form is `value`, or an error when there is none.
    pub fn try_from(value: &str) -> (r: Result<Sqltypes, &'static str>)
        ensures
            r is Ok <==> sqltype_named(value@) is Some,
            r is Ok ==> sqltype_named(value@) == Some(r->Ok_0),
            r is Err ==> r->Err_0@ == "Invalid type"@,
    {
        Sqltypes::from_chars(&chars_of(value))
    }
}

/// The word `w`, or its short form when it is a type's long form.
pub open spec fn token_text(w: Seq<char>) -> Seq<char> {
    match sqltype_named(w) {
        Some(t) => t.short_form(),
        None => w,
    }
}

/// What is kept of line `l` from position `i` on, `word` being the part of
/// the current word already read: whitespace is kept, each word that ends
/// before whitespace or at the end of the line is abbreviated, and nothing is
/// kept from a `--` on (not even the word in progress).
pub open spec fn line_words_from(l: Seq<char>, i: int, word: Seq<char>) -> Seq<char>
    decreases l.len() - i,
{
    if i < 0 || i >= l.len() {
        Seq::empty()
    } else if l[i] == '-' && i + 1 < l.len() && l[i + 1] == '-' {
        Seq::empty()
    } else if is_space(l[i]) {
        seq![l[i]] + line_words_from(l, i + 1, word)
    } else if i + 1 >= l.len() {
        token_text(word.push(l[i]))
    } else if is_space(l[i + 1]) {
        token_text(word.push(l[i])) + line_words_from(l, i + 1, Seq::empty())
    } else {
        line_words_from(l, i + 1, word.push(l[i]))
    }
}

/// The kept parts of the lines `ls`, one after the other with nothing between.
pub open spec fn joined_line_words(ls: Seq<Seq<char>>) -> Seq<char>
    decreases ls.len(),
{
    if ls.len() == 0 {
        Seq::empty()
    } else {
        joined_line_words(ls.drop_last()) + line_words_from(ls.last(), 0, Seq::empty())
    }
}

/// The word-by-word minified form of `s`: lines processed by
/// `line_words_from`, joined, and whitespace collapsed.
pub open spec fn word_minified(s: Seq<char>) -> Seq<char> {
    collapsed(joined_line_words(lines_of(s)))
}

/// Appends the characters of `v` to `out`.
fn push_all(out: &mut Vec<char>, v: &Vec<char>)
    ensures
        final(out)@ == old(out)@ + v@,
{
    let mut k: usize = 0;
    let ghost before = out@;
    while k < v.len()
        invariant
            k <= v.len(),
            out@ == before + v@.take(k as int),
        decreases v.len() - k,
    {
        out.push(v[k]);
        proof {
            assert(out@ =~= before + v@.take(k as int + 1));
        }
        k = k + 1;
    }
    proof {
        assert(v@.take(k as int) =~= v@);
    }
}

/// Appends to `out` the abbreviated form of the word `w`.
fn push_token(out: &mut Vec<char>, w: &Vec<char>)
    ensures
        final(out)@ == old(out)@ + token_text(w@),
{
    match Sqltypes::from_chars(w) {
        Ok(short) => push_all(out, &chars_of(short.to_string().as_str())),
        Err(_) => push_all(out, w),
    }
}

/// Appends to `out` what is kept of the line `l`.
fn push_line_words(out: &mut Vec<char>, l: &Vec<char>)
    ensures
        final(out)@ == old(out)@ + line_words_from(l@, 0, Seq::empty()),
{
    let mut word: Vec<char> = Vec::new();
    let mut i: usize = 0;
    while i < l.len()
        invariant
            i <= l.len(),
            old(out)@ + line_words_from(l@, 0, Seq::empty()) == out@ + line_words_from(l@, i as int, word@),
        decreases l.len() - i,
    {
        let c = l[i];
        if c == '-' && i + 1 < l.len() && l[i + 1] == '-' {
            proof {
                assert(out@ + line_words_from(l@, i as int, word@) =~= out@);
            }
            return;
        }
        let ghost w0 = word@;
        let ghost o0 = out@;
        if is_space_char(c) {
            out.push(c);
            proof {
                assert(out@ + line_words_from(l@, i + 1, word@) =~= o0 + line_words_from(l@, i as int, w0));
            }
        } else {
            word.push(c);
            if i + 1 >= l.len() {
                push_token(out, &word);
                proof {
                    assert(line_words_from(l@, i + 1, word@) =~= Seq::<char>::empty());
                    assert(out@ + line_words_from(l@, i + 1, word@) =~= o0 + line_words_from(l@, i as int, w0));
                }
            } else if is_space_char(l[i + 1]) {
                push_token(out, &word);
                word = Vec::new();
                proof {
                    assert(out@ + line_words_from(l@, i + 1, word@) =~= o0 + line_words_from(l@, i as int, w0));
                }
            }
        }
        i = i + 1;
    }
    proof {
        assert(out@ + line_words_from(l@, i as int, word@) =~= out@);
    }
}

/// Minifies `text` word by word: drops each line from its first `--`,
/// replaces the words that are long type names by their short forms, joins
/// the lines and collapses whitespace.
pub fn minify_sql_words(text: &str) -> (r: String)
    ensures
        r@ == word_minified(text@),
{
    let ls = split_lines(&chars_of(text));
    let ghost gl = lines_of(text@);
    let mut out: Vec<char> = Vec::new();
    let mut k: usize = 0;
    while k < ls.len()
        invariant
            k <= ls.len(),
            ls.len() == gl.len(),
            forall|m: int| 0 <= m < ls.len() ==> #[trigger] ls[m]@ == gl[m],
            out@ == joined_line_words(gl.take(k as int)),
        decreases ls.len() - k,
    {
        push_line_words(&mut out, &ls[k]);
        proof {
            assert(gl.take(k as int + 1).drop_last() =~= gl.take(k as int));
        }
        k = k + 1;
    }
    proof {
        assert(gl.take(k as int) =~= gl);
    }
    string_of(&collapse_whitespace(&out))
}

} // verus!
