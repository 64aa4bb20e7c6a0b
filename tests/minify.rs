use sql_minifier::comments::{remove_multiline_comments, remove_single_line_comments};
use sql_minifier::paths::minified_path;
use sql_minifier::keywords::{abbreviate, long_format_types, Dialect};
use sql_minifier::types::{minify_sql_words, Sqltypes};
use sql_minifier::{minify_sql, minify_sql_for};

const TAXA: &str = "-- Your SQL goes here
CREATE TABLE IF NOT EXISTS taxa (
    -- The unique identifier for the taxon
    id UUID PRIMARY KEY,
    -- The scientific name of the taxon
    name TEXT NOT NULL,
    -- The NCBI Taxon ID is a unique identifier for a taxon in the NCBI Taxonomy database
    -- which may be NULL when this taxon is not present in the NCBI Taxonomy database.
    ncbi_taxon_id INTEGER
);
";

#[test]
fn test_minification_test_parse_file() {
    let content = minify_sql(TAXA);
    assert_eq!(
        content,
        "CREATE TABLE IF NOT EXISTS taxa(id UUID PRIMARY KEY,name TEXT NOT NULL,ncbi_taxon_id INT)"
    );
    assert_ne!(content, "hello");
}

#[test]
fn minifier_test_parse_file() {
    let expected = "CREATE TABLE IF NOT EXISTS taxa ( id UUID PRIMARY KEY, name TEXT NOT NULL, ncbi_taxon_id INT);";
    let content = minify_sql_words(TAXA);
    assert_eq!(content, expected);
    assert_ne!(content, "hello");
}

#[test]
fn file_parser_test_parse_file() {
    let content = minify_sql_words(TAXA);
    assert_eq!(
        content,
        "CREATE TABLE IF NOT EXISTS taxa ( id UUID PRIMARY KEY, name TEXT NOT NULL, ncbi_taxon_id INT);"
    );
    assert_ne!(content, "hello");
}

#[test]
fn table_with_comments_and_types() {
    let input = "/* A table of
   projects */
CREATE TABLE projects (
    id INTEGER PRIMARY KEY, -- the key
    public BOOLEAN NOT NULL DEFAULT TRUE, -- visible
    parent_id INTEGER REFERENCES projects (id)
        ON DELETE CASCADE -- removed with the parent
);
";
    assert_eq!(
        minify_sql(input),
        "CREATE TABLE projects(id INT PRIMARY KEY,public BOOL NOT NULL DEFAULT TRUE,parent_id INT REFERENCES projects(id)ON DELETE CASCADE)"
    );
}

#[test]
fn identifier_holding_a_keyword_is_kept() {
    assert_eq!(
        minify_sql("CREATE TABLE t (a INTEGERVALUE INT);"),
        "CREATE TABLE t(a INTEGERVALUE INT)"
    );
    assert_eq!(minify_sql("SELECT integervalue, XINTEGER, INTEGER_A FROM t"), "SELECT integervalue,XINTEGER,INTEGER_A FROM t");
}

#[test]
fn table_name_with_type() {
    assert_eq!(
        minify_sql("CREATE TABLE INTEGER_values (v INTEGER, d DECIMAL);"),
        "CREATE TABLE INTEGER_values(v INT,d DEC)"
    );
}

#[test]
fn line_marker_inside_block_comment() {
    assert_eq!(minify_sql("SELECT /* a -- b */ 1;"), "SELECT 1");
    assert_eq!(minify_sql("SELECT 1 /* --\n */ + 2"), "SELECT 1+2");
}

#[test]
fn nested_block_comments() {
    assert_eq!(minify_sql("SELECT /* a /* b */ c */ 1"), "SELECT 1");
    assert_eq!(minify_sql("A /* x /* y */ z */ B /* w */ C"), "A B C");
}

#[test]
fn unterminated_block_comment_drops_the_rest() {
    assert_eq!(minify_sql("SELECT 1 /* open /* still */ open"), "SELECT 1");
    assert_eq!(minify_sql("SELECT 1 /* never closed"), "SELECT 1");
}

#[test]
fn lone_slash_is_kept() {
    assert_eq!(minify_sql("SELECT a / b FROM t"), "SELECT a/b FROM t");
    assert_eq!(minify_sql("SELECT a */ b"), "SELECT a*/b");
}

#[test]
fn terminator_trimmed_once() {
    assert_eq!(minify_sql("INSERT INTO t VALUES (1);"), "INSERT INTO t VALUES(1)");
    assert_eq!(minify_sql("INSERT INTO t VALUES (1);;"), "INSERT INTO t VALUES(1);");
    assert_eq!(minify_sql("SELECT 1"), "SELECT 1");
}

#[test]
fn whitespace_collapsed() {
    assert_eq!(minify_sql("  SELECT\t\ta ,\r\n  b\n\nFROM   t  "), "SELECT a,b FROM t");
    assert_eq!(minify_sql(""), "");
    assert_eq!(minify_sql("   \n\t "), "");
}

#[test]
fn spaces_around_operators_removed() {
    assert_eq!(
        minify_sql("SELECT a + b * c - d / e FROM t WHERE a >= 1 AND b <= 2 AND c <> 3 AND d != 4 AND e = 5 AND f < 6 AND g > 7"),
        "SELECT a+b*c-d/e FROM t WHERE a>=1 AND b<=2 AND c<>3 AND d!=4 AND e=5 AND f<6 AND g>7"
    );
}

#[test]
fn line_comment_keeps_lines_apart() {
    assert_eq!(minify_sql("SELECT a -- first\nFROM t"), "SELECT a FROM t");
    assert_eq!(minify_sql("SELECT a--b\r\nFROM t"), "SELECT a FROM t");
}

#[test]
fn minify_twice_is_stable() {
    let once = minify_sql(TAXA);
    assert_eq!(minify_sql(&once), once);
}

#[test]
fn comment_between_tokens_changes_nothing() {
    let plain = minify_sql("SELECT a FROM t");
    assert_eq!(minify_sql("SELECT /* c */ a FROM t"), plain);
    assert_eq!(minify_sql("SELECT a -- c\nFROM t"), plain);
}

#[test]
fn dialects_choose_abbreviations() {
    let input = "CREATE TEMPORARY TABLE t (a INTEGER, b BOOLEAN, c CHARACTER(2), d DECIMAL)";
    assert_eq!(
        minify_sql_for(input, Dialect::Standard),
        "CREATE TEMP TABLE t(a INT,b BOOL,c CHAR(2),d DEC)"
    );
    assert_eq!(
        minify_sql_for(input, Dialect::Sqlite),
        "CREATE TEMP TABLE t(a INTEGER,b BOOL,c CHAR(2),d DEC)"
    );
    assert_eq!(
        minify_sql_for(input, Dialect::GlueSql),
        "CREATE TEMP TABLE t(a INT,b BOOLEAN,c CHAR(2),d DEC)"
    );
    assert_eq!(long_format_types(Dialect::Standard).len(), 5);
    assert_eq!(long_format_types(Dialect::Sqlite)[0], ("BOOLEAN", "BOOL"));
}

#[test]
fn abbreviation_on_whole_words() {
    assert_eq!(abbreviate("a INTEGER,b", Dialect::Standard), "a INT,b");
    assert_eq!(abbreviate("INTEGERS INTEGER", Dialect::Standard), "INTEGERS INT");
    assert_eq!(abbreviate("éINTEGER INTEGERé", Dialect::Standard), "éINTEGER INTEGERé");
}

#[test]
fn sqltypes_forms() {
    assert_eq!(Sqltypes::try_from("INTEGER").unwrap().to_string(), "INT");
    assert_eq!(Sqltypes::try_from("BOOLEAN,").unwrap().to_string(), "BOOL,");
    assert_eq!(Sqltypes::try_from("CHARACTER").unwrap(), Sqltypes::Character);
    assert_eq!(Sqltypes::try_from("DECIMAL,").unwrap(), Sqltypes::DecimalComma);
    assert_eq!(Sqltypes::try_from("integer"), Err("Invalid type"));
    assert_eq!(Sqltypes::try_from("TEMPORARY"), Err("Invalid type"));
}

#[test]
fn word_minifier_quirks() {
    assert_eq!(minify_sql_words("a INTEGER\nb BOOLEAN, -- x\nc"), "a INTb BOOL, c");
    assert_eq!(minify_sql_words("abc--x\ny"), "y");
    assert_eq!(minify_sql_words("a - b"), "a - b");
}

#[test]
fn minified_file_names() {
    assert_eq!(minified_path("file.sql"), Some("file_minified.sql".to_string()));
    assert_eq!(minified_path("dir.v2/file.tar.sql"), Some("dir.v2/file.tar_minified.sql".to_string()));
    assert_eq!(minified_path("noext"), None);
}

#[test]
fn block_comment_stripper() {
    assert_eq!(remove_multiline_comments("a /* b */ c"), "a  c");
    assert_eq!(remove_multiline_comments("a /* b /* c */ d */ e"), "a  e");
    assert_eq!(remove_multiline_comments("a/b"), "a/b");
    assert_eq!(remove_multiline_comments("a//b"), "a//b");
    assert_eq!(remove_multiline_comments("a/"), "a/");
    assert_eq!(remove_multiline_comments("a///*x*/b"), "a//b");
    assert_eq!(remove_multiline_comments("a/ /*x*/"), "a/ ");
    assert_eq!(remove_multiline_comments("a */ b"), "a */ b");
    assert_eq!(remove_multiline_comments("a /* -- b */ c"), "a  c");
}

#[test]
fn line_comment_stripper() {
    assert_eq!(remove_single_line_comments("a -- b\nc"), "a  c ");
    assert_eq!(remove_single_line_comments("a\r\nb\n"), "a b ");
    assert_eq!(remove_single_line_comments("a---b"), "a ");
    assert_eq!(remove_single_line_comments("a - b"), "a - b ");
    assert_eq!(remove_single_line_comments(""), "");
    assert_eq!(remove_single_line_comments("\n\n"), "  ");
}

#[test]
fn keyword_identifier_minified_to_itself() {
    assert_eq!(minify_sql("INTEGERVALUE"), "INTEGERVALUE");
    assert_eq!(minify_sql("BOOLEAN_flag"), "BOOLEAN_flag");
    assert_eq!(minify_sql("TEMPORARY2"), "TEMPORARY2");
}

#[test]
fn space_before_not_equal_kept_when_split() {
    assert_eq!(minify_sql("a ! = b"), "a !=b");
    assert_eq!(minify_sql("a != b"), "a!=b");
}

#[test]
fn block_comment_inserted_anywhere_outside_comments() {
    let plain = minify_sql("SELECT a, b FROM t WHERE a > 1;");
    assert_eq!(minify_sql("SELECT a,/* x */ b FROM t WHERE a > 1;"), plain);
    assert_eq!(minify_sql("SELECT a, b FROM t WHERE a >/* x */ 1;"), plain);
    assert_eq!(minify_sql("SELECT a, b FROM t WHERE a > 1;/* x */"), plain);
}

#[test]
fn comment_bodies_with_stars_and_slashes() {
    assert_eq!(remove_multiline_comments("a /* a*b */ c"), "a  c");
    assert_eq!(remove_multiline_comments("a /* 1/2 */ c"), "a  c");
    assert_eq!(remove_multiline_comments("a /* x /* y*z */ 1/2 **/ c"), "a  c");
    assert_eq!(remove_multiline_comments("a/* x */b/c"), "ab/c");
}

#[test]
fn excess_opener_drops_to_end() {
    assert_eq!(remove_multiline_comments("SELECT 1 /* a /* b */ c"), "SELECT 1 ");
    assert_eq!(remove_multiline_comments("x//* a"), "x/");
}

#[test]
fn trailing_slash_survives_minify() {
    assert_eq!(minify_sql("SELECT a / b /"), "SELECT a/b/");
    assert_eq!(minify_sql("SELECT 6 // 2"), "SELECT 6//2");
}
