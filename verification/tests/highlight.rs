use gitbook_pages::highlight::{escape, highlight, language, Language};

#[test]
fn sql_keywords_are_wrapped() {
    let html = highlight(Some("sql"), "SELECT a AS b FROM t WHERE x < 1 ORDER BY a;");
    assert_eq!(
        html,
        "<span class=\"syntax-highlight\">SELECT</span> a <span class=\"syntax-highlight\">AS</span> b <span class=\"syntax-highlight\">FROM</span> t <span class=\"syntax-highlight\">WHERE</span> x &lt; 1 <span class=\"syntax-highlight\">ORDER BY</span> a;"
    );
}

#[test]
fn longer_keyword_wins_over_its_prefix() {
    assert_eq!(
        highlight(Some("postgresql"), "CREATE TABLE t"),
        "<span class=\"syntax-highlight\">CREATE TABLE</span> t"
    );
    assert_eq!(
        highlight(Some("postgresql"), "CREATE VIEW v"),
        "<span class=\"syntax-highlight\">CREATE</span> VIEW v"
    );
}

#[test]
fn keywords_inside_words_are_left_alone() {
    assert_eq!(highlight(Some("sql"), "SELECTED"), "SELECTED");
    assert_eq!(highlight(Some("sql"), "ALIAS_AS"), "ALIAS_AS");
    assert_eq!(highlight(Some("sql"), "select"), "select");
    assert_eq!(
        highlight(Some("sql"), "(IN)"),
        "(<span class=\"syntax-highlight\">IN</span>)"
    );
}

#[test]
fn shell_keywords_are_wrapped() {
    assert_eq!(
        highlight(Some("bash"), "sudo echo \"hi\" && cd /tmp"),
        "<span class=\"syntax-highlight\">sudo</span> <span class=\"syntax-highlight\">echo</span> &quot;hi&quot; &amp;&amp; <span class=\"syntax-highlight\">cd</span> /tmp"
    );
}

#[test]
fn unknown_or_absent_language_is_plain() {
    let code = "SELECT <a> FROM \"t\" & u;";
    let plain = "SELECT &lt;a&gt; FROM &quot;t&quot; &amp; u;";
    assert_eq!(highlight(Some("rust"), code), plain);
    assert_eq!(highlight(Some(""), code), plain);
    assert_eq!(highlight(Some("SQL"), code), plain);
    assert_eq!(highlight(None, code), plain);
    assert!(!highlight(None, code).contains("<span class=\"syntax-highlight\">"));
}

#[test]
fn empty_code_gives_nothing() {
    assert_eq!(highlight(Some("sql"), ""), "");
    assert_eq!(highlight(None, ""), "");
}

#[test]
fn escape_replaces_the_four_characters() {
    assert_eq!(escape("a < b > c & d \"e\" 'f'"), "a &lt; b &gt; c &amp; d &quot;e&quot; 'f'");
    assert_eq!(escape(""), "");
    assert_eq!(escape("héllo"), "héllo");
}

#[test]
fn tags_name_languages() {
    assert_eq!(language("sql"), Some(Language::Sql));
    assert_eq!(language("postgresql"), Some(Language::Sql));
    assert_eq!(language("postgres"), Some(Language::Sql));
    assert_eq!(language("bash"), Some(Language::Shell));
    assert_eq!(language("sh"), Some(Language::Shell));
    assert_eq!(language("python"), None);
    assert_eq!(language(""), None);
}
