use codeblock_highlight::codeblock::{pick_background, pre_style_attr, CodeBlock};
use codeblock_highlight::markup::{emit_class_line, pushes_fit, ClassToken, ScopeEvent};
use codeblock_highlight::resolve::{resolve_syntax_and_theme, ConfigError, HighlightConfig, SyntaxSource};
use codeblock_highlight::Rgba;
use syntect::highlighting::ThemeSet;
use syntect::parsing::{SyntaxSet, SyntaxSetBuilder};

fn config(theme: &str) -> HighlightConfig {
    HighlightConfig::new(
        theme.to_string(),
        SyntaxSet::load_defaults_newlines(),
        None,
        ThemeSet::load_defaults(),
    )
    .unwrap()
}

fn render(language: Option<&str>, text: &str, theme: &str) -> String {
    let cfg = config(theme);
    let mut block = CodeBlock::new(language, &cfg);
    block.add_text(text);
    block.highlight()
}

fn count(haystack: &str, needle: &str) -> usize {
    haystack.matches(needle).count()
}

#[test]
fn plain_text_class_mode() {
    let html = render(None, "hello\n", "css");
    assert_eq!(
        html,
        "<pre class=\"code\"><code><span class=\"text plain\">hello\n</span></code></pre>"
    );
}

#[test]
fn unresolved_language_class_mode() {
    let html = render(Some("not-a-real-language"), "x", "css");
    assert_eq!(
        html,
        "<pre class=\"code\"><code class=\"language-not-a-real-language\"><span class=\"text plain\">x</span></code></pre>"
    );
}

#[test]
fn unresolved_language_falls_back_to_plain_text() {
    let cfg = config("css");
    let r = resolve_syntax_and_theme(Some("not-a-real-language"), &cfg);
    assert_eq!(r.source, SyntaxSource::PlainText);
    assert_eq!(r.syntax.name, "Plain Text");
    assert!(r.theme.is_none());
    let r = resolve_syntax_and_theme(None, &cfg);
    assert_eq!(r.source, SyntaxSource::PlainText);
    let r = resolve_syntax_and_theme(Some("rs"), &cfg);
    assert_eq!(r.source, SyntaxSource::Primary);
    assert_eq!(r.syntax.name, "Rust");
}

#[test]
fn named_theme_is_resolved() {
    let cfg = config("base16-ocean.dark");
    let r = resolve_syntax_and_theme(Some("rust"), &cfg);
    assert!(r.theme.is_some());
    assert_eq!(r.source, SyntaxSource::Primary);
}

#[test]
fn unknown_theme_is_a_config_error() {
    let r = HighlightConfig::new(
        "no-such-theme".to_string(),
        SyntaxSet::load_defaults_newlines(),
        None,
        ThemeSet::load_defaults(),
    );
    assert!(matches!(r, Err(ConfigError::UnknownTheme(ref n)) if n == "no-such-theme"));
}

#[test]
fn missing_plain_text_is_a_config_error() {
    let r = HighlightConfig::new(
        "css".to_string(),
        SyntaxSet::default(),
        None,
        ThemeSet::load_defaults(),
    );
    assert!(matches!(r, Err(ConfigError::MissingPlainText)));
}

#[test]
fn unterminated_comment_closes_every_span() {
    let html = render(Some("rust"), "fn main() {\n/* open comment\nstill open\n", "css");
    assert!(count(&html, "<span") > 0);
    assert_eq!(count(&html, "<span"), count(&html, "</span>"));
    assert!(html.ends_with("</span></code></pre>"));
}

#[test]
fn class_mode_tags_balance_on_code() {
    let html = render(Some("rust"), "let s = \"a\";\n// note\nfn f() -> u8 { 1 }\n", "css");
    assert_eq!(count(&html, "<span"), count(&html, "</span>"));
}

#[test]
fn rendering_twice_gives_same_output() {
    let text = "fn main() { println!(\"hi\"); }\n";
    assert_eq!(render(Some("rust"), text, "css"), render(Some("rust"), text, "css"));
    assert_eq!(
        render(Some("rust"), text, "base16-ocean.dark"),
        render(Some("rust"), text, "base16-ocean.dark")
    );
}

#[test]
fn special_characters_are_escaped_in_class_mode() {
    let html = render(None, "<a href=\"x\">&</a>\n", "css");
    assert!(html.contains("&lt;a href=&quot;x&quot;&gt;&amp;&lt;/a&gt;"));
    assert!(!html.contains("<a"));
    assert!(!html.contains("href=\""));
}

#[test]
fn special_characters_are_escaped_in_inline_mode() {
    let html = render(None, "<b>&\n", "base16-ocean.dark");
    assert!(html.contains("&lt;b&gt;&amp;"));
    assert!(!html.contains("<b>"));
}

#[test]
fn class_mode_has_no_inline_colours() {
    let html = render(Some("rust"), "fn main() {}\n", "css");
    assert!(!html.contains("style=\""));
    assert!(html.starts_with("<pre class=\"code\"><code class=\"language-rust\">"));
}

#[test]
fn inline_mode_has_no_scope_classes() {
    let html = render(Some("rust"), "fn main() {}\n", "base16-ocean.dark");
    assert!(!html.contains("<span class="));
    assert!(html.contains("style=\"color:"));
    assert!(html.starts_with("<pre style=\"background-color:#"));
    assert!(html.ends_with("</code></pre>"));
}

#[test]
fn background_attribute_from_theme_colour() {
    let c = Rgba { r: 40, g: 42, b: 54, a: 255 };
    assert_eq!(pre_style_attr(c), "<pre style=\"background-color:#282a36;\">");
}

#[test]
fn background_defaults_to_white() {
    let c = pick_background(None);
    assert_eq!(pre_style_attr(c), "<pre style=\"background-color:#ffffff;\">");
    let own = Rgba { r: 1, g: 2, b: 3, a: 4 };
    assert_eq!(pick_background(Some(own)), own);
}

#[test]
fn themed_block_uses_theme_background() {
    let html = render(None, "x\n", "base16-ocean.dark");
    assert!(html.starts_with("<pre style=\"background-color:#2b303b;\"><code>"));
}

#[test]
fn emitter_opens_and_closes_spans() {
    let tokens = vec![
        ClassToken { offset: 2, events: vec![ScopeEvent::Push("string.quoted".to_string())] },
        ClassToken { offset: 5, events: vec![ScopeEvent::Pop] },
    ];
    let mut html = String::new();
    let mut pending: usize = 0;
    emit_class_line("a=\"b\"<\n", &tokens, &mut html, &mut pending);
    assert_eq!(html, "a=<span class=\"string quoted\">&quot;b&quot;</span>&lt;\n");
    assert_eq!(pending, 0);
}

#[test]
fn emitter_ignores_pop_with_nothing_open() {
    let tokens = vec![ClassToken { offset: 1, events: vec![ScopeEvent::Pop, ScopeEvent::Pop] }];
    let mut html = String::new();
    let mut pending: usize = 0;
    emit_class_line("ab", &tokens, &mut html, &mut pending);
    assert_eq!(html, "ab");
    assert_eq!(pending, 0);
}

#[test]
fn emitter_carries_open_spans() {
    let tokens = vec![ClassToken { offset: 0, events: vec![ScopeEvent::Push("comment".to_string())] }];
    let mut html = String::new();
    let mut pending: usize = 1;
    emit_class_line("x", &tokens, &mut html, &mut pending);
    assert_eq!(html, "<span class=\"comment\">x");
    assert_eq!(pending, 2);
}

#[test]
fn emitter_rounds_offsets_to_character_boundaries() {
    // 'é' takes two bytes; offset 2 falls inside it and moves to 3.
    let tokens = vec![
        ClassToken { offset: 2, events: vec![ScopeEvent::Push("x".to_string())] },
        ClassToken { offset: 1, events: vec![ScopeEvent::Pop] },
        ClassToken { offset: 99, events: vec![] },
    ];
    let mut html = String::new();
    let mut pending: usize = 0;
    emit_class_line("aéb", &tokens, &mut html, &mut pending);
    assert_eq!(html, "a\u{e9}<span class=\"x\"></span>b");
    assert_eq!(pending, 0);
}

#[test]
fn push_count_overflow_is_detected() {
    let tokens = vec![ClassToken { offset: 0, events: vec![ScopeEvent::Push("a".to_string()), ScopeEvent::Pop] }];
    assert!(pushes_fit(&tokens, usize::MAX - 1));
    assert!(!pushes_fit(&tokens, usize::MAX));
    assert!(pushes_fit(&vec![], usize::MAX));
}

#[test]
fn extra_catalog_is_searched_after_the_main_one() {
    let mut builder = SyntaxSetBuilder::new();
    builder.add_plain_text_syntax();
    let cfg = HighlightConfig::new(
        "css".to_string(),
        builder.build(),
        Some(SyntaxSet::load_defaults_newlines()),
        ThemeSet::load_defaults(),
    )
    .unwrap();
    let r = resolve_syntax_and_theme(Some("rust"), &cfg);
    assert_eq!(r.source, SyntaxSource::Extra);
    assert_eq!(r.syntax.name, "Rust");
    let r = resolve_syntax_and_theme(Some("nothing-knows-this"), &cfg);
    assert_eq!(r.source, SyntaxSource::PlainText);
    let mut block = CodeBlock::new(Some("rust"), &cfg);
    block.add_text("fn f() {}\n");
    let html = block.highlight();
    assert!(html.contains("<span class=\"source rust\">"));
    assert_eq!(count(&html, "<span"), count(&html, "</span>"));
}

#[test]
fn lines_are_rendered_in_order() {
    let html = render(None, "a\nb\nc", "css");
    assert_eq!(
        html,
        "<pre class=\"code\"><code><span class=\"text plain\">a\nb\nc</span></code></pre>"
    );
}

#[test]
fn empty_block_renders_empty_code() {
    assert_eq!(render(None, "", "css"), "<pre class=\"code\"><code></code></pre>");
}

#[test]
fn language_token_is_escaped_in_code_class() {
    let html = render(Some("x\" style=\"color:red"), "a\n", "css");
    assert!(html.contains("<code class=\"language-x&quot; style=&quot;color:red\">"));
    assert!(!html.contains("style=\"color:"));
}

#[test]
fn inline_mode_escapes_quotes_and_tags() {
    let html = render(Some("rust"), "let s = \"<b>\";\n", "base16-ocean.dark");
    assert!(html.contains("&lt;b&gt;"));
    assert!(!html.contains("<b>"));
    assert!(!html.contains("class=\"source"));
}
