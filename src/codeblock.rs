//! A fenced block: its text is gathered, then rendered once into HTML.
use syntect::highlighting::Theme;
use syntect::parsing::{ParseState, ScopeStack, ScopeStackOp, SyntaxReference, SyntaxSet};
use vstd::prelude::*;
use vstd::string::*;

use crate::markup::{
    starts_entity,    attribute_quote, inline_colour_attr, lemma_escape_is_inert, lemma_render_quotes,
    block_markup, block_pending, class_body, closing, emit_class_line, lemma_render_append,
    pushes_fit, render, ClassToken, ScopeEvent, TokenView, tokens_view,
};
use crate::trusted::{
    append_escaped, escape, grammars, inline_styled, state_fits, theme_bg, concat_pieces,
    is_prefix, on_boundaries, run_escape, run_escape_char, run_texts, styled_as, well_placed, char_boundary, append_styled_html, apply_scope_op, is_line_split, new_highlight_state, new_highlighter,
    new_parse_state, new_scope_stack, parse_line, push_char, scope_name, split_lines, str_views,
    styled_runs, theme_background, Rgba, StackChange,
};
use crate::resolve::{
    class_sentinel, opt_view, resolve_syntax_and_theme, resolved_catalog, resolved_syntax,
    resolved_theme, theme_view, HighlightConfig, SyntaxAndTheme,
};

verus! {

/// Lower-case hexadecimal digits.
pub open spec fn hex_digits() -> Seq<char> {
    seq!['0', '1', '2', '3', '4', '5', '6', '7', '8', '9', 'a', 'b', 'c', 'd', 'e', 'f']
}

/// A byte as two lower-case hexadecimal digits.
pub open spec fn hex_byte(b: u8) -> Seq<char> {
    seq![hex_digits()[b as int / 16], hex_digits()[b as int % 16]]
}

/// The background of a theme: its own, else white.
pub open spec fn background_or_white(bg: Option<Rgba>) -> Rgba {
    match bg {
        Some(c) => c,
        None => Rgba { r: 0xFF, g: 0xFF, b: 0xFF, a: 0xFF },
    }
}

/// `<pre>` of class output.
pub open spec fn pre_class_tag() -> Seq<char> {
    "<pre class=\"code\">"@
}

/// `<pre>` of inline output, painted with the theme's background.
pub open spec fn pre_style_tag(c: Rgba) -> Seq<char> {
    "<pre style=\"background-color:#"@ + hex_byte(c.r) + hex_byte(c.g) + hex_byte(c.b) + ";\">"@
}

/// `<code>`, with a `language-` class when a language token was given.
pub open spec fn code_tag(language: Option<Seq<char>>) -> Seq<char> {
    match language {
        Some(l) => "<code class=\"language-"@ + escape(l) + "\">"@,
        None => "<code>"@,
    }
}

pub open spec fn page_end() -> Seq<char> {
    "</code></pre>"@
}

/// A themed page around the styled body.
pub open spec fn styled_page(c: Rgba, language: Option<Seq<char>>, body: Seq<char>) -> Seq<char> {
    pre_style_tag(c) + code_tag(language) + body + page_end()
}

/// One line of themed output: the escaped texts of its styled runs, which
/// spell the start of the line, each after its tag.
pub open spec fn styled_line(piece: Seq<char>, line: Seq<char>) -> bool {
    exists|tags: Seq<Seq<char>>, texts: Seq<Seq<char>>|
        #[trigger] styled_as(piece, tags, texts) && is_prefix(concat_pieces(texts), line)
}

/// Themed output of all lines, one piece per line.
pub open spec fn styled_body(lines: Seq<Seq<char>>, pieces: Seq<Seq<char>>) -> bool {
    &&& pieces.len() == lines.len()
    &&& forall|k: int| 0 <= k < pieces.len() ==> styled_line(#[trigger] pieces[k], lines[k])
    &&& forall|k: int| 0 <= k < pieces.len() ==> inline_styled(#[trigger] pieces[k])
}

/// Appends a byte as two hexadecimal digits.
fn push_hex_byte(html: &mut String, b: u8)
    ensures
        final(html)@ == old(html)@ + hex_byte(b),
{
    let digits = "0123456789abcdef";
    proof {
        reveal_strlit("0123456789abcdef");
        assert(digits@ =~= hex_digits());
    }
    push_char(html, digits.get_char((b / 16) as usize));
    push_char(html, digits.get_char((b % 16) as usize));
    assert(html@ =~= old(html)@ + hex_byte(b));
}

/// The opening `<pre>` for a background colour.
pub fn pre_style_attr(color: Rgba) -> (r: String)
    ensures
        r@ == pre_style_tag(color),
{
    let mut s = String::from_str("<pre style=\"background-color:#");
    push_hex_byte(&mut s, color.r);
    push_hex_byte(&mut s, color.g);
    push_hex_byte(&mut s, color.b);
    s.append(";\">");
    assert(s@ =~= pre_style_tag(color));
    s
}

/// The theme's own background if it sets one, else white.
pub fn pick_background(bg: Option<Rgba>) -> (r: Rgba)
    ensures
        r == background_or_white(bg),
{
    match bg {
        Some(c) => c,
        None => Rgba { r: 0xFF, g: 0xFF, b: 0xFF, a: 0xFF },
    }
}

/// The background colour that the `<pre>` of a themed block is painted with.
fn get_theme_background(theme: &Theme) -> (r: Rgba)
    ensures
        r == background_or_white(theme_bg(*theme)),
{
    let bg = theme_background(theme);
    pick_background(bg)
}

/// The scope changes of one batch, with each pushed scope spelled out.
fn scope_events(changes: &Vec<StackChange>) -> (r: Vec<ScopeEvent>)
    ensures
        r@.len() == changes@.len(),
        forall|i: int| 0 <= i < r@.len() ==> (#[trigger] r@[i] is Pop) == (changes@[i] is Pop),
{
    let mut events: Vec<ScopeEvent> = Vec::new();
    let mut k: usize = 0;
    while k < changes.len()
        invariant
            k <= changes@.len(),
            events@.len() == k,
            forall|i: int| 0 <= i < k ==> (#[trigger] events@[i] is Pop) == (changes@[i] is Pop),
        decreases changes@.len() - k,
    {
        match &changes[k] {
            StackChange::Push(scope) => events.push(ScopeEvent::Push(scope_name(*scope))),
            StackChange::Pop => events.push(ScopeEvent::Pop),
        }
        k = k + 1;
    }
    events
}

/// The tokenizer's operations of one line, applied to the scope stack in
/// order, as class tokens at the same offsets.
fn class_tokens(ops: &Vec<(usize, ScopeStackOp)>, stack: &mut ScopeStack) -> (r: Vec<ClassToken>)
    ensures
        r@.len() == ops@.len(),
        forall|i: int| 0 <= i < r@.len() ==> (#[trigger] r@[i]).offset == ops@[i].0,
{
    let mut tokens: Vec<ClassToken> = Vec::new();
    let mut k: usize = 0;
    while k < ops.len()
        invariant
            k <= ops@.len(),
            tokens@.len() == k,
            forall|i: int| 0 <= i < k ==> (#[trigger] tokens@[i]).offset == ops@[i].0,
        decreases ops@.len() - k,
    {
        let changes = apply_scope_op(stack, &ops[k].1);
        let events = scope_events(&changes);
        tokens.push(ClassToken { offset: ops[k].0, events });
        k = k + 1;
    }
    tokens
}

proof fn lemma_block_prefix(
    lines: Seq<Seq<char>>,
    a: Seq<Seq<TokenView>>,
    b: Seq<Seq<TokenView>>,
    i: int,
)
    requires
        0 <= i <= a.len(),
        i <= b.len(),
        forall|j: int| 0 <= j < i ==> a[j] == b[j],
    ensures
        block_markup(lines, a, i) == block_markup(lines, b, i),
        block_pending(a, i) == block_pending(b, i),
    decreases i,
{
    if i > 0 {
        lemma_block_prefix(lines, a, b, i - 1);
    }
}

/// Appends the class-mode HTML of all lines, closing at the end every span
/// still open.
fn class_lines(
    lines: &Vec<&str>,
    parser: &mut ParseState,
    syntax_set: &SyntaxSet,
    html: &mut String,
)
    requires
        state_fits(*old(parser), *syntax_set),
    ensures
        exists|toks: Seq<Seq<TokenView>>|
            toks.len() == lines@.len() && final(html)@ == old(html)@ + render(
                #[trigger] class_body(str_views(lines@), toks),
            ),
{
    let ghost lv = str_views(lines@);
    let ghost mut toks: Seq<Seq<TokenView>> = Seq::new(lv.len(), |_i: int| Seq::<TokenView>::empty());
    let mut stack = new_scope_stack();
    let mut pending: usize = 0;
    let mut i: usize = 0;
    while i < lines.len()
        invariant
            i <= lines@.len(),
            lv == str_views(lines@),
            toks.len() == lv.len(),
            html@ == old(html)@ + render(block_markup(lv, toks, i as int)),
            pending == block_pending(toks, i as int),
            state_fits(*parser, *syntax_set),
        decreases lines@.len() - i,
    {
        let line: &str = lines[i];
        let ops = match parse_line(parser, line, syntax_set) {
            Ok(v) => v,
            Err(_) => Vec::new(),
        };
        let mut tokens = class_tokens(&ops, &mut stack);
        if !pushes_fit(&tokens, pending) {
            tokens = Vec::new();
        }
        emit_class_line(line, &tokens, html, &mut pending);
        proof {
            let t = tokens_view(tokens@);
            let toks2 = toks.update(i as int, t);
            lemma_block_prefix(lv, toks, toks2, i as int);
            toks = toks2;
            lemma_render_append(
                block_markup(lv, toks, i as int),
                crate::markup::line_markup(lv[i as int], t, block_pending(toks, i as int)),
            );
            assert(block_markup(lv, toks, i as int + 1) == block_markup(lv, toks, i as int)
                + crate::markup::line_markup(lv[i as int], t, block_pending(toks, i as int)));
        }
        i = i + 1;
    }
    let ghost body = html@;
    let ghost n = lv.len() as int;
    let mut k: usize = 0;
    while k < pending
        invariant
            k <= pending,
            html@ == body + render(closing(k as nat)),
        decreases pending - k,
    {
        html.append("</span>");
        proof {
            reveal_strlit("</span>");
            assert(closing((k + 1) as nat).drop_last() =~= closing(k as nat));
            assert(html@ =~= body + render(closing((k + 1) as nat)));
        }
        k = k + 1;
    }
    proof {
        lemma_render_append(block_markup(lv, toks, n), closing(block_pending(toks, n)));
        assert(html@ =~= old(html)@ + render(class_body(lv, toks)));
    }
}

/// The operations in the same order, each offset raised to the largest one
/// before it, so that offsets never decrease.
fn monotone_ops(ops: Vec<(usize, ScopeStackOp)>, line: &str) -> (r: Vec<(usize, ScopeStackOp)>)
    requires
        on_boundaries(ops@, line.spec_bytes()),
    ensures
        well_placed(r@, line.spec_bytes()),
{
    let ghost bs = line.spec_bytes();
    let mut rest = ops;
    let mut reversed: Vec<(usize, ScopeStackOp)> = Vec::new();
    while rest.len() > 0
        invariant
            on_boundaries(rest@, bs),
            on_boundaries(reversed@, bs),
        decreases rest@.len(),
    {
        match rest.pop() {
            Some(op) => {
                reversed.push(op);
            },
            None => {},
        }
    }
    let mut out: Vec<(usize, ScopeStackOp)> = Vec::new();
    let mut cur: usize = 0;
    while reversed.len() > 0
        invariant
            on_boundaries(reversed@, bs),
            well_placed(out@, bs),
            cur <= bs.len(),
            char_boundary(bs, cur as int),
            forall|i: int| 0 <= i < out@.len() ==> (#[trigger] out@[i]).0 <= cur,
        decreases reversed@.len(),
    {
        match reversed.pop() {
            Some((off, op)) => {
                let o = if off > cur { off } else { cur };
                cur = o;
                out.push((o, op));
            },
            None => {},
        }
    }
    out
}

/// Appends the inline-styled HTML of all lines, one piece per line.
fn inline_lines(
    lines: &Vec<&str>,
    parser: &mut ParseState,
    syntax_set: &SyntaxSet,
    theme: &Theme,
    background: Rgba,
    html: &mut String,
)
    requires
        state_fits(*old(parser), *syntax_set),
    ensures
        exists|pieces: Seq<Seq<char>>|
            final(html)@ == old(html)@ + #[trigger] concat_pieces(pieces) && styled_body(
                str_views(lines@),
                pieces,
            ),
{
    let ghost lv = str_views(lines@);
    let highlighter = new_highlighter(theme);
    let mut state = new_highlight_state(&highlighter, new_scope_stack());
    let ghost mut pieces: Seq<Seq<char>> = Seq::empty();
    let mut i: usize = 0;
    while i < lines.len()
        invariant
            i <= lines@.len(),
            lv == str_views(lines@),
            pieces.len() == i,
            html@ == old(html)@ + concat_pieces(pieces),
            forall|k: int| 0 <= k < pieces.len() ==> inline_styled(#[trigger] pieces[k]),
            forall|k: int| 0 <= k < pieces.len() ==> styled_line(#[trigger] pieces[k], lv[k]),
            state_fits(*parser, *syntax_set),
        decreases lines@.len() - i,
    {
        let line: &str = lines[i];
        let ops = match parse_line(parser, line, syntax_set) {
            Ok(v) => v,
            Err(_) => Vec::new(),
        };
        let ops = monotone_ops(ops, line);
        let runs = styled_runs(&mut state, &ops, line, &highlighter);
        let ghost before = html@;
        let _ = append_styled_html(&runs, background, html);
        proof {
            let p = html@.subrange(before.len() as int, html@.len() as int);
            assert(html@ =~= before + p);
            let texts = run_texts(runs@);
            let tags = choose|tags: Seq<Seq<char>>| #[trigger] styled_as(p, tags, texts);
            assert(lv[i as int] == line@);
            assert(styled_as(p, tags, texts) && is_prefix(concat_pieces(texts), lv[i as int]));
            assert(styled_line(p, lv[i as int]));
            let ps2 = pieces.push(p);
            assert(ps2.drop_last() =~= pieces);
            pieces = ps2;
        }
        i = i + 1;
    }
}

/// The language token as a plain value.
pub open spec fn language_view(language: Option<String>) -> Option<Seq<char>> {
    match language {
        Some(l) => Some(l@),
        None => None,
    }
}

/// Appends the `<code>` tag, the language token escaped as an attribute value.
fn push_code_tag(html: &mut String, language: &Option<String>)
    ensures
        final(html)@ == old(html)@ + code_tag(language_view(*language)),
{
    match language {
        Some(l) => {
            html.append("<code class=\"language-");
            append_escaped(html, l.as_str());
            html.append("\">");
        },
        None => {
            html.append("<code>");
        },
    }
}

/// A block of source text, its grammar and its theme (none for class output).
pub struct CodeBlock<'config> {
    language: Option<String>,
    syntax: &'config SyntaxReference,
    syntax_set: &'config SyntaxSet,
    theme: Option<&'config Theme>,
    contents: String,
}

impl<'config> CodeBlock<'config> {
    pub closed spec fn language_spec(&self) -> Option<Seq<char>> {
        language_view(self.language)
    }

    pub closed spec fn contents_spec(&self) -> Seq<char> {
        self.contents@
    }

    pub closed spec fn is_class_mode(&self) -> bool {
        self.theme.is_none()
    }

    pub closed spec fn syntax_spec(&self) -> SyntaxReference {
        *self.syntax
    }

    pub closed spec fn catalog_spec(&self) -> SyntaxSet {
        *self.syntax_set
    }

    pub closed spec fn theme_spec(&self) -> Option<Theme> {
        theme_view(self.theme)
    }

    /// The grammar is one of its catalog's, so the tokenizer can run on it.
    pub closed spec fn wf(&self) -> bool {
        grammars(*self.syntax_set).contains(*self.syntax)
    }

    /// A block with no text yet, for an optional language token.
    pub fn new(language: Option<&str>, config: &'config HighlightConfig) -> (r: Self)
        requires
            config.wf(),
        ensures
            r.language_spec() == crate::resolve::opt_view(language),
            r.contents_spec() == Seq::<char>::empty(),
            r.wf(),
            r.syntax_spec() == resolved_syntax(opt_view(language), *config),
            r.catalog_spec() == resolved_catalog(opt_view(language), *config),
            r.theme_spec() == resolved_theme(*config),
            r.is_class_mode() == (config.theme_name() == class_sentinel()),
    {
        let SyntaxAndTheme { syntax, syntax_set, theme, source: _ } = resolve_syntax_and_theme(
            language,
            config,
        );
        let language = match language {
            Some(l) => Some(String::from_str(l)),
            None => None,
        };
        CodeBlock { language, syntax, syntax_set, theme, contents: String::new() }
    }

    /// Appends text as it is; escaping waits for rendering.
    pub fn add_text(&mut self, text: &str)
        ensures
            final(self).contents_spec() == old(self).contents_spec() + text@,
            final(self).language_spec() == old(self).language_spec(),
            final(self).is_class_mode() == old(self).is_class_mode(),
            final(self).syntax_spec() == old(self).syntax_spec(),
            final(self).catalog_spec() == old(self).catalog_spec(),
            final(self).theme_spec() == old(self).theme_spec(),
            final(self).wf() == old(self).wf(),
    {
        self.contents.append(text);
    }

    /// Renders the block. Class output: `<pre class="code">`, then each line's
    /// escaped text with a span per scope, every span closed. Themed output:
    /// `<pre>` painted with the theme's background, then styled runs.
    pub fn highlight(self) -> (r: String)
        requires
            self.wf(),
        ensures
            self.is_class_mode() ==> exists|lines: Seq<Seq<char>>, toks: Seq<Seq<TokenView>>|
                is_line_split(self.contents_spec(), lines) && toks.len() == lines.len() && r@
                    == pre_class_tag() + code_tag(self.language_spec()) + render(
                    #[trigger] class_body(lines, toks),
                ) + page_end(),
            !self.is_class_mode() ==> exists|lines: Seq<Seq<char>>, pieces: Seq<Seq<char>>|
                is_line_split(self.contents_spec(), lines) && r@ == styled_page(
                    background_or_white(theme_bg(self.theme_spec()->Some_0)),
                    self.language_spec(),
                    concat_pieces(pieces),
                ) && #[trigger] styled_body(lines, pieces),
    {
        let lines = split_lines(self.contents.as_str());
        let ghost lv = str_views(lines@);
        let mut parser = new_parse_state(self.syntax, self.syntax_set);
        match self.theme {
            None => {
                let mut html = String::from_str("<pre class=\"code\">");
                push_code_tag(&mut html, &self.language);
                let ghost head = html@;
                class_lines(&lines, &mut parser, self.syntax_set, &mut html);
                let ghost mid = html@;
                html.append("</code></pre>");
                proof {
                    let toks = choose|toks: Seq<Seq<TokenView>>|
                        toks.len() == lines@.len() && mid == head + render(
                            #[trigger] class_body(lv, toks),
                        );
                    assert(html@ =~= pre_class_tag() + code_tag(self.language_spec()) + render(
                        class_body(lv, toks),
                    ) + page_end());
                }
                html
            },
            Some(theme) => {
                let background = get_theme_background(theme);
                let mut html = pre_style_attr(background);
                push_code_tag(&mut html, &self.language);
                let ghost head = html@;
                inline_lines(&lines, &mut parser, self.syntax_set, theme, background, &mut html);
                let ghost mid = html@;
                html.append("</code></pre>");
                proof {
                    let pieces = choose|pieces: Seq<Seq<char>>|
                        mid == head + #[trigger] concat_pieces(pieces) && styled_body(lv, pieces);
                    assert(html@ =~= styled_page(
                        background,
                        self.language_spec(),
                        concat_pieces(pieces),
                    ));
                }
                html
            },
        }
    }
}

/// Each `"` of the text closes `class=` or is followed by `>`.
pub open spec fn quotes_in_tags(t: Seq<char>) -> bool {
    forall|i: int|
        0 <= i < t.len() && #[trigger] t[i] == '"' ==> (6 <= i && t.subrange(i - 6, i) == seq![
            'c',
            'l',
            'a',
            's',
            's',
            '=',
        ]) || (i + 1 < t.len() && t[i + 1] == '>')
}

proof fn lemma_quotes_concat(a: Seq<char>, b: Seq<char>)
    requires
        quotes_in_tags(a),
        quotes_in_tags(b),
    ensures
        quotes_in_tags(a + b),
{
    let e = a + b;
    assert forall|i: int| 0 <= i < e.len() && #[trigger] e[i] == '"' implies (6 <= i
        && e.subrange(i - 6, i) == seq!['c', 'l', 'a', 's', 's', '=']) || (i + 1 < e.len() && e[i
        + 1] == '>') by {
        if i < a.len() {
            assert(a[i] == '"');
            if 6 <= i && a.subrange(i - 6, i) == seq!['c', 'l', 'a', 's', 's', '='] {
                assert(e.subrange(i - 6, i) =~= a.subrange(i - 6, i));
            } else {
                assert(e[i + 1] == a[i + 1]);
            }
        } else {
            let j = i - a.len();
            assert(b[j] == '"');
            if 6 <= j && b.subrange(j - 6, j) == seq!['c', 'l', 'a', 's', 's', '='] {
                assert(e.subrange(i - 6, i) =~= b.subrange(j - 6, j));
            } else {
                assert(e[i + 1] == b[j + 1]);
            }
        }
    }
}

proof fn lemma_render_quotes_in_tags(ms: Seq<crate::markup::Markup>)
    ensures
        quotes_in_tags(render(ms)),
{
    let t = render(ms);
    lemma_render_quotes(ms);
    assert forall|i: int| 0 <= i < t.len() && #[trigger] t[i] == '"' implies (6 <= i
        && t.subrange(i - 6, i) == seq!['c', 'l', 'a', 's', 's', '=']) || (i + 1 < t.len() && t[i
        + 1] == '>') by {
        assert(attribute_quote(t, i));
        if 12 <= i && i + 1 <= t.len() && t.subrange(i - 12, i + 1)
            == crate::markup::open_span_head() {
            assert(t.subrange(i - 6, i) =~= t.subrange(i - 12, i + 1).subrange(6, 12));
        } else {
            assert(t[i + 1] == t.subrange(i, i + 2)[1]);
        }
    }
}

proof fn lemma_code_tag_quotes(language: Option<Seq<char>>)
    ensures
        quotes_in_tags(pre_class_tag() + code_tag(language)),
        quotes_in_tags(page_end()),
{
    reveal_strlit("<pre class=\"code\">");
    reveal_strlit("<code class=\"language-");
    reveal_strlit("\">");
    reveal_strlit("<code>");
    reveal_strlit("</code></pre>");
    let p = pre_class_tag();
    assert(quotes_in_tags(p)) by {
        assert(p.subrange(5, 11) =~= seq!['c', 'l', 'a', 's', 's', '=']);
    }
    assert(quotes_in_tags(page_end()));
    match language {
        Some(l) => {
            lemma_escape_is_inert(l);
            let h = "<code class=\"language-"@;
            assert(quotes_in_tags(h)) by {
                assert(h.subrange(6, 12) =~= seq!['c', 'l', 'a', 's', 's', '=']);
            }
            assert(quotes_in_tags(escape(l)));
            assert(quotes_in_tags("\">"@));
            lemma_quotes_concat(h, escape(l));
            lemma_quotes_concat(h + escape(l), "\">"@);
            lemma_quotes_concat(p, code_tag(language));
        },
        None => {
            assert(quotes_in_tags("<code>"@));
            lemma_quotes_concat(p, code_tag(language));
        },
    }
}

/// A class-mode page, whatever its language token and pieces, holds no
/// inline `style="color:` attribute.
pub proof fn lemma_class_page_has_no_inline_colour(
    language: Option<Seq<char>>,
    ms: Seq<crate::markup::Markup>,
)
    ensures
        forall|i: int|
            0 <= i && i + 13 <= (pre_class_tag() + code_tag(language) + render(ms) + page_end()).len()
                ==> #[trigger] (pre_class_tag() + code_tag(language) + render(ms)
                + page_end()).subrange(i, i + 13) != inline_colour_attr(),
{
    let t = pre_class_tag() + code_tag(language) + render(ms) + page_end();
    lemma_code_tag_quotes(language);
    lemma_render_quotes_in_tags(ms);
    lemma_quotes_concat(pre_class_tag() + code_tag(language), render(ms));
    lemma_quotes_concat(pre_class_tag() + code_tag(language) + render(ms), page_end());
    assert forall|i: int| 0 <= i && i + 13 <= t.len() implies #[trigger] t.subrange(i, i + 13)
        != inline_colour_attr() by {
        if t.subrange(i, i + 13) == inline_colour_attr() {
            assert(t[i + 6] == t.subrange(i, i + 13)[6]);
            assert(t[i] == t.subrange(i, i + 13)[0]);
            assert(t[i + 7] == t.subrange(i, i + 13)[7]);
            if 6 <= i + 6 && t.subrange(i, i + 6) == seq!['c', 'l', 'a', 's', 's', '='] {
                assert(t[i] == t.subrange(i, i + 6)[0]);
            }
        }
    }
}

/// `&` followed by the rest of one of the entities that themed output uses.
pub open spec fn starts_run_entity(t: Seq<char>, i: int) -> bool {
    ||| starts_entity(t, i)
    ||| i + 5 <= t.len() && t.subrange(i, i + 5) == seq!['&', '#', '3', '9', ';']
}

/// Text escaped for themed output holds no `<`, `>` or `"`, and each `&` in
/// it starts an entity.
pub proof fn lemma_run_escape_is_inert(s: Seq<char>)
    ensures
        forall|i: int| 0 <= i < run_escape(s).len() ==> {
            let c = #[trigger] run_escape(s)[i];
            c != '<' && c != '>' && c != '"'
        },
        forall|i: int|
            0 <= i < run_escape(s).len() && #[trigger] run_escape(s)[i] == '&'
                ==> starts_run_entity(run_escape(s), i),
    decreases s.len(),
{
    if s.len() > 0 {
        lemma_run_escape_is_inert(s.drop_last());
        let a = run_escape(s.drop_last());
        let b = run_escape_char(s.last());
        let e = run_escape(s);
        assert(e == a + b);
        assert forall|i: int| 0 <= i < e.len() && #[trigger] e[i] == '&' implies starts_run_entity(
            e,
            i,
        ) by {
            if i < a.len() {
                assert(a[i] == '&');
                assert(starts_run_entity(a, i));
                if i + 6 <= a.len() {
                    assert(e.subrange(i, i + 6) =~= a.subrange(i, i + 6));
                }
                if i + 5 <= a.len() {
                    assert(e.subrange(i, i + 5) =~= a.subrange(i, i + 5));
                }
                if i + 4 <= a.len() {
                    assert(e.subrange(i, i + 4) =~= a.subrange(i, i + 4));
                }
            } else {
                assert(i == a.len());
                assert(e.subrange(i, e.len() as int) =~= b);
            }
        }
    }
}

} // verus!
