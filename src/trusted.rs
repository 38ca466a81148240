//! What the library takes on trust from syntect, html-escape and std: each
//! item names the outside function it relies on and what for.
use syntect::highlighting::{Color, HighlightIterator, HighlightState, Highlighter, Style, Theme, ThemeSet};
use syntect::html::{append_highlighted_html_for_styled_line, IncludeBackground};
use syntect::parsing::{
    BasicScopeStackOp, ParseState, ParsingError, Scope, ScopeStack, ScopeStackOp, SyntaxReference,
    SyntaxSet,
};
use vstd::prelude::*;
use vstd::string::*;

verus! {

/// Characters `&`, `<`, `>` and `"` replaced by their HTML entities.
pub open spec fn escape_char(c: char) -> Seq<char> {
    if c == '&' {
        seq!['&', 'a', 'm', 'p', ';']
    } else if c == '<' {
        seq!['&', 'l', 't', ';']
    } else if c == '>' {
        seq!['&', 'g', 't', ';']
    } else if c == '"' {
        seq!['&', 'q', 'u', 'o', 't', ';']
    } else {
        seq![c]
    }
}

/// The text with each character replaced by [`escape_char`] of it.
pub open spec fn escape(s: Seq<char>) -> Seq<char>
    decreases s.len(),
{
    if s.len() == 0 {
        seq![]
    } else {
        escape(s.drop_last()) + escape_char(s.last())
    }
}

/// Relies on `html_escape::encode_double_quoted_attribute_to_string`, which
/// appends the text to `out` with `&`, `<`, `>` and `"` written as entities.
#[verifier::external_body]
pub(crate) fn append_escaped(out: &mut String, text: &str)
    ensures
        final(out)@ == old(out)@ + escape(text@),
{
    html_escape::encode_double_quoted_attribute_to_string(text, out);
}

/// A byte offset at which `str` may be split: either end, or a byte that does
/// not continue a multi-byte character.
pub open spec fn char_boundary(bytes: Seq<u8>, i: int) -> bool {
    i == 0 || i == bytes.len() || (0 <= i < bytes.len() && !(0x80 <= bytes[i] < 0xC0))
}

/// Relies on `str` indexing by a byte range: both ends on character
/// boundaries, the result holds exactly the bytes between them.
#[verifier::external_body]
pub(crate) fn byte_slice(s: &str, start: usize, end: usize) -> (r: &str)
    requires
        start <= end <= s.spec_bytes().len(),
        char_boundary(s.spec_bytes(), start as int),
        char_boundary(s.spec_bytes(), end as int),
    ensures
        r.spec_bytes() == s.spec_bytes().subrange(start as int, end as int),
{
    &s[start..end]
}

/// Relies on `str::replace`: each `.` of the text becomes a space.
#[verifier::external_body]
pub(crate) fn dots_to_spaces(s: &str) -> (r: String)
    ensures
        r@ == s@.map_values(|c: char| if c == '.' { ' ' } else { c }),
{
    s.replace('.', " ")
}

/// Relies on `String::push`: the character is added at the end.
#[verifier::external_body]
pub(crate) fn push_char(s: &mut String, c: char)
    ensures
        final(s)@ == old(s)@.push(c),
{
    s.push(c);
}

/// The pieces of `s` that `split_inclusive('\n')` yields: none for empty
/// text, each piece non-empty, a `'\n'` only as the last character of a
/// piece, every piece but the last ending in one, and all of them together
/// spelling `s`.
pub open spec fn is_line_split(s: Seq<char>, lines: Seq<Seq<char>>) -> bool {
    &&& lines.flatten() == s
    &&& forall|i: int| 0 <= i < lines.len() ==> #[trigger] lines[i].len() > 0
    &&& forall|i: int, j: int|
        0 <= i < lines.len() && 0 <= j < lines[i].len() - 1 ==> #[trigger] lines[i][j] != '\n'
    &&& forall|i: int| 0 <= i < lines.len() - 1 ==> #[trigger] lines[i].last() == '\n'
}

/// The text of each string slice.
pub open spec fn str_views(v: Seq<&str>) -> Seq<Seq<char>> {
    v.map_values(|l: &str| l@)
}

/// Relies on `str::split_inclusive` with `'\n'`: the lines of the text, each
/// with its terminator.
#[verifier::external_body]
pub(crate) fn split_lines(s: &str) -> (r: Vec<&str>)
    ensures
        is_line_split(s@, str_views(r@)),
{
    s.split_inclusive('\n').collect()
}

#[verifier::external_type_specification]
#[verifier::external_body]
pub struct ExSyntaxSet(SyntaxSet);

#[verifier::external_type_specification]
#[verifier::external_body]
pub struct ExSyntaxReference(SyntaxReference);

#[verifier::external_type_specification]
#[verifier::external_body]
pub struct ExThemeSet(ThemeSet);

#[verifier::external_type_specification]
#[verifier::external_body]
pub struct ExTheme(Theme);

#[verifier::external_type_specification]
#[verifier::external_body]
pub struct ExParseState(ParseState);

#[verifier::external_type_specification]
#[verifier::external_body]
pub struct ExParsingError(ParsingError);

#[verifier::external_type_specification]
#[verifier::external_body]
pub struct ExScope(Scope);

#[verifier::external_type_specification]
#[verifier::external_body]
pub struct ExScopeStack(ScopeStack);

#[verifier::external_type_specification]
#[verifier::external_body]
pub struct ExScopeStackOp(ScopeStackOp);

#[verifier::external_type_specification]
#[verifier::external_body]
pub struct ExHighlighter<'a>(Highlighter<'a>);

#[verifier::external_type_specification]
#[verifier::external_body]
pub struct ExHighlightState(HighlightState);

#[verifier::external_type_specification]
#[verifier::external_body]
pub struct ExStyle(Style);

#[verifier::external_type_specification]
#[verifier::external_body]
pub struct ExSyntectError(syntect::Error);

/// The grammar that a catalog finds for each token it accepts, by file
/// extension or by name, ignoring ASCII case.
pub uninterp spec fn token_grammars(set: SyntaxSet) -> Map<Seq<char>, SyntaxReference>;

/// The grammars of a catalog by their exact names.
pub uninterp spec fn named_grammars(set: SyntaxSet) -> Map<Seq<char>, SyntaxReference>;

/// The grammars that a catalog holds.
pub uninterp spec fn grammars(set: SyntaxSet) -> Set<SyntaxReference>;

/// The themes of a theme catalog by name.
pub uninterp spec fn themes(set: ThemeSet) -> Map<Seq<char>, Theme>;

/// The name of the grammar used when no other applies.
pub open spec fn plain_text_name() -> Seq<char> {
    seq!['P', 'l', 'a', 'i', 'n', ' ', 'T', 'e', 'x', 't']
}

/// Relies on `SyntaxSet::find_syntax_by_token`: the grammar of the catalog
/// that the token selects, if any.
#[verifier::external_body]
pub(crate) fn find_syntax_by_token<'a>(set: &'a SyntaxSet, token: &str) -> (r: Option<
    &'a SyntaxReference,
>)
    ensures
        r.is_some() == token_grammars(*set).contains_key(token@),
        r matches Some(g) ==> *g == token_grammars(*set)[token@] && grammars(*set).contains(*g),
{
    set.find_syntax_by_token(token)
}

/// Relies on `SyntaxSet::find_syntax_by_name`: the grammar of that exact
/// name, if the catalog has one.
#[verifier::external_body]
pub(crate) fn find_syntax_by_name<'a>(set: &'a SyntaxSet, name: &str) -> (r: Option<
    &'a SyntaxReference,
>)
    ensures
        r.is_some() == named_grammars(*set).contains_key(name@),
        r matches Some(g) ==> *g == named_grammars(*set)[name@] && grammars(*set).contains(*g),
{
    set.find_syntax_by_name(name)
}

/// Relies on `SyntaxSet::find_syntax_plain_text`, which looks up the grammar
/// named "Plain Text" and panics without one.
#[verifier::external_body]
pub(crate) fn find_syntax_plain_text(set: &SyntaxSet) -> (r: &SyntaxReference)
    requires
        named_grammars(*set).contains_key(plain_text_name()),
    ensures
        *r == named_grammars(*set)[plain_text_name()],
        grammars(*set).contains(*r),
{
    set.find_syntax_plain_text()
}

/// Relies on the `themes` map of `ThemeSet` (`BTreeMap::get`): the theme of
/// that name, if the catalog holds one.
#[verifier::external_body]
pub(crate) fn find_theme<'a>(set: &'a ThemeSet, name: &str) -> (r: Option<&'a Theme>)
    ensures
        r.is_some() == themes(*set).contains_key(name@),
        r matches Some(t) ==> *t == themes(*set)[name@],
{
    set.themes.get(name)
}

/// A colour with red, green, blue and alpha channels.
#[derive(Clone, Copy, Debug, PartialEq, Eq, Structural)]
pub struct Rgba {
    pub r: u8,
    pub g: u8,
    pub b: u8,
    pub a: u8,
}

/// The background colour that a theme sets, if any.
pub uninterp spec fn theme_bg(t: Theme) -> Option<Rgba>;

/// Relies on the `settings.background` field of `Theme`: the theme's own
/// background colour, if it sets one.
#[verifier::external_body]
pub(crate) fn theme_background(theme: &Theme) -> (r: Option<Rgba>)
    ensures
        r == theme_bg(*theme),
{
    theme.settings.background.map(|c| Rgba { r: c.r, g: c.g, b: c.b, a: c.a })
}

/// Whether every context that a tokenizer state refers to is one of the
/// catalog's: the state holds indices into the catalog's contexts.
pub uninterp spec fn state_fits(s: ParseState, set: SyntaxSet) -> bool;

/// Relies on `ParseState::new`: a tokenizer state at the start of the
/// grammar, referring only to contexts of the catalog that holds it.
#[verifier::external_body]
pub(crate) fn new_parse_state(syntax: &SyntaxReference, set: &SyntaxSet) -> (r: ParseState)
    requires
        grammars(*set).contains(*syntax),
    ensures
        state_fits(r, *set),
{
    let _ = set;
    ParseState::new(syntax)
}

/// Each offset lies within the line, on a character boundary.
pub open spec fn on_boundaries(ops: Seq<(usize, ScopeStackOp)>, bytes: Seq<u8>) -> bool {
    forall|i: int|
        0 <= i < ops.len() ==> (#[trigger] ops[i]).0 <= bytes.len() && char_boundary(
            bytes,
            ops[i].0 as int,
        )
}

/// Offsets on character boundaries of the line that never decrease.
pub open spec fn well_placed(ops: Seq<(usize, ScopeStackOp)>, bytes: Seq<u8>) -> bool {
    &&& on_boundaries(ops, bytes)
    &&& forall|i: int, j: int| 0 <= i <= j < ops.len() ==> (#[trigger] ops[i]).0 <= (#[trigger] ops[j]).0
}

/// Relies on `ParseState::parse_line`: the scope operations of one line at
/// byte offsets that are positions of regex matches in the line; the state is
/// carried on to the next line, with contexts of the same catalog. The catalog
/// must be the one whose contexts the state refers to, as its documentation
/// requires.
#[verifier::external_body]
pub(crate) fn parse_line(state: &mut ParseState, line: &str, set: &SyntaxSet) -> (r: Result<
    Vec<(usize, ScopeStackOp)>,
    ParsingError,
>)
    requires
        state_fits(*old(state), *set),
    ensures
        state_fits(*final(state), *set),
        r matches Ok(ops) ==> on_boundaries(ops@, line.spec_bytes()),
{
    state.parse_line(line, set)
}

/// Relies on `ScopeStack::new`: an empty scope stack.
#[verifier::external_body]
pub(crate) fn new_scope_stack() -> (r: ScopeStack)
{
    ScopeStack::new()
}

/// A basic scope change, as `ScopeStack::apply_with_hook` reports it.
pub enum StackChange {
    Push(Scope),
    Pop,
}

/// Relies on `ScopeStack::apply_with_hook`: applies the operation to the
/// stack and lists the basic changes it made, in order. A restore with
/// nothing cleared makes none.
#[verifier::external_body]
pub(crate) fn apply_scope_op(stack: &mut ScopeStack, op: &ScopeStackOp) -> (r: Vec<StackChange>)
{
    let mut changes = Vec::new();
    let _ = stack.apply_with_hook(
        op,
        |basic, _| match basic {
            BasicScopeStackOp::Push(scope) => changes.push(StackChange::Push(scope)),
            BasicScopeStackOp::Pop => changes.push(StackChange::Pop),
        },
    );
    changes
}

/// Relies on `Scope::build_string`: the scope's atoms joined by dots, as
/// the process-wide atom table spells them.
#[verifier::external_body]
pub(crate) fn scope_name(scope: Scope) -> (r: String)
{
    scope.build_string()
}

/// Relies on `Highlighter::new`: the style resolver of a theme.
#[verifier::external_body]
pub(crate) fn new_highlighter<'a>(theme: &'a Theme) -> (r: Highlighter<'a>)
{
    Highlighter::new(theme)
}

/// Relies on `HighlightState::new`: a highlight state on the given stack.
#[verifier::external_body]
pub(crate) fn new_highlight_state(highlighter: &Highlighter, stack: ScopeStack) -> (r: HighlightState)
{
    HighlightState::new(highlighter, stack)
}

/// The pieces one after another.
pub open spec fn concat_pieces(ps: Seq<Seq<char>>) -> Seq<char>
    decreases ps.len(),
{
    if ps.len() == 0 {
        seq![]
    } else {
        concat_pieces(ps.drop_last()) + ps.last()
    }
}

/// The texts of styled runs.
pub open spec fn run_texts(runs: Seq<(Style, &str)>) -> Seq<Seq<char>> {
    runs.map_values(|r: (Style, &str)| r.1@)
}

pub open spec fn is_prefix(a: Seq<char>, b: Seq<char>) -> bool {
    a.len() <= b.len() && b.subrange(0, a.len() as int) == a
}

/// Relies on `HighlightIterator`: the styled runs of one line, in order, with
/// the state carried on to the next line. The run texts are consecutive
/// slices of the line from its start; a failed scope restore ends them early.
#[verifier::external_body]
pub(crate) fn styled_runs<'b>(
    state: &mut HighlightState,
    ops: &Vec<(usize, ScopeStackOp)>,
    line: &'b str,
    highlighter: &Highlighter,
) -> (r: Vec<(Style, &'b str)>)
    requires
        well_placed(ops@, line.spec_bytes()),
    ensures
        is_prefix(concat_pieces(run_texts(r@)), line@),
{
    HighlightIterator::new(state, ops, line, highlighter).collect()
}

/// `<span style="`
pub open spec fn style_span_head() -> Seq<char> {
    seq!['<', 's', 'p', 'a', 'n', ' ', 's', 't', 'y', 'l', 'e', '=', '"']
}

/// `class="`
pub open spec fn class_attr() -> Seq<char> {
    seq!['c', 'l', 'a', 's', 's', '=', '"']
}

/// Text of inline-styled HTML: each `<` opens `<span style="` or is
/// `</span>`, and no `class="` occurs.
pub open spec fn inline_styled(t: Seq<char>) -> bool {
    &&& forall|i: int| 0 <= i < t.len() && #[trigger] t[i] == '<' ==> {
        ||| i + 13 <= t.len() && t.subrange(i, i + 13) == style_span_head()
        ||| i + 7 <= t.len() && t.subrange(i, i + 7) == seq!['<', '/', 's', 'p', 'a', 'n', '>']
    }
    &&& forall|i: int| 0 <= i && i + 7 <= t.len() ==> #[trigger] t.subrange(i, i + 7) != class_attr()
}

/// Characters `<`, `>`, `&`, `'` and `"` replaced by entities, as
/// `syntect::escape::Escape` writes them.
pub open spec fn run_escape_char(c: char) -> Seq<char> {
    if c == '\'' {
        seq!['&', '#', '3', '9', ';']
    } else {
        escape_char(c)
    }
}

pub open spec fn run_escape(s: Seq<char>) -> Seq<char>
    decreases s.len(),
{
    if s.len() == 0 {
        seq![]
    } else {
        run_escape(s.drop_last()) + run_escape_char(s.last())
    }
}

/// A style attribute value: no `<`, `>`, `"` or `&`.
pub open spec fn plain_attr(a: Seq<char>) -> bool {
    forall|i: int|
        0 <= i < a.len() ==> #[trigger] a[i] != '<' && a[i] != '>' && a[i] != '"' && a[i] != '&'
}

/// `<span style="` + attribute + `">`
pub open spec fn style_open(a: Seq<char>) -> Seq<char> {
    style_span_head() + a + seq!['"', '>']
}

/// What stands before a run's text: nothing (same style as the run before),
/// or the closing of the previous span and the opening of a new one.
pub open spec fn run_tag(t: Seq<char>) -> bool {
    ||| t.len() == 0
    ||| t == seq!['<', '/', 's', 'p', 'a', 'n', '>']
    ||| exists|a: Seq<char>|
        plain_attr(a) && (#[trigger] style_open(a) == t || seq!['<', '/', 's', 'p', 'a', 'n', '>']
            + style_open(a) == t)
}

/// The first `n` runs: each tag, then the escaped text.
pub open spec fn runs_html(tags: Seq<Seq<char>>, texts: Seq<Seq<char>>, n: int) -> Seq<char>
    decreases n,
{
    if n <= 0 {
        seq![]
    } else {
        runs_html(tags, texts, n - 1) + tags[n - 1] + run_escape(texts[n - 1])
    }
}

/// `t` is the runs' texts, escaped, each after its tag, and a final tag.
pub open spec fn styled_as(t: Seq<char>, tags: Seq<Seq<char>>, texts: Seq<Seq<char>>) -> bool {
    &&& tags.len() == texts.len() + 1
    &&& forall|k: int| 0 <= k < tags.len() ==> run_tag(#[trigger] tags[k])
    &&& t == runs_html(tags, texts, texts.len() as int) + tags[texts.len() as int]
}

/// Relies on `syntect::html::append_highlighted_html_for_styled_line` with
/// `IncludeBackground::IfDifferent`: it only appends. Each run's text is
/// escaped by `syntect::escape::Escape`; a run whose style differs from the
/// one before closes the open span, if any, and opens `<span style="...">`;
/// a run of the same style, or of only whitespace on the same background,
/// shares the open span; the last span is closed.
#[verifier::external_body]
pub(crate) fn append_styled_html(runs: &Vec<(Style, &str)>, background: Rgba, html: &mut String) -> (r:
    Result<(), syntect::Error>)
    ensures
        old(html)@.len() <= final(html)@.len(),
        final(html)@.subrange(0, old(html)@.len() as int) == old(html)@,
        inline_styled(final(html)@.subrange(old(html)@.len() as int, final(html)@.len() as int)),
        exists|tags: Seq<Seq<char>>|
            #[trigger] styled_as(
                final(html)@.subrange(old(html)@.len() as int, final(html)@.len() as int),
                tags,
                run_texts(runs@),
            ),
{
    let c = Color { r: background.r, g: background.g, b: background.b, a: background.a };
    append_highlighted_html_for_styled_line(runs, IncludeBackground::IfDifferent(c), html)
}

} // verus!
