//! Chooses the grammar and the theme for a block.
use syntect::highlighting::{Theme, ThemeSet};
use syntect::parsing::{SyntaxReference, SyntaxSet};
use vstd::prelude::*;

use crate::trusted::{
    find_syntax_by_name, find_syntax_by_token, find_syntax_plain_text, find_theme, grammars,
    named_grammars, plain_text_name, themes, token_grammars,
};

verus! {

/// The theme name that asks for class-based output instead of inline colours.
pub open spec fn class_sentinel() -> Seq<char> {
    seq!['c', 's', 's']
}

/// The grammar and theme catalogs and the configured theme name, checked
/// against each other when built.
pub struct HighlightConfig {
    highlight_theme: String,
    syntax_set: SyntaxSet,
    extra_syntax_set: Option<SyntaxSet>,
    theme_set: ThemeSet,
}

/// Why a configuration cannot be used.
#[derive(Debug, PartialEq, Eq)]
pub enum ConfigError {
    /// The grammar catalog has no grammar named "Plain Text".
    MissingPlainText,
    /// The theme catalog holds no theme of the configured name.
    UnknownTheme(String),
}

/// A plain-text grammar is there to fall back on, and the theme exists
/// unless class output is asked for.
pub open spec fn config_ok(theme: Seq<char>, syntax_set: SyntaxSet, theme_set: ThemeSet) -> bool {
    &&& named_grammars(syntax_set).contains_key(plain_text_name())
    &&& theme != class_sentinel() ==> themes(theme_set).contains_key(theme)
}

impl HighlightConfig {
    pub closed spec fn theme_name(&self) -> Seq<char> {
        self.highlight_theme@
    }

    pub closed spec fn main_catalog(&self) -> SyntaxSet {
        self.syntax_set
    }

    pub closed spec fn extra_catalog(&self) -> Option<SyntaxSet> {
        self.extra_syntax_set
    }

    pub closed spec fn theme_catalog(&self) -> ThemeSet {
        self.theme_set
    }

    pub open spec fn wf(&self) -> bool {
        config_ok(self.theme_name(), self.main_catalog(), self.theme_catalog())
    }

    /// Checks the catalogs against the theme name once, before any block is
    /// rendered.
    pub fn new(
        highlight_theme: String,
        syntax_set: SyntaxSet,
        extra_syntax_set: Option<SyntaxSet>,
        theme_set: ThemeSet,
    ) -> (r: Result<HighlightConfig, ConfigError>)
        ensures
            !named_grammars(syntax_set).contains_key(plain_text_name()) ==> r == Err::<
                HighlightConfig,
                ConfigError,
            >(ConfigError::MissingPlainText),
            named_grammars(syntax_set).contains_key(plain_text_name()) && highlight_theme@
                != class_sentinel() && !themes(theme_set).contains_key(highlight_theme@) ==> (
            r matches Err(ConfigError::UnknownTheme(n)) && n@ == highlight_theme@),
            r is Ok <==> config_ok(highlight_theme@, syntax_set, theme_set),
            r matches Ok(c) ==> c.wf() && c.theme_name() == highlight_theme@ && c.main_catalog()
                == syntax_set && c.extra_catalog() == extra_syntax_set && c.theme_catalog()
                == theme_set,
    {
        proof {
            reveal_strlit("Plain Text");
            assert("Plain Text"@ =~= plain_text_name());
        }
        if find_syntax_by_name(&syntax_set, "Plain Text").is_none() {
            return Err(ConfigError::MissingPlainText);
        }
        let is_class = is_class_sentinel(highlight_theme.as_str());
        if !is_class && find_theme(&theme_set, highlight_theme.as_str()).is_none() {
            return Err(ConfigError::UnknownTheme(highlight_theme));
        }
        Ok(HighlightConfig { highlight_theme, syntax_set, extra_syntax_set, theme_set })
    }
}

/// Whether the name is the class-output sentinel `css`.
fn is_class_sentinel(name: &str) -> (r: bool)
    ensures
        r == (name@ == class_sentinel()),
{
    let n = name.unicode_len();
    if n != 3 {
        return false;
    }
    let r = name.get_char(0) == 'c' && name.get_char(1) == 's' && name.get_char(2) == 's';
    proof {
        if r {
            assert(name@ =~= class_sentinel());
        }
    }
    r
}

/// Which catalog the grammar of a block came from.
#[derive(Clone, Copy, Debug, PartialEq, Eq, Structural)]
pub enum SyntaxSource {
    /// Found by its token in the main catalog.
    Primary,
    /// Found by its token in the extra catalog.
    Extra,
    /// No token, or one that no catalog knows: plain text.
    PlainText,
}

/// First match wins: the main catalog, then the extra one, then plain text.
pub open spec fn syntax_source(
    language: Option<Seq<char>>,
    primary: Set<Seq<char>>,
    extra: Option<Set<Seq<char>>>,
) -> SyntaxSource {
    match language {
        None => SyntaxSource::PlainText,
        Some(l) => if primary.contains(l) {
            SyntaxSource::Primary
        } else if extra matches Some(e) && e.contains(l) {
            SyntaxSource::Extra
        } else {
            SyntaxSource::PlainText
        },
    }
}

pub open spec fn opt_view(language: Option<&str>) -> Option<Seq<char>> {
    match language {
        Some(l) => Some(l@),
        None => None,
    }
}

pub open spec fn token_set(set: Option<SyntaxSet>) -> Option<Set<Seq<char>>> {
    match set {
        Some(e) => Some(token_grammars(e).dom()),
        None => None,
    }
}

/// Where the grammar of a language token comes from under a configuration.
pub open spec fn resolved_source(language: Option<Seq<char>>, c: HighlightConfig) -> SyntaxSource {
    syntax_source(language, token_grammars(c.main_catalog()).dom(), token_set(c.extra_catalog()))
}

/// The grammar resolved for a language token.
pub open spec fn resolved_syntax(language: Option<Seq<char>>, c: HighlightConfig) -> SyntaxReference {
    match resolved_source(language, c) {
        SyntaxSource::Primary => token_grammars(c.main_catalog())[language->Some_0],
        SyntaxSource::Extra => token_grammars(c.extra_catalog()->Some_0)[language->Some_0],
        SyntaxSource::PlainText => named_grammars(c.main_catalog())[plain_text_name()],
    }
}

/// The catalog that holds the resolved grammar.
pub open spec fn resolved_catalog(language: Option<Seq<char>>, c: HighlightConfig) -> SyntaxSet {
    match resolved_source(language, c) {
        SyntaxSource::Extra => c.extra_catalog()->Some_0,
        _ => c.main_catalog(),
    }
}

/// The configured theme; none for class output.
pub open spec fn resolved_theme(c: HighlightConfig) -> Option<Theme> {
    if c.theme_name() == class_sentinel() {
        None
    } else {
        Some(themes(c.theme_catalog())[c.theme_name()])
    }
}

pub open spec fn theme_view(t: Option<&Theme>) -> Option<Theme> {
    match t {
        Some(t) => Some(*t),
        None => None,
    }
}

/// The grammar of a block, the catalog that holds it, and the theme if any.
pub struct SyntaxAndTheme<'config> {
    pub syntax: &'config SyntaxReference,
    pub syntax_set: &'config SyntaxSet,
    pub theme: Option<&'config Theme>,
    pub source: SyntaxSource,
}

/// Resolves the grammar for a language token, falling back to plain text and
/// never failing, and the configured theme, none for class output.
pub fn resolve_syntax_and_theme<'config>(
    language: Option<&str>,
    config: &'config HighlightConfig,
) -> (r: SyntaxAndTheme<'config>)
    requires
        config.wf(),
    ensures
        r.source == resolved_source(opt_view(language), *config),
        *r.syntax == resolved_syntax(opt_view(language), *config),
        *r.syntax_set == resolved_catalog(opt_view(language), *config),
        grammars(*r.syntax_set).contains(*r.syntax),
        theme_view(r.theme) == resolved_theme(*config),
{
    let theme = if !is_class_sentinel(config.highlight_theme.as_str()) {
        find_theme(&config.theme_set, config.highlight_theme.as_str())
    } else {
        None
    };
    if let Some(lang) = language {
        if let Some(syntax) = find_syntax_by_token(&config.syntax_set, lang) {
            return SyntaxAndTheme {
                syntax,
                syntax_set: &config.syntax_set,
                theme,
                source: SyntaxSource::Primary,
            };
        }
        if let Some(extra) = &config.extra_syntax_set {
            if let Some(syntax) = find_syntax_by_token(extra, lang) {
                return SyntaxAndTheme { syntax, syntax_set: extra, theme, source: SyntaxSource::Extra };
            }
        }
    }
    SyntaxAndTheme {
        syntax: find_syntax_plain_text(&config.syntax_set),
        syntax_set: &config.syntax_set,
        theme,
        source: SyntaxSource::PlainText,
    }
}

} // verus!
