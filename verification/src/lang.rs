//! The two languages of the menu and of the messages.
use crate::config;
use crate::strings;
use crate::strings::{chars_of, same, strip_front};
use vstd::prelude::*;

verus! {

/// A choice of language.
#[derive(Clone, Copy, Debug, PartialEq, Eq, Structural)]
pub enum Language {
    /// That of the system.
    Auto,
    Zh,
    En,
}

/// The variables that name the language of the system. The first that is not empty counts.
pub const VARIABLES: [&'static str; 4] = ["LANGUAGE", "LC_ALL", "LC_MESSAGES", "LANG"];

/// The choice with this name in the configuration.
pub open spec fn named(s: Seq<char>) -> Option<Language> {
    if s == "auto"@ {
        Some(Language::Auto)
    } else if s == "zh"@ {
        Some(Language::Zh)
    } else if s == "en"@ {
        Some(Language::En)
    } else {
        None
    }
}

/// The language of the system, by the values of its variables from `i` on.
pub open spec fn of_system(values: Seq<Seq<char>>, i: int) -> Language
    decreases values.len() - i,
{
    if i < 0 || i >= values.len() {
        Language::En
    } else if values[i].len() == 0 {
        of_system(values, i + 1)
    } else if strings::begins(values[i], "zh"@) {
        Language::Zh
    } else {
        Language::En
    }
}

impl Default for Language {
    fn default() -> (r: Self)
        ensures
            r == Language::Auto,
    {
        Language::Auto
    }
}

impl Language {
    /// The name in the configuration.
    pub open spec fn text(self) -> Seq<char> {
        match self {
            Language::Auto => "auto"@,
            Language::Zh => "zh"@,
            Language::En => "en"@,
        }
    }

    /// The choice with this name in the configuration.
    pub fn from_name(name: &str) -> (r: Option<Language>)
        ensures
            r == named(name@),
    {
        if same(name, "auto") {
            Some(Language::Auto)
        } else if same(name, "zh") {
            Some(Language::Zh)
        } else if same(name, "en") {
            Some(Language::En)
        } else {
            None
        }
    }

    /// The name in the configuration.
    pub fn name(self) -> (r: &'static str)
        ensures
            r@ == self.text(),
    {
        match self {
            Language::Auto => "auto",
            Language::Zh => "zh",
            Language::En => "en",
        }
    }

    /// What the menu says; a language is written in itself.
    pub fn label(self) -> (r: &'static str)
        ensures
            r@ == (match self {
                Language::Auto => "自动（跟随系统）"@,
                Language::Zh => "简体中文"@,
                Language::En => "English"@,
            }),
    {
        match self {
            Language::Auto => "自动（跟随系统）",
            Language::Zh => "简体中文",
            Language::En => "English",
        }
    }

    /// The language that is meant, which for that of the system the values of its variables say.
    pub open spec fn meant(self, values: Seq<Seq<char>>) -> Language {
        match self {
            Language::Auto => of_system(values, 0),
            l => l,
        }
    }

    /// The language that is meant. `values` are those of the variables, in their order; one that is
    /// not set is empty.
    pub fn resolve(self, values: &[String]) -> (r: Language)
        ensures
            r == self.meant(config::texts(values@)),
    {
        if self != Language::Auto {
            return self;
        }
        let ghost all = config::texts(values@);
        let mut i: usize = 0;
        while i < values.len()
            invariant
                i <= values@.len(),
                self == Language::Auto,
                all == config::texts(values@),
                of_system(all, 0) == of_system(all, i as int),
            decreases values@.len() - i,
        {
            let c = chars_of(values[i].as_str());
            assert(all[i as int] == c@);
            if c.len() > 0 {
                return match strip_front(&c, "zh") {
                    Some(_) => Language::Zh,
                    None => Language::En,
                };
            }
            i = i + 1;
        }
        Language::En
    }
}

/// What is said in a language. That of the system is taken for English: it should be known by then.
pub fn tr_in<'a>(lang: Language, zh: &'a str, en: &'a str) -> (r: &'a str)
    ensures
        r@ == (if lang == Language::Zh {
            zh@
        } else {
            en@
        }),
{
    match lang {
        Language::Zh => zh,
        _ => en,
    }
}

/// A choice is found again under its name.
pub proof fn law_language_names_roundtrip(l: Language)
    ensures
        named(l.text()) == Some(l),
{
    reveal_strlit("auto");
    reveal_strlit("zh");
    reveal_strlit("en");
    assert("auto"@.len() == 4 && "zh"@.len() == 2 && "zh"@[0] == 'z' && "en"@[0] == 'e');
}

/// What is meant is a language, and one that was chosen is kept, whatever the system says.
pub proof fn law_choice_beats_system(l: Language, values: Seq<Seq<char>>)
    ensures
        l.meant(values) != Language::Auto,
        l != Language::Auto ==> l.meant(values) == l,
{
    if l == Language::Auto {
        lemma_of_system(values, 0);
    }
}

proof fn lemma_of_system(values: Seq<Seq<char>>, i: int)
    ensures
        of_system(values, i) != Language::Auto,
    decreases values.len() - i,
{
    if 0 <= i < values.len() {
        lemma_of_system(values, i + 1);
    }
}

} // verus!
