//! The colour themes the monitor cycles through.
use vstd::prelude::*;

verus! {

/// A colour theme.
#[derive(Debug, Clone, Copy, PartialEq, Eq, Structural)]
pub enum Theme {
    Default,
    Dracula,
    Nord,
}

/// The name of a theme as shown in the status bar.
pub open spec fn theme_label(t: Theme) -> Seq<char> {
    match t {
        Theme::Default => seq!['D', 'e', 'f', 'a', 'u', 'l', 't'],
        Theme::Dracula => seq!['D', 'r', 'a', 'c', 'u', 'l', 'a'],
        Theme::Nord => seq!['N', 'o', 'r', 'd'],
    }
}

/// The theme after `t` in the cycle Default, Dracula, Nord.
pub open spec fn theme_after(t: Theme) -> Theme {
    match t {
        Theme::Default => Theme::Dracula,
        Theme::Dracula => Theme::Nord,
        Theme::Nord => Theme::Default,
    }
}

impl Theme {
    /// The name of the theme.
    pub fn label(&self) -> (r: &'static str)
        ensures
            r@ == theme_label(*self),
    {
        match self {
            Theme::Default => {
                proof {
                    reveal_strlit("Default");
                }
                assert("Default"@ =~= theme_label(*self));
                "Default"
            },
            Theme::Dracula => {
                proof {
                    reveal_strlit("Dracula");
                }
                assert("Dracula"@ =~= theme_label(*self));
                "Dracula"
            },
            Theme::Nord => {
                proof {
                    reveal_strlit("Nord");
                }
                assert("Nord"@ =~= theme_label(*self));
                "Nord"
            },
        }
    }

    /// The next theme in the cycle.
    pub fn next(&self) -> (r: Theme)
        ensures
            r == theme_after(*self),
    {
        match self {
            Theme::Default => Theme::Dracula,
            Theme::Dracula => Theme::Nord,
            Theme::Nord => Theme::Default,
        }
    }
}

/// Cycling the theme three times comes back to where it started, and the three
/// themes it passes through are different and have different names.
pub proof fn lemma_theme_cycle(t: Theme)
    ensures
        theme_after(theme_after(theme_after(t))) == t,
        theme_after(t) != t,
        theme_after(theme_after(t)) != t,
        theme_label(theme_after(t)) != theme_label(t),
{
    assert(theme_label(Theme::Default)[1] != theme_label(Theme::Dracula)[1]);
    assert(theme_label(Theme::Default).len() != theme_label(Theme::Nord).len());
    assert(theme_label(Theme::Dracula).len() != theme_label(Theme::Nord).len());
}

} // verus!
