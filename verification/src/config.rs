//! User-facing configuration: game variant, deck type, layout and color
//! options, and the last used window size. Loading and saving the
//! configuration is the surrounding application's business; this module
//! only owns the values and picks the rule set for the chosen variant.

use crate::rules::{GameRules, SetRules, SuperSetRules};
use vstd::prelude::*;

verus! {

/// Game variant: classic triple-match or the quad-match game.
#[derive(Clone, Copy, Debug, PartialEq, Eq, Structural)]
pub enum Variant {
    Classic,
    SuperSet,
}

/// Deck type: the beginner deck keeps only solid-shaded cards.
#[derive(Clone, Copy, Debug, PartialEq, Eq, Structural)]
pub enum Deck {
    Simplified,
    Full,
}

/// Card color scheme; the labels are scheme-agnostic, rendering maps them
/// to concrete colors.
#[derive(Clone, Copy, Debug, PartialEq, Eq, Structural)]
pub enum ColorScheme {
    CMYK,
    Classic,
}

#[derive(Clone, Copy, Debug)]
pub struct Config {
    /// Game variant: Set vs SuperSet
    pub variant: Variant,
    /// Deck type: Beginner vs Full
    pub deck: Deck,
    /// Layout neatly or sloppily
    pub tidy_layout: bool,
    /// Classic vs CMYK
    pub color_scheme: ColorScheme,
    /// Store last used window size
    pub window_size: (i32, i32),
}

impl Config {
    /// The out-of-the-box configuration.
    pub fn new() -> (c: Config)
        ensures
            c.variant == Variant::Classic,
            c.deck == Deck::Full,
            !c.tidy_layout,
            c.color_scheme == ColorScheme::CMYK,
            c.window_size == (1200i32, 700i32),
    {
        Config {
            variant: Variant::Classic,
            deck: Deck::Full,
            tidy_layout: false,
            color_scheme: ColorScheme::CMYK,
            window_size: (1200, 700),
        }
    }

    /// The rule set that the configured variant plays by.
    pub fn rules(&self) -> (r: GameRules)
        ensures
            r == (match self.variant {
                Variant::Classic => GameRules::Classic(SetRules),
                Variant::SuperSet => GameRules::Quad(SuperSetRules),
            }),
    {
        match self.variant {
            Variant::Classic => GameRules::Classic(SetRules),
            Variant::SuperSet => GameRules::Quad(SuperSetRules),
        }
    }
}

impl Default for Config {
    fn default() -> (c: Self)
        ensures
            c.variant == Variant::Classic,
            c.deck == Deck::Full,
            !c.tidy_layout,
            c.color_scheme == ColorScheme::CMYK,
            c.window_size == (1200i32, 700i32),
    {
        Config::new()
    }
}

} // verus!
