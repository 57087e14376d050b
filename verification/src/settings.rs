//! The user settings that completion depends on.
use vstd::prelude::*;

use crate::text::opt_text;

verus! {

/// User settings, as plain values.
#[derive(Debug, Default)]
pub struct Settings {
    /// Prefer the longest spelling of options and subcommands.
    pub prefer_verbose: bool,
    /// Commands without completions.
    pub disabled_commands: Vec<String>,
    /// Offer no rows that execute.
    pub hide_auto_execute: bool,
    /// Show rows only on the tab key.
    pub only_show_on_tab: bool,
    /// Allow dangerous commands to be executed at once.
    pub run_dangerous: bool,
    /// Offer the text typed so far as a row.
    pub always_suggest_current_token: bool,
    /// Offer to execute at once behind a space.
    pub execute_after_space: bool,
    /// Neither load nor show shell history.
    pub disable_history: bool,
    /// Keep rows in alphabetical order.
    pub alphabetical: bool,
}

/// The directory of specs under development: the one that is set, while one of
/// the two developer modes is on.
pub open spec fn dev_folder(
    developer_mode: bool,
    developer_mode_npm: bool,
    folder: Option<Seq<char>>,
) -> Option<Seq<char>> {
    match folder {
        Some(folder) => if (developer_mode || developer_mode_npm) && folder.len() > 0 {
            Some(folder)
        } else {
            None
        },
        None => None,
    }
}

/// Computes [`dev_folder`].
pub fn dev_specs_folder(
    developer_mode: bool,
    developer_mode_npm: bool,
    folder: Option<String>,
) -> (found: Option<String>)
    ensures
        opt_text(found) == dev_folder(developer_mode, developer_mode_npm, opt_text(folder)),
{
    match folder {
        Some(folder) => if (developer_mode || developer_mode_npm) && !folder.as_str().is_empty() {
            Some(folder)
        } else {
            None
        },
        None => None,
    }
}

} // verus!
