//! Rows that execute what has been typed.
use vstd::prelude::*;

use crate::runtime::{new_row, rows, Suggestion, SuggestionView};
use crate::text::{chars_of, finishes_with, lowered, same, same_ignoring_case, text_range};

verus! {

/// The kind of rows that execute.
pub open spec fn auto_kind() -> Seq<char> {
    "auto-execute"@
}

/// A row that executes when it is accepted.
pub open spec fn action_row(name: Seq<char>, description: Seq<char>) -> SuggestionView {
    SuggestionView {
        insert_value: Some("\n"@),
        priority: i64::MAX,
        icon: Some("fig://icon?type=carrot"@),
        ..new_row(name, description, auto_kind())
    }
}

/// Builds [`action_row`].
fn make_action(name: &str, description: &str) -> (row: Suggestion)
    ensures
        row@ == action_row(name@, description@),
{
    let row = Suggestion::new(name, description, "auto-execute").with_insert_value("\n");
    Suggestion { priority: i64::MAX, icon: Some("fig://icon?type=carrot".to_owned()), ..row }
}

/// A folder's name without its trailing slash.
pub open spec fn without_slash(name: Seq<char>) -> Seq<char> {
    if finishes_with(name, seq!['/']) {
        name.drop_last()
    } else {
        name
    }
}

/// Computes [`without_slash`].
fn strip_slash(name: &str) -> (bare: String)
    ensures
        bare@ == without_slash(name@),
{
    let s = chars_of(name);
    let n = s.len();
    if n > 0 && s[n - 1] == '/' {
        proof {
            assert(s@.subrange(n - 1, n as int) =~= seq!['/']);
            assert(s@.drop_last() =~= s@.subrange(0, n - 1));
        }
        text_range(&s, 0, n - 1)
    } else {
        proof {
            if n > 0 {
                assert(s@.subrange(n - 1, n as int)[0] == s@[n - 1]);
            }
        }
        name.to_owned()
    }
}

/// The term that a row is matched against.
pub open spec fn term_of(row: SuggestionView, query: Seq<char>) -> Seq<char> {
    match row.query_term {
        Some(term) => term,
        None => query,
    }
}

/// Whether a row has been typed out, up to ASCII case; a folder also without
/// its slash.
pub open spec fn is_typed_out(row: SuggestionView, query: Seq<char>) -> bool {
    let term = term_of(row, query);
    lowered(row.name) == lowered(term) || (row.kind == "folder"@ && finishes_with(
        row.name,
        seq!['/'],
    ) && lowered(row.name.drop_last()) == lowered(term))
}

/// Computes [`is_typed_out`].
fn typed_out(row: &Suggestion, query: &str) -> (yes: bool)
    ensures
        yes == is_typed_out(row@, query@),
{
    let term = match &row.query_term {
        Some(term) => term.as_str(),
        None => query,
    };
    if same_ignoring_case(&row.name, term) {
        return true;
    }
    if !same(&row.kind, "folder") {
        return false;
    }
    let bare = strip_slash(&row.name);
    let s = chars_of(&row.name);
    let n = s.len();
    proof {
        if n > 0 {
            assert(s@.subrange(n - 1, n as int)[0] == s@[n - 1]);
            if s@[n - 1] == '/' {
                assert(s@.subrange(n - 1, n as int) =~= seq!['/']);
            }
        }
    }
    n > 0 && s[n - 1] == '/' && same_ignoring_case(&bare, term)
}

/// Whether typing a row out is enough to execute it: it needs no argument, is
/// safe or may be run all the same, and inserts its own first spelling.
pub open spec fn may_execute(row: SuggestionView, query: Seq<char>, allow_dangerous: bool) -> bool {
    &&& row.kind != auto_kind()
    &&& is_typed_out(row, query)
    &&& !row.requires_arg
    &&& allow_dangerous || !row.is_dangerous
    &&& row.insert_value matches Some(value) ==> value == match row.primary_name {
        Some(primary) => primary,
        None => row.name,
    }
}

/// Computes [`may_execute`].
fn can_execute(row: &Suggestion, query: &str, allow_dangerous: bool) -> (yes: bool)
    ensures
        yes == may_execute(row@, query@, allow_dangerous),
{
    if same(&row.kind, "auto-execute") || !typed_out(row, query) || row.requires_arg || !(
    allow_dangerous || !row.is_dangerous) {
        return false;
    }
    match &row.insert_value {
        None => true,
        Some(value) => match &row.primary_name {
            Some(primary) => same(value, primary),
            None => same(value, &row.name),
        },
    }
}

/// The first row, from `i` on, that may be executed.
pub open spec fn executable_at(
    list: Seq<SuggestionView>,
    query: Seq<char>,
    allow_dangerous: bool,
    i: int,
) -> Option<int>
    decreases list.len() - i,
{
    if i < 0 || i >= list.len() {
        None
    } else if may_execute(list[i], query, allow_dangerous) {
        Some(i)
    } else {
        executable_at(list, query, allow_dangerous, i + 1)
    }
}

/// The row that executes a row which has been typed out.
pub open spec fn executing(row: SuggestionView) -> SuggestionView {
    let is_folder = row.kind == "folder"@;
    SuggestionView {
        args_hint: row.args_hint,
        display_name: row.display_name,
        primary_name: row.primary_name,
        original_type: if row.original_type is Some {
            row.original_type
        } else {
            Some(row.kind)
        },
        query_term: row.query_term,
        ..action_row(
            if is_folder {
                without_slash(row.name)
            } else {
                row.name
            },
            if is_folder {
                "folder"@
            } else {
                row.description
            },
        )
    }
}

/// The rows with one in front that executes the first row typed out, unless
/// such rows are not wanted.
pub open spec fn with_exact_action(
    list: Seq<SuggestionView>,
    query: Seq<char>,
    hide: bool,
    only_show_on_tab: bool,
    allow_dangerous: bool,
) -> Seq<SuggestionView> {
    if query.len() == 0 || hide || only_show_on_tab {
        list
    } else {
        match executable_at(list, query, allow_dangerous, 0) {
            Some(i) => list.insert(0, executing(list[i])),
            None => list,
        }
    }
}

/// Puts a row in front of the others.
fn put_first(list: &mut Vec<Suggestion>, row: Suggestion)
    ensures
        rows(final(list)@) == rows(old(list)@).insert(0, row@),
{
    list.insert(0, row);
    proof {
        assert(rows(list@) =~= rows(old(list)@).insert(0, row@));
    }
}

/// Computes [`with_exact_action`]. Enter on a command that is already typed out
/// executes it instead of inserting nothing.
pub fn add_exact_auto_execute(
    suggestions: &mut Vec<Suggestion>,
    query: &str,
    hide: bool,
    only_show_on_tab: bool,
    allow_dangerous: bool,
)
    ensures
        rows(final(suggestions)@) == with_exact_action(
            rows(old(suggestions)@),
            query@,
            hide,
            only_show_on_tab,
            allow_dangerous,
        ),
{
    if query.is_empty() || hide || only_show_on_tab {
        return;
    }
    let ghost list = rows(suggestions@);
    let mut i: usize = 0;
    while i < suggestions.len() && !can_execute(&suggestions[i], query, allow_dangerous)
        invariant
            i <= suggestions@.len(),
            list == rows(suggestions@),
            executable_at(list, query@, allow_dangerous, 0) == executable_at(
                list,
                query@,
                allow_dangerous,
                i as int,
            ),
        decreases suggestions@.len() - i,
    {
        i += 1;
    }
    if i >= suggestions.len() {
        return;
    }
    let original = suggestions[i].clone();
    proof {
        assert(list[i as int] == original@);
    }
    let is_folder = same(&original.kind, "folder");
    let action = if is_folder {
        let bare = strip_slash(&original.name);
        make_action(&bare, "folder")
    } else {
        make_action(&original.name, &original.description)
    };
    let original_type: Option<String> = match original.original_type {
        Some(kind) => Some(kind),
        None => Some(original.kind),
    };
    let row = Suggestion {
        args_hint: original.args_hint,
        display_name: original.display_name,
        primary_name: original.primary_name,
        original_type,
        query_term: original.query_term,
        ..action
    };
    proof {
        assert(row@ =~= executing(list[i as int]));
    }
    put_first(suggestions, row);
}

/// The rows with one in front that executes at once, behind a space.
pub open spec fn with_space_action(
    list: Seq<SuggestionView>,
    query: Seq<char>,
    execute_after_space: bool,
    hide: bool,
    only_show_on_tab: bool,
) -> Seq<SuggestionView> {
    if query.len() > 0 || !execute_after_space || hide || only_show_on_tab || list.len() == 0 {
        list
    } else {
        list.insert(
            0,
            SuggestionView { is_dangerous: true, ..action_row("↪"@, "Immediately execute"@) },
        )
    }
}

/// Computes [`with_space_action`].
pub fn add_space_auto_execute(
    suggestions: &mut Vec<Suggestion>,
    query: &str,
    execute_after_space: bool,
    hide: bool,
    only_show_on_tab: bool,
)
    ensures
        rows(final(suggestions)@) == with_space_action(
            rows(old(suggestions)@),
            query@,
            execute_after_space,
            hide,
            only_show_on_tab,
        ),
{
    if !query.is_empty() || !execute_after_space || hide || only_show_on_tab
        || suggestions.is_empty() {
        return;
    }
    let row = make_action("↪", "Immediately execute").with_dangerous(true);
    put_first(suggestions, row);
}

/// Whether some row has the kind.
pub open spec fn has_kind(list: Seq<SuggestionView>, kind: Seq<char>) -> bool {
    exists|i: int| 0 <= i < list.len() && (#[trigger] list[i]).kind == kind
}

/// Computes [`has_kind`].
fn any_of_kind(list: &[Suggestion], kind: &str) -> (yes: bool)
    ensures
        yes == has_kind(rows(list@), kind@),
{
    let mut i: usize = 0;
    while i < list.len()
        invariant
            i <= list@.len(),
            forall|k: int| 0 <= k < i ==> (#[trigger] rows(list@)[k]).kind != kind@,
        decreases list@.len() - i,
    {
        if same(&list[i].kind, kind) {
            proof {
                assert(rows(list@)[i as int].kind == kind@);
            }
            return true;
        }
        i += 1;
    }
    false
}

/// Whether a dangerous row has been typed out.
pub open spec fn danger_typed_out(list: Seq<SuggestionView>, query: Seq<char>) -> bool {
    exists|i: int|
        0 <= i < list.len() && is_typed_out(#[trigger] list[i], query) && list[i].is_dangerous
}

/// Computes [`danger_typed_out`].
fn typed_out_danger(list: &[Suggestion], query: &str) -> (yes: bool)
    ensures
        yes == danger_typed_out(rows(list@), query@),
{
    let mut i: usize = 0;
    while i < list.len()
        invariant
            i <= list@.len(),
            forall|k: int|
                0 <= k < i ==> !(is_typed_out(#[trigger] rows(list@)[k], query@)
                    && rows(list@)[k].is_dangerous),
        decreases list@.len() - i,
    {
        if list[i].is_dangerous && typed_out(&list[i], query) {
            proof {
                assert(is_typed_out(rows(list@)[i as int], query@));
            }
            return true;
        }
        i += 1;
    }
    false
}

/// Whether the typed text enters a directory: `.`, or a path that ends in a
/// slash where a folder is offered.
pub open spec fn enters_folder(list: Seq<SuggestionView>, query: Seq<char>) -> bool {
    query == "."@ || (finishes_with(query, seq!['/']) && has_kind(list, "folder"@))
}

/// The rows with one in front that executes the text typed so far: always for
/// a directory, else where the setting asks for it. There is none without
/// other rows, beside another row that executes, or where the text is a
/// dangerous row typed out.
pub open spec fn with_current_action(
    list: Seq<SuggestionView>,
    query: Seq<char>,
    always: bool,
    hide: bool,
    only_show_on_tab: bool,
    allow_dangerous: bool,
) -> Seq<SuggestionView> {
    if query.len() == 0 || hide || only_show_on_tab || list.len() == 0 || has_kind(
        list,
        auto_kind(),
    ) || (!allow_dangerous && danger_typed_out(list, query)) {
        list
    } else if enters_folder(list, query) {
        list.insert(
            0,
            SuggestionView {
                original_type: Some("folder"@),
                ..action_row(
                    if query == "."@ {
                        query
                    } else {
                        "↪"@
                    },
                    "Enter the current directory"@,
                )
            },
        )
    } else if always {
        list.insert(0, action_row(query, "Enter the current argument"@))
    } else {
        list
    }
}

/// Computes [`with_current_action`].
pub fn add_current_token_auto_execute(
    suggestions: &mut Vec<Suggestion>,
    query: &str,
    always_suggest_current_token: bool,
    hide: bool,
    only_show_on_tab: bool,
    allow_dangerous: bool,
)
    ensures
        rows(final(suggestions)@) == with_current_action(
            rows(old(suggestions)@),
            query@,
            always_suggest_current_token,
            hide,
            only_show_on_tab,
            allow_dangerous,
        ),
{
    if query.is_empty() || hide || only_show_on_tab || suggestions.is_empty() || any_of_kind(
        suggestions,
        "auto-execute",
    ) {
        return;
    }
    if !allow_dangerous && typed_out_danger(suggestions, query) {
        return;
    }
    let s = chars_of(query);
    let n = s.len();
    proof {
        assert(s@.subrange(n - 1, n as int)[0] == s@[n - 1]);
        if s@[n - 1] == '/' {
            assert(s@.subrange(n - 1, n as int) =~= seq!['/']);
        }
    }
    let dot = same(query, ".");
    if dot || (s[n - 1] == '/' && any_of_kind(suggestions, "folder")) {
        let name = if dot {
            query
        } else {
            "↪"
        };
        let row = make_action(name, "Enter the current directory").with_original_type(
            Some("folder".to_owned()),
        );
        put_first(suggestions, row);
        return;
    }
    if !always_suggest_current_token {
        return;
    }
    put_first(suggestions, make_action(query, "Enter the current argument"));
}

/// Rows that execute never take another row's place: the other rows stay in
/// their order behind at most one row that executes, and it comes first.
pub proof fn law_actions_only_come_first(
    list: Seq<SuggestionView>,
    query: Seq<char>,
    flag: bool,
    hide: bool,
    tab: bool,
    dangerous: bool,
)
    ensures
        ({
            let out = with_exact_action(list, query, hide, tab, dangerous);
            out == list || (out.skip(1) == list && out[0].kind == auto_kind())
        }),
        ({
            let out = with_current_action(list, query, flag, hide, tab, dangerous);
            out == list || (out.skip(1) == list && out[0].kind == auto_kind())
        }),
        ({
            let out = with_space_action(list, query, flag, hide, tab);
            out == list || (out.skip(1) == list && out[0].kind == auto_kind())
        }),
{
    let a = with_exact_action(list, query, hide, tab, dangerous);
    if a.len() > list.len() {
        assert(a.skip(1) =~= list);
    }
    let b = with_current_action(list, query, flag, hide, tab, dangerous);
    if b.len() > list.len() {
        assert(b.skip(1) =~= list);
    }
    let c = with_space_action(list, query, flag, hide, tab);
    if c.len() > list.len() {
        assert(c.skip(1) =~= list);
    }
}

/// A dangerous row that has been typed out is executed only with the setting
/// that allows it, neither by name nor as the current text.
pub proof fn law_danger_needs_the_setting(list: Seq<SuggestionView>, query: Seq<char>, always: bool)
    requires
        list.len() == 1,
        list[0].is_dangerous,
        is_typed_out(list[0], query),
    ensures
        with_exact_action(list, query, false, false, false) == list,
        with_current_action(list, query, always, false, false, false) == list,
{
    assert(executable_at(list, query, false, 1) is None);
    assert(danger_typed_out(list, query));
}

} // verus!
