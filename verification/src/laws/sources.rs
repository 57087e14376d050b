//! Laws of what comes from outside: answers of commands, past commands of shells,
//! references between files, and the queue of jobs.
use vstd::prelude::*;

use super::complete::{are_simple_words, law_simple_words_are_typed};
use super::paths::{lemma_base, lemma_no_slash};
use super::shape::{is_free_of, lemma_push_contains};
use super::text::{
    law_first_word_stands_between_spaces, law_joined_parts_split_again,
    law_trimming_drops_the_spaces_around,
};
use crate::cobra::{answer_key, answer_row, answer_rows, candidates, is_directive, rows_for_word};
use crate::filegen::expand::path_joined;
use crate::generate::shape::tab_parts;
use crate::ir::FilterStrategy;
use crate::lookup::shell::spaced;
use crate::process::{decimal, digit};
use crate::query::is_match;
use crate::rank::acceptance::{is_recorded, recorded_all, stamp_of};
use crate::rank::frecency::{counted_as, firsts, kept_commands, last_use, score_of, times_in, uses};
use crate::rank::source::{
    command_lines, includes_shell, output_commands, row_command, row_commands, shell_of,
    shells_read, source_commands, HistoryAnswers, HistoryRow, HistoryShell, HistorySourceConfig,
    Loaded, ShellCommand,
};
use crate::references::{
    all_resolved, arg_resolved, args_resolved, behind_dots, indexed_path, is_safe, plain_reference,
    references_at, references_in, references_in_all, references_in_args, references_in_options,
    replaced, resolved, target_of, to_follow, LibraryView,
};
use crate::runtime::{
    hook_term, root_command, row_term, term_after, term_with_hook, HookTerms, SuggestionView,
};
use crate::text::{
    finishes_with, index_from, is_space, joined, lines_of, opt_text, rfind_spec, trimmed,
};
use crate::tree::{ArgView, LoadView, SpecView};
use crate::worker::{
    all_below, as_list, below, drained, installed_dirs, user_data, Accepted, InstallPlaces, JobKind,
};

verus! {

// ---------------------------------------------------------------------------
// Answers of commands that complete themselves
// ---------------------------------------------------------------------------
/// A line of an answer is a name and, behind a tab, its description; the row
/// inserts the name.
pub proof fn law_answers_are_read(name: Seq<char>, description: Seq<char>)
    requires
        name.len() > 0,
        name[0] != '_',
        name[0] != ':',
        !is_space(name[0]),
        !is_space(name.last()),
        forall|k: int| 0 <= k < name.len() ==> #[trigger] name[k] != '\t',
        description.len() > 0,
        !is_space(description[0]),
        !is_space(description.last()),
    ensures
        answer_row(name + "\t"@ + description) is Some,
        ({
            let row = answer_row(name + "\t"@ + description)->Some_0;
            row.name == name && row.description == description && row.insert_value == Some(name)
        }),
{
    reveal_strlit("\t");
    let none = Seq::<char>::empty();
    let line = name + "\t"@ + description;
    assert(line[0] == name[0]);
    assert(line.last() == description.last());
    lemma_trimmed_already(line);
    lemma_trimmed_already(name);
    lemma_trimmed_already(description);
    lemma_first_tab(name, description);
    assert(!is_directive(line));
}

/// A line without a tab is a name without a description.
pub proof fn law_answers_may_lack_descriptions(name: Seq<char>)
    requires
        name.len() > 0,
        name[0] != '_',
        name[0] != ':',
        !is_space(name[0]),
        !is_space(name.last()),
        forall|k: int| 0 <= k < name.len() ==> #[trigger] name[k] != '\t',
    ensures
        answer_row(name) is Some,
        answer_row(name)->Some_0.name == name,
        answer_row(name)->Some_0.description.len() == 0,
{
    lemma_trimmed_already(name);
    super::text::law_index_is_the_first(name, '\t', 0);
    assert(index_from(name, '\t', 0) == name.len());
    super::text::law_spaces_are_trimmed(Seq::empty());
}

proof fn lemma_trimmed_already(s: Seq<char>)
    requires
        s.len() > 0,
        !is_space(s[0]),
        !is_space(s.last()),
    ensures
        trimmed(s) == s,
{
    let none = Seq::<char>::empty();
    law_trimming_drops_the_spaces_around(none, s, none);
    assert(none + s + none =~= s);
}

proof fn lemma_first_tab(name: Seq<char>, description: Seq<char>)
    requires
        forall|k: int| 0 <= k < name.len() ==> #[trigger] name[k] != '\t',
    ensures
        tab_parts(name + "\t"@ + description) == (name, description),
{
    reveal_strlit("\t");
    let line = name + "\t"@ + description;
    let n = name.len() as int;
    super::text::law_index_is_the_first(line, '\t', 0);
    assert(line[n] == '\t');
    assert forall|k: int| 0 <= k < n implies line[k] != '\t' by {
        assert(line[k] == name[k]);
    }
    assert(index_from(line, '\t', 0) == n);
    assert(line.take(n) =~= name);
    assert(line.skip(n + 1) =~= description);
}

/// Lines that tell the shell how to go on, and those that begin with an
/// underscore, are no rows.
pub proof fn law_directives_are_no_rows(line: Seq<char>)
    requires
        line.len() > 0,
        !is_space(line[0]),
        !is_space(line.last()),
        line[0] == '_' || (line[0] == ':' && forall|k: int|
            1 <= k < line.len() ==> '0' <= #[trigger] line[k] && line[k] <= '9'),
    ensures
        answer_row(line) is None,
{
    let none = Seq::<char>::empty();
    law_trimming_drops_the_spaces_around(none, line, none);
    assert(none + line + none =~= line);
}

/// The rows of two answers, one behind the other, are those of the first and then
/// those of the second; one line gives the row that it says.
pub proof fn law_answers_keep_their_order(a: Seq<Seq<char>>, b: Seq<Seq<char>>, line: Seq<char>)
    ensures
        answer_rows(a + b) == answer_rows(a) + answer_rows(b),
        answer_rows(seq![line]) == match answer_row(line) {
            Some(row) => seq![row],
            None => Seq::empty(),
        },
    decreases b.len(),
{
    assert(seq![line].drop_last() =~= Seq::<Seq<char>>::empty());
    assert(answer_rows(Seq::<Seq<char>>::empty()) =~= Seq::empty());
    if let Some(row) = answer_row(line) {
        assert(answer_rows(seq![line]) =~= seq![row]);
    }
    if b.len() == 0 {
        assert(a + b =~= a);
        assert(answer_rows(a) + answer_rows(b) =~= answer_rows(a));
    } else {
        law_answers_keep_their_order(a, b.drop_last(), line);
        assert((a + b).drop_last() =~= a + b.drop_last());
        assert((a + b).last() == b.last());
        assert(answer_rows(a + b) =~= answer_rows(a) + answer_rows(b));
    }
}

/// Of the rows of an answer those are offered that match the word being typed.
pub proof fn law_answers_match_the_word(
    list: Seq<SuggestionView>,
    tokens: Seq<Seq<char>>,
    fuzzy: bool,
)
    requires
        tokens.len() > 1,
        tokens.last().len() > 0,
    ensures
        forall|row: SuggestionView| #[trigger]
            rows_for_word(list, tokens, fuzzy).contains(row) <==> list.contains(row) && is_match(
                row.name,
                tokens.last(),
                fuzzy,
            ),
    decreases list.len(),
{
    if list.len() > 0 {
        let rest = list.drop_last();
        law_answers_match_the_word(rest, tokens, fuzzy);
        let last = list.last();
        assert(list =~= rest.push(last));
        assert forall|row: SuggestionView| #[trigger]
            rows_for_word(list, tokens, fuzzy).contains(row) <==> list.contains(row) && is_match(
                row.name,
                tokens.last(),
                fuzzy,
            ) by {
            lemma_push_contains(rest, last, row);
            lemma_push_contains(rows_for_word(rest, tokens, fuzzy), last, row);
            assert(rows_for_word(rest, tokens, fuzzy).contains(row) <==> rest.contains(row)
                && is_match(row.name, tokens.last(), fuzzy));
        }
    }
}

// ---------------------------------------------------------------------------
// Past commands of shells
// ---------------------------------------------------------------------------
/// A shell is known by the last part of its path.
pub proof fn law_shells_are_known_by_name(dir: Seq<char>, name: Seq<char>)
    requires
        name.len() > 0,
        !is_space(name[0]),
        !is_space(name.last()),
        name.last() != ')',
        dir.len() > 0 ==> !is_space(dir[0]),
        forall|k: int| 0 <= k < name.len() ==> #[trigger] name[k] != '/',
    ensures
        shell_of(Some(dir + "/"@ + name)) == shell_of(Some(name)),
        shell_of(Some(name)) == (if name == "zsh"@ {
            HistoryShell::Zsh
        } else if name == "bash"@ {
            HistoryShell::Bash
        } else if name == "fish"@ {
            HistoryShell::Fish
        } else {
            HistoryShell::Unknown
        }),
        shell_of(Some(dir + "/"@ + name + " (figterm)"@)) == shell_of(Some(name)),
{
    reveal_strlit("/");
    reveal_strlit(" (figterm)");
    let none = Seq::<char>::empty();
    let mark = " (figterm)"@;
    let path = dir + "/"@ + name;
    let marked = path + mark;
    if dir.len() > 0 {
        assert(path[0] == dir[0]);
        assert(marked[0] == dir[0]);
    } else {
        assert(path[0] == '/');
        assert(marked[0] == '/');
    }
    assert(path.last() == name.last());
    assert(marked.last() == ')');
    law_trimming_drops_the_spaces_around(none, path, none);
    assert(none + path + none =~= path);
    law_trimming_drops_the_spaces_around(none, marked, none);
    assert(none + marked + none =~= marked);
    law_trimming_drops_the_spaces_around(none, name, none);
    assert(none + name + none =~= name);
    super::text::law_suffixes(path, mark, none);
    super::text::law_suffixes(name, mark, none);
    super::text::law_suffixes(marked, mark, path);
    if finishes_with(path, mark) {
        assert(path.last() == mark.last());
    }
    if finishes_with(name, mark) {
        assert(name.last() == mark.last());
    }
    assert(marked.take(marked.len() - mark.len()) =~= path);
    lemma_base(dir, name, name.len() as int);
    assert(path.skip(dir.len() as int + 1) =~= name);
    lemma_no_slash(name, name.len() as int);
    assert(name.skip(0) =~= name);
}

/// The history of the current shell is always read, and first; that of an unknown
/// shell is not.
pub proof fn law_the_current_shell_is_read_first(config: HistorySourceConfig)
    ensures
        includes_shell(config, config.current_shell),
        config.current_shell is Unknown <==> shells_read(config).len() == 0,
        config.current_shell is Zsh ==> shells_read(config)[0] == ShellCommand::Zsh,
        config.current_shell is Bash ==> shells_read(config)[0] == ShellCommand::Bash,
        config.current_shell is Fish ==> shells_read(config)[0] == ShellCommand::Fish,
        !config.all_shells ==> shells_read(config).len() <= 1,
        !config.all_shells && !(config.current_shell is Unknown) ==> forall|row: HistoryShell|
            includes_shell(config, row) <==> row == config.current_shell,
{
}

/// The lines of a shell's history are kept in their order, but for blank ones.
pub proof fn law_blank_lines_are_no_commands(a: Seq<Seq<char>>, b: Seq<Seq<char>>, line: Seq<char>)
    ensures
        command_lines(a + b) == command_lines(a) + command_lines(b),
        command_lines(seq![line]) == if trimmed(line).len() > 0 {
            seq![line]
        } else {
            Seq::empty()
        },
    decreases b.len(),
{
    assert(seq![line].drop_last() =~= Seq::<Seq<char>>::empty());
    assert(command_lines(Seq::<Seq<char>>::empty()) =~= Seq::empty());
    if trimmed(line).len() > 0 {
        assert(command_lines(seq![line]) =~= seq![line]);
    }
    if b.len() == 0 {
        assert(a + b =~= a);
        assert(command_lines(a) + command_lines(b) =~= command_lines(a));
    } else {
        law_blank_lines_are_no_commands(a, b.drop_last(), line);
        assert((a + b).drop_last() =~= a + b.drop_last());
        assert((a + b).last() == b.last());
        assert(command_lines(a + b) =~= command_lines(a) + command_lines(b));
    }
}

proof fn lemma_rows_shift(config: HistorySourceConfig, p: Seq<HistoryRow>, s: Seq<HistoryRow>, i: int)
    requires
        0 <= i <= s.len(),
    ensures
        row_commands(config, p + s, p.len() + i) == row_commands(config, s, i),
    decreases s.len() - i,
{
    if i < s.len() {
        assert((p + s)[p.len() + i] == s[i]);
        lemma_rows_shift(config, p, s, i + 1);
    }
}

proof fn lemma_rows_before(
    config: HistorySourceConfig,
    a: Seq<HistoryRow>,
    b: Seq<HistoryRow>,
    i: int,
)
    requires
        0 <= i <= a.len(),
    ensures
        row_commands(config, a + b, i) == row_commands(config, b, 0) + row_commands(config, a, i),
    decreases a.len() - i,
{
    if i < a.len() {
        assert((a + b)[i] == a[i]);
        lemma_rows_before(config, a, b, i + 1);
        assert(row_commands(config, a + b, i) =~= row_commands(config, b, 0) + row_commands(
            config,
            a,
            i,
        ));
    } else {
        lemma_rows_shift(config, a, b, 0);
        assert(row_commands(config, b, 0) + row_commands(config, a, i) =~= row_commands(
            config,
            b,
            0,
        ));
    }
}

/// The rows of the database, which come with the newest first, become commands with
/// the oldest first.
pub proof fn law_database_rows_are_turned_round(
    config: HistorySourceConfig,
    newer: Seq<HistoryRow>,
    older: Seq<HistoryRow>,
)
    ensures
        row_commands(config, newer + older, 0) == row_commands(config, older, 0) + row_commands(
            config,
            newer,
            0,
        ),
{
    lemma_rows_before(config, newer, older, 0);
}

/// A row of the database is a command where it names one that is not blank, of a
/// shell that is read.
pub proof fn law_database_rows_are_filtered(config: HistorySourceConfig, row: HistoryRow)
    ensures
        row.command is None ==> row_command(config, row) is None,
        row.command matches Some(command) ==> {
            &&& trimmed(command@).len() == 0 ==> row_command(config, row) is None
            &&& config.current_shell is Unknown && trimmed(command@).len() > 0 ==> row_command(
                config,
                row,
            ) is Some
            &&& row_command(config, row) matches Some(pair) ==> pair.0 == command@ && (
            row.start_time matches Some(time) ==> pair.1 == time)
        },
{
}

/// Past commands count without the white space around them, and blank ones not.
pub proof fn law_commands_are_kept_trimmed(
    a: Seq<(Seq<char>, u64)>,
    b: Seq<(Seq<char>, u64)>,
    one: (Seq<char>, u64),
)
    ensures
        kept_commands(a + b) == kept_commands(a) + kept_commands(b),
        kept_commands(seq![one]) == if trimmed(one.0).len() > 0 {
            seq![(trimmed(one.0), one.1)]
        } else {
            Seq::empty()
        },
    decreases b.len(),
{
    let none = Seq::<(Seq<char>, u64)>::empty();
    assert(seq![one].drop_last() =~= none);
    assert(kept_commands(none) =~= none);
    if trimmed(one.0).len() > 0 {
        assert(kept_commands(seq![one]) =~= seq![(trimmed(one.0), one.1)]);
    }
    if b.len() == 0 {
        assert(a + b =~= a);
        assert(kept_commands(a) + kept_commands(b) =~= kept_commands(a));
    } else {
        law_commands_are_kept_trimmed(a, b.drop_last(), one);
        assert((a + b).drop_last() =~= a + b.drop_last());
        assert((a + b).last() == b.last());
        assert(kept_commands(a + b) =~= kept_commands(a) + kept_commands(b));
    }
}

proof fn lemma_times(keys: Seq<Seq<char>>, key: Seq<char>)
    ensures
        times_in(keys, key) >= 0,
        keys.contains(key) ==> times_in(keys, key) >= 1,
        !keys.contains(key) ==> times_in(keys, key) == 0,
    decreases keys.len(),
{
    if keys.len() > 0 {
        let rest = keys.drop_last();
        lemma_times(rest, key);
        assert(keys =~= rest.push(keys.last()));
        lemma_push_contains(rest, keys.last(), key);
    }
}

/// A use of a command counts for its first word too, and for the command as a
/// whole; it counts for no other text of one word.
pub proof fn law_uses_count_for_the_first_word(
    list: Seq<(Seq<char>, u64)>,
    word: Seq<char>,
    rest: Seq<char>,
    time: u64,
    other: Seq<char>,
)
    requires
        word.len() > 0,
        forall|k: int| 0 <= k < word.len() ==> !is_space(#[trigger] word[k]),
        rest.len() > 0,
        is_space(rest[0]),
        other != word,
        forall|k: int| 0 <= k < other.len() ==> !is_space(#[trigger] other[k]),
    ensures
        uses(list.push((word + rest, time)), word) >= uses(list, word) + 1,
        uses(list.push((word + rest, time)), word + rest) >= uses(list, word + rest) + 1,
        last_use(list.push((word + rest, time)), word) >= time,
        other.len() > 0 ==> uses(list.push((word + rest, time)), other) == uses(list, other),
{
    reveal_strlit(" ");
    let none = Seq::<char>::empty();
    let command = word + rest;
    let more = list.push((command, time));
    assert(more.drop_last() =~= list);
    law_first_word_stands_between_spaces(none, word, rest);
    assert(none + word + rest =~= command);
    let keys = counted_as(command);
    assert(keys[0] == command);
    assert(keys[1] == word);
    assert(keys.contains(command));
    assert(keys.contains(word));
    lemma_times(keys, word);
    lemma_times(keys, command);
    if other.len() > 0 {
        assert(!keys.contains(other)) by {
            if keys.contains(other) {
                let i = choose|i: int| 0 <= i < keys.len() && keys[i] == other;
                if i == 0 {
                    assert(other[word.len() as int] == rest[0]);
                } else if i == 2 {
                    assert(keys[2][word.len() as int] == ' ');
                    assert(!is_space(other[word.len() as int]));
                }
            }
        }
        lemma_times(keys, other);
    }
}

// ---------------------------------------------------------------------------
// Terms and root commands
// ---------------------------------------------------------------------------
/// Behind a separator of one character only what follows its last place counts;
/// without the separator everything does.
pub proof fn law_terms_follow_their_separator(a: Seq<char>, c: char, b: Seq<char>)
    requires
        forall|k: int| 0 <= k < b.len() ==> #[trigger] b[k] != c,
    ensures
        term_after(a + seq![c] + b, Some(seq![c])) == b,
        term_after(b, Some(seq![c])) == b,
        term_after(a, None) == a,
{
    let s = a + seq![c] + b;
    let sep = seq![c];
    let n = a.len() as int;
    assert(s.subrange(n, n + 1) =~= sep);
    super::text::law_rfind_is_the_last(s, sep, n);
    let found = rfind_spec(s, sep)->Some_0;
    if found > n {
        assert(s.subrange(found, found + 1)[0] == s[found]);
        assert(s[found] == b[found - n - 1]);
    }
    assert(s.skip(n + 1) =~= b);
    assert(is_free_of(b, sep, 0)) by {
        assert forall|k: int| 0 <= k && k + sep.len() <= b.len() implies #[trigger] b.subrange(
            k,
            k + sep.len(),
        ) != sep by {
            assert(b.subrange(k, k + 1)[0] == b[k]);
        }
    }
    super::shape::lemma_rfind_none(b, sep, b.len() - 1);
}

/// The root command of a line of simple words is the first of them.
pub proof fn law_the_root_is_the_first_word(list: Seq<Seq<char>>)
    requires
        list.len() > 0,
        are_simple_words(list),
    ensures
        root_command(spaced(list), None) == list[0],
        root_command(spaced(list) + " "@, None) == list[0],
{
    law_simple_words_are_typed(list);
}

// ---------------------------------------------------------------------------
// References between files
// ---------------------------------------------------------------------------
/// A relative path is safe as long as none of its parts climbs out.
pub proof fn law_safe_paths_do_not_climb(parts: Seq<Seq<char>>)
    requires
        parts.len() > 0,
        parts[0].len() > 0,
        forall|k: int, i: int|
            0 <= k < parts.len() && 0 <= i < parts[k].len() ==> #[trigger] parts[k][i] != '/',
    ensures
        is_safe(joined(parts, "/"@)) <==> !parts.contains(".."@),
{
    reveal_strlit("/");
    let sep = "/"@;
    assert(sep =~= seq!['/']);
    law_joined_parts_split_again(parts, '/');
    let s = joined(parts, sep);
    lemma_joined_begins(parts, sep);
    assert(s[0] == parts[0][0]);
}

pub proof fn lemma_joined_begins(parts: Seq<Seq<char>>, sep: Seq<char>)
    requires
        parts.len() > 0,
    ensures
        joined(parts, sep).len() >= parts[0].len(),
        joined(parts, sep).take(parts[0].len() as int) == parts[0],
        parts[0].len() > 0 ==> joined(parts, sep)[0] == parts[0][0],
    decreases parts.len(),
{
    let s = joined(parts, sep);
    let n = parts[0].len() as int;
    if parts.len() == 1 {
        assert(s.take(n) =~= parts[0]);
    } else {
        let rest = parts.drop_last();
        lemma_joined_begins(rest, sep);
        let t = joined(rest, sep);
        assert(rest[0] == parts[0]);
        assert(s.take(n) =~= t.take(n));
        if n > 0 {
            assert(s[0] == t[0]);
        }
    }
}

/// A reference leads to the file that the index names for it, and otherwise to the
/// file of that name below the directory of specs; `./` before it makes no
/// difference.
pub proof fn law_references_lead_to_their_file(
    root: Seq<char>,
    index: Seq<(Seq<char>, Seq<char>)>,
    reference: Seq<char>,
    k: int,
)
    requires
        reference.len() > 0,
        reference[0] != '.',
        !is_space(reference[0]),
        !is_space(reference.last()),
        !reference.contains('\\'),
    ensures
        0 <= k < index.len() && index[k].0 == reference && (forall|j: int|
            0 <= j < k ==> (#[trigger] index[j]).0 != reference) ==> target_of(
            root,
            index,
            reference,
        ) == Some(index[k].1),
        (forall|j: int| 0 <= j < index.len() ==> (#[trigger] index[j]).0 != reference)
            && !finishes_with(reference, ".json"@) && is_safe(reference + ".json"@) ==> target_of(
            root,
            index,
            reference,
        ) == Some(path_joined(root, reference + ".json"@)),
        target_of(root, index, "./"@ + reference) == target_of(root, index, reference),
{
    reveal_strlit("./");
    let none = Seq::<char>::empty();
    law_trimming_drops_the_spaces_around(none, reference, none);
    assert(none + reference + none =~= reference);
    assert(reference.skip(0) =~= reference);
    assert(plain_reference(reference) == reference);
    let dotted = "./"@ + reference;
    assert(dotted[0] == '.');
    assert(dotted[1] == '/');
    assert(dotted[2] == reference[0]);
    assert(dotted.last() == reference.last());
    law_trimming_drops_the_spaces_around(none, dotted, none);
    assert(none + dotted + none =~= dotted);
    assert(behind_dots(dotted, 2) == 2);
    assert(behind_dots(dotted, 0) == 2);
    assert(dotted.skip(2) =~= reference);
    if 0 <= k < index.len() && index[k].0 == reference && (forall|j: int|
        0 <= j < k ==> (#[trigger] index[j]).0 != reference) {
        lemma_indexed(index, reference, 0, k);
    }
    if forall|j: int| 0 <= j < index.len() ==> (#[trigger] index[j]).0 != reference {
        lemma_unindexed(index, reference, 0);
    }
}

proof fn lemma_indexed(index: Seq<(Seq<char>, Seq<char>)>, name: Seq<char>, i: int, k: int)
    requires
        0 <= i <= k < index.len(),
        index[k].0 == name,
        forall|j: int| 0 <= j < k ==> (#[trigger] index[j]).0 != name,
    ensures
        indexed_path(index, name, i) == Some(index[k].1),
    decreases k - i,
{
    if i < k {
        assert(index[i].0 != name);
        lemma_indexed(index, name, i + 1, k);
    }
}

proof fn lemma_unindexed(index: Seq<(Seq<char>, Seq<char>)>, name: Seq<char>, i: int)
    requires
        0 <= i,
        forall|j: int| 0 <= j < index.len() ==> (#[trigger] index[j]).0 != name,
    ensures
        indexed_path(index, name, i) is None,
    decreases index.len() - i,
{
    if i < index.len() {
        assert(index[i].0 != name);
        lemma_unindexed(index, name, i + 1);
    }
}

/// Following a reference gives what the file holds, under the names of the place
/// that refers to it.
pub proof fn law_followed_references_give_the_file(
    v: SpecView,
    library: LibraryView,
    stack: Seq<Seq<char>>,
    depth: nat,
    reference: Seq<char>,
    path: Seq<char>,
    raw: SpecView,
)
    requires
        v.load_spec == Some(LoadView::Path(reference)),
        to_follow(library, stack, reference) == Some((path, raw)),
        depth > 0,
        resolved(raw, library, stack.push(path), (depth - 1) as nat) is Some,
    ensures
        replaced(v, library, stack, depth) is Some,
        ({
            let file = resolved(raw, library, stack.push(path), (depth - 1) as nat)->Some_0;
            let out = replaced(v, library, stack, depth)->Some_0;
            &&& out.subcommands == file.subcommands
            &&& out.args == file.args
            &&& out.options == file.options
            &&& out.description == file.description
            &&& v.names.len() > 0 ==> out.names == v.names
            &&& v.names.len() == 0 ==> out.names == file.names
        }),
{
}

proof fn lemma_all_resolved(
    list: Seq<SpecView>,
    n: nat,
    library: LibraryView,
    stack: Seq<Seq<char>>,
    depth: nat,
)
    requires
        n <= list.len(),
        all_resolved(list, n, library, stack, depth) is Some,
    ensures
        ({
            let out = all_resolved(list, n, library, stack, depth)->Some_0;
            &&& out.len() == n
            &&& forall|i: int|
                0 <= i < n ==> resolved(list[i], library, stack, depth) == Some(#[trigger] out[i])
        }),
    decreases n,
{
    if n > 0 {
        lemma_all_resolved(list, (n - 1) as nat, library, stack, depth);
        let earlier = all_resolved(list, (n - 1) as nat, library, stack, depth)->Some_0;
        let out = all_resolved(list, n, library, stack, depth)->Some_0;
        assert forall|i: int| 0 <= i < n implies resolved(list[i], library, stack, depth) == Some(
            #[trigger] out[i],
        ) by {
            if i < n - 1 {
                assert(out[i] == earlier[i]);
            }
        }
    }
}

/// A spec without a reference of its own stays as it is but for its parts, and each
/// of its subcommands is followed on its own, in its place.
pub proof fn law_subcommands_are_followed_each(
    v: SpecView,
    library: LibraryView,
    stack: Seq<Seq<char>>,
    depth: nat,
    i: int,
)
    requires
        v.load_spec is None,
        resolved(v, library, stack, depth) is Some,
        0 <= i < v.subcommands.len(),
    ensures
        ({
            let out = resolved(v, library, stack, depth)->Some_0;
            &&& out.names == v.names
            &&& out.description == v.description
            &&& out.subcommands.len() == v.subcommands.len()
            &&& resolved(v.subcommands[i], library, stack, (depth - 1) as nat) == Some(
                out.subcommands[i],
            )
        }),
{
    lemma_all_resolved(
        v.subcommands,
        v.subcommands.len(),
        library,
        stack,
        (depth - 1) as nat,
    );
}

// ---------------------------------------------------------------------------
// The queue of jobs
// ---------------------------------------------------------------------------
/// A queue is drained from the front: what comes behind goes on from the request
/// that came before.
pub proof fn law_queues_are_drained_in_order<R, K>(
    first: R,
    a: Seq<JobKind<R, K>>,
    b: Seq<JobKind<R, K>>,
)
    ensures
        ({
            let front = drained(first, a);
            let back = drained(front.latest, b);
            let all = drained(first, a + b);
            &&& all.latest == back.latest
            &&& all.superseded == front.superseded + back.superseded
            &&& all.acceptances == front.acceptances + back.acceptances
            &&& all.clears == front.clears + back.clears
        }),
    decreases b.len(),
{
    let front = drained(first, a);
    let back = drained(front.latest, b);
    let all = drained(first, a + b);
    if b.len() == 0 {
        assert(a + b =~= a);
    } else {
        law_queues_are_drained_in_order(first, a, b.drop_last());
        assert((a + b).drop_last() =~= a + b.drop_last());
        assert((a + b).last() == b.last());
    }
    assert(all.superseded =~= front.superseded + back.superseded);
    assert(all.acceptances =~= front.acceptances + back.acceptances);
    assert(all.clears =~= front.clears + back.clears);
}

/// A request takes the place of the one before it, which is answered as superseded;
/// what was accepted and what is to be cleared is kept.
pub proof fn law_single_jobs<R, K>(first: R, job: JobKind<R, K>)
    ensures
        ({
            let all = drained(first, seq![job]);
            match job {
                JobKind::Complete(request) => {
                    &&& all.latest == request
                    &&& all.superseded == seq![first]
                    &&& all.acceptances.len() == 0
                    &&& all.clears.len() == 0
                },
                JobKind::RecordAcceptance { root_command, accepted_name, timestamp } => {
                    &&& all.latest == first
                    &&& all.superseded.len() == 0
                    &&& all.acceptances == seq![Accepted { root_command, accepted_name, timestamp }]
                    &&& all.clears.len() == 0
                },
                JobKind::ClearCaches(reply) => {
                    &&& all.latest == first
                    &&& all.superseded.len() == 0
                    &&& all.acceptances.len() == 0
                    &&& all.clears == seq![reply]
                },
            }
        }),
{
    let none = Seq::<JobKind<R, K>>::empty();
    assert(seq![job].drop_last() =~= none);
    let start = drained(first, none);
    let all = drained(first, seq![job]);
    match job {
        JobKind::Complete(request) => {
            assert(all.superseded =~= seq![first]);
        },
        JobKind::RecordAcceptance { root_command, accepted_name, timestamp } => {
            assert(all.acceptances =~= seq![Accepted { root_command, accepted_name, timestamp }]);
        },
        JobKind::ClearCaches(reply) => {
            assert(all.clears =~= seq![reply]);
        },
    }
}

/// The number that digits spell.
pub open spec fn spelled_number(digits: Seq<char>) -> int
    decreases digits.len(),
{
    if digits.len() == 0 {
        0
    } else {
        spelled_number(digits.drop_last()) * 10 + (digits.last() as u32 - 48)
    }
}

/// A number is written in decimal digits that spell it, without zeros before it.
pub proof fn law_numbers_are_spelled(n: nat)
    ensures
        spelled_number(decimal(n)) == n,
        decimal(n).len() > 0,
        n > 0 ==> decimal(n)[0] != '0',
    decreases n,
{
    if n < 10 {
        assert(seq![digit(n as int)].drop_last() =~= Seq::<char>::empty());
        assert(spelled_number(Seq::<char>::empty()) == 0);
        lemma_digit(n as int);
    } else {
        law_numbers_are_spelled(n / 10);
        let rest = decimal(n / 10);
        let last = digit((n % 10) as int);
        lemma_digit((n % 10) as int);
        assert(rest.push(last).drop_last() =~= rest);
        assert(decimal(n)[0] == rest[0]);
    }
}

proof fn lemma_digit(n: int)
    requires
        0 <= n < 10,
    ensures
        digit(n) as u32 == n + 48,
{
}

/// The directories below which specs may be installed are those that are named.
pub proof fn law_named_directories_are_searched(dirs: Seq<Seq<char>>, rel: Seq<char>)
    ensures
        forall|d: Seq<char>| #[trigger]
            all_below(dirs, rel).contains(d) <==> exists|k: int|
                0 <= k < dirs.len() && (#[trigger] dirs[k]).len() > 0 && d == path_joined(
                    dirs[k],
                    rel,
                ),
    decreases dirs.len(),
{
    if dirs.len() > 0 {
        let rest = dirs.drop_last();
        law_named_directories_are_searched(rest, rel);
        let earlier = all_below(rest, rel);
        let out = all_below(dirs, rel);
        assert forall|d: Seq<char>| #[trigger] out.contains(d) <==> exists|k: int|
            0 <= k < dirs.len() && (#[trigger] dirs[k]).len() > 0 && d == path_joined(
                dirs[k],
                rel,
            ) by {
            lemma_push_contains(earlier, path_joined(dirs.last(), rel), d);
            assert(earlier.contains(d) <==> exists|k: int|
                0 <= k < rest.len() && (#[trigger] rest[k]).len() > 0 && d == path_joined(
                    rest[k],
                    rel,
                ));
            if earlier.contains(d) {
                let k = choose|k: int|
                    0 <= k < rest.len() && (#[trigger] rest[k]).len() > 0 && d == path_joined(
                        rest[k],
                        rel,
                    );
                assert(dirs[k] == rest[k]);
            }
            if dirs.last().len() > 0 && d == path_joined(dirs.last(), rel) {
                assert(dirs[dirs.len() - 1].len() > 0);
            }
            if exists|k: int|
                0 <= k < dirs.len() && (#[trigger] dirs[k]).len() > 0 && d == path_joined(
                    dirs[k],
                    rel,
                ) {
                let k = choose|k: int|
                    0 <= k < dirs.len() && (#[trigger] dirs[k]).len() > 0 && d == path_joined(
                        dirs[k],
                        rel,
                    );
                if k < rest.len() {
                    assert(rest[k] == dirs[k]);
                }
            }
        }
    }
}

// ---------------------------------------------------------------------------
// Programs, arguments of files, and what is recorded
// ---------------------------------------------------------------------------
/// A program is looked for in every directory of the search path, in order; a path
/// is taken as it is.
pub proof fn law_programs_are_looked_for(name: Seq<char>, cwd: Seq<char>, dirs: Seq<Seq<char>>, i: int)
    ensures
        name.contains('/') ==> candidates(name, cwd, dirs) == seq![path_joined(cwd, name)],
        !name.contains('/') ==> candidates(name, cwd, dirs).len() == dirs.len(),
        !name.contains('/') && 0 <= i < dirs.len() ==> candidates(name, cwd, dirs)[i] == path_joined(
            dirs[i],
            name,
        ),
{
}

/// Answers to different words are kept apart: of one program, two lines with the
/// same key have the same words behind the command.
pub proof fn law_answers_are_kept_apart(
    binary: Seq<char>,
    a: Seq<Seq<char>>,
    b: Seq<Seq<char>>,
)
    requires
        a.len() > 1,
        b.len() > 1,
        forall|k: int, i: int|
            0 <= k < a.len() && 0 <= i < a[k].len() ==> #[trigger] a[k][i] != '\u{1f}',
        forall|k: int, i: int|
            0 <= k < b.len() && 0 <= i < b[k].len() ==> #[trigger] b[k][i] != '\u{1f}',
        answer_key(binary, a) == answer_key(binary, b),
    ensures
        a.skip(1) == b.skip(1),
{
    reveal_strlit("\u{1f}");
    let sep = "\u{1f}"@;
    assert(sep =~= seq!['\u{1f}']);
    let x = a.skip(1);
    let y = b.skip(1);
    let head = binary + "|"@;
    assert(joined(x, sep) =~= answer_key(binary, a).skip(head.len() as int));
    assert(joined(y, sep) =~= answer_key(binary, b).skip(head.len() as int));
    assert forall|k: int, i: int| 0 <= k < x.len() && 0 <= i < x[k].len() implies #[trigger] x[k][i]
        != '\u{1f}' by {
        assert(x[k] == a[k + 1]);
        assert(a[k + 1][i] != '\u{1f}');
    }
    assert forall|k: int, i: int| 0 <= k < y.len() && 0 <= i < y[k].len() implies #[trigger] y[k][i]
        != '\u{1f}' by {
        assert(y[k] == b[k + 1]);
        assert(b[k + 1][i] != '\u{1f}');
    }
    law_joined_parts_split_again(x, '\u{1f}');
    law_joined_parts_split_again(y, '\u{1f}');
}

proof fn lemma_args_resolved(
    list: Seq<ArgView>,
    n: nat,
    library: LibraryView,
    stack: Seq<Seq<char>>,
    depth: nat,
)
    requires
        n <= list.len(),
        args_resolved(list, n, library, stack, depth) is Some,
    ensures
        ({
            let out = args_resolved(list, n, library, stack, depth)->Some_0;
            &&& out.len() == n
            &&& forall|i: int|
                0 <= i < n ==> arg_resolved(list[i], library, stack, depth) == Some(#[trigger] out[i])
        }),
    decreases n,
{
    if n > 0 {
        lemma_args_resolved(list, (n - 1) as nat, library, stack, depth);
        let earlier = args_resolved(list, (n - 1) as nat, library, stack, depth)->Some_0;
        let out = args_resolved(list, n, library, stack, depth)->Some_0;
        assert forall|i: int| 0 <= i < n implies arg_resolved(list[i], library, stack, depth) == Some(
            #[trigger] out[i],
        ) by {
            if i < n - 1 {
                assert(out[i] == earlier[i]);
            }
        }
    }
}

/// Each argument of a spec is followed on its own, in its place; one that refers to
/// a file keeps everything but gets the spec of that file.
pub proof fn law_arguments_are_followed_each(
    v: SpecView,
    library: LibraryView,
    stack: Seq<Seq<char>>,
    depth: nat,
    i: int,
    reference: Seq<char>,
    path: Seq<char>,
    raw: SpecView,
)
    requires
        v.load_spec is None,
        resolved(v, library, stack, depth) is Some,
        0 <= i < v.args.len(),
    ensures
        ({
            let out = resolved(v, library, stack, depth)->Some_0;
            &&& out.args.len() == v.args.len()
            &&& v.args[i].load_spec is None ==> out.args[i] == v.args[i]
            &&& v.args[i].load_spec == Some(LoadView::Path(reference)) && to_follow(
                library,
                stack,
                reference,
            ) == Some((path, raw)) ==> {
                &&& out.args[i] == (ArgView { resolved_spec: out.args[i].resolved_spec, ..v.args[i] })
                &&& depth >= 2
                &&& out.args[i].resolved_spec == resolved(
                    raw,
                    library,
                    stack.push(path),
                    (depth - 2) as nat,
                )
            }
        }),
{
    lemma_args_resolved(v.args, v.args.len(), library, stack, (depth - 1) as nat);
    let out = resolved(v, library, stack, depth)->Some_0;
    assert(arg_resolved(v.args[i], library, stack, (depth - 1) as nat) == Some(out.args[i]));
}

/// The record of an acceptance that comes last is the one that counts.
pub proof fn law_the_last_record_counts(
    list: Seq<(String, String, u64)>,
    one: (String, String, u64),
)
    ensures
        is_recorded(one.0@, one.1@) ==> stamp_of(
            recorded_all(list.push(one)),
            trimmed(one.0@),
            trimmed(one.1@),
        ) == Some(one.2),
        !is_recorded(one.0@, one.1@) ==> recorded_all(list.push(one)) == recorded_all(list),
{
    assert(list.push(one).drop_last() =~= list);
    crate::rank::acceptance::law_records_are_found(
        recorded_all(list),
        one.0@,
        one.1@,
        one.2,
        Seq::empty(),
        Seq::empty(),
    );
}

/// A command of the user's own is asked first; the lines of what it writes are the
/// history, and only where it writes nothing is the database read.
pub proof fn law_own_commands_give_the_history(
    config: HistorySourceConfig,
    answers: HistoryAnswers,
    command: Seq<char>,
)
    requires
        config.custom_command matches Some(text) && text@ == command,
    ensures
        answers.custom is None ==> source_commands(config, answers) == Loaded::NeedsCustom(command),
        answers.custom matches Some(Some(output)) ==> trimmed(output@).len() > 0 ==> {
            &&& source_commands(config, answers) is Done
            &&& firsts(source_commands(config, answers)->Done_0) == command_lines(lines_of(output@))
        },
        answers.custom == Some(None::<String>) && answers.database is None ==> source_commands(
            config,
            answers,
        ) == Loaded::NeedsDatabase,
{
    if let Some(Some(output)) = answers.custom {
        if trimmed(output@).len() > 0 {
            assert(firsts(source_commands(config, answers)->Done_0) =~= command_lines(
                lines_of(output@),
            ));
        }
    }
}

/// Of the shells that are read, each is asked in turn, and the commands of one come
/// behind those of the one before it.
pub proof fn law_shells_are_asked_in_turn(config: HistorySourceConfig, answers: HistoryAnswers)
    requires
        config.custom_command is None,
    ensures
        answers.shells@.len() < shells_read(config).len() ==> source_commands(config, answers)
            == Loaded::NeedsShell(shells_read(config)[answers.shells@.len() as int]),
        shells_read(config).len() == 1 && answers.shells@.len() == 1 ==> (answers.shells@[0] matches Some(output)
            ==> command_lines(lines_of(output@)).len() > 0 ==> {
            &&& source_commands(config, answers) is Done
            &&& firsts(source_commands(config, answers)->Done_0) == command_lines(lines_of(output@))
        }),
{
    if shells_read(config).len() == 1 && answers.shells@.len() == 1 {
        if let Some(output) = answers.shells@[0] {
            let none = Seq::<(Seq<char>, u64)>::empty();
            let own = crate::rank::source::untimed(command_lines(lines_of(output@)));
            assert(output_commands(answers.shells@, 0) =~= none);
            assert(output_commands(answers.shells@, 1) =~= own);
            assert(firsts(own) =~= command_lines(lines_of(output@)));
        }
    }
}

/// Of two texts that were last used at the same time the one used more often scores
/// higher.
pub proof fn law_more_uses_score_higher(
    list: Seq<(Seq<char>, u64)>,
    a: Seq<char>,
    b: Seq<char>,
)
    requires
        uses(list, a) > uses(list, b),
        uses(list, a) <= u32::MAX,
        last_use(list, a) == last_use(list, b),
    ensures
        score_of(list, a) > score_of(list, b),
{
}

proof fn lemma_references_of_all(list: Seq<SpecView>, i: int, reference: Seq<char>)
    requires
        0 <= i < list.len(),
        references_in(list[i]).contains(reference),
    ensures
        references_in_all(list).contains(reference),
    decreases list.len(),
{
    let rest = list.drop_last();
    let earlier = references_in_all(rest);
    let own = references_in(list.last());
    let out = references_in_all(list);
    assert(out == earlier + own);
    if i < rest.len() {
        assert(rest[i] == list[i]);
        lemma_references_of_all(rest, i, reference);
        let k = choose|k: int| 0 <= k < earlier.len() && earlier[k] == reference;
        assert(out[k] == reference);
    } else {
        let k = choose|k: int| 0 <= k < own.len() && own[k] == reference;
        assert(out[earlier.len() + k] == reference);
    }
}

proof fn lemma_references_of_args(list: Seq<ArgView>, i: int, reference: Seq<char>)
    requires
        0 <= i < list.len(),
        references_at(list[i].load_spec).contains(reference),
    ensures
        references_in_args(list).contains(reference),
    decreases list.len(),
{
    let rest = list.drop_last();
    let earlier = references_in_args(rest);
    let own = references_at(list.last().load_spec);
    let out = references_in_args(list);
    assert(out == earlier + own);
    if i < rest.len() {
        assert(rest[i] == list[i]);
        lemma_references_of_args(rest, i, reference);
        let k = choose|k: int| 0 <= k < earlier.len() && earlier[k] == reference;
        assert(out[k] == reference);
    } else {
        let k = choose|k: int| 0 <= k < own.len() && own[k] == reference;
        assert(out[earlier.len() + k] == reference);
    }
}

/// The files that a spec refers to are those that it names itself, those of its
/// subcommands and those of its arguments.
pub proof fn law_references_are_gathered(v: SpecView, reference: Seq<char>, i: int)
    ensures
        v.load_spec == Some(LoadView::Path(reference)) ==> references_in(v).contains(reference),
        0 <= i < v.subcommands.len() && references_in(v.subcommands[i]).contains(reference)
            ==> references_in(v).contains(reference),
        0 <= i < v.args.len() && v.args[i].load_spec == Some(LoadView::Path(reference))
            ==> references_in(v).contains(reference),
{
    let a = references_at(v.load_spec);
    let b = references_in_all(v.subcommands);
    let c = references_in_args(v.args);
    let d = references_in_options(v.options);
    let out = references_in(v);
    assert(out == a + b + c + d);
    if v.load_spec == Some(LoadView::Path(reference)) {
        assert(a[0] == reference);
        assert(out[0] == reference);
    }
    if 0 <= i < v.subcommands.len() && references_in(v.subcommands[i]).contains(reference) {
        lemma_references_of_all(v.subcommands, i, reference);
        let k = choose|k: int| 0 <= k < b.len() && b[k] == reference;
        assert(out[a.len() + k] == reference);
    }
    if 0 <= i < v.args.len() && v.args[i].load_spec == Some(LoadView::Path(reference)) {
        assert(references_at(v.args[i].load_spec)[0] == reference);
        lemma_references_of_args(v.args, i, reference);
        let k = choose|k: int| 0 <= k < c.len() && c[k] == reference;
        assert(out[a.len() + b.len() + k] == reference);
    }
}

/// Specs are looked for beside the program first, and below the home directory
/// where no other place for data is set.
pub proof fn law_specs_are_looked_for(places: InstallPlaces, dir: Seq<char>, name: Seq<char>)
    requires
        places.exe matches Some(exe) && exe@ == dir + "/"@ + name,
        dir.len() >= 2,
        dir.last() != '/',
        dir.last() != '.',
        name.len() > 0,
        name.last() != '.',
        forall|k: int| 0 <= k < name.len() ==> #[trigger] name[k] != '/',
    ensures
        installed_dirs(places).len() > 0,
        installed_dirs(places)[0] == path_joined(dir, "specs-ir"@),
        places.unix && places.xdg_data_home is None ==> (places.home matches Some(home)
            ==> installed_dirs(places).contains(
            path_joined(home@, ".local/share/easy-complete/specs-ir"@),
        )),
{
    super::paths::law_parents_are_above(dir, name);
    let out = installed_dirs(places);
    let first = as_list(below(Some(dir), "specs-ir"@));
    assert(first[0] == path_joined(dir, "specs-ir"@));
    assert(out[0] == first[0]);
    if places.unix && places.xdg_data_home is None {
        if let Some(home) = places.home {
            let wanted = path_joined(home@, ".local/share/easy-complete/specs-ir"@);
            let beside = first + as_list(below(Some(dir), "../share/easy-complete/specs-ir"@));
            let local = match places.local_app_data {
                Some(dir) => all_below(seq![dir@], "easy-complete/specs-ir"@),
                None => Seq::empty(),
            };
            assert(user_data(places)[0] == wanted);
            assert(out[(beside.len() + local.len()) as int] == wanted);
        }
    }
}

/// Where a hook computes the term and has answered, its answer is the term; a
/// separator comes before it, and without an answer what is typed counts.
pub proof fn law_hooks_compute_terms(
    search_term: Seq<char>,
    hook: Seq<char>,
    hooks: HookTerms,
    k: int,
)
    requires
        hook.len() > 0,
    ensures
        0 <= k < hooks.answers@.len() && hooks.answers@[k].0@ == hook && (forall|j: int|
            0 <= j < k ==> (#[trigger] hooks.answers@[j]).0@ != hook) ==> (
        hooks.answers@[k].1 matches Some(term) ==> term_with_hook(
            search_term,
            None,
            Some(hook),
            Some(hooks),
        ) == term@),
        term_with_hook(search_term, None, None, Some(hooks)) == search_term,
        term_with_hook(search_term, None, Some(hook), None) == search_term,
{
    if 0 <= k < hooks.answers@.len() && hooks.answers@[k].0@ == hook && (forall|j: int|
        0 <= j < k ==> (#[trigger] hooks.answers@[j]).0@ != hook) {
        lemma_hook_term(hooks.answers@, hook, 0, k);
    }
}

proof fn lemma_hook_term(answers: Seq<(String, Option<String>)>, hook: Seq<char>, i: int, k: int)
    requires
        0 <= i <= k < answers.len(),
        answers[k].0@ == hook,
        forall|j: int| 0 <= j < k ==> (#[trigger] answers[j]).0@ != hook,
    ensures
        hook_term(answers, hook, i) == opt_text(answers[k].1),
    decreases k - i,
{
    if i < k {
        assert(answers[i].0@ != hook);
        lemma_hook_term(answers, hook, i + 1, k);
    }
}

/// A shortcut is matched without the question mark that asks for it; other rows are
/// matched by the query.
pub proof fn law_shortcuts_are_asked_for(kind: Seq<char>, query: Seq<char>, rest: Seq<char>)
    ensures
        row_term("shortcut"@, None, None, query, "?"@ + rest, None) == (rest, Some(rest)),
        kind != "shortcut"@ ==> row_term(kind, None, None, query, "?"@ + rest, None) == (
            query,
            None::<Seq<char>>,
        ),
{
    reveal_strlit("?");
    let typed = "?"@ + rest;
    assert(typed[0] == '?');
    assert(typed.skip(1) =~= rest);
}

/// A strategy of a spec decides whether matching is fuzzy; the default leaves it to
/// the user.
pub proof fn law_strategies(user: bool)
    ensures
        !FilterStrategy::Prefix.is_fuzzy(user),
        FilterStrategy::Fuzzy.is_fuzzy(user),
        FilterStrategy::Default.is_fuzzy(user) == user,
{
}

} // verus!
