//! Where shell history comes from.
use vstd::prelude::*;

use super::frecency::timed;
use crate::text::{
    as_text, chars_of, ends_with, finishes_with, lines, lines_of, opt_str, opt_text, same,
    same_optional, text_range, texts, trim, trimmed,
};

verus! {

/// The shells whose history is read; others fall back to the local database.
#[derive(Debug, Clone, Copy, PartialEq, Eq, Structural)]
pub enum HistoryShell {
    Zsh,
    Bash,
    Fish,
    Unknown,
}

/// What decides the source of history.
#[derive(Debug, PartialEq, Eq)]
pub struct HistorySourceConfig {
    pub custom_command: Option<String>,
    pub all_shells: bool,
    pub current_shell: HistoryShell,
}

/// Where the last part of a path begins: behind the last slash.
pub open spec fn base_at(s: Seq<char>, i: int) -> int
    decreases i,
{
    if i <= 0 {
        0
    } else if s[i - 1] == '/' {
        i
    } else {
        base_at(s, i - 1)
    }
}

/// A shell's name without the mark of a wrapping terminal.
pub open spec fn unmarked(s: Seq<char>) -> Seq<char> {
    if finishes_with(s, " (figterm)"@) {
        s.take(s.len() - " (figterm)"@.len())
    } else {
        s
    }
}

/// The shell that a name or path denotes.
pub open spec fn shell_of(value: Option<Seq<char>>) -> HistoryShell {
    match value {
        None => HistoryShell::Unknown,
        Some(value) => {
            let path = unmarked(trimmed(value));
            let name = path.skip(base_at(path, path.len() as int));
            if name == "zsh"@ {
                HistoryShell::Zsh
            } else if name == "bash"@ {
                HistoryShell::Bash
            } else if name == "fish"@ {
                HistoryShell::Fish
            } else {
                HistoryShell::Unknown
            }
        },
    }
}

/// Computes [`shell_of`].
pub fn normalize_history_shell(value: Option<&str>) -> (shell: HistoryShell)
    ensures
        shell == shell_of(opt_str(value)),
{
    let value = match value {
        None => {
            return HistoryShell::Unknown;
        },
        Some(value) => trim(value),
    };
    let s = chars_of(&value);
    let marked = ends_with(&value, " (figterm)");
    proof {
        reveal_strlit(" (figterm)");
    }
    let end: usize = if marked {
        s.len() - 10
    } else {
        s.len()
    };
    let ghost path = unmarked(s@);
    proof {
        assert(path =~= s@.take(end as int));
    }
    let mut at: usize = end;
    while at > 0 && s[at - 1] != '/'
        invariant
            at <= end <= s@.len(),
            path == s@.take(end as int),
            base_at(path, end as int) == base_at(path, at as int),
        decreases at,
    {
        at -= 1;
    }
    let name = text_range(&s, at, end);
    proof {
        assert(path.skip(at as int) =~= s@.subrange(at as int, end as int));
    }
    if same(&name, "zsh") {
        HistoryShell::Zsh
    } else if same(&name, "bash") {
        HistoryShell::Bash
    } else if same(&name, "fish") {
        HistoryShell::Fish
    } else {
        HistoryShell::Unknown
    }
}

/// The source of history for a request: the shell decides, or the process
/// where the shell is not known.
pub fn history_source_config(
    custom_command: Option<String>,
    all_shells: bool,
    current_shell: Option<&str>,
    current_process: Option<&str>,
) -> (config: HistorySourceConfig)
    ensures
        config.custom_command == custom_command,
        config.all_shells == all_shells,
        config.current_shell == if shell_of(opt_str(current_shell)) != HistoryShell::Unknown {
            shell_of(opt_str(current_shell))
        } else {
            shell_of(opt_str(current_process))
        },
{
    let shell = normalize_history_shell(current_shell);
    let current_shell = if shell != HistoryShell::Unknown {
        shell
    } else {
        normalize_history_shell(current_process)
    };
    HistorySourceConfig { custom_command, all_shells, current_shell }
}

/// Whether two sources are the same.
pub open spec fn is_same_source(a: HistorySourceConfig, b: HistorySourceConfig) -> bool {
    opt_text(a.custom_command) == opt_text(b.custom_command) && a.all_shells == b.all_shells
        && a.current_shell == b.current_shell
}

/// Computes [`is_same_source`].
pub fn same_source(a: &HistorySourceConfig, b: &HistorySourceConfig) -> (yes: bool)
    ensures
        yes == is_same_source(*a, *b),
{
    same_optional(&a.custom_command, &b.custom_command) && a.all_shells == b.all_shells
        && a.current_shell == b.current_shell
}

/// Whether a row of the history database belongs to the source: that of the
/// current shell, zsh and bash together where all shells are asked for, and
/// every row for an unknown shell.
pub open spec fn includes_shell(config: HistorySourceConfig, row: HistoryShell) -> bool {
    match config.current_shell {
        HistoryShell::Unknown => true,
        HistoryShell::Fish => row == HistoryShell::Fish,
        current => if config.all_shells {
            row == HistoryShell::Zsh || row == HistoryShell::Bash
        } else {
            row == current
        },
    }
}

/// Computes [`includes_shell`].
pub fn includes_database_shell(config: &HistorySourceConfig, row_shell: HistoryShell) -> (yes: bool)
    ensures
        yes == includes_shell(*config, row_shell),
{
    match config.current_shell {
        HistoryShell::Unknown => true,
        HistoryShell::Fish => row_shell == HistoryShell::Fish,
        current => {
            if config.all_shells {
                row_shell == HistoryShell::Zsh || row_shell == HistoryShell::Bash
            } else {
                row_shell == current
            }
        },
    }
}

/// Computes whether a history line holds a command: more than white space.
pub fn non_empty_history_command(command: &str) -> (kept: Option<String>)
    ensures
        opt_text(kept) == if trimmed(command@).len() > 0 {
            Some(command@)
        } else {
            None
        },
{
    if trim(command).as_str().is_empty() {
        None
    } else {
        Some(command.to_owned())
    }
}

/// The lines that hold commands, as they are.
pub open spec fn command_lines(list: Seq<Seq<char>>) -> Seq<Seq<char>>
    decreases list.len(),
{
    if list.len() == 0 {
        Seq::empty()
    } else if trimmed(list.last()).len() > 0 {
        command_lines(list.drop_last()).push(list.last())
    } else {
        command_lines(list.drop_last())
    }
}

/// The commands in the output of a history command, without times.
pub fn history_commands_from_output(output: &str) -> (out: Vec<(String, u64)>)
    ensures
        super::frecency::command_texts(out@) == command_lines(lines_of(output@)),
        forall|i: int| 0 <= i < out@.len() ==> (#[trigger] out@[i]).1 == 0,
{
    let all = lines(output);
    let ghost list = texts(all@);
    let mut out: Vec<(String, u64)> = Vec::new();
    let mut i: usize = 0;
    proof {
        assert(list.take(0) =~= Seq::<Seq<char>>::empty());
        assert(super::frecency::command_texts(out@) =~= Seq::<Seq<char>>::empty());
    }
    while i < all.len()
        invariant
            i <= all@.len(),
            list == texts(all@),
            super::frecency::command_texts(out@) == command_lines(list.take(i as int)),
            forall|k: int| 0 <= k < out@.len() ==> (#[trigger] out@[k]).1 == 0,
        decreases all@.len() - i,
    {
        proof {
            assert(list.take(i + 1).drop_last() =~= list.take(i as int));
            assert(list.take(i + 1).last() == all@[i as int]@);
        }
        if let Some(command) = non_empty_history_command(&all[i]) {
            let ghost had = out@;
            out.push((command, 0));
            proof {
                assert(super::frecency::command_texts(out@) =~= super::frecency::command_texts(
                    had,
                ).push(command@));
            }
        }
        i += 1;
    }
    proof {
        assert(list.take(list.len() as int) =~= list);
    }
    out
}

/// A command whose output is shell history.
#[derive(Debug, Clone, Copy, PartialEq, Eq, Structural)]
pub enum ShellCommand {
    Zsh,
    Bash,
    Fish,
}

/// The shells whose history is read, in order: the current one, then zsh and
/// bash where all shells are asked for. An unknown shell reads none: its history
/// is the database.
pub open spec fn shells_read(config: HistorySourceConfig) -> Seq<ShellCommand> {
    match config.current_shell {
        HistoryShell::Unknown => Seq::empty(),
        HistoryShell::Zsh => if config.all_shells {
            seq![ShellCommand::Zsh, ShellCommand::Bash]
        } else {
            seq![ShellCommand::Zsh]
        },
        HistoryShell::Bash => if config.all_shells {
            seq![ShellCommand::Bash, ShellCommand::Zsh]
        } else {
            seq![ShellCommand::Bash]
        },
        HistoryShell::Fish => if config.all_shells {
            seq![ShellCommand::Fish, ShellCommand::Zsh, ShellCommand::Bash]
        } else {
            seq![ShellCommand::Fish]
        },
    }
}

/// Computes [`shells_read`].
pub fn history_shells(config: &HistorySourceConfig) -> (shells: Vec<ShellCommand>)
    ensures
        shells@ == shells_read(*config),
{
    let mut shells: Vec<ShellCommand> = Vec::new();
    match config.current_shell {
        HistoryShell::Zsh => shells.push(ShellCommand::Zsh),
        HistoryShell::Bash => shells.push(ShellCommand::Bash),
        HistoryShell::Fish => shells.push(ShellCommand::Fish),
        HistoryShell::Unknown => {
            return shells;
        },
    }
    if config.all_shells && config.current_shell != HistoryShell::Zsh {
        shells.push(ShellCommand::Zsh);
    }
    if config.all_shells && config.current_shell != HistoryShell::Bash {
        shells.push(ShellCommand::Bash);
    }
    proof {
        assert(shells@ =~= shells_read(*config));
    }
    shells
}

impl ShellCommand {
    /// The program to run and what to ask it for.
    pub fn program(self) -> (parts: (String, String))
        ensures
            (parts.0@, parts.1@) == match self {
                ShellCommand::Zsh => ("zsh"@, "fc -R; fc -ln 1"@),
                ShellCommand::Bash => ("bash"@, "fc -ln 1"@),
                ShellCommand::Fish => ("fish"@, "history search"@),
            },
    {
        match self {
            ShellCommand::Zsh => ("zsh".to_owned(), "fc -R; fc -ln 1".to_owned()),
            ShellCommand::Bash => ("bash".to_owned(), "fc -ln 1".to_owned()),
            ShellCommand::Fish => ("fish".to_owned(), "history search".to_owned()),
        }
    }
}

// ---------------------------------------------------------------------------
// Loading
// ---------------------------------------------------------------------------
/// The number of rows that are taken from the history database at most.
pub const MAX_DATABASE_HISTORY_COMMANDS: usize = 10000;

/// A row of the history database.
#[derive(Debug, PartialEq, Eq)]
pub struct HistoryRow {
    pub shell: Option<String>,
    pub command: Option<String>,
    /// When the command started, in seconds since 1970.
    pub start_time: Option<u64>,
}

/// Commands without times.
pub open spec fn untimed(list: Seq<Seq<char>>) -> Seq<(Seq<char>, u64)> {
    Seq::new(list.len(), |i: int| (list[i], 0u64))
}

/// The command that a row adds to a source, with its time; a row without one
/// counts as the oldest.
pub open spec fn row_command(config: HistorySourceConfig, row: HistoryRow) -> Option<
    (Seq<char>, u64),
> {
    match row.command {
        Some(command) => if includes_shell(config, shell_of(opt_text(row.shell))) && trimmed(
            command@,
        ).len() > 0 {
            Some(
                (
                    command@,
                    match row.start_time {
                        Some(time) => time,
                        None => 0,
                    },
                ),
            )
        } else {
            None
        },
        None => None,
    }
}

/// The commands of rows that come newest first, oldest first, from the last row
/// down to place `i`.
pub open spec fn row_commands(config: HistorySourceConfig, list: Seq<HistoryRow>, i: int) -> Seq<
    (Seq<char>, u64),
>
    decreases list.len() - i,
{
    if i < 0 || i >= list.len() {
        Seq::empty()
    } else {
        let older = row_commands(config, list, i + 1);
        match row_command(config, list[i]) {
            Some(command) => older.push(command),
            None => older,
        }
    }
}

/// Computes [`row_commands`] of all rows.
pub fn load_database_commands(config: &HistorySourceConfig, list: &[HistoryRow]) -> (out: Vec<
    (String, u64),
>)
    ensures
        timed(out@) == row_commands(*config, list@, 0),
{
    let mut out: Vec<(String, u64)> = Vec::new();
    let mut i: usize = list.len();
    proof {
        assert(timed(out@) =~= row_commands(*config, list@, i as int));
    }
    while i > 0
        invariant
            i <= list@.len(),
            timed(out@) == row_commands(*config, list@, i as int),
        decreases i,
    {
        i -= 1;
        let row = &list[i];
        let shell = normalize_history_shell(as_text(&row.shell));
        if includes_database_shell(config, shell) {
            if let Some(text) = &row.command {
                if let Some(command) = non_empty_history_command(text) {
                    let time: u64 = match row.start_time {
                        Some(time) => time,
                        None => 0,
                    };
                    let ghost had = out@;
                    let ghost view = (command@, time);
                    out.push((command, time));
                    proof {
                        assert(timed(out@) =~= timed(had).push(view));
                    }
                }
            }
        }
    }
    out
}

/// What is known of the sources of history.
#[derive(Debug, Default)]
pub struct HistoryAnswers {
    /// The output of the user's own command; absent inside where it failed.
    pub custom: Option<Option<String>>,
    /// The outputs of the shells, in the order of [`history_shells`]; absent
    /// where one failed.
    pub shells: Vec<Option<String>>,
    /// The rows of the database, newest first.
    pub database: Option<Vec<HistoryRow>>,
}

/// What has to be found out next.
#[derive(Debug, PartialEq, Eq)]
pub enum HistoryNeed {
    /// The output of the user's own command.
    Custom(String),
    /// The output of a shell.
    Shell(ShellCommand),
    /// The rows of the database.
    Database,
}

/// The commands of history, or what has to be found out first.
pub enum Loaded {
    Done(Seq<(Seq<char>, u64)>),
    NeedsCustom(Seq<char>),
    NeedsShell(ShellCommand),
    NeedsDatabase,
}

/// The commands in the database, where its rows are known.
pub open spec fn from_database(config: HistorySourceConfig, answers: HistoryAnswers) -> Loaded {
    match answers.database {
        Some(list) => Loaded::Done(row_commands(config, list@, 0)),
        None => Loaded::NeedsDatabase,
    }
}

/// The commands in the first `n` outputs.
pub open spec fn output_commands(outputs: Seq<Option<String>>, n: int) -> Seq<(Seq<char>, u64)>
    decreases n,
{
    if n <= 0 {
        Seq::empty()
    } else {
        output_commands(outputs, n - 1) + match outputs[n - 1] {
            Some(output) => untimed(command_lines(lines_of(output@))),
            None => Seq::empty(),
        }
    }
}

/// A source that takes every row of the database.
pub open spec fn whole_database() -> HistorySourceConfig {
    HistorySourceConfig {
        custom_command: None,
        all_shells: true,
        current_shell: HistoryShell::Unknown,
    }
}

/// The commands of a source. The user's own command comes first, and the whole
/// database where that gives nothing. Otherwise a known shell is asked, and the
/// database where it knows no command; an unknown shell takes the database.
pub open spec fn source_commands(config: HistorySourceConfig, answers: HistoryAnswers) -> Loaded {
    match config.custom_command {
        Some(command) => match answers.custom {
            None => Loaded::NeedsCustom(command@),
            Some(output) => match output {
                Some(output) if trimmed(output@).len() > 0 => Loaded::Done(
                    untimed(command_lines(lines_of(output@))),
                ),
                _ => from_database(whole_database(), answers),
            },
        },
        None => {
            let shells = shells_read(config);
            if answers.shells@.len() < shells.len() {
                Loaded::NeedsShell(shells[answers.shells@.len() as int])
            } else {
                let commands = output_commands(answers.shells@, shells.len() as int);
                if commands.len() == 0 {
                    from_database(config, answers)
                } else {
                    Loaded::Done(commands)
                }
            }
        },
    }
}

/// Whether a result is what [`source_commands`] says.
pub open spec fn is_loaded(
    out: Result<Vec<(String, u64)>, HistoryNeed>,
    loaded: Loaded,
) -> bool {
    match out {
        Ok(commands) => loaded == Loaded::Done(timed(commands@)),
        Err(HistoryNeed::Custom(command)) => loaded == Loaded::NeedsCustom(command@),
        Err(HistoryNeed::Shell(shell)) => loaded == Loaded::NeedsShell(shell),
        Err(HistoryNeed::Database) => loaded == Loaded::NeedsDatabase,
    }
}

fn whole_source() -> (config: HistorySourceConfig)
    ensures
        config == whole_database(),
{
    HistorySourceConfig {
        custom_command: None,
        all_shells: true,
        current_shell: HistoryShell::Unknown,
    }
}

fn commands_of_output(output: &str) -> (out: Vec<(String, u64)>)
    ensures
        timed(out@) == untimed(command_lines(lines_of(output@))),
{
    let out = history_commands_from_output(output);
    proof {
        let stated = command_lines(lines_of(output@));
        assert(super::frecency::command_texts(out@) == stated);
        assert forall|i: int| 0 <= i < out@.len() implies timed(out@)[i] == untimed(stated)[i] by {
            assert(super::frecency::command_texts(out@)[i] == out@[i].0@);
        }
        assert(timed(out@) =~= untimed(stated));
    }
    out
}

fn load_from_database(config: &HistorySourceConfig, answers: &HistoryAnswers) -> (out: Result<
    Vec<(String, u64)>,
    HistoryNeed,
>)
    ensures
        is_loaded(out, from_database(*config, *answers)),
{
    match &answers.database {
        Some(list) => Ok(load_database_commands(config, list)),
        None => Err(HistoryNeed::Database),
    }
}

/// Computes [`source_commands`].
pub fn load_commands_for(config: &HistorySourceConfig, answers: &HistoryAnswers) -> (out: Result<
    Vec<(String, u64)>,
    HistoryNeed,
>)
    ensures
        is_loaded(out, source_commands(*config, *answers)),
{
    if let Some(command) = &config.custom_command {
        return match &answers.custom {
            None => Err(HistoryNeed::Custom(command.clone())),
            Some(output) => {
                if let Some(output) = output {
                    if !trim(output).as_str().is_empty() {
                        return Ok(commands_of_output(output));
                    }
                }
                load_from_database(&whole_source(), answers)
            },
        };
    }
    let shells = history_shells(config);
    if answers.shells.len() < shells.len() {
        return Err(HistoryNeed::Shell(shells[answers.shells.len()]));
    }
    let mut out: Vec<(String, u64)> = Vec::new();
    let mut i: usize = 0;
    proof {
        assert(timed(out@) =~= output_commands(answers.shells@, 0));
    }
    while i < shells.len()
        invariant
            i <= shells@.len() <= answers.shells@.len(),
            timed(out@) == output_commands(answers.shells@, i as int),
        decreases shells@.len() - i,
    {
        let ghost had = out@;
        match &answers.shells[i] {
            Some(output) => {
                let mut more = commands_of_output(output);
                let ghost added = more@;
                out.append(&mut more);
                proof {
                    assert(timed(out@) =~= timed(had) + timed(added));
                }
            },
            None => {
                proof {
                    assert(timed(out@) + Seq::<(Seq<char>, u64)>::empty() =~= timed(out@));
                }
            },
        }
        i += 1;
    }
    proof {
        assert(timed(out@).len() == out@.len());
    }
    if out.len() == 0 {
        return load_from_database(config, answers);
    }
    Ok(out)
}

/// The commands of the whole database: every row that holds one, of whatever
/// shell, oldest first. The rows come newest first.
pub fn load_commands(list: &[HistoryRow]) -> (out: Vec<(String, u64)>)
    ensures
        timed(out@) == row_commands(whole_database(), list@, 0),
{
    load_database_commands(&whole_source(), list)
}

proof fn lemma_unknown_shells_take_every_row(
    config: HistorySourceConfig,
    list: Seq<HistoryRow>,
    i: int,
)
    requires
        config.current_shell is Unknown,
    ensures
        row_commands(config, list, i) == row_commands(whole_database(), list, i),
    decreases list.len() - i,
{
    if 0 <= i < list.len() {
        lemma_unknown_shells_take_every_row(config, list, i + 1);
    }
}

/// The history of an unknown shell is the whole database: no shell is asked,
/// and what one said makes no difference.
pub proof fn law_unknown_shells_read_the_whole_database(
    config: HistorySourceConfig,
    answers: HistoryAnswers,
)
    requires
        config.current_shell is Unknown,
        config.custom_command is None,
    ensures
        source_commands(config, answers) == (match answers.database {
            Some(list) => Loaded::Done(row_commands(whole_database(), list@, 0)),
            None => Loaded::NeedsDatabase,
        }),
{
    if let Some(list) = answers.database {
        lemma_unknown_shells_take_every_row(config, list@, 0);
    }
}

/// Where the user's own command, or a known shell, gives commands, the database
/// does not count.
pub proof fn law_shells_come_before_the_database(
    config: HistorySourceConfig,
    answers: HistoryAnswers,
    other: Option<Vec<HistoryRow>>,
)
    requires
        config.custom_command is Some || !(config.current_shell is Unknown),
        source_commands(config, (HistoryAnswers { database: None, ..answers })) is Done,
    ensures
        source_commands(config, (HistoryAnswers { database: other, ..answers }))
            == source_commands(config, (HistoryAnswers { database: None, ..answers })),
{
}

/// Sources differ exactly where one of their inputs does: the shell's path, or
/// which of shell and process named it, makes no difference.
pub proof fn law_sources_depend_on_the_shell_alone(
    a: HistorySourceConfig,
    b: HistorySourceConfig,
)
    ensures
        is_same_source(a, a),
        is_same_source(a, b) ==> shells_read(a) == shells_read(b),
        is_same_source(a, b) ==> forall|row: HistoryShell| includes_shell(a, row) == includes_shell(b, row),
{
}

} // verus!
