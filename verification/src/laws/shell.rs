//! Laws of reading a command line: where the command under the caret starts, and
//! what its words are.
use vstd::prelude::*;

use crate::lookup::shell::{
    advance, assigns, at_boundary, before_caret, closed_words, command_offset, command_start,
    command_text, digits_end, first_word_end, fitting_end, frame_step, is_bare, is_gap,
    is_name_char, is_plain_word, is_quote, leads, lemma_command_offset, lemma_command_start,
    lemma_word_start, name_end, open_frames, operator_at, piece, plain, raw_words, redirects_fd,
    scan_at, skip_space, unquoted, value_upto, word_start, word_stop, words, CommandFrame,
    FrameKind, Scan,
};
use crate::text::is_space;

verus! {

/// A character that means nothing to the shell outside of quotes but separates
/// words or is part of one.
pub open spec fn is_calm(c: char) -> bool {
    &&& !is_quote(c)
    &&& c != '\\'
    &&& c != '$'
    &&& c != '`'
    &&& c != '<' && c != '>'
    &&& c != '(' && c != ')'
    &&& c != '{' && c != '}'
}

/// A calm character that does not separate commands either.
pub open spec fn is_inert(c: char) -> bool {
    is_calm(c) && c != '&' && c != ';' && c != '|'
}

/// A text of words alone: no quotes, operators, brackets, dollar signs, backticks.
pub open spec fn is_inert_text(s: Seq<char>) -> bool {
    forall|i: int| 0 <= i < s.len() ==> is_inert(#[trigger] s[i])
}

/// A text of words and operators alone.
pub open spec fn is_calm_text(s: Seq<char>) -> bool {
    forall|i: int| 0 <= i < s.len() ==> is_calm(#[trigger] s[i])
}

/// What follows `a` and begins with `c` is read on its own: `c` neither completes
/// an operator nor an opening bracket that `a` began, nor is it white space.
pub open spec fn stands_apart(a: Seq<char>, c: char) -> bool {
    &&& !is_space(c)
    &&& c == '&' || c == ';' || c == '|' ==> a.len() == 0 || (a.last() != '&' && a.last() != '|')
    &&& c == '>' ==> a.len() == 0 || a.last() != '&'
    &&& c == '(' ==> a.len() == 0 || (a.last() != '$' && a.last() != '<' && a.last() != '>')
}

proof fn lemma_skip_prefix(s: Seq<char>, n: int, i: int)
    requires
        0 <= i <= n < s.len(),
        !is_space(s[n]),
    ensures
        skip_space(s, i) == skip_space(s.take(n), i),
        i <= skip_space(s, i) <= n,
    decreases n - i,
{
    let a = s.take(n);
    if i < n {
        assert(a[i] == s[i]);
        lemma_skip_prefix(s, n, i + 1);
    }
}

pub proof fn lemma_scan_of_prefix(s: Seq<char>, n: int, i: int)
    requires
        0 <= i <= n <= s.len(),
    ensures
        scan_at(s.take(n), i) == scan_at(s, i),
    decreases i,
{
    if i > 0 {
        assert(s.take(n)[i - 1] == s[i - 1]);
        lemma_scan_of_prefix(s, n, i - 1);
    }
}

/// The outermost frame is that of the line.
spec fn is_rooted(frames: Seq<CommandFrame>) -> bool {
    frames.len() > 0 && frames[0].kind == FrameKind::Root
}

/// Where the frames of a text are read, those of its beginning come first.
proof fn lemma_frames_of_prefix(s: Seq<char>, n: int, i: int, frames: Seq<CommandFrame>)
    requires
        0 <= i <= n < s.len(),
        stands_apart(s.take(n), s[n]),
        is_rooted(frames),
    ensures
        open_frames(s, i, scan_at(s, i), frames) == open_frames(
            s,
            n,
            scan_at(s, n),
            open_frames(s.take(n), i, scan_at(s, i), frames),
        ),
        is_rooted(open_frames(s.take(n), i, scan_at(s, i), frames)),
    decreases n - i,
{
    let a = s.take(n);
    let scan = scan_at(s, i);
    if i < n {
        assert(a[i] == s[i]);
        assert(scan_at(s, i + 1) == advance(scan, s[i]));
        if !is_bare(scan, s[i]) {
            lemma_frames_of_prefix(s, n, i + 1, frames);
        } else {
            if i + 1 < n {
                assert(a[i + 1] == s[i + 1]);
            }
            if i > 0 {
                assert(a[i - 1] == s[i - 1]);
            }
            assert(a.last() == s[n - 1]);
            let start = frames.last().start as int;
            if start <= i {
                assert(a.subrange(start, i) =~= s.subrange(start, i));
            }
            let op = operator_at(s, i);
            assert(operator_at(a, i) == op);
            if i + op <= n {
                lemma_skip_prefix(s, n, i + op);
            }
            let (next, j) = frame_step(s, i, frames);
            assert(frame_step(a, i, frames) == (next, j));
            assert(i < j <= n);
            if j == i + 2 {
                assert(scan_at(s, i + 2) == advance(scan_at(s, i + 1), s[i + 1]));
            }
            assert(scan_at(s, j) == scan);
            lemma_frames_of_prefix(s, n, j, next);
        }
    }
}

/// Words leave the frames as they are.
proof fn lemma_frames_over_words(s: Seq<char>, i: int, n: int, frames: Seq<CommandFrame>)
    requires
        0 <= i <= n <= s.len(),
        forall|k: int| i <= k < n ==> is_inert(#[trigger] s[k]),
    ensures
        open_frames(s, i, plain(), frames) == open_frames(s, n, plain(), frames),
    decreases n - i,
{
    if i < n {
        assert(is_inert(s[i]));
        lemma_frames_over_words(s, i + 1, n, frames);
    }
}

/// Words and operators move at most the start of the innermost command.
proof fn lemma_frames_over_commands(s: Seq<char>, i: int, n: int, frames: Seq<CommandFrame>) -> (after:
    Seq<CommandFrame>)
    requires
        0 <= i <= n < s.len(),
        frames.len() > 0,
        forall|k: int| i <= k < n ==> is_calm(#[trigger] s[k]),
        s[n] != '&' && s[n] != ';' && s[n] != '|',
    ensures
        open_frames(s, i, plain(), frames) == open_frames(s, n, plain(), after),
        after.len() == frames.len(),
        after.drop_last() == frames.drop_last(),
        after.last().kind == frames.last().kind,
    decreases n - i,
{
    if i < n {
        assert(is_calm(s[i]));
        let (next, j) = frame_step(s, i, frames);
        assert(j <= n);
        assert(next.drop_last() =~= frames.drop_last());
        lemma_frames_over_commands(s, j, n, next)
    } else {
        frames
    }
}

/// Once a frame is opened, a text of commands and the closing bracket take the
/// reading back to where it was.
proof fn lemma_closed_frame(
    s: Seq<char>,
    i: int,
    n: int,
    frames: Seq<CommandFrame>,
    frame: CommandFrame,
)
    requires
        0 <= i <= n < s.len(),
        forall|k: int| i <= k < n ==> is_calm(#[trigger] s[k]),
        (frame.kind == FrameKind::Subshell && s[n] == ')') || (frame.kind == FrameKind::Compound
            && s[n] == '}') || (frame.kind == FrameKind::Backtick && s[n] == '`'),
    ensures
        open_frames(s, i, plain(), frames.push(frame)) == open_frames(s, n + 1, plain(), frames),
{
    let after = lemma_frames_over_commands(s, i, n, frames.push(frame));
    assert(frames.push(frame).drop_last() =~= frames);
    assert(frame_step(s, n, after) == (frames, n + 1));
}

/// The frame of the whole line, with which the reading begins.
spec fn line_frames() -> Seq<CommandFrame> {
    seq![CommandFrame { start: 0, kind: FrameKind::Root }]
}

proof fn lemma_behind_prefix(s: Seq<char>, a: Seq<char>) -> (frames: Seq<CommandFrame>)
    requires
        a.len() < s.len(),
        s.take(a.len() as int) == a,
        stands_apart(a, s[a.len() as int]),
        scan_at(a, a.len() as int) == plain(),
    ensures
        is_rooted(frames),
        frames == open_frames(a, 0, plain(), line_frames()),
        frames.last().start == command_start(a),
        command_start(s) == open_frames(s, a.len() as int, plain(), frames).last().start,
{
    lemma_frames_of_prefix(s, a.len() as int, 0, line_frames());
    lemma_scan_of_prefix(s, a.len() as int, a.len() as int);
    open_frames(a, 0, plain(), line_frames())
}

/// A command substitution that is closed again does not move the command: the
/// command under the caret starts where it would without the substitution. What is
/// inside may hold commands of its own.
pub proof fn law_closed_substitutions_do_not_move_the_command(
    a: Seq<char>,
    b: Seq<char>,
    c: Seq<char>,
)
    requires
        scan_at(a, a.len() as int) == plain(),
        is_calm_text(b),
        is_inert_text(c),
    ensures
        command_start(a + "$("@ + b + ")"@ + c) == command_start(a),
        command_start(a + "<("@ + b + ")"@ + c) == command_start(a),
        a.len() == 0 || a.last() != '&' ==> command_start(a + ">("@ + b + ")"@ + c)
            == command_start(a),
{
    reveal_strlit("$(");
    reveal_strlit("<(");
    reveal_strlit(">(");
    reveal_strlit(")");
    lemma_substitution(a, "$("@, b, c);
    lemma_substitution(a, "<("@, b, c);
    if a.len() == 0 || a.last() != '&' {
        lemma_substitution(a, ">("@, b, c);
    }
}

proof fn lemma_substitution(a: Seq<char>, opener: Seq<char>, b: Seq<char>, c: Seq<char>)
    requires
        scan_at(a, a.len() as int) == plain(),
        opener.len() == 2,
        opener[0] == '$' || opener[0] == '<' || opener[0] == '>',
        opener[0] == '>' ==> a.len() == 0 || a.last() != '&',
        opener[1] == '(',
        is_calm_text(b),
        is_inert_text(c),
    ensures
        command_start(a + opener + b + ")"@ + c) == command_start(a),
{
    reveal_strlit(")");
    let s = a + opener + b + ")"@ + c;
    let n = a.len() as int;
    assert(s.take(n) =~= a);
    assert(s[n] == opener[0]);
    assert(s[n + 1] == opener[1]);
    let frames = lemma_behind_prefix(s, a);
    let m = n + 2 + b.len();
    assert forall|k: int| n + 2 <= k < m implies is_calm(#[trigger] s[k]) by {
        assert(s[k] == b[k - n - 2]);
    }
    assert(s[m] == ')');
    let frame = CommandFrame { start: (n + 2) as usize, kind: FrameKind::Subshell };
    assert(frame_step(s, n, frames) == (frames.push(frame), n + 2));
    lemma_closed_frame(s, n + 2, m, frames, frame);
    assert forall|k: int| m + 1 <= k < s.len() implies is_inert(#[trigger] s[k]) by {
        assert(s[k] == c[k - m - 1]);
    }
    lemma_frames_over_words(s, m + 1, s.len() as int, frames);
}

proof fn lemma_boundary(s: Seq<char>, a: Seq<char>)
    requires
        a.len() < s.len(),
        a.len() <= usize::MAX,
        s.take(a.len() as int) == a,
        command_text(a).len() == 0,
    ensures
        at_boundary(s, command_start(a), a.len() as int),
{
    let start = command_start(a);
    lemma_command_start(a);
    lemma_command_offset(a.skip(start));
    assert(a.skip(start) =~= s.subrange(start, a.len() as int));
}

/// A group in brackets that is closed again does not move the command, where the
/// bracket stands in the place of a command.
pub proof fn law_closed_groups_do_not_move_the_command(a: Seq<char>, b: Seq<char>, c: Seq<char>)
    requires
        a.len() <= usize::MAX,
        scan_at(a, a.len() as int) == plain(),
        command_text(a).len() == 0,
        is_calm_text(b),
        is_inert_text(c),
    ensures
        stands_apart(a, '(') ==> command_start(a + "("@ + b + ")"@ + c) == command_start(a),
        command_start(a + "{"@ + b + "}"@ + c) == command_start(a),
{
    reveal_strlit("(");
    reveal_strlit(")");
    reveal_strlit("{");
    reveal_strlit("}");
    if stands_apart(a, '(') {
        lemma_group(a, "("@, b, ")"@, c, FrameKind::Subshell);
    }
    lemma_group(a, "{"@, b, "}"@, c, FrameKind::Compound);
}

proof fn lemma_group(
    a: Seq<char>,
    opener: Seq<char>,
    b: Seq<char>,
    closer: Seq<char>,
    c: Seq<char>,
    kind: FrameKind,
)
    requires
        a.len() <= usize::MAX,
        scan_at(a, a.len() as int) == plain(),
        command_text(a).len() == 0,
        opener.len() == 1,
        closer.len() == 1,
        stands_apart(a, opener[0]),
        (kind == FrameKind::Subshell && opener[0] == '(' && closer[0] == ')') || (kind
            == FrameKind::Compound && opener[0] == '{' && closer[0] == '}'),
        is_calm_text(b),
        is_inert_text(c),
    ensures
        command_start(a + opener + b + closer + c) == command_start(a),
{
    let s = a + opener + b + closer + c;
    let n = a.len() as int;
    assert(s.take(n) =~= a);
    assert(s[n] == opener[0]);
    let frames = lemma_behind_prefix(s, a);
    lemma_boundary(s, a);
    let m = n + 1 + b.len();
    assert forall|k: int| n + 1 <= k < m implies is_calm(#[trigger] s[k]) by {
        assert(s[k] == b[k - n - 1]);
    }
    assert(s[m] == closer[0]);
    let frame = CommandFrame { start: (n + 1) as usize, kind };
    assert(frame_step(s, n, frames) == (frames.push(frame), n + 1));
    lemma_closed_frame(s, n + 1, m, frames, frame);
    assert forall|k: int| m + 1 <= k < s.len() implies is_inert(#[trigger] s[k]) by {
        assert(s[k] == c[k - m - 1]);
    }
    lemma_frames_over_words(s, m + 1, s.len() as int, frames);
}

/// Words alone are one command, which starts where the line does.
pub proof fn law_words_are_one_command(a: Seq<char>)
    requires
        is_inert_text(a),
    ensures
        command_start(a) == 0,
        scan_at(a, a.len() as int) == plain(),
{
    lemma_frames_over_words(a, 0, a.len() as int, line_frames());
    lemma_inert_scan(a, a.len() as int);
}

proof fn lemma_inert_scan(a: Seq<char>, i: int)
    requires
        is_inert_text(a),
        0 <= i <= a.len(),
    ensures
        scan_at(a, i) == plain(),
    decreases i,
{
    if i > 0 {
        lemma_inert_scan(a, i - 1);
        assert(is_inert(a[i - 1]));
    }
}

/// A balanced substitution or group between words does not move the command: with
/// texts `a`, `b` and `c` of words alone, the command under the caret starts where
/// it starts in `a`.
pub proof fn law_balanced_brackets_do_not_move_the_command(
    a: Seq<char>,
    b: Seq<char>,
    c: Seq<char>,
)
    requires
        a.len() <= usize::MAX,
        is_inert_text(a),
        is_inert_text(b),
        is_inert_text(c),
    ensures
        command_start(a + "$("@ + b + ")"@ + c) == command_start(a),
        command_start(a + "<("@ + b + ")"@ + c) == command_start(a),
        command_start(a + ">("@ + b + ")"@ + c) == command_start(a),
        command_start(a + "("@ + b + ")"@ + c) == command_start(a),
        command_start(a + "{"@ + b + "}"@ + c) == command_start(a),
        command_start(a + "`"@ + b + "`"@ + c) == command_start(a),
{
    law_words_are_one_command(a);
    if a.len() > 0 {
        assert(is_inert(a[a.len() - 1]));
    }
    assert(is_calm_text(b)) by {
        assert forall|i: int| 0 <= i < b.len() implies is_calm(#[trigger] b[i]) by {
            assert(is_inert(b[i]));
        }
    }
    law_closed_substitutions_do_not_move_the_command(a, b, c);
    law_closed_backticks_do_not_move_the_command(a, b, c);
    reveal_strlit("(");
    reveal_strlit(")");
    reveal_strlit("{");
    reveal_strlit("}");
    if command_text(a).len() == 0 {
        law_closed_groups_do_not_move_the_command(a, b, c);
    } else {
        lemma_stray_brackets(a, "("@, b, ")"@, c);
        lemma_stray_brackets(a, "{"@, b, "}"@, c);
    }
}

/// Backticks that are closed again do not move the command.
pub proof fn law_closed_backticks_do_not_move_the_command(a: Seq<char>, b: Seq<char>, c: Seq<char>)
    requires
        scan_at(a, a.len() as int) == plain(),
        forall|k: int| 0 <= k < a.len() ==> #[trigger] a[k] != '`',
        is_calm_text(b),
        is_inert_text(c),
    ensures
        command_start(a + "`"@ + b + "`"@ + c) == command_start(a),
{
    reveal_strlit("`");
    let s = a + "`"@ + b + "`"@ + c;
    let n = a.len() as int;
    assert(s.take(n) =~= a);
    assert(s[n] == '`');
    let frames = lemma_behind_prefix(s, a);
    lemma_no_backtick(a, 0, plain(), line_frames());
    let m = n + 1 + b.len();
    assert forall|k: int| n + 1 <= k < m implies is_calm(#[trigger] s[k]) by {
        assert(s[k] == b[k - n - 1]);
    }
    assert(s[m] == '`');
    let frame = CommandFrame { start: (n + 1) as usize, kind: FrameKind::Backtick };
    assert(frame_step(s, n, frames) == (frames.push(frame), n + 1));
    lemma_closed_frame(s, n + 1, m, frames, frame);
    assert forall|k: int| m + 1 <= k < s.len() implies is_inert(#[trigger] s[k]) by {
        assert(s[k] == c[k - m - 1]);
    }
    lemma_frames_over_words(s, m + 1, s.len() as int, frames);
}

spec fn holds_no_backtick(frames: Seq<CommandFrame>) -> bool {
    forall|k: int| 0 <= k < frames.len() ==> (#[trigger] frames[k]).kind != FrameKind::Backtick
}

proof fn lemma_no_backtick(s: Seq<char>, i: int, scan: Scan, frames: Seq<CommandFrame>)
    requires
        0 <= i,
        forall|k: int| 0 <= k < s.len() ==> #[trigger] s[k] != '`',
        frames.len() > 0,
        holds_no_backtick(frames),
        is_rooted(frames),
    ensures
        holds_no_backtick(open_frames(s, i, scan, frames)),
    decreases s.len() - i,
{
    if i < s.len() {
        assert(s[i] != '`');
        if !is_bare(scan, s[i]) {
            lemma_no_backtick(s, i + 1, advance(scan, s[i]), frames);
        } else {
            let (next, j) = frame_step(s, i, frames);
            if j > i {
                lemma_no_backtick(s, j, scan, next);
            }
        }
    }
}

/// Brackets in the middle of a command are part of it.
proof fn lemma_stray_brackets(
    a: Seq<char>,
    opener: Seq<char>,
    b: Seq<char>,
    closer: Seq<char>,
    c: Seq<char>,
)
    requires
        is_inert_text(a),
        a.len() <= usize::MAX,
        command_text(a).len() > 0,
        opener.len() == 1,
        closer.len() == 1,
        (opener[0] == '(' && closer[0] == ')') || (opener[0] == '{' && closer[0] == '}'),
        is_inert_text(b),
        is_inert_text(c),
    ensures
        command_start(a + opener + b + closer + c) == command_start(a),
{
    let s = a + opener + b + closer + c;
    let n = a.len() as int;
    law_words_are_one_command(a);
    if a.len() > 0 {
        assert(is_inert(a[a.len() - 1]));
    }
    assert(s.take(n) =~= a);
    assert(s[n] == opener[0]);
    let frames = lemma_behind_prefix(s, a);
    lemma_frames_over_words(a, 0, n, line_frames());
    assert(frames == line_frames());
    assert(s.subrange(0, n) =~= a);
    assert(a.skip(0) =~= a);
    lemma_command_offset(a);
    assert(!at_boundary(s, 0, n));
    assert(frame_step(s, n, frames) == (frames, n + 1));
    let m = n + 1 + b.len();
    assert forall|k: int| n + 1 <= k < m implies is_inert(#[trigger] s[k]) by {
        assert(s[k] == b[k - n - 1]);
    }
    lemma_frames_over_words(s, n + 1, m, frames);
    assert(s[m] == closer[0]);
    assert(frame_step(s, m, frames) == (frames, m + 1));
    assert forall|k: int| m + 1 <= k < s.len() implies is_inert(#[trigger] s[k]) by {
        assert(s[k] == c[k - m - 1]);
    }
    lemma_frames_over_words(s, m + 1, s.len() as int, frames);
}

/// Behind a bracket or backtick that is still open the command under the caret
/// starts right there.
pub proof fn law_open_brackets_start_a_command(a: Seq<char>, b: Seq<char>)
    requires
        a.len() + 2 <= usize::MAX,
        scan_at(a, a.len() as int) == plain(),
        is_inert_text(b),
    ensures
        command_start(a + "$("@ + b) == a.len() + 2,
        command_start(a + "<("@ + b) == a.len() + 2,
        stands_apart(a, '>') ==> command_start(a + ">("@ + b) == a.len() + 2,
        command_text(a).len() == 0 && stands_apart(a, '(') ==> command_start(a + "("@ + b)
            == a.len() + 1,
        command_text(a).len() == 0 ==> command_start(a + "{"@ + b) == a.len() + 1,
        (forall|k: int| 0 <= k < a.len() ==> #[trigger] a[k] != '`') ==> command_start(
            a + "`"@ + b,
        ) == a.len() + 1,
{
    reveal_strlit("$(");
    reveal_strlit("<(");
    reveal_strlit(">(");
    reveal_strlit("(");
    reveal_strlit("{");
    reveal_strlit("`");
    lemma_open_bracket(a, "$("@, b, FrameKind::Subshell);
    lemma_open_bracket(a, "<("@, b, FrameKind::Subshell);
    if stands_apart(a, '>') {
        lemma_open_bracket(a, ">("@, b, FrameKind::Subshell);
    }
    if command_text(a).len() == 0 && stands_apart(a, '(') {
        lemma_open_bracket(a, "("@, b, FrameKind::Subshell);
    }
    if command_text(a).len() == 0 {
        lemma_open_bracket(a, "{"@, b, FrameKind::Compound);
    }
    if forall|k: int| 0 <= k < a.len() ==> #[trigger] a[k] != '`' {
        lemma_open_bracket(a, "`"@, b, FrameKind::Backtick);
    }
}

proof fn lemma_open_bracket(a: Seq<char>, opener: Seq<char>, b: Seq<char>, kind: FrameKind)
    requires
        a.len() + 2 <= usize::MAX,
        scan_at(a, a.len() as int) == plain(),
        is_inert_text(b),
        1 <= opener.len() <= 2,
        stands_apart(a, opener[0]),
        opener.len() == 2 ==> (opener[0] == '$' || opener[0] == '<' || opener[0] == '>')
            && opener[1] == '(' && kind == FrameKind::Subshell,
        opener.len() == 1 ==> (command_text(a).len() == 0 && ((opener[0] == '(' && kind
            == FrameKind::Subshell) || (opener[0] == '{' && kind == FrameKind::Compound))) || (
        opener[0] == '`' && kind == FrameKind::Backtick && forall|k: int|
            0 <= k < a.len() ==> #[trigger] a[k] != '`'),
    ensures
        command_start(a + opener + b) == a.len() + opener.len(),
{
    let s = a + opener + b;
    let n = a.len() as int;
    assert(s.take(n) =~= a);
    assert(s[n] == opener[0]);
    if opener.len() == 2 {
        assert(s[n + 1] == opener[1]);
    }
    let frames = lemma_behind_prefix(s, a);
    if opener[0] == '`' {
        lemma_no_backtick(a, 0, plain(), line_frames());
    } else if opener.len() == 1 {
        lemma_boundary(s, a);
    }
    let m = n + opener.len();
    let frame = CommandFrame { start: m as usize, kind };
    assert(frame_step(s, n, frames) == (frames.push(frame), m));
    assert forall|k: int| m <= k < s.len() implies is_inert(#[trigger] s[k]) by {
        assert(s[k] == b[k - m]);
    }
    lemma_frames_over_words(s, m, s.len() as int, frames.push(frame));
}

/// The operators that end a command.
pub open spec fn is_operator(op: Seq<char>) -> bool {
    op == ";"@ || op == "|"@ || op == "&"@ || op == "&&"@ || op == "||"@ || op == "|&"@ || op
        == "&;"@
}

proof fn lemma_skip_gap(s: Seq<char>, i: int, n: int)
    requires
        0 <= i <= n <= s.len(),
        forall|k: int| i <= k < n ==> is_space(#[trigger] s[k]),
        n == s.len() || !is_space(s[n]),
    ensures
        skip_space(s, i) == n,
    decreases n - i,
{
    if i < n {
        assert(is_space(s[i]));
        lemma_skip_gap(s, i + 1, n);
    }
}

/// Behind an operator and the white space there a new command starts.
pub proof fn law_operators_start_a_command(
    a: Seq<char>,
    op: Seq<char>,
    gap: Seq<char>,
    b: Seq<char>,
)
    requires
        a.len() + op.len() + gap.len() <= usize::MAX,
        scan_at(a, a.len() as int) == plain(),
        a.len() == 0 || (a.last() != '&' && a.last() != '|' && a.last() != '<' && a.last() != '>'),
        is_operator(op),
        forall|k: int| 0 <= k < gap.len() ==> is_space(#[trigger] gap[k]),
        is_inert_text(b),
        b.len() == 0 || !is_space(b[0]),
    ensures
        command_start(a + op + gap + b) == a.len() + op.len() + gap.len(),
{
    reveal_strlit(";");
    reveal_strlit("|");
    reveal_strlit("&");
    reveal_strlit("&&");
    reveal_strlit("||");
    reveal_strlit("|&");
    reveal_strlit("&;");
    let s = a + op + gap + b;
    let n = a.len() as int;
    assert(s.take(n) =~= a);
    assert(s[n] == op[0]);
    let frames = lemma_behind_prefix(s, a);
    let m = n + op.len();
    let e = m + gap.len();
    if n > 0 {
        assert(s[n - 1] == a.last());
    }
    if op.len() == 2 {
        assert(s[n + 1] == op[1]);
    } else if gap.len() > 0 {
        assert(s[n + 1] == gap[0]);
    } else if b.len() > 0 {
        assert(s[n + 1] == b[0]);
        assert(is_inert(b[0]));
    }
    assert(operator_at(s, n) == op.len());
    assert forall|k: int| m <= k < e implies is_space(#[trigger] s[k]) by {
        assert(s[k] == gap[k - m]);
    }
    if b.len() > 0 {
        assert(s[e] == b[0]);
    }
    lemma_skip_gap(s, m, e);
    assert(e as usize == e);
    let (next, j) = frame_step(s, n, frames);
    assert(j == m);
    assert(next.last().start == e);
    assert(is_bare(plain(), s[n]));
    assert(open_frames(s, n, plain(), frames) == open_frames(s, m, plain(), next));
    lemma_frames_over_spaces(s, m, e, next);
    assert forall|k: int| e <= k < s.len() implies is_inert(#[trigger] s[k]) by {
        assert(s[k] == b[k - e]);
    }
    lemma_frames_over_words(s, e, s.len() as int, next);
    assert(open_frames(s, s.len() as int, plain(), next) == next);
}

proof fn lemma_frames_over_spaces(s: Seq<char>, i: int, n: int, frames: Seq<CommandFrame>)
    requires
        0 <= i <= n <= s.len(),
        forall|k: int| i <= k < n ==> is_space(#[trigger] s[k]),
    ensures
        open_frames(s, i, plain(), frames) == open_frames(s, n, plain(), frames),
    decreases n - i,
{
    if i < n {
        assert(is_space(s[i]));
        lemma_frames_over_spaces(s, i + 1, n, frames);
    }
}

/// A text without its own kind of quote, and in double quotes without a backslash.
pub open spec fn fits_in_quotes(q: Seq<char>, quote: char) -> bool {
    &&& is_quote(quote)
    &&& forall|k: int| 0 <= k < q.len() ==> #[trigger] q[k] != quote
    &&& quote == '"' ==> forall|k: int| 0 <= k < q.len() ==> #[trigger] q[k] != '\\'
}

proof fn lemma_frames_over_quoted(
    s: Seq<char>,
    i: int,
    n: int,
    quote: char,
    frames: Seq<CommandFrame>,
)
    requires
        0 <= i <= n < s.len(),
        s[n] == quote,
        is_quote(quote),
        forall|k: int| i <= k < n ==> #[trigger] s[k] != quote && (quote == '"' ==> s[k] != '\\'),
    ensures
        open_frames(s, i, Scan { quote: Some(quote), escaped: false }, frames) == open_frames(
            s,
            n + 1,
            plain(),
            frames,
        ),
    decreases n - i,
{
    let scan = Scan { quote: Some(quote), escaped: false };
    if i < n {
        assert(s[i] != quote);
        assert(advance(scan, s[i]) == scan);
        lemma_frames_over_quoted(s, i + 1, n, quote, frames);
    } else {
        assert(advance(scan, s[i]) == plain());
    }
}

/// What stands in quotes never moves the command, whatever it holds.
pub proof fn law_quotes_hide_operators(a: Seq<char>, q: Seq<char>, c: Seq<char>, quote: char)
    requires
        scan_at(a, a.len() as int) == plain(),
        fits_in_quotes(q, quote),
        is_inert_text(c),
    ensures
        command_start(a + seq![quote] + q + seq![quote] + c) == command_start(a),
{
    let s = a + seq![quote] + q + seq![quote] + c;
    let n = a.len() as int;
    assert(s.take(n) =~= a);
    assert(s[n] == quote);
    let frames = lemma_behind_prefix(s, a);
    let m = n + 1 + q.len();
    assert(s[m] == quote);
    assert forall|k: int| n + 1 <= k < m implies #[trigger] s[k] != quote && (quote == '"' ==> s[k]
        != '\\') by {
        assert(s[k] == q[k - n - 1]);
    }
    assert(advance(plain(), quote) == (Scan { quote: Some(quote), escaped: false }));
    lemma_frames_over_quoted(s, n + 1, m, quote, frames);
    assert forall|k: int| m + 1 <= k < s.len() implies is_inert(#[trigger] s[k]) by {
        assert(s[k] == c[k - m - 1]);
    }
    lemma_frames_over_words(s, m + 1, s.len() as int, frames);
}

/// A character behind a backslash never moves the command.
pub proof fn law_escapes_hide_operators(a: Seq<char>, x: char, c: Seq<char>)
    requires
        scan_at(a, a.len() as int) == plain(),
        is_inert_text(c),
    ensures
        command_start(a + seq!['\\', x] + c) == command_start(a),
{
    let s = a + seq!['\\', x] + c;
    let n = a.len() as int;
    assert(s.take(n) =~= a);
    assert(s[n] == '\\');
    assert(s[n + 1] == x);
    let frames = lemma_behind_prefix(s, a);
    let held = Scan { quote: None, escaped: true };
    assert(advance(plain(), '\\') == held);
    assert(advance(held, x) == plain());
    assert(open_frames(s, n, plain(), frames) == open_frames(s, n + 1, held, frames));
    assert(open_frames(s, n + 1, held, frames) == open_frames(s, n + 2, plain(), frames));
    assert forall|k: int| n + 2 <= k < s.len() implies is_inert(#[trigger] s[k]) by {
        assert(s[k] == c[k - n - 2]);
    }
    lemma_frames_over_words(s, n + 2, s.len() as int, frames);
}

proof fn lemma_scan_behind(s: Seq<char>, n: int, k: int)
    requires
        0 <= n,
        0 <= k,
        n + k <= s.len(),
        scan_at(s, n) == plain(),
    ensures
        scan_at(s, n + k) == scan_at(s.skip(n), k),
    decreases k,
{
    if k > 0 {
        lemma_scan_behind(s, n, k - 1);
        assert(s.skip(n)[k - 1] == s[n + k - 1]);
    }
}

proof fn lemma_words_behind(s: Seq<char>, n: int, k: int)
    requires
        0 < n,
        0 <= k,
        n + k <= s.len(),
        scan_at(s, n) == plain(),
        is_gap(s, n - 1),
    ensures
        word_start(s, n + k) == n + word_start(s.skip(n), k),
        closed_words(s, n + k) == closed_words(s, n) + closed_words(s.skip(n), k),
    decreases k,
{
    let b = s.skip(n);
    if k > 0 {
        lemma_words_behind(s, n, k - 1);
        lemma_scan_behind(s, n, k - 1);
        assert(b[k - 1] == s[n + k - 1]);
        assert(is_gap(s, n + k - 1) == is_gap(b, k - 1));
        lemma_word_start(b, k - 1);
        let start = word_start(b, k - 1);
        assert(s.subrange(n + start, n + k - 1) =~= b.subrange(start, k - 1));
        assert(closed_words(s, n + k) =~= closed_words(s, n) + closed_words(b, k));
    } else {
        assert(closed_words(s, n) + closed_words(b, 0) =~= closed_words(s, n));
    }
}

proof fn lemma_words_of_prefix(s: Seq<char>, n: int, i: int)
    requires
        0 <= i <= n <= s.len(),
    ensures
        word_start(s, i) == word_start(s.take(n), i),
        closed_words(s, i) == closed_words(s.take(n), i),
    decreases i,
{
    let a = s.take(n);
    if i > 0 {
        lemma_words_of_prefix(s, n, i - 1);
        lemma_scan_of_prefix(s, n, i - 1);
        assert(a[i - 1] == s[i - 1]);
        lemma_word_start(s, i - 1);
        let start = word_start(s, i - 1);
        assert(s.subrange(start, i - 1) =~= a.subrange(start, i - 1));
    }
}

/// White space outside of quotes parts words: what stands before it and behind it
/// is read on its own.
pub proof fn law_spaces_part_words(a: Seq<char>, gap: char, b: Seq<char>)
    requires
        scan_at(a, a.len() as int) == plain(),
        is_space(gap),
    ensures
        raw_words(a + seq![gap] + b) == raw_words(a) + raw_words(b),
        words(a + seq![gap] + b) == words(a) + words(b),
{
    let s = a + seq![gap] + b;
    let n = a.len() as int;
    assert(s.take(n) =~= a);
    assert(s.skip(n + 1) =~= b);
    assert(s[n] == gap);
    lemma_scan_of_prefix(s, n, n);
    lemma_words_of_prefix(s, n, n);
    assert(is_gap(s, n));
    assert(scan_at(s, n + 1) == plain());
    lemma_word_start(s, n);
    let start = word_start(s, n);
    assert(s.subrange(start, n) =~= a.subrange(start, n));
    assert(closed_words(s, n + 1) == raw_words(a));
    lemma_words_behind(s, n + 1, b.len() as int);
    lemma_word_start(b, b.len() as int);
    let at = word_start(b, b.len() as int);
    assert(s.subrange(n + 1 + at, s.len() as int) =~= b.subrange(at, b.len() as int));
    assert(raw_words(s) =~= raw_words(a) + raw_words(b));
    assert(words(s) =~= words(a) + words(b));
}

proof fn lemma_quoted_word(q: Seq<char>, quote: char, i: int)
    requires
        fits_in_quotes(q, quote),
        0 <= i <= q.len(),
    ensures
        ({
            let s = seq![quote] + q + seq![quote];
            &&& scan_at(s, i + 1) == (Scan { quote: Some(quote), escaped: false })
            &&& word_start(s, i + 1) == 0
            &&& closed_words(s, i + 1).len() == 0
            &&& value_upto(s, i + 1) == q.take(i)
        }),
    decreases i,
{
    let s = seq![quote] + q + seq![quote];
    assert(scan_at(s, 0) == plain());
    if i > 0 {
        lemma_quoted_word(q, quote, i - 1);
        assert(s[i] == q[i - 1]);
        assert(q.take(i) =~= q.take(i - 1).push(q[i - 1]));
    } else {
        assert(s[0] == quote);
        assert(scan_at(s, 1) == advance(scan_at(s, 0), s[0]));
        assert(!is_gap(s, 0));
        assert(word_start(s, 0) == 0);
        assert(word_start(s, 1) == 0);
        assert(closed_words(s, 0).len() == 0);
        assert(value_upto(s, 0) =~= Seq::empty());
        assert(value_upto(s, 1) =~= q.take(0));
    }
}

/// A text in quotes is one word, without the quotes, whatever white space it holds.
pub proof fn law_quoted_text_is_one_word(q: Seq<char>, quote: char)
    requires
        fits_in_quotes(q, quote),
    ensures
        words(seq![quote] + q + seq![quote]) == seq![q],
{
    let s = seq![quote] + q + seq![quote];
    let n = q.len() as int;
    lemma_quoted_word(q, quote, n);
    assert(s[n + 1] == quote);
    let scan = scan_at(s, n + 1);
    assert(scan_at(s, n + 2) == advance(scan, s[n + 1]));
    assert(word_start(s, n + 2) == 0);
    assert(closed_words(s, n + 2).len() == 0);
    assert(value_upto(s, n + 2) == value_upto(s, n + 1) + piece(scan, s[n + 1]));
    assert(q.take(n) =~= q);
    assert(unquoted(s) =~= q);
    assert(s.subrange(0, s.len() as int) =~= s);
    assert(raw_words(s) =~= seq![s]);
    assert(words(s) =~= seq![q]);
}

/// A character behind a backslash is part of a word, and the backslash is not.
pub proof fn law_escaped_characters_are_kept(x: char)
    ensures
        words(seq!['\\', x]) == seq![seq![x]],
{
    let s = seq!['\\', x];
    let held = Scan { quote: None, escaped: true };
    assert(scan_at(s, 0) == plain());
    assert(scan_at(s, 1) == advance(scan_at(s, 0), s[0]));
    assert(scan_at(s, 1) == held);
    assert(scan_at(s, 2) == advance(scan_at(s, 1), s[1]));
    assert(scan_at(s, 2) == plain());
    assert(word_start(s, 0) == 0);
    assert(word_start(s, 1) == 0);
    assert(word_start(s, 2) == 0);
    assert(closed_words(s, 0).len() == 0);
    assert(closed_words(s, 1).len() == 0);
    assert(closed_words(s, 2).len() == 0);
    assert(value_upto(s, 0) =~= Seq::empty());
    assert(value_upto(s, 1) == value_upto(s, 0) + piece(scan_at(s, 0), s[0]));
    assert(value_upto(s, 1) =~= Seq::empty());
    assert(value_upto(s, 2) == value_upto(s, 1) + piece(scan_at(s, 1), s[1]));
    assert(value_upto(s, 2) =~= seq![x]);
    assert(s.subrange(0, 2) =~= s);
    assert(unquoted(s) =~= seq![x]);
    assert(raw_words(s) =~= seq![s]);
    assert(words(s) =~= seq![seq![x]]);
}

proof fn lemma_word_stops(t: Seq<char>, n: int, i: int)
    requires
        0 <= i <= n <= t.len(),
        forall|k: int|
            0 <= k < n ==> !is_space(#[trigger] t[k]) && !is_quote(t[k]) && t[k] != '\\',
        n == t.len() || is_space(t[n]),
    ensures
        scan_at(t, i) == plain(),
        word_stop(t, i) == n,
    decreases n - i,
{
    lemma_plain_scan(t, n, i);
    if i < n {
        assert(!is_space(t[i]));
        lemma_word_stops(t, n, i + 1);
    }
}

proof fn lemma_plain_scan(t: Seq<char>, n: int, i: int)
    requires
        0 <= i <= n <= t.len(),
        forall|k: int| 0 <= k < n ==> !is_quote(#[trigger] t[k]) && t[k] != '\\',
    ensures
        scan_at(t, i) == plain(),
        value_upto(t, i) == t.take(i),
    decreases i,
{
    if i > 0 {
        lemma_plain_scan(t, n, i - 1);
        assert(!is_quote(t[i - 1]));
        assert(t.take(i) =~= t.take(i - 1).push(t[i - 1]));
    } else {
        assert(t.take(0) =~= Seq::empty());
    }
}

proof fn lemma_first_plain_word(w: Seq<char>, rest: Seq<char>)
    requires
        is_plain_word(w),
        rest.len() == 0 || is_space(rest[0]),
    ensures
        first_word_end(w + rest) == w.len(),
        unquoted((w + rest).take(w.len() as int)) == w,
        skip_space(w + rest, 0) == 0,
{
    let t = w + rest;
    let n = w.len() as int;
    assert forall|k: int| 0 <= k < n implies !is_space(#[trigger] t[k]) && !is_quote(t[k]) && t[k]
        != '\\' by {
        assert(t[k] == w[k]);
    }
    assert(!is_space(t[0]));
    lemma_word_stops(t, n, 0);
    assert(t.take(n) =~= w);
    lemma_plain_scan(w, n, n);
    assert(w.take(n) =~= w);
}

/// A command starts at its first word, where that is neither an assignment nor a
/// redirection.
pub proof fn law_commands_start_at_their_first_word(w: Seq<char>, rest: Seq<char>)
    requires
        is_plain_word(w),
        forall|k: int| 0 <= k < w.len() ==> #[trigger] w[k] != '=' && w[k] != '<' && w[k] != '>',
        rest.len() == 0 || is_space(rest[0]),
    ensures
        command_offset(w + rest) == 0,
{
    let t = w + rest;
    lemma_first_plain_word(w, rest);
    assert(t.skip(0) =~= t);
    let e = name_end(w, 0);
    lemma_name_end(w, 0);
    let fd = digits_end(w, 0);
    lemma_digits_end(w, 0);
    if assigns(w) {
        assert(w[e] != '=');
        assert(w[e + 1] != '=');
    }
    if redirects_fd(w) {
        assert(w[fd] != '<' && w[fd] != '>');
    }
    assert(!leads(t));
}

proof fn lemma_name_end(w: Seq<char>, i: int)
    requires
        0 <= i <= w.len(),
    ensures
        i <= name_end(w, i) <= w.len(),
    decreases w.len() - i,
{
    if i < w.len() {
        lemma_name_end(w, i + 1);
    }
}

proof fn lemma_digits_end(w: Seq<char>, i: int)
    requires
        0 <= i <= w.len(),
    ensures
        i <= digits_end(w, i) <= w.len(),
    decreases w.len() - i,
{
    if i < w.len() {
        lemma_digits_end(w, i + 1);
    }
}

proof fn lemma_name_ends_at(w: Seq<char>, i: int, n: int)
    requires
        0 <= i <= n < w.len(),
        forall|k: int| 0 <= k < n ==> is_name_char(#[trigger] w[k]),
        !is_name_char(w[n]),
    ensures
        name_end(w, i) == n,
    decreases n - i,
{
    if i < n {
        assert(is_name_char(w[i]));
        lemma_name_ends_at(w, i + 1, n);
    }
}

/// Assignments before a command are passed over: the command starts where it does
/// without them.
pub proof fn law_assignments_are_passed_over(
    name: Seq<char>,
    value: Seq<char>,
    gap: Seq<char>,
    rest: Seq<char>,
)
    requires
        name.len() > 0,
        forall|k: int| 0 <= k < name.len() ==> is_name_char(#[trigger] name[k]),
        forall|k: int|
            0 <= k < value.len() ==> !is_space(#[trigger] value[k]) && !is_quote(value[k]) && value[k]
                != '\\',
        gap.len() > 0,
        forall|k: int| 0 <= k < gap.len() ==> is_space(#[trigger] gap[k]),
        rest.len() == 0 || !is_space(rest[0]),
    ensures
        command_offset(name + "="@ + value + gap + rest) == name.len() + 1 + value.len() + gap.len()
            + command_offset(rest),
{
    reveal_strlit("=");
    let w = name + "="@ + value;
    let t = name + "="@ + value + gap + rest;
    let tail = gap + rest;
    assert(t =~= w + tail);
    assert forall|k: int| 0 <= k < w.len() implies !is_space(#[trigger] w[k]) && !is_quote(w[k])
        && w[k] != '\\' by {
        if k < name.len() {
            assert(w[k] == name[k]);
            assert(is_name_char(name[k]));
        } else if k > name.len() {
            assert(w[k] == value[k - name.len() - 1]);
        }
    }
    assert(is_plain_word(w));
    assert(tail[0] == gap[0]);
    lemma_first_plain_word(w, tail);
    assert forall|k: int| 0 <= k < name.len() implies is_name_char(#[trigger] w[k]) by {
        assert(w[k] == name[k]);
    }
    lemma_name_ends_at(w, 0, name.len() as int);
    assert(assigns(w));
    assert(t[0] == w[0]);
    assert(t.skip(0) =~= t);
    assert(leads(t));
    assert(t.skip(w.len() as int) =~= tail);
    assert(command_offset(t) == w.len() + command_offset(tail));
    assert forall|k: int| 0 <= k < gap.len() implies is_space(#[trigger] tail[k]) by {
        assert(tail[k] == gap[k]);
    }
    if rest.len() > 0 {
        assert(tail[gap.len() as int] == rest[0]);
    }
    lemma_skip_gap(tail, 0, gap.len() as int);
    lemma_gap_offset(gap, rest);
}

proof fn lemma_gap_offset(gap: Seq<char>, rest: Seq<char>)
    requires
        skip_space(gap + rest, 0) == gap.len(),
        rest.len() == 0 || !is_space(rest[0]),
    ensures
        command_offset(gap + rest) == gap.len() + command_offset(rest),
{
    let tail = gap + rest;
    assert(tail.skip(gap.len() as int) =~= rest);
    assert(rest.skip(0) =~= rest);
    assert(skip_space(rest, 0) == 0);
}

/// The text that is completed behind an operator is what stands behind it, from its
/// first word on.
pub proof fn law_text_behind_an_operator_is_completed(
    a: Seq<char>,
    op: Seq<char>,
    gap: Seq<char>,
    w: Seq<char>,
    rest: Seq<char>,
)
    requires
        a.len() + op.len() + gap.len() <= usize::MAX,
        scan_at(a, a.len() as int) == plain(),
        a.len() == 0 || (a.last() != '&' && a.last() != '|' && a.last() != '<' && a.last() != '>'),
        is_operator(op),
        forall|k: int| 0 <= k < gap.len() ==> is_space(#[trigger] gap[k]),
        is_plain_word(w),
        is_inert_text(w + rest),
        forall|k: int| 0 <= k < w.len() ==> #[trigger] w[k] != '=',
        rest.len() == 0 || is_space(rest[0]),
    ensures
        command_text(a + op + gap + (w + rest)) == w + rest,
{
    let b = w + rest;
    assert(b[0] == w[0]);
    law_operators_start_a_command(a, op, gap, b);
    assert forall|k: int| 0 <= k < w.len() implies #[trigger] w[k] != '=' && w[k] != '<' && w[k]
        != '>' by {
        assert(is_inert(b[k]));
        assert(b[k] == w[k]);
    }
    law_commands_start_at_their_first_word(w, rest);
    let s = a + op + gap + b;
    assert(s.skip((a.len() + op.len() + gap.len()) as int) =~= b);
    assert(b.skip(0) =~= b);
}

proof fn lemma_ascii_end(s: Seq<char>, i: int, left: int)
    requires
        0 <= i <= s.len(),
        0 <= left,
        forall|k: int| 0 <= k < s.len() ==> (#[trigger] s[k] as u32) < 0x80,
    ensures
        fitting_end(s, i, left) == if i + left < s.len() {
            i + left
        } else {
            s.len() as int
        },
    decreases s.len() - i,
{
    if i < s.len() {
        assert((s[i] as u32) < 0x80);
        if left > 0 {
            lemma_ascii_end(s, i + 1, left - 1);
        }
    }
}

/// In an ASCII line the text before the caret is as many characters as the caret
/// says; without a caret, or with one behind the end, it is the whole line.
pub proof fn law_the_caret_counts_characters(s: Seq<char>, cursor: u32)
    requires
        forall|k: int| 0 <= k < s.len() ==> (#[trigger] s[k] as u32) < 0x80,
    ensures
        cursor <= s.len() ==> before_caret(s, Some(cursor)) == s.take(cursor as int),
        cursor >= s.len() ==> before_caret(s, Some(cursor)) == s,
        before_caret(s, None) == s,
{
    lemma_ascii_end(s, 0, cursor as int);
    if cursor >= s.len() {
        assert(s.take(s.len() as int) =~= s);
    }
}

/// A character that the caret would cut through is left out.
pub proof fn law_the_caret_cuts_no_character(a: Seq<char>, c: char, cursor: u32)
    requires
        forall|k: int| 0 <= k < a.len() ==> (#[trigger] a[k] as u32) < 0x80,
        (c as u32) >= 0x80,
        cursor == a.len() + 1,
    ensures
        before_caret(a.push(c), Some(cursor)) == a,
{
    let s = a.push(c);
    lemma_end_before(a, c, 0);
    assert(s.take(a.len() as int) =~= a);
}

proof fn lemma_end_before(a: Seq<char>, c: char, i: int)
    requires
        0 <= i <= a.len(),
        forall|k: int| 0 <= k < a.len() ==> (#[trigger] a[k] as u32) < 0x80,
        (c as u32) >= 0x80,
    ensures
        fitting_end(a.push(c), i, a.len() + 1 - i) == a.len(),
    decreases a.len() - i,
{
    let s = a.push(c);
    if i < a.len() {
        assert(s[i] == a[i]);
        lemma_end_before(a, c, i + 1);
    } else {
        assert(s[i] == c);
    }
}

} // verus!
