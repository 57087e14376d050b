//! Laws of hooks: the programs that run them, what they answer, and results that
//! are kept.
use std::sync::Arc;

use vstd::prelude::*;

use super::text::{law_joining_appends, law_prefixes, law_trimming_drops_the_spaces_around};
use crate::ir::{GeneratorSpec, OptionSpec, Spec};
use crate::js_host::fig::{
    are_options_of, are_specs_of, is_merged, is_named_item, is_option_of, is_spec_of,
    law_computed_commands_are_merged_in, law_merging_only_replaces_or_adds, merged_options,
    names_of, option_sharing, share_a_name,
};
use crate::js_host::hook::{
    after_job, after_start, before_newlines, before_semicolons, behind_newlines, cleaned,
    command_limit, default_budget, escaped, escaped_text, hex_digit, hook_body, hook_file,
    hook_limit, hook_program, list_literal, result_key, text_literal, text_literals,
    without_newlines, AfterJob, Job, MAX_JOBS, PROGRAM_CALL, PROGRAM_HEAD, PROGRAM_TAIL, SETTLED,
};
use crate::js_host::keep::{
    kept_key, kept_place, policy_of, usable, with_kept, CachePolicy, KeptView, PolicyView,
};
use crate::js_host::reply::{command_in, item_row, item_rows, requested};
use crate::json::{texts_in, value_under, JsonView};
use crate::text::{begins_with, is_space, joined, matches_at, replaced_from, texts, trimmed};

verus! {

// ---------------------------------------------------------------------------
// Programs
// ---------------------------------------------------------------------------
/// The value of a hexadecimal digit.
pub open spec fn hex_value(c: char) -> int {
    if '0' <= c && c <= '9' {
        c as u32 - 48
    } else {
        c as u32 - 87
    }
}

/// The code points that the inside of a JavaScript text literal stands for, from
/// place `i` on: a backslash stands before a character that is meant as it is, or
/// before `u` and the four digits of a code point.
pub open spec fn literal_codes(s: Seq<char>, i: int) -> Seq<int>
    decreases s.len() - i,
{
    if i < 0 || i >= s.len() {
        Seq::empty()
    } else if s[i] == '\\' && i + 5 < s.len() && s[i + 1] == 'u' {
        seq![
            hex_value(s[i + 2]) * 4096 + hex_value(s[i + 3]) * 256 + hex_value(s[i + 4]) * 16
                + hex_value(s[i + 5]),
        ] + literal_codes(s, i + 6)
    } else if s[i] == '\\' && i + 1 < s.len() {
        seq![s[i + 1] as u32 as int] + literal_codes(s, i + 2)
    } else {
        seq![s[i] as u32 as int] + literal_codes(s, i + 1)
    }
}

/// The code points of a text.
pub open spec fn text_codes(s: Seq<char>) -> Seq<int> {
    Seq::new(s.len(), |i: int| s[i] as u32 as int)
}

proof fn lemma_escaped_front(c: char, s: Seq<char>)
    ensures
        escaped_text(seq![c] + s) == escaped(c) + escaped_text(s),
    decreases s.len(),
{
    let whole = seq![c] + s;
    if s.len() == 0 {
        assert(whole.drop_last() =~= Seq::<char>::empty());
        assert(whole.last() == c);
        assert(escaped_text(Seq::<char>::empty()) =~= Seq::empty());
        assert(escaped_text(whole) =~= escaped(c));
        assert(escaped(c) + escaped_text(s) =~= escaped(c));
    } else {
        lemma_escaped_front(c, s.drop_last());
        assert(whole.drop_last() =~= seq![c] + s.drop_last());
        assert(whole.last() == s.last());
        assert(escaped_text(whole) =~= escaped(c) + escaped_text(s));
    }
}

proof fn lemma_hex(n: int)
    requires
        0 <= n < 16,
    ensures
        hex_value(hex_digit(n)) == n,
{
}

proof fn lemma_literal(p: Seq<char>, s: Seq<char>)
    ensures
        literal_codes(p + escaped_text(s), p.len() as int) == text_codes(s),
    decreases s.len(),
{
    reveal_strlit("\\u2028");
    reveal_strlit("\\u2029");
    let n = p.len() as int;
    if s.len() == 0 {
        assert(literal_codes(p + escaped_text(s), n) =~= text_codes(s));
    } else {
        let c = s[0];
        let rest = s.skip(1);
        assert(seq![c] + rest =~= s);
        lemma_escaped_front(c, rest);
        let e = escaped(c);
        let next = p + e;
        let whole = p + escaped_text(s);
        assert(whole =~= next + escaped_text(rest));
        lemma_literal(next, rest);
        assert forall|k: int| 0 <= k < e.len() implies whole[n + k] == #[trigger] e[k] by {}
        let code = c as u32;
        assert(whole[n] == e[0]);
        if e.len() == 6 {
            assert(whole[n + 1] == e[1]);
            assert(whole[n + 2] == e[2]);
            assert(whole[n + 3] == e[3]);
            assert(whole[n + 4] == e[4]);
            assert(whole[n + 5] == e[5]);
            if code < 0x20 {
                lemma_hex(code as int / 16);
                lemma_hex(code as int % 16);
            }
            let m = hex_value(whole[n + 2]) * 4096 + hex_value(whole[n + 3]) * 256 + hex_value(
                whole[n + 4],
            ) * 16 + hex_value(whole[n + 5]);
            assert(m == code);
        } else if e.len() == 2 {
            assert(whole[n + 1] == e[1]);
        }
        assert(literal_codes(whole, n) =~= seq![code as int] + literal_codes(whole, n + e.len()));
        assert(text_codes(s) =~= seq![code as int] + text_codes(rest));
    }
}

/// A text that is written into a program as a literal is read back as it was.
pub proof fn law_literals_stand_for_their_text(s: Seq<char>)
    ensures
        literal_codes(escaped_text(s), 0) == text_codes(s),
{
    let none = Seq::<char>::empty();
    lemma_literal(none, s);
    assert(none + escaped_text(s) =~= escaped_text(s));
}

/// A literal holds no character that would end it or its line.
pub proof fn law_literals_stay_on_their_line(s: Seq<char>)
    ensures
        forall|i: int|
            0 <= i < escaped_text(s).len() ==> {
                let n = #[trigger] escaped_text(s)[i] as u32;
                n >= 0x20 && n != 0x2028 && n != 0x2029
            },
    decreases s.len(),
{
    if s.len() > 0 {
        reveal_strlit("\\u2028");
        reveal_strlit("\\u2029");
        law_literals_stay_on_their_line(s.drop_last());
        let earlier = escaped_text(s.drop_last());
        let e = escaped(s.last());
        let out = escaped_text(s);
        assert forall|i: int| 0 <= i < out.len() implies {
            let n = #[trigger] out[i] as u32;
            n >= 0x20 && n != 0x2028 && n != 0x2029
        } by {
            if i < earlier.len() {
                assert(out[i] == earlier[i]);
            } else {
                assert(out[i] == e[i - earlier.len()]);
            }
        }
    }
}

proof fn lemma_before_semicolons(s: Seq<char>, to: int)
    requires
        0 < to <= s.len(),
        s[to - 1] != ';',
    ensures
        before_semicolons(s, to) == to,
{
}

proof fn lemma_trimmed_already(s: Seq<char>)
    requires
        s.len() > 0,
        !is_space(s[0]),
        !is_space(s.last()),
    ensures
        trimmed(s) == s,
{
    let none = Seq::<char>::empty();
    law_trimming_drops_the_spaces_around(none, s, none);
    assert(none + s + none =~= s);
}

/// The function of a hook is what its file exports, without the semicolon behind
/// it.
pub proof fn law_hooks_are_what_is_exported(body: Seq<char>)
    requires
        body.len() > 0,
        !is_space(body[0]),
        !is_space(body.last()),
        body.last() != ';',
    ensures
        hook_body("export default "@ + body + ";"@) == body,
{
    reveal_strlit(";");
    let inner = body + ";"@;
    assert(trimmed(trimmed("export default "@ + body + ";"@).skip(14)) == inner
        && begins_with(trimmed("export default "@ + body + ";"@), "export default"@)) by {
        lemma_export(body);
    }
    let n = body.len() as int;
    assert(inner[n - 1] == body.last());
    lemma_before_semicolons(inner, n);
    assert(before_semicolons(inner, n + 1) == n);
    assert(inner.take(n) =~= body);
    lemma_trimmed_already(body);
}

proof fn lemma_export(body: Seq<char>)
    requires
        body.len() > 0,
        !is_space(body[0]),
    ensures
        trimmed("export default "@ + body + ";"@) == "export default "@ + body + ";"@,
        begins_with("export default "@ + body + ";"@, "export default"@),
        trimmed(("export default "@ + body + ";"@).skip(14)) == body + ";"@,
{
    reveal_strlit("export default");
    reveal_strlit("export default ");
    reveal_strlit(";");
    reveal_strlit(" ");
    let whole = "export default "@ + body + ";"@;
    assert(whole[0] == 'e');
    assert(whole.last() == ';');
    lemma_trimmed_already(whole);
    let rest = " "@ + body + ";"@;
    assert("export default "@ =~= "export default"@ + " "@);
    assert(whole =~= "export default"@ + rest);
    law_prefixes(whole, "export default"@, rest);
    assert(whole.skip(14) =~= rest);
    let inner = body + ";"@;
    assert(inner[0] == body[0]);
    assert(inner.last() == ';');
    let none = Seq::<char>::empty();
    law_trimming_drops_the_spaces_around(" "@, inner, none);
    assert(" "@ + inner + none =~= rest);
}

/// A file that holds nothing but the function is the function.
pub proof fn law_hooks_may_stand_alone(body: Seq<char>)
    requires
        body.len() > 0,
        !is_space(body[0]),
        !is_space(body.last()),
        body.last() != ';',
        !begins_with(body, "export default"@),
    ensures
        hook_body(body) == body,
{
    lemma_trimmed_already(body);
    let n = body.len() as int;
    lemma_before_semicolons(body, n);
    assert(body.take(n) =~= body);
}

/// The file of a hook has a name of harmless characters.
pub proof fn law_hook_files_have_harmless_names(id: Seq<char>, i: int)
    requires
        0 <= i < id.len(),
    ensures
        hook_file(id).len() == id.len() + 3,
        hook_file(id)[i] != '/',
        hook_file(id)[i] != '\\',
        hook_file(id).skip(id.len() as int) == ".js"@,
        ('a' <= id[i] && id[i] <= 'z') ==> hook_file(id)[i] == id[i],
{
    reveal_strlit(".js");
    assert(hook_file(id).skip(id.len() as int) =~= ".js"@);
}

// ---------------------------------------------------------------------------
// Output
// ---------------------------------------------------------------------------
proof fn lemma_unreplaced(s: Seq<char>, pat: Seq<char>, with: Seq<char>, i: int)
    requires
        0 <= i <= s.len(),
        pat.len() > 0,
        forall|k: int| 0 <= k < s.len() ==> #[trigger] s[k] != pat[0],
    ensures
        replaced_from(s, pat, with, i) == s.skip(i),
    decreases s.len() - i,
{
    if i < s.len() {
        if matches_at(s, pat, i) {
            assert(s.subrange(i, i + pat.len())[0] == s[i]);
        }
        lemma_unreplaced(s, pat, with, i + 1);
        assert(s.skip(i) =~= seq![s[i]] + s.skip(i + 1));
    } else {
        assert(s.skip(i) =~= Seq::empty());
    }
}

proof fn lemma_behind_newlines(whole: Seq<char>, n: int, i: int, a: Seq<char>, s: Seq<char>)
    requires
        0 <= i <= n < whole.len(),
        n == a.len(),
        forall|k: int| 0 <= k < n ==> #[trigger] whole[k] == '\n',
        whole[n] != '\n',
    ensures
        behind_newlines(whole, i) == n,
    decreases n - i,
{
    if i < n {
        assert(whole[i] == '\n');
        lemma_behind_newlines(whole, n, i + 1, a, s);
    }
}

proof fn lemma_before_newlines(whole: Seq<char>, from: int, n: int, to: int, b: Seq<char>)
    requires
        0 <= from < n <= to <= whole.len(),
        forall|k: int| n <= k < whole.len() ==> #[trigger] whole[k] == '\n',
        whole[n - 1] != '\n',
    ensures
        before_newlines(whole, from, to) == n,
    decreases to - n,
{
    if n < to {
        assert(whole[to - 1] == '\n');
        lemma_before_newlines(whole, from, n, to - 1, b);
    }
}

/// The output of a command reaches a hook without the newlines around it.
pub proof fn law_outputs_lose_the_newlines_around(a: Seq<char>, s: Seq<char>, b: Seq<char>)
    requires
        forall|k: int| 0 <= k < a.len() ==> #[trigger] a[k] == '\n',
        forall|k: int| 0 <= k < b.len() ==> #[trigger] b[k] == '\n',
        s.len() > 0,
        s[0] != '\n',
        s.last() != '\n',
        forall|k: int| 0 <= k < s.len() ==> #[trigger] s[k] != '\r' && s[k] != '\u{1b}',
    ensures
        cleaned(a + s + b) == s,
{
    reveal_strlit("\r\n");
    reveal_strlit("\n");
    reveal_strlit("\u{1b}[?25h");
    let whole = a + s + b;
    assert forall|k: int| 0 <= k < whole.len() implies #[trigger] whole[k] != '\r' && whole[k]
        != '\u{1b}' by {
        if k < a.len() {
            assert(whole[k] == a[k]);
        } else if k < a.len() + s.len() {
            assert(whole[k] == s[k - a.len()]);
        } else {
            assert(whole[k] == b[k - a.len() - s.len()]);
        }
    }
    lemma_unreplaced(whole, "\r\n"@, "\n"@, 0);
    assert(whole.skip(0) =~= whole);
    lemma_unreplaced(whole, "\u{1b}[?25h"@, Seq::empty(), 0);
    lemma_around(a, s, b);
}

proof fn lemma_around(a: Seq<char>, s: Seq<char>, b: Seq<char>)
    requires
        forall|k: int| 0 <= k < a.len() ==> #[trigger] a[k] == '\n',
        forall|k: int| 0 <= k < b.len() ==> #[trigger] b[k] == '\n',
        s.len() > 0,
        s[0] != '\n',
        s.last() != '\n',
    ensures
        without_newlines(a + s + b) == s,
{
    let whole = a + s + b;
    let n = a.len() as int;
    let m = n + s.len();
    assert forall|k: int| 0 <= k < n implies #[trigger] whole[k] == '\n' by {
        assert(whole[k] == a[k]);
    }
    assert(whole[n] == s[0]);
    lemma_behind_newlines(whole, n, 0, a, s);
    assert forall|k: int| m <= k < whole.len() implies #[trigger] whole[k] == '\n' by {
        assert(whole[k] == b[k - m]);
    }
    assert(whole[m - 1] == s.last());
    lemma_before_newlines(whole, n, m, whole.len() as int, b);
    assert(whole.subrange(n, m) =~= s);
}

// ---------------------------------------------------------------------------
// Answers
// ---------------------------------------------------------------------------
/// The member of an object under a key is the first with that key.
pub proof fn law_members_are_found(
    members: Seq<(Seq<char>, JsonView)>,
    key: Seq<char>,
    k: int,
)
    ensures
        0 <= k < members.len() && members[k].0 == key && (forall|j: int|
            0 <= j < k ==> (#[trigger] members[j]).0 != key) ==> JsonView::Object(members).get(key)
            == Some(members[k].1),
        (forall|j: int| 0 <= j < members.len() ==> (#[trigger] members[j]).0 != key)
            ==> JsonView::Object(members).get(key) is None,
{
    if 0 <= k < members.len() && members[k].0 == key && (forall|j: int|
        0 <= j < k ==> (#[trigger] members[j]).0 != key) {
        lemma_member(members, key, 0, k);
    }
    if forall|j: int| 0 <= j < members.len() ==> (#[trigger] members[j]).0 != key {
        lemma_no_member(members, key, 0);
    }
}

proof fn lemma_member(members: Seq<(Seq<char>, JsonView)>, key: Seq<char>, i: int, k: int)
    requires
        0 <= i <= k < members.len(),
        members[k].0 == key,
        forall|j: int| 0 <= j < k ==> (#[trigger] members[j]).0 != key,
    ensures
        value_under(members, key, i) == Some(members[k].1),
    decreases k - i,
{
    if i < k {
        assert(members[i].0 != key);
        lemma_member(members, key, i + 1, k);
    }
}

proof fn lemma_no_member(members: Seq<(Seq<char>, JsonView)>, key: Seq<char>, i: int)
    requires
        0 <= i,
        forall|j: int| 0 <= j < members.len() ==> (#[trigger] members[j]).0 != key,
    ensures
        value_under(members, key, i) is None,
    decreases members.len() - i,
{
    if i < members.len() {
        assert(members[i].0 != key);
        lemma_no_member(members, key, i + 1);
    }
}

/// The texts of a list are taken in their order, and other values are left out.
pub proof fn law_texts_are_taken_in_order(a: Seq<JsonView>, b: Seq<JsonView>, item: JsonView)
    ensures
        texts_in(a + b) == texts_in(a) + texts_in(b),
        texts_in(seq![item]) == match item {
            JsonView::Text(text) => seq![text],
            _ => Seq::empty(),
        },
    decreases b.len(),
{
    let none = Seq::<JsonView>::empty();
    assert(seq![item].drop_last() =~= none);
    assert(texts_in(none) =~= Seq::empty());
    if let JsonView::Text(text) = item {
        assert(texts_in(seq![item]) =~= seq![text]);
    }
    if b.len() == 0 {
        assert(a + b =~= a);
        assert(texts_in(a) + texts_in(b) =~= texts_in(a));
    } else {
        law_texts_are_taken_in_order(a, b.drop_last(), item);
        assert((a + b).drop_last() =~= a + b.drop_last());
        assert((a + b).last() == b.last());
        assert(texts_in(a + b) =~= texts_in(a) + texts_in(b));
    }
}

/// The rows of an answer come in the order of its items; a text is a row that
/// inserts it.
pub proof fn law_answered_rows_keep_their_order(
    a: Seq<JsonView>,
    b: Seq<JsonView>,
    name: Seq<char>,
    dangerous: bool,
)
    ensures
        item_rows(a + b, dangerous) == item_rows(a, dangerous) + item_rows(b, dangerous),
        name.len() > 0 ==> {
            let row = item_row(JsonView::Text(name), dangerous);
            &&& row is Some
            &&& row->Some_0.name == name
            &&& row->Some_0.insert_value == Some(name)
            &&& row->Some_0.is_dangerous == dangerous
            &&& item_rows(seq![JsonView::Text(name)], dangerous) == seq![row->Some_0]
        },
    decreases b.len(),
{
    let none = Seq::<JsonView>::empty();
    assert(seq![JsonView::Text(name)].drop_last() =~= none);
    assert(item_rows(none, dangerous) =~= Seq::empty());
    if name.len() > 0 {
        let row = item_row(JsonView::Text(name), dangerous)->Some_0;
        assert(item_rows(seq![JsonView::Text(name)], dangerous) =~= seq![row]);
    }
    if b.len() == 0 {
        assert(a + b =~= a);
        assert(item_rows(a, dangerous) + item_rows(b, dangerous) =~= item_rows(a, dangerous));
    } else {
        law_answered_rows_keep_their_order(a, b.drop_last(), name, dangerous);
        assert((a + b).drop_last() =~= a + b.drop_last());
        assert((a + b).last() == b.last());
        assert(item_rows(a + b, dangerous) =~= item_rows(a, dangerous) + item_rows(b, dangerous));
    }
}

/// An answered object with a name is a row under it: its own text is inserted where
/// it has one, and its name otherwise.
pub proof fn law_answered_objects_are_rows(item: JsonView, name: Seq<char>, dangerous: bool)
    requires
        item is Object,
        item.get("name"@) == Some(JsonView::Text(name)),
        name.len() > 0,
    ensures
        item_row(item, dangerous) is Some,
        ({
            let row = item_row(item, dangerous)->Some_0;
            &&& row.name == name
            &&& item.get("insertValue"@) is None ==> row.insert_value == Some(name)
            &&& item.get("insertValue"@) matches Some(JsonView::Text(text)) ==> row.insert_value
                == Some(text)
            &&& item.get("description"@) matches Some(JsonView::Text(text)) ==> row.description
                == text
            &&& item.get("isDangerous"@) == Some(JsonView::Bool(true)) ==> row.is_dangerous
            &&& dangerous ==> row.is_dangerous
        }),
{
}

/// A command line that a hook answers runs in a shell; a list is a program and its
/// arguments.
pub proof fn law_answered_commands(line: Seq<char>, items: Seq<JsonView>)
    ensures
        trimmed(line).len() > 0 ==> {
            let command = command_in(JsonView::Text(line));
            &&& command is Some
            &&& command->Some_0.command == "sh"@
            &&& command->Some_0.args == seq!["-c"@, line]
        },
        trimmed(line).len() == 0 ==> command_in(JsonView::Text(line)) is None,
        texts_in(items).len() > 0 && texts_in(items)[0].len() > 0 ==> {
            let command = command_in(JsonView::List(items));
            &&& command is Some
            &&& seq![command->Some_0.command] + command->Some_0.args == texts_in(items)
        },
{
    let parts = texts_in(items);
    if parts.len() > 0 && parts[0].len() > 0 {
        assert(seq![parts[0]] + parts.skip(1) =~= parts);
    }
}

/// Every named item of a list is read as a spec, in its place; so are options,
/// arguments and suggestions.
pub proof fn law_named_items_are_read_in_place(
    specs: Seq<Arc<Spec>>,
    options: Seq<Arc<OptionSpec>>,
    items: Seq<JsonView>,
    i: int,
)
    requires
        0 <= i < items.len(),
        forall|k: int| 0 <= k < items.len() ==> is_named_item(#[trigger] items[k]),
    ensures
        are_specs_of(specs, items) ==> specs.len() == items.len() && is_spec_of(*specs[i], items[i]),
        are_options_of(options, items) ==> options.len() == items.len() && is_option_of(
            *options[i],
            items[i],
        ),
    decreases items.len(),
{
    let rest = items.drop_last();
    assert(is_named_item(items[items.len() - 1]));
    assert forall|k: int| 0 <= k < rest.len() implies is_named_item(#[trigger] rest[k]) by {
        assert(rest[k] == items[k]);
    }
    if rest.len() > 0 {
        let j = if i < rest.len() { i } else { 0 };
        law_named_items_are_read_in_place(specs.drop_last(), options.drop_last(), rest, j);
        assert(rest[j] == items[j]);
    } else {
        assert(are_specs_of(specs.drop_last(), rest) ==> specs.drop_last().len() == 0);
        assert(are_options_of(options.drop_last(), rest) ==> options.drop_last().len() == 0);
    }
    assert(items[items.len() - 1] == items.last());
}

/// An object is named by the text under its name.
pub proof fn law_objects_are_named(v: JsonView, name: Seq<char>)
    requires
        v is Object,
        v.get("name"@) == Some(JsonView::Text(name)),
    ensures
        names_of(v) == Some(seq![name]),
        is_named_item(v),
{
}

proof fn lemma_option_sharing(list: Seq<Arc<OptionSpec>>, names: Seq<Seq<char>>, i: int)
    requires
        0 <= i,
    ensures
        option_sharing(list, names, i) matches Some(k) ==> i <= k < list.len() && share_a_name(
            names,
            texts(list[k].names@),
        ),
    decreases list.len() - i,
{
    if i < list.len() {
        lemma_option_sharing(list, names, i + 1);
    }
}

/// Of options that a hook computed the last of a name is there afterwards, and a
/// given option stays in its place where none shares a name with it.
pub proof fn law_computed_options_are_merged_in(
    dest: Seq<Arc<OptionSpec>>,
    incoming: Seq<Arc<OptionSpec>>,
    k: int,
)
    ensures
        incoming.len() > 0 ==> merged_options(dest, incoming).contains(incoming.last()),
        merged_options(dest, incoming).len() >= dest.len(),
        0 <= k < dest.len() && (forall|j: int|
            0 <= j < incoming.len() ==> !share_a_name(
                texts((#[trigger] incoming[j]).names@),
                texts(dest[k].names@),
            )) ==> merged_options(dest, incoming)[k] == dest[k],
    decreases incoming.len(),
{
    if incoming.len() > 0 {
        let rest = incoming.drop_last();
        law_computed_options_are_merged_in(dest, rest, k);
        let earlier = merged_options(dest, rest);
        let out = merged_options(dest, incoming);
        let names = texts(incoming.last().names@);
        lemma_option_sharing(earlier, names, 0);
        match option_sharing(earlier, names, 0) {
            Some(i) => {
                assert(out[i] == incoming.last());
            },
            None => {
                assert(out[earlier.len() as int] == incoming.last());
            },
        }
        if 0 <= k < dest.len() && (forall|j: int|
            0 <= j < incoming.len() ==> !share_a_name(
                texts((#[trigger] incoming[j]).names@),
                texts(dest[k].names@),
            )) {
            assert forall|j: int| 0 <= j < rest.len() implies !share_a_name(
                texts((#[trigger] rest[j]).names@),
                texts(dest[k].names@),
            ) by {
                assert(rest[j] == incoming[j]);
            }
            assert(!share_a_name(
                texts(incoming[incoming.len() - 1].names@),
                texts(dest[k].names@),
            ));
        }
    }
}

// ---------------------------------------------------------------------------
// Limits and kept results
// ---------------------------------------------------------------------------
/// A command of a hook gets its own time, but no more than the hook has left; a hook
/// without time left runs none.
pub proof fn law_commands_fit_in_the_time_left(timeout_ms: u64, left: u64)
    ensures
        command_limit(timeout_ms, None) == Some(timeout_ms),
        left == 0 <==> command_limit(timeout_ms, Some(left)) is None,
        command_limit(timeout_ms, Some(left)) matches Some(limit) ==> limit <= left && limit
            <= timeout_ms && (limit == left || limit == timeout_ms),
{
}

/// Hooks get at least five seconds, and what the settings say where that is more.
pub proof fn law_hooks_get_enough_time(configured_ms: i64, budget_ms: u64)
    ensures
        default_budget(configured_ms) >= 5000,
        default_budget(configured_ms) >= configured_ms,
        configured_ms >= 5000 ==> default_budget(configured_ms) == configured_ms,
        hook_limit(budget_ms) >= budget_ms,
        hook_limit(budget_ms) <= u64::MAX,
{
}

/// A hook that has nothing left to run is read; one that failed is given up.
pub proof fn law_hooks_are_read_when_idle(number: int)
    requires
        1 <= number <= MAX_JOBS,
    ensures
        after_job(Job::Idle, number) == AfterJob::Read,
        after_job(Job::Failed, number) == AfterJob::GiveUp,
        after_job(Job::Ran, number) == AfterJob::Next <==> number < MAX_JOBS,
{
}

/// Results are kept apart by directory only where the generator asks for it.
pub proof fn law_results_are_kept_by_directory(
    cwd: Seq<char>,
    other: Seq<char>,
    key: Option<Seq<char>>,
    tokens: Seq<Seq<char>>,
)
    ensures
        result_key(false, cwd, key, tokens) == result_key(false, other, key, tokens),
        cwd != other ==> result_key(true, cwd, key, tokens) != result_key(true, other, key, tokens),
        key is Some ==> result_key(true, cwd, key, tokens) == result_key(true, cwd, key, Seq::empty()),
{
    let second = match key {
        Some(key) => key,
        None => joined(tokens, " "@),
    };
    let tail = ","@ + second;
    let a = result_key(true, cwd, key, tokens);
    let b = result_key(true, other, key, tokens);
    assert(a =~= cwd + tail);
    assert(b =~= other + tail);
    if a == b {
        assert((cwd + tail).len() == cwd.len() + tail.len());
        assert((other + tail).len() == other.len() + tail.len());
        assert(cwd =~= (cwd + tail).take(cwd.len() as int));
        assert(other =~= (other + tail).take(cwd.len() as int));
    }
}

/// A result is used until it is older than its time to live, and then no more,
/// unless old results may be shown.
pub proof fn law_old_results_are_not_used<T>(
    entries: Seq<KeptView<T>>,
    entry: KeptView<T>,
    ttl: u64,
    now_ms: u64,
)
    requires
        now_ms >= entry.fetched_at_ms,
    ensures
        ({
            let fresh = CachePolicy { ttl_ms: Some(ttl), swr: false };
            let found = usable(with_kept(entries, entry), entry.key, fresh, now_ms);
            if now_ms - entry.fetched_at_ms <= ttl {
                found == Some(entry.value)
            } else {
                found is None
            }
        }),
        ({
            let lasting = CachePolicy { ttl_ms: Some(ttl), swr: true };
            usable(with_kept(entries, entry), entry.key, lasting, now_ms) == Some(entry.value)
        }),
        ({
            let endless = CachePolicy { ttl_ms: None, swr: false };
            usable(with_kept(entries, entry), entry.key, endless, now_ms) == Some(entry.value)
        }),
{
    let after = with_kept(entries, entry);
    lemma_kept(entries, entry.key, 0);
    match kept_place(entries, entry.key, 0) {
        Some(i) => {
            assert(after[i] == entry);
            lemma_kept_at(after, entry.key, 0, i);
        },
        None => {
            let n = after.len() - 1;
            assert(after[n] == entry);
            assert forall|j: int| 0 <= j < n implies (#[trigger] after[j]).key != entry.key by {
                assert(after[j] == entries[j]);
            }
            lemma_kept_at(after, entry.key, 0, n);
        },
    }
}

proof fn lemma_kept<T>(entries: Seq<KeptView<T>>, key: Seq<char>, i: int)
    requires
        0 <= i,
    ensures
        match kept_place(entries, key, i) {
            Some(k) => i <= k < entries.len() && entries[k].key == key && forall|j: int|
                i <= j < k ==> (#[trigger] entries[j]).key != key,
            None => forall|j: int| i <= j < entries.len() ==> (#[trigger] entries[j]).key != key,
        },
    decreases entries.len() - i,
{
    if i < entries.len() && entries[i].key != key {
        lemma_kept(entries, key, i + 1);
    }
}

proof fn lemma_kept_at<T>(entries: Seq<KeptView<T>>, key: Seq<char>, i: int, k: int)
    requires
        0 <= i <= k < entries.len(),
        entries[k].key == key,
        forall|j: int| 0 <= j < k ==> (#[trigger] entries[j]).key != key,
    ensures
        kept_place(entries, key, i) == Some(k),
    decreases k - i,
{
    if i < k {
        assert(entries[i].key != key);
        lemma_kept_at(entries, key, i + 1, k);
    }
}

/// A command that a hook runs: a line runs in a shell; an object names a program,
/// its arguments and where it runs. It never gets less time than is usual.
pub proof fn law_requested_commands(
    line: Seq<char>,
    input: JsonView,
    default_cwd: Seq<char>,
    default_timeout_ms: u64,
    timeout: Option<u64>,
)
    ensures
        ({
            let parsed = requested(JsonView::Text(line), default_cwd, default_timeout_ms, timeout);
            &&& parsed is Some
            &&& parsed->Some_0.command == "sh"@
            &&& parsed->Some_0.args == seq!["-c"@, line]
            &&& parsed->Some_0.cwd == default_cwd
        }),
        input is Object && input.text_at("command"@) is None ==> requested(
            input,
            default_cwd,
            default_timeout_ms,
            timeout,
        ) is None,
        requested(input, default_cwd, default_timeout_ms, timeout) matches Some(parsed) ==> {
            &&& parsed.timeout_ms >= default_timeout_ms
            &&& input is Object ==> Some(parsed.command) == input.text_at("command"@)
            &&& input is Object && timeout is Some ==> parsed.timeout_ms >= timeout->Some_0
            &&& input is Object && input.text_at("cwd"@) is None ==> parsed.cwd == default_cwd
            &&& input is Object ==> (input.text_at("cwd"@) matches Some(cwd) ==> cwd.len() > 0
                ==> parsed.cwd == cwd)
        },
{
}

/// Results are kept where the generator asks for it or everything is; for a second
/// where nothing else is said.
pub proof fn law_keeping_is_asked_for(generator: GeneratorSpec, auto_cache: bool)
    ensures
        policy_of(generator, auto_cache) is None <==> !auto_cache && generator.cache_key is None
            && generator.cache_by_directory is None && generator.cache_ttl_ms is None,
        policy_of(generator, auto_cache) matches Some(policy) ==> {
            &&& policy.by_directory == (generator.cache_by_directory == Some(true))
            &&& generator.cache_ttl_ms matches Some(ttl) ==> ttl >= 0 ==> policy.lookup.ttl_ms
                == Some(ttl as u64)
            &&& generator.cache_ttl_ms is None && auto_cache ==> policy.lookup.ttl_ms == Some(
                1000u64,
            )
            &&& generator.cache_ttl_ms is None && !auto_cache ==> policy.lookup.ttl_ms is None
        },
{
}

/// Kept results of different kinds never share a key, where no kind holds a colon.
pub proof fn law_kinds_are_kept_apart(
    a: Seq<char>,
    b: Seq<char>,
    policy: PolicyView,
    other: PolicyView,
    cwd: Seq<char>,
    tokens: Seq<Seq<char>>,
)
    requires
        !a.contains(':'),
        !b.contains(':'),
        a != b,
    ensures
        kept_key(a, policy, cwd, tokens) != kept_key(b, other, cwd, tokens),
{
    reveal_strlit(":");
    let x = kept_key(a, policy, cwd, tokens);
    let y = kept_key(b, other, cwd, tokens);
    if x == y {
        assert(x[a.len() as int] == ':');
        assert(y[b.len() as int] == ':');
        if a.len() < b.len() {
            assert(y[a.len() as int] == b[a.len() as int]);
            assert(b.contains(b[a.len() as int]));
        } else if b.len() < a.len() {
            assert(x[b.len() as int] == a[b.len() as int]);
            assert(a.contains(a[b.len() as int]));
        } else {
            assert(a =~= x.take(a.len() as int));
            assert(b =~= y.take(a.len() as int));
        }
    }
}

/// What a hook computes goes over the given spec: the given names and arguments
/// stay, a computed description replaces the given one, and computed subcommands
/// are taken where none are given.
pub proof fn law_computed_specs_are_merged(merged: Spec, wrapper: Spec, computed: Spec)
    requires
        is_merged(merged, wrapper, computed),
    ensures
        wrapper.names@.len() > 0 ==> texts(merged.names@) == texts(wrapper.names@),
        wrapper.names@.len() == 0 ==> texts(merged.names@) == texts(computed.names@),
        computed.description@.len() > 0 ==> merged.description@ == computed.description@,
        computed.description@.len() == 0 ==> merged.description@ == wrapper.description@,
        wrapper.args@.len() > 0 ==> merged.args@ == wrapper.args@,
        wrapper.subcommands@.len() == 0 ==> merged.subcommands@ == computed.subcommands@,
        wrapper.subcommands@.len() <= merged.subcommands@.len(),
        wrapper.options@.len() <= merged.options@.len(),
        wrapper.subcommands@.len() > 0 && computed.subcommands@.len() > 0
            ==> merged.subcommands@.contains(computed.subcommands@.last()),
        wrapper.options@.len() > 0 && computed.options@.len() > 0 ==> merged.options@.contains(
            computed.options@.last(),
        ),
{
    law_merging_only_replaces_or_adds(wrapper.subcommands@, computed.subcommands@);
    law_computed_options_are_merged_in(wrapper.options@, computed.options@, 0);
    if computed.subcommands@.len() > 0 {
        law_computed_commands_are_merged_in(wrapper.subcommands@, computed.subcommands@);
    }
}

/// A hook whose program is settled is read, another is run on, and one that could
/// not start is given up.
pub proof fn law_hooks_after_their_start(state: Option<Seq<char>>)
    ensures
        state is None <==> after_start(state) == AfterJob::GiveUp,
        state matches Some(text) ==> (text == SETTLED@ <==> after_start(state) == AfterJob::Read),
{
}

/// The program of a hook begins with what every program begins with and the hook's
/// function; a list is written with its items in order.
pub proof fn law_programs_hold_their_hook(
    source: Seq<char>,
    arguments: Seq<Seq<char>>,
    list: Seq<Seq<char>>,
    item: Seq<char>,
)
    ensures
        begins_with(hook_program(source, arguments), PROGRAM_HEAD@ + hook_body(source)),
        list_literal(seq![item]) == "["@ + text_literal(item) + "]"@,
        list.len() > 0 ==> list_literal(list.push(item)) == list_literal(list).drop_last() + ", "@
            + text_literal(item) + "]"@,
{
    reveal_strlit("[");
    reveal_strlit("]");
    let front = PROGRAM_HEAD@ + hook_body(source);
    let rest = PROGRAM_CALL@ + joined(arguments, ", "@) + PROGRAM_TAIL@;
    assert(hook_program(source, arguments) =~= front + rest);
    law_prefixes(hook_program(source, arguments), front, rest);
    let one = text_literals(seq![item]);
    assert(one =~= seq![text_literal(item)]);
    law_joining_appends(one, text_literal(item), ", "@);
    assert(joined(one, ", "@) == text_literal(item));
    let all = text_literals(list);
    assert(text_literals(list.push(item)) =~= all.push(text_literal(item)));
    law_joining_appends(all, text_literal(item), ", "@);
    if list.len() > 0 {
        assert(list_literal(list).drop_last() =~= "["@ + joined(all, ", "@));
        assert(list_literal(list.push(item)) =~= list_literal(list).drop_last() + ", "@
            + text_literal(item) + "]"@);
    }
}

} // verus!
