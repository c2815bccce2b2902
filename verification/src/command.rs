//! The command table compiler: it parses the console's own help listing —
//! plain text, one command per line, name and description separated by the
//! first space — into an immutable table that maps each remote command name
//! to its description and forwarding behaviour. Builtin entries are seeded
//! at construction and never overwritten by a refresh; forwarded entries are
//! derived from the listing alone, so a refresh replaces them wholesale; and
//! the name that would terminate the console is removed unconditionally.

use crate::frame::NEWLINE;
use vstd::prelude::*;
use vstd::string::*;

verus! {

pub const SPACE: u8 = 32;

pub const DASH: u8 = 45;

pub const UNDERSCORE: u8 = 95;

pub const SLASH: u8 = 47;

pub const DOT: u8 = 46;

/// Whether a table entry is handled by the bridge itself or forwarded to
/// the console.
#[derive(Clone, Copy, PartialEq, Eq, Structural)]
pub enum CommandKind {
    Builtin,
    Forwarded,
}

/// One command the remote side may issue.
pub struct CommandEntry {
    pub name: Vec<u8>,
    pub description: Vec<u8>,
    pub kind: CommandKind,
}

/// The mathematical view of a table entry.
#[verifier::ext_equal]
pub struct EntryModel {
    pub name: Seq<u8>,
    pub description: Seq<u8>,
    pub kind: CommandKind,
}

impl View for CommandEntry {
    type V = EntryModel;

    open spec fn view(&self) -> EntryModel {
        EntryModel { name: self.name@, description: self.description@, kind: self.kind }
    }
}

pub open spec fn entries_view(entries: Seq<CommandEntry>) -> Seq<EntryModel> {
    entries.map_values(|e: CommandEntry| e@)
}

/// ASCII whitespace, as the help parser trims it.
pub open spec fn is_ws(b: u8) -> bool {
    b == 32 || b == 9 || b == 10 || b == 11 || b == 12 || b == 13
}

/// Index of the first occurrence of `b` in `s`; the length of `s` if absent.
pub open spec fn first_occurrence(s: Seq<u8>, b: u8) -> nat
    decreases s.len(),
{
    if s.len() == 0 {
        0
    } else if s[0] == b {
        0
    } else {
        1 + first_occurrence(s.drop_first(), b)
    }
}

/// The help text split on newlines, exactly as the console framed it.
pub open spec fn split_lines(s: Seq<u8>) -> Seq<Seq<u8>>
    decreases s.len(),
{
    let i = first_occurrence(s, NEWLINE);
    if i >= s.len() {
        seq![s]
    } else {
        seq![s.take(i as int)] + split_lines(s.skip(i as int + 1))
    }
}

pub open spec fn trim_leading_ws(s: Seq<u8>) -> Seq<u8>
    decreases s.len(),
{
    if s.len() > 0 && is_ws(s[0]) {
        trim_leading_ws(s.drop_first())
    } else {
        s
    }
}

/// Every leading `- ` pair stripped from a description.
pub open spec fn trim_leading_dash_pairs(s: Seq<u8>) -> Seq<u8>
    decreases s.len(),
{
    if s.len() >= 2 && s[0] == DASH && s[1] == SPACE {
        trim_leading_dash_pairs(s.skip(2))
    } else {
        s
    }
}

/// Every trailing period stripped from a description.
pub open spec fn trim_trailing_dots(s: Seq<u8>) -> Seq<u8>
    decreases s.len(),
{
    if s.len() > 0 && s.last() == DOT {
        trim_trailing_dots(s.drop_last())
    } else {
        s
    }
}

pub open spec fn trim_description(d: Seq<u8>) -> Seq<u8> {
    trim_trailing_dots(trim_leading_dash_pairs(d))
}

/// A console command name as the remote side sees it: a slash prefix, and
/// every hyphen turned into an underscore.
pub open spec fn normalize_name(n: Seq<u8>) -> Seq<u8> {
    seq![SLASH] + n.map_values(|b: u8| if b == DASH { UNDERSCORE } else { b })
}

/// The console-native name behind a normalized one: the slash dropped, every
/// underscore turned back into a hyphen.
pub open spec fn denormalize_name(n: Seq<u8>) -> Seq<u8> {
    n.skip(1).map_values(|b: u8| if b == UNDERSCORE { DASH } else { b })
}

/// What one help line contributes: a forwarded entry, or nothing when the
/// line holds no space separator.
pub open spec fn parsed_line(line: Seq<u8>) -> Option<EntryModel> {
    let t = trim_leading_ws(line);
    let i = first_occurrence(t, SPACE);
    if i >= t.len() {
        None
    } else {
        Some(
            EntryModel {
                name: normalize_name(t.take(i as int)),
                description: trim_description(t.skip(i as int + 1)),
                kind: CommandKind::Forwarded,
            },
        )
    }
}

pub open spec fn contains_name(entries: Seq<EntryModel>, name: Seq<u8>) -> bool {
    exists|i: int| 0 <= i < entries.len() && entries[i].name == name
}

/// No two entries share a name.
pub open spec fn unique_names(entries: Seq<EntryModel>) -> bool {
    forall|i: int, j: int|
        0 <= i < j < entries.len() ==> entries[i].name != entries[j].name
}

/// One help line folded into the table: the first occurrence of a name wins,
/// an existing entry — the builtins among them — is never overwritten.
pub open spec fn insert_line(entries: Seq<EntryModel>, line: Seq<u8>) -> Seq<EntryModel> {
    match parsed_line(line) {
        Some(e) => if contains_name(entries, e.name) {
            entries
        } else {
            entries.push(e)
        },
        None => entries,
    }
}

pub open spec fn compile_lines(entries: Seq<EntryModel>, lines: Seq<Seq<u8>>) -> Seq<EntryModel>
    decreases lines.len(),
{
    if lines.len() == 0 {
        entries
    } else {
        compile_lines(insert_line(entries, lines[0]), lines.drop_first())
    }
}

/// All entries named `name` removed, order otherwise kept.
pub open spec fn remove_name(entries: Seq<EntryModel>, name: Seq<u8>) -> Seq<EntryModel>
    decreases entries.len(),
{
    if entries.len() == 0 {
        Seq::empty()
    } else if entries[0].name == name {
        remove_name(entries.drop_first(), name)
    } else {
        seq![entries[0]] + remove_name(entries.drop_first(), name)
    }
}

/// The denied name: the command that would terminate the console process.
pub open spec fn exit_name() -> Seq<u8> {
    seq![47u8, 101u8, 120u8, 105u8, 116u8]
}

pub open spec fn start_name() -> Seq<u8> {
    seq![47u8, 115u8, 116u8, 97u8, 114u8, 116u8]
}

pub open spec fn about_name() -> Seq<u8> {
    seq![47u8, 97u8, 98u8, 111u8, 117u8, 116u8]
}

pub open spec fn help_name() -> Seq<u8> {
    seq![47u8, 104u8, 101u8, 108u8, 112u8]
}

pub open spec fn output_name() -> Seq<u8> {
    seq![47u8, 111u8, 117u8, 116u8, 112u8, 117u8, 116u8]
}

pub open spec fn stop_output_name() -> Seq<u8> {
    seq![47u8, 115u8, 116u8, 111u8, 112u8, 95u8, 111u8, 117u8, 116u8, 112u8, 117u8, 116u8]
}

pub open spec fn uploadmap_name() -> Seq<u8> {
    seq![47u8, 117u8, 112u8, 108u8, 111u8, 97u8, 100u8, 109u8, 97u8, 112u8]
}

/// The entries seeded at construction, before any help line is read.
pub open spec fn builtin_entries() -> Seq<EntryModel> {
    seq![
        EntryModel { name: start_name(), description: Seq::empty(), kind: CommandKind::Builtin },
        EntryModel {
            name: about_name(),
            description: "About this bot".spec_bytes(),
            kind: CommandKind::Builtin,
        },
        EntryModel {
            name: help_name(),
            description: "Print the help menu".spec_bytes(),
            kind: CommandKind::Builtin,
        },
        EntryModel {
            name: output_name(),
            description: "Send the output to this chat".spec_bytes(),
            kind: CommandKind::Builtin,
        },
        EntryModel {
            name: stop_output_name(),
            description: "Stop sending the output to this chat".spec_bytes(),
            kind: CommandKind::Builtin,
        },
        EntryModel {
            name: uploadmap_name(),
            description: "Upload a map to config/maps/".spec_bytes(),
            kind: CommandKind::Builtin,
        },
    ]
}

/// The table a help listing compiles to: the builtin seed, the listing's
/// forwarded entries folded in, and the denied name removed.
pub open spec fn table_spec(text: Seq<u8>) -> Seq<EntryModel> {
    remove_name(compile_lines(builtin_entries(), split_lines(text)), exit_name())
}

/// Removing a name keeps exactly the other entries, their order, and the
/// uniqueness of names.
pub proof fn lemma_remove_name_props(entries: Seq<EntryModel>, name: Seq<u8>)
    ensures
        !contains_name(remove_name(entries, name), name),
        forall|e: EntryModel|
            #[trigger] remove_name(entries, name).contains(e) <==> entries.contains(e) && e.name
                != name,
        unique_names(entries) ==> unique_names(remove_name(entries, name)),
    decreases entries.len(),
{
    let r = remove_name(entries, name);
    if entries.len() == 0 {
        assert(forall|e: EntryModel| !r.contains(e));
        assert(!contains_name(r, name));
    } else {
        let rest = entries.drop_first();
        lemma_remove_name_props(rest, name);
        let rr = remove_name(rest, name);
        assert(forall|e: EntryModel|
            #[trigger] entries.contains(e) <==> e == entries[0] || rest.contains(e)) by {
            assert forall|e: EntryModel| entries.contains(e) implies e == entries[0]
                || rest.contains(e) by {
                let i = choose|i: int| 0 <= i < entries.len() && entries[i] == e;
                if i > 0 {
                    assert(rest[i - 1] == e);
                }
            }
            assert forall|e: EntryModel| e == entries[0] || rest.contains(e) implies
                entries.contains(e) by {
                if e == entries[0] {
                    assert(entries[0] == e);
                } else {
                    let i = choose|i: int| 0 <= i < rest.len() && rest[i] == e;
                    assert(entries[i + 1] == e);
                }
            }
        }
        if entries[0].name == name {
            assert(r == rr);
        } else {
            assert(r == seq![entries[0]] + rr);
            assert forall|e: EntryModel| #[trigger] r.contains(e) implies e == entries[0]
                || rr.contains(e) by {
                let i = choose|i: int| 0 <= i < r.len() && r[i] == e;
                if i > 0 {
                    assert(rr[i - 1] == e);
                }
            }
            assert forall|e: EntryModel| e == entries[0] || rr.contains(e) implies #[trigger] r
                .contains(e) by {
                if e == entries[0] {
                    assert(r[0] == e);
                } else {
                    let i = choose|i: int| 0 <= i < rr.len() && rr[i] == e;
                    assert(r[i + 1] == e);
                }
            }
            assert(!contains_name(r, name)) by {
                if contains_name(r, name) {
                    let i = choose|i: int| 0 <= i < r.len() && r[i].name == name;
                    assert(r.contains(r[i]));
                }
            }
            if unique_names(entries) {
                assert(unique_names(rest));
                assert(unique_names(r)) by {
                    assert forall|i: int, j: int| 0 <= i < j < r.len() implies r[i].name
                        != r[j].name by {
                        if i == 0 {
                            assert(rr.contains(rr[j - 1]));
                            assert(rest.contains(rr[j - 1]));
                            let k = choose|k: int| 0 <= k < rest.len() && rest[k] == rr[j - 1];
                            assert(entries[k + 1] == rr[j - 1]);
                        } else {
                            assert(rr[i - 1].name != rr[j - 1].name);
                        }
                    }
                }
            }
        }
    }
}

/// Compiling help lines only appends: the seed stays as the table's prefix,
/// untouched, and everything appended is a forwarded entry parsed from one
/// of the lines.
pub proof fn lemma_compile_extends(entries: Seq<EntryModel>, lines: Seq<Seq<u8>>)
    ensures
        entries.len() <= compile_lines(entries, lines).len(),
        compile_lines(entries, lines).take(entries.len() as int) == entries,
        forall|k: int|
            entries.len() <= k < compile_lines(entries, lines).len()
                ==> (#[trigger] compile_lines(entries, lines)[k]).kind == CommandKind::Forwarded
                && exists|i: int|
                0 <= i < lines.len() && parsed_line(lines[i]) == Some(
                    compile_lines(entries, lines)[k],
                ),
    decreases lines.len(),
{
    let c = compile_lines(entries, lines);
    if lines.len() == 0 {
        assert(c.take(entries.len() as int) =~= entries);
    } else {
        let e2 = insert_line(entries, lines[0]);
        lemma_compile_extends(e2, lines.drop_first());
        assert(c == compile_lines(e2, lines.drop_first()));
        assert(c.take(e2.len() as int) == e2);
        assert(c.take(entries.len() as int) =~= entries) by {
            assert forall|k: int| 0 <= k < entries.len() implies c[k] == entries[k] by {
                assert(c.take(e2.len() as int)[k] == e2[k]);
                assert(e2[k] == entries[k]);
            }
        }
        assert forall|k: int| entries.len() <= k < c.len() implies (#[trigger] c[k]).kind
            == CommandKind::Forwarded && exists|i: int|
            0 <= i < lines.len() && parsed_line(lines[i]) == Some(c[k]) by {
            if k < e2.len() {
                assert(c.take(e2.len() as int)[k] == e2[k]);
                assert(c[k] == e2[k]);
                assert(e2 == entries.push(e2[k]));
                assert(parsed_line(lines[0]) == Some(c[k]));
            } else {
                let i = choose|i: int|
                    0 <= i < lines.drop_first().len() && parsed_line(lines.drop_first()[i])
                        == Some(c[k]);
                assert(lines.drop_first()[i] == lines[i + 1]);
            }
        }
    }
}

/// Compiling keeps names unique: a line whose name is already present never
/// replaces the entry that holds it.
pub proof fn lemma_compile_unique(entries: Seq<EntryModel>, lines: Seq<Seq<u8>>)
    requires
        unique_names(entries),
    ensures
        unique_names(compile_lines(entries, lines)),
    decreases lines.len(),
{
    if lines.len() > 0 {
        let e2 = insert_line(entries, lines[0]);
        assert(unique_names(e2)) by {
            match parsed_line(lines[0]) {
                Some(e) => {
                    if !contains_name(entries, e.name) {
                        assert forall|i: int, j: int| 0 <= i < j < e2.len() implies e2[i].name
                            != e2[j].name by {
                            if j == entries.len() as int {
                                assert(!(exists|k: int|
                                    0 <= k < entries.len() && entries[k].name == e.name));
                                assert(e2[i] == entries[i]);
                            }
                        }
                    }
                },
                None => (),
            }
        }
        lemma_compile_unique(e2, lines.drop_first());
    }
}

/// The builtin seed's names are pairwise distinct, and none is the denied
/// name.
pub proof fn lemma_builtins_sound()
    ensures
        unique_names(builtin_entries()),
        forall|k: int|
            0 <= k < builtin_entries().len() ==> (#[trigger] builtin_entries()[k]).name
                != exit_name(),
{
}

/// A refresh is wholesale: whatever listing arrives, the compiled table
/// holds the untouched builtin seed, plus forwarded entries read from that
/// listing alone — never an entry of any earlier table — with unique names
/// and without the denied name. A reader that swaps whole tables therefore
/// sees either the complete old compilation or the complete new one.
pub proof fn lemma_refresh_wholesale(text: Seq<u8>)
    ensures
        forall|e: EntryModel|
            #[trigger] table_spec(text).contains(e) ==> builtin_entries().contains(e) || (e.kind
                == CommandKind::Forwarded && exists|i: int|
                0 <= i < split_lines(text).len() && parsed_line(split_lines(text)[i]) == Some(e)),
        forall|e: EntryModel|
            builtin_entries().contains(e) && e.name != exit_name() ==> #[trigger] table_spec(
                text,
            ).contains(e),
        unique_names(table_spec(text)),
        !contains_name(table_spec(text), exit_name()),
{
    let b = builtin_entries();
    let c = compile_lines(b, split_lines(text));
    lemma_builtins_sound();
    lemma_compile_extends(b, split_lines(text));
    lemma_compile_unique(b, split_lines(text));
    lemma_remove_name_props(c, exit_name());
    assert forall|e: EntryModel| #[trigger] table_spec(text).contains(e) implies b.contains(e) || (
    e.kind == CommandKind::Forwarded && exists|i: int|
        0 <= i < split_lines(text).len() && parsed_line(split_lines(text)[i]) == Some(e)) by {
        assert(c.contains(e));
        let k = choose|k: int| 0 <= k < c.len() && c[k] == e;
        if k < b.len() {
            assert(c.take(b.len() as int)[k] == c[k]);
            assert(b[k] == e);
        }
    }
    assert forall|e: EntryModel| b.contains(e) && e.name != exit_name() implies #[trigger]
    table_spec(text).contains(e) by {
        let k = choose|k: int| 0 <= k < b.len() && b[k] == e;
        assert(c.take(b.len() as int)[k] == b[k]);
        assert(c[k] == e);
        assert(c.contains(e));
    }
}

/// Removing a name distributes over concatenation.
pub proof fn lemma_remove_name_append(a: Seq<EntryModel>, b: Seq<EntryModel>, name: Seq<u8>)
    ensures
        remove_name(a + b, name) == remove_name(a, name) + remove_name(b, name),
    decreases a.len(),
{
    if a.len() == 0 {
        assert(a + b =~= b);
        assert(remove_name(a, name) + remove_name(b, name) =~= remove_name(b, name));
    } else {
        assert((a + b)[0] == a[0]);
        assert((a + b).drop_first() =~= a.drop_first() + b);
        lemma_remove_name_append(a.drop_first(), b, name);
        assert(remove_name(a + b, name) =~= remove_name(a, name) + remove_name(b, name));
    }
}

/// The first entry of the table that carries `name`, if any.
pub open spec fn find_entry(entries: Seq<EntryModel>, name: Seq<u8>) -> Option<EntryModel>
    decreases entries.len(),
{
    if entries.len() == 0 {
        None
    } else if entries[0].name == name {
        Some(entries[0])
    } else {
        find_entry(entries.drop_first(), name)
    }
}

/// Index of the first occurrence of `b` in `s`, or the length of `s`.
pub fn find_byte(s: &[u8], b: u8) -> (i: usize)
    ensures
        i as nat == first_occurrence(s@, b),
{
    proof {
        assert(s@.skip(0) =~= s@);
    }
    let mut i: usize = 0;
    while i < s.len()
        invariant
            i <= s.len(),
            first_occurrence(s@, b) == i + first_occurrence(s@.skip(i as int), b),
        decreases s.len() - i,
    {
        if s[i] == b {
            proof {
                assert(s@.skip(i as int)[0] == b);
            }
            return i;
        }
        proof {
            assert(s@.skip(i as int)[0] == s@[i as int]);
            assert(s@.skip(i as int).drop_first() =~= s@.skip(i as int + 1));
        }
        i += 1;
    }
    proof {
        assert(s@.skip(i as int) =~= Seq::<u8>::empty());
    }
    i
}

/// Splits a frame's text on newlines, exactly as `split_lines` says.
pub fn split_into_lines(text: &[u8]) -> (lines: Vec<Vec<u8>>)
    ensures
        crate::frame::lines_view(lines@) == split_lines(text@),
{
    let mut lines: Vec<Vec<u8>> = Vec::new();
    let mut rest: &[u8] = text;
    proof {
        assert(crate::frame::lines_view(lines@) + split_lines(rest@) =~= split_lines(text@));
    }
    loop
        invariant
            split_lines(text@) == crate::frame::lines_view(lines@) + split_lines(rest@),
        decreases rest@.len(),
    {
        let i = find_byte(rest, NEWLINE);
        let ghost before = lines@;
        if i >= rest.len() {
            lines.push(vstd::slice::slice_to_vec(rest));
            proof {
                assert(crate::frame::lines_view(lines@) =~= crate::frame::lines_view(before).push(
                    rest@,
                ));
                assert(crate::frame::lines_view(lines@) =~= split_lines(text@));
            }
            return lines;
        }
        let seg = vstd::slice::slice_subrange(rest, 0, i);
        lines.push(vstd::slice::slice_to_vec(seg));
        let new_rest = vstd::slice::slice_subrange(rest, i + 1, rest.len());
        proof {
            assert(seg@ =~= rest@.take(i as int));
            assert(new_rest@ =~= rest@.skip(i as int + 1));
            assert(crate::frame::lines_view(lines@) =~= crate::frame::lines_view(before).push(
                rest@.take(i as int),
            ));
            assert(crate::frame::lines_view(lines@) + split_lines(new_rest@) =~= split_lines(
                text@,
            ));
        }
        rest = new_rest;
    }
}

fn byte_is_ws(b: u8) -> (r: bool)
    ensures
        r == is_ws(b),
{
    b == 32 || b == 9 || b == 10 || b == 11 || b == 12 || b == 13
}

/// The remote name for a console command: slash-prefixed, hyphens turned
/// into underscores.
pub fn normalize_exec(name: &[u8]) -> (out: Vec<u8>)
    ensures
        out@ == normalize_name(name@),
{
    let mut out: Vec<u8> = Vec::new();
    out.push(SLASH);
    let mut i: usize = 0;
    while i < name.len()
        invariant
            i <= name.len(),
            out@.len() == 1 + i,
            out@[0] == SLASH,
            forall|j: int|
                0 <= j < i ==> out@[j + 1] == (if name@[j] == DASH {
                    UNDERSCORE
                } else {
                    name@[j]
                }),
        decreases name.len() - i,
    {
        let b = name[i];
        if b == DASH {
            out.push(UNDERSCORE);
        } else {
            out.push(b);
        }
        i += 1;
    }
    proof {
        assert(out@ =~= normalize_name(name@));
    }
    out
}

/// A description with its leading `- ` pairs and trailing periods stripped.
pub fn trim_description_exec(d: &[u8]) -> (out: Vec<u8>)
    ensures
        out@ == trim_description(d@),
{
    proof {
        assert(d@.skip(0) =~= d@);
    }
    let mut start: usize = 0;
    while start < d.len() && start + 1 < d.len() && d[start] == DASH && d[start + 1] == SPACE
        invariant
            start <= d.len(),
            trim_leading_dash_pairs(d@) == trim_leading_dash_pairs(d@.skip(start as int)),
        decreases d.len() - start,
    {
        proof {
            assert(d@.skip(start as int)[0] == d@[start as int]);
            assert(d@.skip(start as int)[1] == d@[start as int + 1]);
            assert(d@.skip(start as int).skip(2) =~= d@.skip(start as int + 2));
        }
        start += 2;
    }
    let t = vstd::slice::slice_subrange(d, start, d.len());
    proof {
        assert(t@ =~= d@.skip(start as int));
        assert(t@.take(t@.len() as int) =~= t@);
    }
    let mut end: usize = t.len();
    while end > 0 && t[end - 1] == DOT
        invariant
            end <= t@.len(),
            trim_trailing_dots(t@) == trim_trailing_dots(t@.take(end as int)),
        decreases end,
    {
        proof {
            assert(t@.take(end as int).last() == t@[end - 1]);
            assert(t@.take(end as int).drop_last() =~= t@.take(end as int - 1));
        }
        end -= 1;
    }
    let out = vstd::slice::slice_to_vec(vstd::slice::slice_subrange(t, 0, end));
    proof {
        assert(t@.take(end as int) =~= t@.subrange(0, end as int));
        assert(out@ == trim_description(d@));
    }
    out
}

/// Parses one help line into a forwarded entry, or nothing when the line
/// holds no space separator.
pub fn parse_help_line(line: &[u8]) -> (r: Option<CommandEntry>)
    ensures
        match r {
            Some(e) => parsed_line(line@) == Some(e@),
            None => parsed_line(line@) is None,
        },
{
    proof {
        assert(line@.skip(0) =~= line@);
    }
    let mut k: usize = 0;
    while k < line.len() && byte_is_ws(line[k])
        invariant
            k <= line.len(),
            trim_leading_ws(line@) == trim_leading_ws(line@.skip(k as int)),
        decreases line.len() - k,
    {
        proof {
            assert(line@.skip(k as int)[0] == line@[k as int]);
            assert(line@.skip(k as int).drop_first() =~= line@.skip(k as int + 1));
        }
        k += 1;
    }
    let t = vstd::slice::slice_subrange(line, k, line.len());
    proof {
        assert(t@ =~= line@.skip(k as int));
        assert(t@ == trim_leading_ws(line@));
    }
    let i = find_byte(t, SPACE);
    if i >= t.len() {
        return None;
    }
    let raw_name = vstd::slice::slice_subrange(t, 0, i);
    let raw_desc = vstd::slice::slice_subrange(t, i + 1, t.len());
    let name = normalize_exec(raw_name);
    let description = trim_description_exec(raw_desc);
    let entry = CommandEntry { name, description, kind: CommandKind::Forwarded };
    proof {
        assert(raw_name@ =~= t@.take(i as int));
        assert(raw_desc@ =~= t@.skip(i as int + 1));
        assert(entry@ =~= parsed_line(line@)->Some_0);
    }
    Some(entry)
}

/// The bytes of `/start`, as a fresh buffer.
pub fn start_name_vec() -> (v: Vec<u8>)
    ensures
        v@ == start_name(),
{
    let v = ("/start").as_bytes_vec();
    proof {
        reveal_strlit("/start");
        assert(is_ascii("/start"));
        is_ascii_spec_bytes("/start");
        assert(v@ =~= start_name());
    }
    v
}

/// The bytes of `/about`, as a fresh buffer.
pub fn about_name_vec() -> (v: Vec<u8>)
    ensures
        v@ == about_name(),
{
    let v = ("/about").as_bytes_vec();
    proof {
        reveal_strlit("/about");
        assert(is_ascii("/about"));
        is_ascii_spec_bytes("/about");
        assert(v@ =~= about_name());
    }
    v
}

/// The bytes of `/help`, as a fresh buffer.
pub fn help_name_vec() -> (v: Vec<u8>)
    ensures
        v@ == help_name(),
{
    let v = ("/help").as_bytes_vec();
    proof {
        reveal_strlit("/help");
        assert(is_ascii("/help"));
        is_ascii_spec_bytes("/help");
        assert(v@ =~= help_name());
    }
    v
}

/// The bytes of `/output`, as a fresh buffer.
pub fn output_name_vec() -> (v: Vec<u8>)
    ensures
        v@ == output_name(),
{
    let v = ("/output").as_bytes_vec();
    proof {
        reveal_strlit("/output");
        assert(is_ascii("/output"));
        is_ascii_spec_bytes("/output");
        assert(v@ =~= output_name());
    }
    v
}

/// The bytes of `/stop_output`, as a fresh buffer.
pub fn stop_output_name_vec() -> (v: Vec<u8>)
    ensures
        v@ == stop_output_name(),
{
    let v = ("/stop_output").as_bytes_vec();
    proof {
        reveal_strlit("/stop_output");
        assert(is_ascii("/stop_output"));
        is_ascii_spec_bytes("/stop_output");
        assert(v@ =~= stop_output_name());
    }
    v
}

/// The bytes of `/uploadmap`, as a fresh buffer.
pub fn uploadmap_name_vec() -> (v: Vec<u8>)
    ensures
        v@ == uploadmap_name(),
{
    let v = ("/uploadmap").as_bytes_vec();
    proof {
        reveal_strlit("/uploadmap");
        assert(is_ascii("/uploadmap"));
        is_ascii_spec_bytes("/uploadmap");
        assert(v@ =~= uploadmap_name());
    }
    v
}

/// The bytes of the denied name `/exit`, as a fresh buffer.
pub fn exit_name_vec() -> (v: Vec<u8>)
    ensures
        v@ == exit_name(),
{
    let v = ("/exit").as_bytes_vec();
    proof {
        reveal_strlit("/exit");
        assert(is_ascii("/exit"));
        is_ascii_spec_bytes("/exit");
        assert(v@ =~= exit_name());
    }
    v
}

/// The builtin seed as an executable row of entries.
fn builtin_table() -> (v: Vec<CommandEntry>)
    ensures
        entries_view(v@) == builtin_entries(),
{
    let mut v: Vec<CommandEntry> = Vec::new();
    v.push(
        CommandEntry {
            name: start_name_vec(),
            description: Vec::new(),
            kind: CommandKind::Builtin,
        },
    );
    v.push(
        CommandEntry {
            name: about_name_vec(),
            description: ("About this bot").as_bytes_vec(),
            kind: CommandKind::Builtin,
        },
    );
    v.push(
        CommandEntry {
            name: help_name_vec(),
            description: ("Print the help menu").as_bytes_vec(),
            kind: CommandKind::Builtin,
        },
    );
    v.push(
        CommandEntry {
            name: output_name_vec(),
            description: ("Send the output to this chat").as_bytes_vec(),
            kind: CommandKind::Builtin,
        },
    );
    v.push(
        CommandEntry {
            name: stop_output_name_vec(),
            description: ("Stop sending the output to this chat").as_bytes_vec(),
            kind: CommandKind::Builtin,
        },
    );
    v.push(
        CommandEntry {
            name: uploadmap_name_vec(),
            description: ("Upload a map to config/maps/").as_bytes_vec(),
            kind: CommandKind::Builtin,
        },
    );
    proof {
        assert(entries_view(v@) =~~= builtin_entries());
    }
    v
}

/// Whether the table already holds an entry of this name.
fn contains_entry(entries: &Vec<CommandEntry>, name: &[u8]) -> (r: bool)
    ensures
        r == contains_name(entries_view(entries@), name@),
{
    let mut i: usize = 0;
    while i < entries.len()
        invariant
            i <= entries.len(),
            forall|j: int| 0 <= j < i ==> entries_view(entries@)[j].name != name@,
        decreases entries.len() - i,
    {
        let e = &entries[i];
        if crate::decoder::bytes_eq(e.name.as_slice(), name) {
            proof {
                assert(entries_view(entries@)[i as int].name == name@);
            }
            return true;
        }
        i += 1;
    }
    false
}

/// An immutable compiled command table: many routing lookups read it
/// concurrently, so a refresh never patches it — it compiles a whole new
/// table, and the owner swaps the snapshots atomically.
pub struct CommandTable {
    entries: Vec<CommandEntry>,
}

impl View for CommandTable {
    type V = Seq<EntryModel>;

    closed spec fn view(&self) -> Seq<EntryModel> {
        entries_view(self.entries@)
    }
}

impl CommandTable {
    /// The entries, in table order.
    pub fn entries(&self) -> (r: &Vec<CommandEntry>)
        ensures
            entries_view(r@) == self@,
    {
        &self.entries
    }

    pub fn len(&self) -> (n: usize)
        ensures
            n == self@.len(),
    {
        self.entries.len()
    }

    /// The entry registered under `name`, if any.
    pub fn lookup(&self, name: &[u8]) -> (r: Option<&CommandEntry>)
        ensures
            match r {
                Some(e) => find_entry(self@, name@) == Some(e@),
                None => find_entry(self@, name@) is None,
            },
    {
        proof {
            assert(self@.skip(0) =~= self@);
        }
        let mut i: usize = 0;
        while i < self.entries.len()
            invariant
                i <= self.entries.len(),
                find_entry(self@, name@) == find_entry(self@.skip(i as int), name@),
        decreases self.entries.len() - i,
        {
            proof {
                assert(self@.skip(i as int)[0] == self@[i as int]);
                assert(self@.skip(i as int).drop_first() =~= self@.skip(i as int + 1));
            }
            let e = &self.entries[i];
            if crate::decoder::bytes_eq(e.name.as_slice(), name) {
                return Some(e);
            }
            i += 1;
        }
        proof {
            assert(self@.skip(i as int) =~= Seq::<EntryModel>::empty());
        }
        None
    }
}

/// The command table compiler.
pub struct GameCommandMap;

impl GameCommandMap {
    /// Compiles the console's help listing into the routable command table:
    /// the builtin seed first, then one forwarded entry per listed command,
    /// first occurrence winning, and the denied name removed whatever the
    /// listing said.
    pub fn init(help_output: &[u8]) -> (table: CommandTable)
        ensures
            table@ == table_spec(help_output@),
            unique_names(table@),
            !contains_name(table@, exit_name()),
    {
        let lines = split_into_lines(help_output);
        let ghost all_lines = crate::frame::lines_view(lines@);
        let mut entries = builtin_table();
        proof {
            assert(all_lines.skip(0) =~= all_lines);
        }
        let mut i: usize = 0;
        while i < lines.len()
            invariant
                i <= lines.len(),
                all_lines == crate::frame::lines_view(lines@),
                compile_lines(entries_view(entries@), all_lines.skip(i as int)) == compile_lines(
                    builtin_entries(),
                    all_lines,
                ),
            decreases lines.len() - i,
        {
            let ghost before = entries_view(entries@);
            proof {
                assert(all_lines.skip(i as int)[0] == lines@[i as int]@);
                assert(all_lines.skip(i as int).drop_first() =~= all_lines.skip(i as int + 1));
            }
            let line = &lines[i];
            match parse_help_line(line.as_slice()) {
                Some(e) => {
                    if !contains_entry(&entries, e.name.as_slice()) {
                        let ghost em = e@;
                        entries.push(e);
                        proof {
                            assert(entries_view(entries@) =~= before.push(em));
                        }
                    }
                },
                None => {},
            }
            proof {
                assert(entries_view(entries@) == insert_line(before, lines@[i as int]@));
            }
            i += 1;
        }
        proof {
            assert(all_lines.skip(lines.len() as int) =~= Seq::<Seq<u8>>::empty());
            assert(entries_view(entries@) == compile_lines(builtin_entries(), all_lines));
        }
        let ghost compiled = entries_view(entries@);
        let exit = exit_name_vec();
        let mut kept: Vec<CommandEntry> = Vec::new();
        proof {
            assert(compiled.take(entries@.len() as int) =~= compiled);
        }
        while entries.len() > 0
            invariant
                entries@.len() <= compiled.len(),
                entries_view(entries@) == compiled.take(entries@.len() as int),
                remove_name(compiled, exit_name()) == remove_name(
                    compiled.take(entries@.len() as int),
                    exit_name(),
                ) + entries_view(kept@),
                exit@ == exit_name(),
            decreases entries.len(),
        {
            let ghost n = entries@.len() as int;
            let ghost old_entries = entries@;
            let e = entries.pop().unwrap();
            proof {
                assert(e == old_entries[n - 1]);
                assert(e@ == entries_view(old_entries)[n - 1]);
                assert(e@ == compiled[n - 1]);
                assert(entries_view(entries@) =~= compiled.take(n - 1));
                assert(compiled.take(n) =~= compiled.take(n - 1) + seq![compiled[n - 1]]);
                lemma_remove_name_append(compiled.take(n - 1), seq![compiled[n - 1]], exit_name());
                assert(seq![e@].len() == 1);
                assert(seq![e@][0] == e@);
                assert(seq![e@].drop_first() =~= Seq::<EntryModel>::empty());
                assert(remove_name(Seq::<EntryModel>::empty(), exit_name())
                    == Seq::<EntryModel>::empty());
            }
            if crate::decoder::bytes_eq(e.name.as_slice(), exit.as_slice()) {
                proof {
                    assert(remove_name(seq![e@], exit_name()) =~= Seq::<EntryModel>::empty());
                    assert(remove_name(compiled.take(n - 1), exit_name()) + entries_view(kept@)
                        =~= remove_name(compiled, exit_name()));
                }
            } else {
                let ghost kept_before = entries_view(kept@);
                kept.insert(0, e);
                proof {
                    assert(remove_name(seq![compiled[n - 1]], exit_name()) =~= seq![
                        compiled[n - 1],
                    ]);
                    assert(entries_view(kept@) =~= seq![compiled[n - 1]] + kept_before);
                    assert(remove_name(compiled.take(n - 1), exit_name()) + entries_view(kept@)
                        =~= remove_name(compiled, exit_name()));
                }
            }
        }
        proof {
            assert(entries_view(entries@) =~= Seq::<EntryModel>::empty());
            assert(compiled.take(0) =~= Seq::<EntryModel>::empty());
            assert(remove_name(Seq::<EntryModel>::empty(), exit_name())
                =~= Seq::<EntryModel>::empty());
            assert(entries_view(kept@) == remove_name(compiled, exit_name()));
            lemma_builtins_sound();
            lemma_compile_unique(builtin_entries(), all_lines);
            lemma_remove_name_props(compiled, exit_name());
        }
        CommandTable { entries: kept }
    }
}

impl Clone for CommandEntry {
    /// A copy that stands for the same entry.
    fn clone(&self) -> (r: Self)
        ensures
            r@ == self@,
    {
        let r = CommandEntry {
            name: vstd::slice::slice_to_vec(self.name.as_slice()),
            description: vstd::slice::slice_to_vec(self.description.as_slice()),
            kind: self.kind,
        };
        proof {
            assert(r@ =~= self@);
        }
        r
    }
}

/// Byte-wise lexicographic order on names.
pub open spec fn lex_le(a: Seq<u8>, b: Seq<u8>) -> bool
    decreases a.len(),
{
    if a.len() == 0 {
        true
    } else if b.len() == 0 {
        false
    } else if a[0] < b[0] {
        true
    } else if a[0] > b[0] {
        false
    } else {
        lex_le(a.drop_first(), b.drop_first())
    }
}

/// Whether `a` sorts at or before `b` in byte order.
pub fn lex_le_exec(a: &[u8], b: &[u8]) -> (r: bool)
    ensures
        r == lex_le(a@, b@),
{
    proof {
        assert(a@.skip(0) =~= a@);
        assert(b@.skip(0) =~= b@);
    }
    let mut i: usize = 0;
    loop
        invariant
            i <= a@.len(),
            i <= b@.len(),
            lex_le(a@, b@) == lex_le(a@.skip(i as int), b@.skip(i as int)),
        decreases a@.len() - i,
    {
        if i >= a.len() {
            proof {
                assert(a@.skip(i as int) =~= Seq::<u8>::empty());
            }
            return true;
        }
        if i >= b.len() {
            proof {
                assert(b@.skip(i as int) =~= Seq::<u8>::empty());
                assert(a@.skip(i as int).len() > 0);
            }
            return false;
        }
        proof {
            assert(a@.skip(i as int)[0] == a@[i as int]);
            assert(b@.skip(i as int)[0] == b@[i as int]);
        }
        if a[i] < b[i] {
            return true;
        }
        if a[i] > b[i] {
            return false;
        }
        proof {
            assert(a@.skip(i as int).drop_first() =~= a@.skip(i as int + 1));
            assert(b@.skip(i as int).drop_first() =~= b@.skip(i as int + 1));
        }
        i += 1;
    }
}

/// Byte order is total: of two names, one sorts at or before the other.
pub proof fn lemma_lex_le_total(a: Seq<u8>, b: Seq<u8>)
    ensures
        lex_le(a, b) || lex_le(b, a),
    decreases a.len(),
{
    if a.len() > 0 && b.len() > 0 && a[0] == b[0] {
        lemma_lex_le_total(a.drop_first(), b.drop_first());
    }
}

/// Byte order is transitive.
pub proof fn lemma_lex_le_trans(a: Seq<u8>, b: Seq<u8>, c: Seq<u8>)
    requires
        lex_le(a, b),
        lex_le(b, c),
    ensures
        lex_le(a, c),
    decreases a.len(),
{
    if a.len() > 0 && b.len() > 0 && c.len() > 0 && a[0] == b[0] && b[0] == c[0] {
        lemma_lex_le_trans(a.drop_first(), b.drop_first(), c.drop_first());
    }
}

/// Entries sorted ascending by name.
pub open spec fn name_sorted(s: Seq<EntryModel>) -> bool {
    forall|i: int, j: int| 0 <= i < j < s.len() ==> lex_le(#[trigger] s[i].name, #[trigger] s[j].name)
}

/// `e` placed before the first entry whose name it sorts at or before.
pub open spec fn insert_by_name(s: Seq<EntryModel>, e: EntryModel) -> Seq<EntryModel>
    decreases s.len(),
{
    if s.len() == 0 {
        seq![e]
    } else if lex_le(e.name, s[0].name) {
        seq![e] + s
    } else {
        seq![s[0]] + insert_by_name(s.drop_first(), e)
    }
}

/// The entries in ascending name order: an insertion sort, entry by entry.
pub open spec fn sort_by_name(s: Seq<EntryModel>) -> Seq<EntryModel>
    decreases s.len(),
{
    if s.len() == 0 {
        Seq::empty()
    } else {
        insert_by_name(sort_by_name(s.drop_last()), s.last())
    }
}

/// A lower bound on every name survives an insertion that respects it.
pub proof fn lemma_insert_lower_bound(s: Seq<EntryModel>, e: EntryModel, x: Seq<u8>)
    requires
        lex_le(x, e.name),
        forall|j: int| 0 <= j < s.len() ==> lex_le(x, (#[trigger] s[j]).name),
    ensures
        forall|k: int|
            0 <= k < insert_by_name(s, e).len() ==> lex_le(
                x,
                (#[trigger] insert_by_name(s, e)[k]).name,
            ),
    decreases s.len(),
{
    let r = insert_by_name(s, e);
    if s.len() == 0 {
        assert(r[0] == e);
    } else if lex_le(e.name, s[0].name) {
        assert forall|k: int| 0 <= k < r.len() implies lex_le(x, r[k].name) by {
            if k == 0 {
                assert(r[0] == e);
            } else {
                assert(r[k] == s[k - 1]);
            }
        }
    } else {
        assert(forall|j: int|
            0 <= j < s.drop_first().len() ==> lex_le(x, (#[trigger] s.drop_first()[j]).name));
        lemma_insert_lower_bound(s.drop_first(), e, x);
        assert forall|k: int| 0 <= k < r.len() implies lex_le(x, r[k].name) by {
            if k == 0 {
                assert(r[0] == s[0]);
            } else {
                assert(r[k] == insert_by_name(s.drop_first(), e)[k - 1]);
            }
        }
    }
}

/// Inserting into a sorted row keeps it sorted.
pub proof fn lemma_insert_keeps_sorted(s: Seq<EntryModel>, e: EntryModel)
    requires
        name_sorted(s),
    ensures
        name_sorted(insert_by_name(s, e)),
    decreases s.len(),
{
    let r = insert_by_name(s, e);
    if s.len() == 0 {
    } else if lex_le(e.name, s[0].name) {
        assert forall|i: int, j: int| 0 <= i < j < r.len() implies lex_le(
            r[i].name,
            r[j].name,
        ) by {
            if i == 0 {
                assert(r[0] == e);
                assert(r[j] == s[j - 1]);
                if j > 1 {
                    lemma_lex_le_trans(e.name, s[0].name, s[j - 1].name);
                }
            } else {
                assert(r[i] == s[i - 1]);
                assert(r[j] == s[j - 1]);
            }
        }
    } else {
        lemma_lex_le_total(e.name, s[0].name);
        assert(name_sorted(s.drop_first()));
        lemma_insert_keeps_sorted(s.drop_first(), e);
        let rr = insert_by_name(s.drop_first(), e);
        assert(forall|j: int|
            0 <= j < s.drop_first().len() ==> lex_le(
                s[0].name,
                (#[trigger] s.drop_first()[j]).name,
            ));
        lemma_insert_lower_bound(s.drop_first(), e, s[0].name);
        assert forall|i: int, j: int| 0 <= i < j < r.len() implies lex_le(
            r[i].name,
            r[j].name,
        ) by {
            if i == 0 {
                assert(r[0] == s[0]);
                assert(r[j] == rr[j - 1]);
            } else {
                assert(r[i] == rr[i - 1]);
                assert(r[j] == rr[j - 1]);
            }
        }
    }
}

/// The insertion sort sorts.
pub proof fn lemma_sort_by_name_sorted(s: Seq<EntryModel>)
    ensures
        name_sorted(sort_by_name(s)),
    decreases s.len(),
{
    if s.len() > 0 {
        lemma_sort_by_name_sorted(s.drop_last());
        lemma_insert_keeps_sorted(sort_by_name(s.drop_last()), s.last());
    }
}

/// Places one entry into an already built row exactly as `insert_by_name`
/// says.
fn insert_entry_sorted(sorted: &mut Vec<CommandEntry>, e: CommandEntry)
    ensures
        entries_view(final(sorted)@) == insert_by_name(entries_view(old(sorted)@), e@),
{
    let ghost s = entries_view(sorted@);
    proof {
        assert(s.skip(0) =~= s);
        assert(s.take(0) =~= Seq::<EntryModel>::empty());
    }
    let mut k: usize = 0;
    while k < sorted.len() && !lex_le_exec(e.name.as_slice(), sorted[k].name.as_slice())
        invariant
            k <= sorted@.len(),
            s == entries_view(sorted@),
            insert_by_name(s, e@) == s.take(k as int) + insert_by_name(s.skip(k as int), e@),
        decreases sorted@.len() - k,
    {
        proof {
            assert(s.skip(k as int)[0] == s[k as int]);
            assert(s.skip(k as int).drop_first() =~= s.skip(k as int + 1));
            assert(s.take(k as int) + seq![s[k as int]] =~= s.take(k + 1));
            assert(s.take(k as int) + (seq![s[k as int]] + insert_by_name(s.skip(k + 1), e@))
                =~= s.take(k + 1) + insert_by_name(s.skip(k + 1), e@));
        }
        k += 1;
    }
    proof {
        if k < sorted@.len() {
            assert(s.skip(k as int)[0] == s[k as int]);
            assert(insert_by_name(s.skip(k as int), e@) == seq![e@] + s.skip(k as int));
        } else {
            assert(s.skip(k as int) =~= Seq::<EntryModel>::empty());
        }
    }
    let ghost before = sorted@;
    sorted.insert(k, e);
    proof {
        assert(entries_view(sorted@) =~= entries_view(before).take(k as int) + seq![e@]
            + entries_view(before).skip(k as int));
        assert(entries_view(sorted@) =~= insert_by_name(s, e@));
    }
}

impl CommandTable {
    /// The entries as the bridge's own help reply lists them: in ascending
    /// name order, with the bare start alias left out.
    pub fn sorted_for_listing(&self) -> (v: Vec<CommandEntry>)
        ensures
            entries_view(v@) == sort_by_name(remove_name(self@, start_name())),
            name_sorted(entries_view(v@)),
    {
        proof {
            lemma_sort_by_name_sorted(remove_name(self@, start_name()));
        }
        let start = start_name_vec();
        let mut sorted: Vec<CommandEntry> = Vec::new();
        proof {
            assert(self@.take(0) =~= Seq::<EntryModel>::empty());
            assert(remove_name(Seq::<EntryModel>::empty(), start_name())
                == Seq::<EntryModel>::empty());
        }
        let mut i: usize = 0;
        while i < self.entries.len()
            invariant
                i <= self@.len(),
                start@ == start_name(),
                entries_view(sorted@) == sort_by_name(remove_name(self@.take(i as int), start_name())),
            decreases self@.len() - i,
        {
            let ghost prefix = self@.take(i as int);
            proof {
                assert(self@.take(i + 1) =~= prefix + seq![self@[i as int]]);
                lemma_remove_name_append(prefix, seq![self@[i as int]], start_name());
                assert(seq![self@[i as int]].drop_first() =~= Seq::<EntryModel>::empty());
                assert(remove_name(Seq::<EntryModel>::empty(), start_name())
                    == Seq::<EntryModel>::empty());
            }
            let entry = &self.entries[i];
            if !crate::decoder::bytes_eq(entry.name.as_slice(), start.as_slice()) {
                let ghost before = entries_view(sorted@);
                let ghost with_e = remove_name(self@.take(i + 1), start_name());
                proof {
                    assert(remove_name(seq![self@[i as int]], start_name()) =~= seq![self@[
                        i as int
                    ]]);
                    assert(with_e =~= remove_name(prefix, start_name()).push(self@[i as int]));
                    assert(with_e.drop_last() =~= remove_name(prefix, start_name()));
                    assert(with_e.last() == self@[i as int]);
                }
                let e = entry.clone();
                insert_entry_sorted(&mut sorted, e);
            } else {
                proof {
                    assert(remove_name(seq![self@[i as int]], start_name())
                        =~= Seq::<EntryModel>::empty());
                    assert(remove_name(self@.take(i + 1), start_name()) =~= remove_name(
                        prefix,
                        start_name(),
                    ));
                }
            }
            i += 1;
        }
        proof {
            assert(self@.take(self@.len() as int) =~= self@);
        }
        sorted
    }
}

/// Arguments as they are appended to a forwarded command line: each one
/// preceded by a single space.
pub open spec fn joined_args(args: Seq<Seq<u8>>) -> Seq<u8>
    decreases args.len(),
{
    if args.len() == 0 {
        Seq::<u8>::empty()
    } else {
        seq![SPACE] + args[0] + joined_args(args.drop_first())
    }
}

pub proof fn lemma_joined_args_push(args: Seq<Seq<u8>>, a: Seq<u8>)
    ensures
        joined_args(args.push(a)) == joined_args(args) + seq![SPACE] + a,
    decreases args.len(),
{
    if args.len() == 0 {
        assert(args.push(a).drop_first() =~= Seq::<Seq<u8>>::empty());
        assert(args.push(a)[0] == a);
        assert(joined_args(args.push(a)) == seq![SPACE] + a + joined_args(
            args.push(a).drop_first(),
        ));
        assert(joined_args(args.push(a)) =~= joined_args(args) + seq![SPACE] + a);
    } else {
        assert(args.push(a).drop_first() =~= args.drop_first().push(a));
        lemma_joined_args_push(args.drop_first(), a);
        assert(joined_args(args.push(a)) =~= joined_args(args) + seq![SPACE] + a);
    }
}

/// The console-native line a forwarded command reconstructs: the name
/// denormalized, then the arguments joined by single spaces.
pub open spec fn forwarded_line(name: Seq<u8>, args: Seq<Seq<u8>>) -> Seq<u8> {
    denormalize_name(name) + joined_args(args)
}

/// Rebuilds the console's own command line for a forwarded command: the
/// slash prefix dropped, underscores turned back into hyphens, and each
/// argument appended after a single space.
pub fn forward_line(name: &[u8], args: &Vec<Vec<u8>>) -> (out: Vec<u8>)
    requires
        name@.len() >= 1,
    ensures
        out@ == forwarded_line(name@, crate::frame::lines_view(args@)),
{
    let mut out: Vec<u8> = Vec::new();
    let mut i: usize = 1;
    while i < name.len()
        invariant
            1 <= i <= name.len(),
            out@.len() == i - 1,
            forall|j: int|
                0 <= j < i - 1 ==> out@[j] == (if name@[j + 1] == UNDERSCORE {
                    DASH
                } else {
                    name@[j + 1]
                }),
        decreases name.len() - i,
    {
        let b = name[i];
        if b == UNDERSCORE {
            out.push(DASH);
        } else {
            out.push(b);
        }
        i += 1;
    }
    proof {
        assert(out@ =~= denormalize_name(name@));
    }
    let ghost arg_views = crate::frame::lines_view(args@);
    let mut k: usize = 0;
    while k < args.len()
        invariant
            k <= args.len(),
            arg_views == crate::frame::lines_view(args@),
            out@ == denormalize_name(name@) + joined_args(arg_views.take(k as int)),
        decreases args.len() - k,
    {
        proof {
            assert(arg_views.take(k + 1) =~= arg_views.take(k as int).push(args@[k as int]@));
            lemma_joined_args_push(arg_views.take(k as int), args@[k as int]@);
        }
        out.push(SPACE);
        out.extend_from_slice(args[k].as_slice());
        proof {
            assert(out@ =~= denormalize_name(name@) + joined_args(arg_views.take(k + 1)));
        }
        k += 1;
    }
    proof {
        assert(arg_views.take(args@.len() as int) =~= arg_views);
    }
    out
}

/// Name normalization reverses: a console name free of underscores comes
/// back unchanged from its remote form.
pub proof fn lemma_name_round_trip(n: Seq<u8>)
    requires
        forall|i: int| 0 <= i < n.len() ==> n[i] != UNDERSCORE,
    ensures
        denormalize_name(normalize_name(n)) == n,
{
    assert(denormalize_name(normalize_name(n)) =~= n);
}

} // verus!
