use vstd::prelude::*;
use vstd::string::{StrSliceExecFns, StringExecFns};

use crate::config::entries_view;
use crate::entry::{EntryView, LauncherEntry};

verus! {

/// How many of the first `i` characters are newlines.
pub open spec fn newline_count(cmd: Seq<char>, i: int) -> int
    decreases i,
{
    if i <= 0 {
        0
    } else {
        newline_count(cmd, i - 1) + (if cmd[i - 1] == '\n' {
            1int
        } else {
            0int
        })
    }
}

/// The first `i` characters of a command as displayed: every newline is
/// followed by four spaces, so continuation lines align under the first
/// column.
pub open spec fn indented_prefix(cmd: Seq<char>, i: int) -> Seq<char>
    decreases i,
{
    if i <= 0 {
        Seq::empty()
    } else {
        indented_prefix(cmd, i - 1) + (if cmd[i - 1] == '\n' {
            "\n    "@
        } else {
            seq![cmd[i - 1]]
        })
    }
}

/// A whole command as displayed.
pub open spec fn indented(cmd: Seq<char>) -> Seq<char> {
    indented_prefix(cmd, cmd.len() as int)
}

/// One entry's rendered text: a fresh line, the highlighted key, a space,
/// and the command with its continuation lines indented.
pub open spec fn entry_render(e: EntryView) -> Seq<char> {
    "\n \u{1b}[33m\u{1b}[1m"@ + seq![e.character->0] + "\u{1b}[0m "@ + indented(e.command)
}

/// The rendered text of the first `n` entries.
pub open spec fn menu_render(entries: Seq<EntryView>, n: int) -> Seq<char>
    decreases n,
{
    if n <= 0 {
        Seq::empty()
    } else {
        menu_render(entries, n - 1) + entry_render(entries[n - 1])
    }
}

/// Everything written to the error stream before the keystroke: the
/// hide-cursor control, then every entry's rendered text.
pub open spec fn menu_text(entries: Seq<EntryView>) -> Seq<char> {
    "\u{1b}[?25l"@ + menu_render(entries, entries.len() as int)
}

/// How many display lines the first `n` entries take: one per entry plus one
/// per embedded newline.
pub open spec fn menu_lines(entries: Seq<EntryView>, n: int) -> int
    decreases n,
{
    if n <= 0 {
        0
    } else {
        menu_lines(entries, n - 1) + 1 + newline_count(
            entries[n - 1].command,
            entries[n - 1].command.len() as int,
        )
    }
}

/// Everything written to the error stream after the keystroke, for a menu of
/// `lines` display lines: each line but the last is cleared and the cursor
/// moved up; the last is cleared, the cursor returns to column one, and the
/// cursor is shown again.
pub open spec fn erase_model(lines: int) -> Seq<char>
    decreases lines,
{
    if lines <= 1 {
        "\u{1b}[2K\u{1b}[G\u{1b}[?25h"@
    } else {
        "\u{1b}[2K\u{1b}[F"@ + erase_model(lines - 1)
    }
}

/// Everything written to standard output once key `k` is pressed, scanning
/// the first `n` entries: the command of every entry whose key is `k`, each
/// followed by a newline.
pub open spec fn selection(entries: Seq<EntryView>, n: int, k: char) -> Seq<char>
    decreases n,
{
    if n <= 0 {
        Seq::empty()
    } else {
        selection(entries, n - 1, k) + (if entries[n - 1].character == Some(k) {
            entries[n - 1].command + seq!['\n']
        } else {
            Seq::empty()
        })
    }
}

/// The bulk-mode output of the first `n` entries: every command, in order,
/// each immediately followed by one null byte.
pub open spec fn bulk(entries: Seq<EntryView>, n: int) -> Seq<char>
    decreases n,
{
    if n <= 0 {
        Seq::empty()
    } else {
        bulk(entries, n - 1) + entries[n - 1].command + seq!['\0']
    }
}

/// Relies on `String::push`: it appends exactly the one given character.
#[verifier::external_body]
fn push_char(s: &mut String, c: char)
    ensures
        final(s)@ == old(s)@.push(c),
{
    s.push(c);
}

proof fn lemma_newline_count_mono(cmd: Seq<char>, i: int, j: int)
    requires
        i <= j,
    ensures
        newline_count(cmd, i) <= newline_count(cmd, j),
    decreases j - i,
{
    if i < j {
        lemma_newline_count_mono(cmd, i, j - 1);
    }
}

proof fn lemma_menu_lines_mono(entries: Seq<EntryView>, i: int, j: int)
    requires
        i <= j,
    ensures
        menu_lines(entries, i) <= menu_lines(entries, j),
    decreases j - i,
{
    if i < j {
        lemma_menu_lines_mono(entries, i, j - 1);
        lemma_newline_count_mono(
            entries[j - 1].command,
            0,
            entries[j - 1].command.len() as int,
        );
    }
}

/// Render the menu: the text to write to the error stream, and the number of
/// display lines it takes, which the erase sequence must later clear.
pub fn render_menu(entries: &Vec<LauncherEntry>) -> (r: (String, usize))
    requires
        forall|t: int| 0 <= t < entries@.len() ==> (#[trigger] entries@[t])@.character is Some,
        menu_lines(entries_view(entries@), entries@.len() as int) <= usize::MAX,
    ensures
        r.0@ == menu_text(entries_view(entries@)),
        r.1 == menu_lines(entries_view(entries@), entries@.len() as int),
{
    let ghost ev = entries_view(entries@);
    let mut out = String::new();
    out.append("\u{1b}[?25l");
    proof {
        assert(out@ =~= "\u{1b}[?25l"@ + menu_render(ev, 0));
    }
    let mut count: usize = 0;
    let mut j: usize = 0;
    while j < entries.len()
        invariant
            ev == entries_view(entries@),
            forall|t: int| 0 <= t < entries@.len() ==> (#[trigger] entries@[t])@.character
                is Some,
            menu_lines(ev, entries@.len() as int) <= usize::MAX,
            j <= entries@.len(),
            out@ == "\u{1b}[?25l"@ + menu_render(ev, j as int),
            count == menu_lines(ev, j as int),
        decreases entries@.len() - j,
    {
        let ghost cmdv = ev[j as int].command;
        proof {
            assert(ev[j as int] == entries@[j as int]@);
            lemma_newline_count_mono(cmdv, 0, cmdv.len() as int);
            lemma_menu_lines_mono(ev, j as int + 1, ev.len() as int);
        }
        count = count + 1;
        out.append("\n \u{1b}[33m\u{1b}[1m");
        let ej = &entries[j];
        let c: char = match ej.character {
            Some(c) => c,
            None => vstd::pervasive::unreached(),
        };
        push_char(&mut out, c);
        out.append("\u{1b}[0m ");
        let ghost head = "\u{1b}[?25l"@ + menu_render(ev, j as int)
            + "\n \u{1b}[33m\u{1b}[1m"@ + seq![ev[j as int].character->0] + "\u{1b}[0m "@;
        proof {
            assert(out@ =~= head + indented_prefix(cmdv, 0));
        }
        let cmd = &ej.command;
        let n = cmd.as_str().unicode_len();
        let mut i: usize = 0;
        while i < n
            invariant
                cmd@ == cmdv,
                n == cmdv.len(),
                i <= n,
                menu_lines(ev, j as int) + 1 + newline_count(cmdv, cmdv.len() as int)
                    <= usize::MAX,
                out@ == head + indented_prefix(cmdv, i as int),
                count == menu_lines(ev, j as int) + 1 + newline_count(cmdv, i as int),
            decreases n - i,
        {
            proof {
                lemma_newline_count_mono(cmdv, 0, i as int);
                lemma_newline_count_mono(cmdv, i as int + 1, cmdv.len() as int);
            }
            let ch = cmd.as_str().get_char(i);
            if ch == '\n' {
                count = count + 1;
                out.append("\n    ");
            } else {
                push_char(&mut out, ch);
                proof {
                    assert(out@ =~= head + indented_prefix(cmdv, i as int + 1));
                }
            }
            i = i + 1;
        }
        proof {
            assert(out@ =~= "\u{1b}[?25l"@ + menu_render(ev, j as int + 1));
        }
        j = j + 1;
    }
    (out, count)
}

/// The erase sequence for a menu of `lines` display lines.
pub fn erase_text(lines: usize) -> (out: String)
    requires
        1 <= lines,
    ensures
        out@ == erase_model(lines as int),
{
    let mut out = String::new();
    let mut r: usize = lines;
    proof {
        assert(out@ + erase_model(r as int) =~= erase_model(lines as int));
    }
    while r > 1
        invariant
            1 <= r,
            erase_model(lines as int) == out@ + erase_model(r as int),
        decreases r,
    {
        out.append("\u{1b}[2K\u{1b}[F");
        r = r - 1;
        proof {
            assert(erase_model(lines as int) =~= out@ + erase_model(r as int));
        }
    }
    out.append("\u{1b}[2K\u{1b}[G\u{1b}[?25h");
    proof {
        assert(out@ =~= erase_model(lines as int));
    }
    out
}

/// Scan the entries for the pressed key and collect what goes to standard
/// output: each matching entry's command followed by a newline — nothing at
/// all when no entry matches.
pub fn selected_output(entries: &Vec<LauncherEntry>, k: char) -> (out: String)
    ensures
        out@ == selection(entries_view(entries@), entries@.len() as int, k),
{
    let ghost ev = entries_view(entries@);
    let mut out = String::new();
    let mut j: usize = 0;
    proof {
        assert(out@ =~= selection(ev, 0, k));
    }
    while j < entries.len()
        invariant
            ev == entries_view(entries@),
            j <= entries@.len(),
            out@ == selection(ev, j as int, k),
        decreases entries@.len() - j,
    {
        proof {
            assert(ev[j as int] == entries@[j as int]@);
        }
        let ej = &entries[j];
        let matched = match ej.character {
            Some(c) => c == k,
            None => false,
        };
        if matched {
            out.append(ej.command.as_str());
            push_char(&mut out, '\n');
            proof {
                assert(out@ =~= selection(ev, j as int + 1, k));
            }
        } else {
            proof {
                assert(out@ =~= selection(ev, j as int + 1, k));
            }
        }
        j = j + 1;
    }
    out
}

/// The bulk-mode output: every command, in document order, each immediately
/// followed by one null byte.
pub fn bulk_output(entries: &Vec<LauncherEntry>) -> (out: String)
    ensures
        out@ == bulk(entries_view(entries@), entries@.len() as int),
{
    let ghost ev = entries_view(entries@);
    let mut out = String::new();
    let mut j: usize = 0;
    proof {
        assert(out@ =~= bulk(ev, 0));
    }
    while j < entries.len()
        invariant
            ev == entries_view(entries@),
            j <= entries@.len(),
            out@ == bulk(ev, j as int),
        decreases entries@.len() - j,
    {
        proof {
            assert(ev[j as int] == entries@[j as int]@);
        }
        let ej = &entries[j];
        out.append(ej.command.as_str());
        push_char(&mut out, '\0');
        proof {
            assert(out@ =~= bulk(ev, j as int + 1));
        }
        j = j + 1;
    }
    out
}

/// Law: the bulk output of a sequence with one entry appended is the bulk
/// output of the sequence, then the new entry's command, then one null byte
/// — the appended entry comes last.
pub proof fn lemma_bulk_push(entries: Seq<EntryView>, e: EntryView)
    ensures
        bulk(entries.push(e), entries.len() as int + 1) == bulk(entries, entries.len() as int)
            + e.command + seq!['\0'],
{
    lemma_bulk_prefix(entries.push(e), entries, entries.len() as int);
}

proof fn lemma_bulk_prefix(s1: Seq<EntryView>, s2: Seq<EntryView>, n: int)
    requires
        forall|t: int| 0 <= t < n ==> s1[t] == s2[t],
    ensures
        bulk(s1, n) == bulk(s2, n),
    decreases n,
{
    if n > 0 {
        lemma_bulk_prefix(s1, s2, n - 1);
    }
}

/// Law: a key that matches no entry selects nothing at all.
pub proof fn lemma_no_match_no_output(entries: Seq<EntryView>, k: char)
    requires
        forall|t: int| 0 <= t < entries.len() ==> (#[trigger] entries[t]).character != Some(k),
    ensures
        selection(entries, entries.len() as int, k) == Seq::<char>::empty(),
{
    lemma_no_match_rec(entries, entries.len() as int, k);
}

proof fn lemma_no_match_rec(entries: Seq<EntryView>, n: int, k: char)
    requires
        n <= entries.len(),
        forall|t: int| 0 <= t < entries.len() ==> (#[trigger] entries[t]).character != Some(k),
    ensures
        selection(entries, n, k) == Seq::<char>::empty(),
    decreases n,
{
    if n > 0 {
        lemma_no_match_rec(entries, n - 1, k);
        assert(selection(entries, n, k) =~= Seq::<char>::empty());
    }
}

} // verus!
