//! Server-side includes: finding the `#exec` directives of a page and
//! putting the output of their commands in their place.

use vstd::prelude::*;
use crate::bytes::{
    contains_seq, find, find_bytes, find_from, index_of_byte, index_of_from, last_index_of,
    last_index_of_byte, lemma_find_from, lemma_index_of_from, lemma_last_index_of_before, occurs_at,
    replace_all, replace_all_bytes, slice_bytes,
};
use crate::http::{http_ok, http_ok_bytes};
use crate::static_file::static_response;

verus! {

/// The bytes of "<!--#", which opens a directive.
pub open spec fn ssi_open() -> Seq<u8> {
    seq![60u8, 33u8, 45u8, 45u8, 35u8]
}

/// The bytes of "-->", which closes a directive.
pub open spec fn ssi_close() -> Seq<u8> {
    seq![45u8, 45u8, 62u8]
}

/// The bytes of "#exec cmd=", which marks a directive that runs a command.
pub open spec fn exec_marker() -> Seq<u8> {
    seq![35u8, 101u8, 120u8, 101u8, 99u8, 32u8, 99u8, 109u8, 100u8, 61u8]
}

/// What one line of a page holds.
pub enum LineDirective {
    /// No directive that runs a command.
    Plain,
    /// A directive `ssi` that runs `command`.
    Exec { ssi: Seq<u8>, command: Seq<u8> },
    /// A directive that cannot be read: no "-->" at or after where it
    /// could close, or a command that is not between two quotes.
    Broken,
}

/// What one line of a page holds. The directive runs from the line's first
/// "<!--#" to the end of its first "-->"; it runs a command when it holds
/// "#exec cmd=", and the command is what stands between its first and last
/// double quote.
pub open spec fn line_directive(line: Seq<u8>) -> LineDirective {
    match find(line, ssi_open()) {
        None => LineDirective::Plain,
        Some(start) => match find(line, ssi_close()) {
            None => LineDirective::Broken,
            Some(c) => if c + 3 < start {
                LineDirective::Broken
            } else {
                let ssi = line.subrange(start, c + 3);
                if contains_seq(ssi, exec_marker()) {
                    match (index_of_from(ssi, 34u8, 0), last_index_of(ssi, 34u8)) {
                        (Some(q1), Some(q2)) => if q1 < q2 {
                            LineDirective::Exec { ssi, command: ssi.subrange(q1 + 1, q2) }
                        } else {
                            LineDirective::Broken
                        },
                        _ => LineDirective::Broken,
                    }
                } else {
                    LineDirective::Plain
                }
            },
        },
    }
}

/// A directive and its command, as plain values.
pub type CommandView = (Seq<u8>, Seq<u8>);

/// The result of reading a line, put in front of the result for the lines
/// after it: a broken line ends the reading unsuccessfully.
pub open spec fn prepend(d: LineDirective, rest: (Seq<CommandView>, bool)) -> (Seq<CommandView>, bool) {
    match d {
        LineDirective::Plain => rest,
        LineDirective::Exec { ssi, command } => (seq![(ssi, command)] + rest.0, rest.1),
        LineDirective::Broken => (Seq::empty(), false),
    }
}

/// The directives that run commands, in order, from index `i` of a page on,
/// `line` being the part of the current line before `i`; and whether the
/// reading got to the end without a broken directive (the directives are
/// then those before the first broken one).
pub open spec fn scan_directives(s: Seq<u8>, i: int, line: Seq<u8>) -> (Seq<CommandView>, bool)
    decreases s.len() - i,
{
    if i >= s.len() {
        prepend(line_directive(line), (Seq::empty(), true))
    } else if s[i] == 10u8 {
        prepend(line_directive(line), scan_directives(s, i + 1, Seq::empty()))
    } else {
        scan_directives(s, i + 1, line.push(s[i]))
    }
}

/// The directives of a page that run commands, in order, and whether every
/// directive of the page could be read.
pub open spec fn page_directives(s: Seq<u8>) -> (Seq<CommandView>, bool) {
    scan_directives(s, 0, Seq::empty())
}

/// A directive that runs a command.
pub struct SsiCommand {
    /// The whole directive, from "<!--#" to "-->".
    pub ssi: Vec<u8>,
    /// The command between its quotes.
    pub command: Vec<u8>,
}

impl SsiCommand {
    pub open spec fn view(&self) -> CommandView {
        (self.ssi@, self.command@)
    }
}

/// The views of a list of commands.
pub open spec fn command_views(v: Seq<SsiCommand>) -> Seq<CommandView> {
    v.map_values(|c: SsiCommand| c.view())
}

enum LineResult {
    Plain,
    Exec(SsiCommand),
    Broken,
}



fn read_line(line: &Vec<u8>) -> (r: LineResult)
    ensures
        match (r, line_directive(line@)) {
            (LineResult::Plain, LineDirective::Plain) => true,
            (LineResult::Broken, LineDirective::Broken) => true,
            (LineResult::Exec(c), LineDirective::Exec { ssi, command }) => c.ssi@ == ssi
                && c.command@ == command,
            _ => false,
        },
{
    let open: Vec<u8> = vec![60u8, 33u8, 45u8, 45u8, 35u8];
    let close: Vec<u8> = vec![45u8, 45u8, 62u8];
    let marker: Vec<u8> = vec![35u8, 101u8, 120u8, 101u8, 99u8, 32u8, 99u8, 109u8, 100u8, 61u8];
    assert(open@ =~= ssi_open());
    assert(close@ =~= ssi_close());
    assert(marker@ =~= exec_marker());
    proof {
        lemma_find_from(line@, ssi_open(), 0);
        lemma_find_from(line@, ssi_close(), 0);
    }
    let start = match find_bytes(line, &open, 0) {
        None => return LineResult::Plain,
        Some(start) => start,
    };
    let c = match find_bytes(line, &close, 0) {
        None => return LineResult::Broken,
        Some(c) => c,
    };
    assert(crate::bytes::occurs_at(line@, ssi_close(), c as int));
    assert(c + 3 <= line.len());
    if c + 3 < start {
        return LineResult::Broken;
    }
    let ssi = slice_bytes(line, start, c + 3);
    if find_bytes(&ssi, &marker, 0).is_none() {
        return LineResult::Plain;
    }
    proof {
        lemma_index_of_from(ssi@, 34u8, 0);
        lemma_last_index_of_before(ssi@, 34u8, ssi@.len() as int);
    }
    let q1 = match index_of_byte(&ssi, 34u8, 0) {
        None => return LineResult::Broken,
        Some(q1) => q1,
    };
    let q2 = match last_index_of_byte(&ssi, 34u8) {
        None => return LineResult::Broken,
        Some(q2) => q2,
    };
    if q1 < q2 {
        let command = slice_bytes(&ssi, q1 + 1, q2);
        LineResult::Exec(SsiCommand { ssi, command })
    } else {
        LineResult::Broken
    }
}

/// The directives of a page that run commands, in order, up to the first
/// directive that cannot be read; and whether every directive could be
/// read.
pub fn ssi_commands(page: &Vec<u8>) -> (r: (Vec<SsiCommand>, bool))
    ensures
        (command_views(r.0@), r.1) == page_directives(page@),
{
    let mut found: Vec<SsiCommand> = Vec::new();
    let mut line: Vec<u8> = Vec::new();
    let mut i: usize = 0;
    assert(command_views(found@) =~= Seq::<CommandView>::empty());
    assert(line@ =~= Seq::<u8>::empty());
    while i < page.len()
        invariant
            i <= page.len(),
            ({
                let rest = scan_directives(page@, i as int, line@);
                (command_views(found@) + rest.0, rest.1) == page_directives(page@)
            }),
        decreases page.len() - i,
    {
        if page[i] == 10u8 {
            let ghost rest = scan_directives(page@, i + 1, Seq::empty());
            let ghost before = command_views(found@);
            match read_line(&line) {
                LineResult::Plain => {},
                LineResult::Exec(c) => {
                    let ghost cv = c.view();
                    found.push(c);
                    assert(command_views(found@) =~= before + seq![cv]);
                    assert(before + (seq![cv] + rest.0) =~= command_views(found@) + rest.0);
                },
                LineResult::Broken => {
                    assert(before + Seq::<CommandView>::empty() =~= before);
                    return (found, false);
                },
            }
            line = Vec::new();
            assert(line@ =~= Seq::<u8>::empty());
        } else {
            line.push(page[i]);
        }
        i = i + 1;
    }
    let ghost before = command_views(found@);
    match read_line(&line) {
        LineResult::Plain => {
            assert(before + Seq::<CommandView>::empty() =~= before);
        },
        LineResult::Exec(c) => {
            let ghost cv = c.view();
            found.push(c);
            assert(command_views(found@) =~= before + seq![cv]);
            assert(before + (seq![cv] + Seq::<CommandView>::empty()) =~= command_views(found@));
        },
        LineResult::Broken => {
            assert(before + Seq::<CommandView>::empty() =~= before);
            return (found, false);
        },
    }
    (found, true)
}

/// `s` after replacing, in order, each substitution's pattern by its
/// replacement.
pub open spec fn expand(s: Seq<u8>, subs: Seq<(Seq<u8>, Seq<u8>)>) -> Seq<u8>
    decreases subs.len(),
{
    if subs.len() == 0 {
        s
    } else {
        replace_all(expand(s, subs.drop_last()), subs.last().0, subs.last().1)
    }
}

/// Each directive paired with the output its command gave.
pub open spec fn substitutions(cmds: Seq<CommandView>, outputs: Seq<Seq<u8>>) -> Seq<(Seq<u8>, Seq<u8>)> {
    Seq::new(cmds.len(), |i: int| (cmds[i].0, outputs[i]))
}

/// The response for a page with server-side includes: the success head,
/// then the page with each directive that ran a command replaced by the
/// command's output, in the order of the directives.
pub open spec fn dynamic_page(page: Seq<u8>, outputs: Seq<Seq<u8>>) -> Seq<u8> {
    http_ok() + expand(page, substitutions(page_directives(page).0, outputs))
}

/// The response for a page with server-side includes, given the output of
/// the command of each of its directives, in order (as `ssi_commands` lists
/// them). The page is UTF-8 text and each of its directives can be read.
pub fn respond_with_dynamic_page(page: &Vec<u8>, outputs: &Vec<Vec<u8>>) -> (r: Vec<u8>)
    requires
        vstd::utf8::valid_utf8(page@),
        page_directives(page@).1,
        outputs@.len() == page_directives(page@).0.len(),
    ensures
        r@ == dynamic_page(page@, outputs@.map_values(|o: Vec<u8>| o@)),
{
    let (cmds, _complete) = ssi_commands(page);
    let ghost outs = outputs@.map_values(|o: Vec<u8>| o@);
    let ghost subs = substitutions(command_views(cmds@), outs);
    let mut text = page.clone();
    assert(text@ =~= page@);
    assert(subs.subrange(0, 0) =~= Seq::<(Seq<u8>, Seq<u8>)>::empty());
    let mut i: usize = 0;
    while i < cmds.len()
        invariant
            i <= cmds.len(),
            cmds.len() == outputs.len(),
            outs == outputs@.map_values(|o: Vec<u8>| o@),
            subs == substitutions(command_views(cmds@), outs),
            text@ == expand(page@, subs.subrange(0, i as int)),
        decreases cmds.len() - i,
    {
        text = replace_all_bytes(&text, &cmds[i].ssi, &outputs[i]);
        let ghost next = subs.subrange(0, i + 1);
        assert(next.drop_last() =~= subs.subrange(0, i as int));
        assert(next.last() == (cmds@[i as int].ssi@, outputs@[i as int]@));
        i = i + 1;
    }
    assert(subs.subrange(0, cmds.len() as int) =~= subs);
    let mut r = http_ok_bytes();
    crate::bytes::append_bytes(&mut r, &text);
    r
}

/// A page with no directive that runs a command is sent as it is, behind
/// the success head.
pub proof fn law_page_without_commands_unchanged(page: Seq<u8>, outputs: Seq<Seq<u8>>)
    requires
        page_directives(page).0.len() == 0,
    ensures
        dynamic_page(page, outputs) == http_ok() + page,
{
    assert(substitutions(page_directives(page).0, outputs) =~= Seq::<(Seq<u8>, Seq<u8>)>::empty());
}

/// A command whose output is its own directive leaves the page as it was.
pub proof fn law_echoed_directives_unchanged(page: Seq<u8>, subs: Seq<(Seq<u8>, Seq<u8>)>)
    requires
        forall|k: int| 0 <= k < subs.len() ==> #[trigger] subs[k].0 == subs[k].1,
    ensures
        expand(page, subs) == page,
    decreases subs.len(),
{
    if subs.len() > 0 {
        let rest = subs.drop_last();
        assert forall|k: int| 0 <= k < rest.len() implies #[trigger] rest[k].0 == rest[k].1 by {
            assert(rest[k] == subs[k]);
        }
        law_echoed_directives_unchanged(page, rest);
        assert(subs.last() == subs[subs.len() - 1]);
        crate::bytes::law_replace_by_itself(page, subs.last().0);
    }
}

proof fn lemma_line_without_open(s: Seq<u8>, ls: int, e: int)
    requires
        0 <= ls <= e <= s.len(),
        !contains_seq(s, ssi_open()),
    ensures
        line_directive(s.subrange(ls, e)) == LineDirective::Plain,
{
    let line = s.subrange(ls, e);
    lemma_find_from(s, ssi_open(), 0);
    lemma_find_from(line, ssi_open(), 0);
    match find_from(line, ssi_open(), 0) {
        Some(k) => {
            assert(line.subrange(k, k + 5) =~= s.subrange(ls + k, ls + k + 5));
            assert(occurs_at(s, ssi_open(), ls + k));
        },
        None => {},
    }
}

proof fn lemma_scan_without_open(s: Seq<u8>, i: int, ls: int)
    requires
        0 <= ls <= i <= s.len(),
        !contains_seq(s, ssi_open()),
    ensures
        scan_directives(s, i, s.subrange(ls, i)) == (Seq::<CommandView>::empty(), true),
    decreases s.len() - i,
{
    if i >= s.len() {
        lemma_line_without_open(s, ls, i);
    } else if s[i] == 10u8 {
        lemma_line_without_open(s, ls, i);
        assert(s.subrange(i + 1, i + 1) =~= Seq::<u8>::empty());
        lemma_scan_without_open(s, i + 1, i + 1);
    } else {
        assert(s.subrange(ls, i).push(s[i]) =~= s.subrange(ls, i + 1));
        lemma_scan_without_open(s, i + 1, ls);
    }
}

/// A page in which "<!--#" does not occur has no directive to run, every
/// directive of it can be read, and it is sent as it is: exactly the
/// response a file sent as it is gets.
pub proof fn law_page_without_directives_sent_as_is(page: Seq<u8>, outputs: Seq<Seq<u8>>)
    requires
        !contains_seq(page, ssi_open()),
    ensures
        page_directives(page) == (Seq::<CommandView>::empty(), true),
        dynamic_page(page, outputs) == static_response(page),
{
    assert(page.subrange(0, 0) =~= Seq::<u8>::empty());
    lemma_scan_without_open(page, 0, 0);
    law_page_without_commands_unchanged(page, outputs);
}

/// `ssi` is the directive of `line` and `command` its command: `ssi` runs
/// from the first "<!--#" of the line to the end of the line's first "-->",
/// holds "#exec cmd=", and `command` is exactly the text of `ssi` between
/// the first and the last double quote of `ssi` itself.
pub open spec fn is_exec_directive(line: Seq<u8>, ssi: Seq<u8>, command: Seq<u8>) -> bool {
    exists|start: int, end: int|
        {
            &&& 0 <= start <= end <= line.len()
            &&& ssi == line.subrange(start, end)
            &&& occurs_at(line, seq![60u8, 33u8, 45u8, 45u8, 35u8], start)
            &&& (forall|k: int| 0 <= k < start ==> !occurs_at(line, seq![60u8, 33u8, 45u8, 45u8, 35u8], k))
            &&& occurs_at(line, seq![45u8, 45u8, 62u8], end - 3)
            &&& (forall|k: int| 0 <= k < end - 3 ==> !occurs_at(line, seq![45u8, 45u8, 62u8], k))
            &&& (exists|m: int| occurs_at(ssi, seq![35u8, 101u8, 120u8, 101u8, 99u8, 32u8, 99u8, 109u8, 100u8, 61u8], m))
            &&& exists|q1: int, q2: int|
                {
                    &&& 0 <= q1 < q2 < ssi.len()
                    &&& ssi[q1] == 34u8
                    &&& ssi[q2] == 34u8
                    &&& (forall|k: int| 0 <= k < q1 ==> ssi[k] != 34u8)
                    &&& (forall|k: int| q2 < k < ssi.len() ==> ssi[k] != 34u8)
                    &&& command == ssi.subrange(q1 + 1, q2)
                }
        }
}

/// The command of a directive is the quoted part of the directive itself:
/// the directive is the part of the line from its first "<!--#" to the end
/// of its first "-->", and the command lies between the directive's first
/// and last double quote, so nothing of the line outside the directive
/// enters it.
pub proof fn law_command_is_quoted_part_of_directive(line: Seq<u8>)
    ensures
        match line_directive(line) {
            LineDirective::Exec { ssi, command } => is_exec_directive(line, ssi, command),
            _ => true,
        },
{
    assert(ssi_open() =~= seq![60u8, 33u8, 45u8, 45u8, 35u8]);
    assert(ssi_close() =~= seq![45u8, 45u8, 62u8]);
    assert(exec_marker() =~= seq![35u8, 101u8, 120u8, 101u8, 99u8, 32u8, 99u8, 109u8, 100u8, 61u8]);
    lemma_find_from(line, ssi_open(), 0);
    lemma_find_from(line, ssi_close(), 0);
    match line_directive(line) {
        LineDirective::Exec { ssi, command } => {
            let start = find(line, ssi_open())->0;
            let c = find(line, ssi_close())->0;
            let end = c + 3;
            assert(ssi == line.subrange(start, end));
            lemma_find_from(ssi, exec_marker(), 0);
            let m = find(ssi, exec_marker())->0;
            assert(occurs_at(ssi, seq![35u8, 101u8, 120u8, 101u8, 99u8, 32u8, 99u8, 109u8, 100u8, 61u8], m));
            lemma_index_of_from(ssi, 34u8, 0);
            lemma_last_index_of_before(ssi, 34u8, ssi.len() as int);
            let q1 = index_of_from(ssi, 34u8, 0)->0;
            let q2 = last_index_of(ssi, 34u8)->0;
            assert(command == ssi.subrange(q1 + 1, q2));
            assert(is_exec_directive(line, ssi, command));
        },
        _ => {},
    }
}

/// The page's lines are its parts between newlines: `line` is the line of
/// `page` that runs from `ls` to `le`.
pub open spec fn is_line_of(page: Seq<u8>, ls: int, le: int) -> bool {
    &&& 0 <= ls <= le <= page.len()
    &&& (ls == 0 || page[ls - 1] == 10u8)
    &&& (le == page.len() || page[le] == 10u8)
    &&& forall|k: int| ls <= k < le ==> page[k] != 10u8
}

/// `d` is the directive and command of some line of `page`.
pub open spec fn from_some_line(page: Seq<u8>, d: CommandView) -> bool {
    exists|a: int, b: int|
        #![trigger is_line_of(page, a, b)]
        is_line_of(page, a, b) && is_exec_directive(page.subrange(a, b), d.0, d.1)
}

proof fn lemma_scan_from_lines(s: Seq<u8>, i: int, ls: int)
    requires
        0 <= ls <= i <= s.len(),
        ls == 0 || s[ls - 1] == 10u8,
        forall|k: int| ls <= k < i ==> s[k] != 10u8,
    ensures
        forall|k: int|
            0 <= k < scan_directives(s, i, s.subrange(ls, i)).0.len() ==> from_some_line(
                s,
                #[trigger] scan_directives(s, i, s.subrange(ls, i)).0[k],
            ),
    decreases s.len() - i,
{
    let line = s.subrange(ls, i);
    let r = scan_directives(s, i, line);
    law_command_is_quoted_part_of_directive(line);
    if i >= s.len() || s[i] == 10u8 {
        match line_directive(line) {
            LineDirective::Exec { ssi, command } => {
                assert(is_line_of(s, ls, i) && is_exec_directive(s.subrange(ls, i), ssi, command));
                assert(from_some_line(s, (ssi, command)));
            },
            _ => {},
        }
    }
    if i >= s.len() {
        assert forall|k: int| 0 <= k < r.0.len() implies from_some_line(s, #[trigger] r.0[k]) by {
            assert(k == 0);
        }
    } else if s[i] == 10u8 {
        assert(s.subrange(i + 1, i + 1) =~= Seq::<u8>::empty());
        lemma_scan_from_lines(s, i + 1, i + 1);
        let rest = scan_directives(s, i + 1, s.subrange(i + 1, i + 1));
        assert forall|k: int| 0 <= k < r.0.len() implies from_some_line(s, #[trigger] r.0[k]) by {
            match line_directive(line) {
                LineDirective::Exec { ssi, command } => {
                    if k > 0 {
                        assert(r.0[k] == rest.0[k - 1]);
                    }
                },
                LineDirective::Plain => {
                    assert(r.0[k] == rest.0[k]);
                },
                LineDirective::Broken => {},
            }
        }
    } else {
        assert(line.push(s[i]) =~= s.subrange(ls, i + 1));
        lemma_scan_from_lines(s, i + 1, ls);
        let next = scan_directives(s, i + 1, s.subrange(ls, i + 1));
        assert(r == next);
        assert forall|k: int| 0 <= k < r.0.len() implies from_some_line(s, #[trigger] r.0[k]) by {
            assert(r.0[k] == next.0[k]);
        }
    }
}

/// Every command `ssi_commands` lists comes from one line of the page: its
/// directive is that line's directive and the command is the directive's
/// quoted part.
pub proof fn law_page_commands_come_from_lines(page: Seq<u8>)
    ensures
        forall|k: int|
            0 <= k < page_directives(page).0.len() ==> from_some_line(
                page,
                #[trigger] page_directives(page).0[k],
            ),
{
    assert(page.subrange(0, 0) =~= Seq::<u8>::empty());
    lemma_scan_from_lines(page, 0, 0);
}

} // verus!
