//! RCS-flavoured ed scripts: parsing `a`/`d` commands and applying them to a
//! line buffer.
use vstd::prelude::*;
use crate::bytes::{copy_bytes, append_bytes};
use crate::num::{is_digit, digits_value, read_component};

verus! {

/// Errors from reading a single command line.
#[derive(Debug, Clone, PartialEq, Eq)]
pub enum CommandError {
    /// The line is not an `a<pos> <n>` or `d<pos> <n>` command.
    InvalidCommand,
    /// The line is empty.
    NoCommand,
}

/// Errors from reading or applying a script.
#[derive(Debug, Clone, PartialEq, Eq)]
pub enum EdError {
    /// The command on the given 1-indexed line could not be read.
    Command { error: CommandError, line: usize },
    /// An `a` command announced more content lines than the script holds.
    EndOfFile { have: usize, want: usize },
    /// Two appends target the same line (`0` for the start of the file).
    ConflictingAppend(usize),
    /// A command refers to lines beyond the buffer.
    OutOfRange { position: usize, lines: usize },
}

/// A command line of a script, before its content lines are read.
#[derive(Debug, Clone, Copy, PartialEq, Eq)]
pub enum LineCommand {
    Add { position: usize, lines: usize },
    Delete { position: usize, lines: usize },
}

/// A command of a script, with its content.
#[derive(Debug, Clone, PartialEq, Eq)]
pub enum Command {
    /// Insert `content` after line `position` (1-indexed; 0 prepends).
    Add { position: usize, content: Vec<Vec<u8>> },
    /// Delete `lines` lines starting at line `position` (1-indexed).
    Delete { position: usize, lines: usize },
}

/// What happens to one line of the input buffer.
#[derive(Debug, Clone, Copy, PartialEq, Eq)]
pub enum LineAction {
    Keep,
    Delete,
    /// Keep the line and append the content of the command at this index.
    Add(usize),
    /// Drop the line and put the content of the command at this index there.
    Replace(usize),
}

/// A buffer of lines; the last line has no terminating newline.
#[derive(Debug, Clone)]
pub struct File {
    lines: Vec<Vec<u8>>,
}

pub open spec fn lines_view(v: Seq<Vec<u8>>) -> Seq<Seq<u8>> {
    v.map_values(|l: Vec<u8>| l@)
}

/// Splits on `\n`: `k` newlines give `k + 1` lines.
pub open spec fn split_lines(s: Seq<u8>) -> Seq<Seq<u8>>
    decreases s.len(),
{
    if s.len() == 0 {
        seq![Seq::empty()]
    } else if s.last() == 10u8 {
        split_lines(s.drop_last()).push(Seq::empty())
    } else {
        let prev = split_lines(s.drop_last());
        prev.update(prev.len() - 1, prev.last().push(s.last()))
    }
}

/// Joins lines with `\n`.
pub open spec fn join_lines(lines: Seq<Seq<u8>>) -> Seq<u8>
    decreases lines.len(),
{
    if lines.len() == 0 {
        Seq::empty()
    } else if lines.len() == 1 {
        lines[0]
    } else {
        join_lines(lines.drop_last()) + seq![10u8] + lines.last()
    }
}

/// The lines of a script: split on `\n`, without the empty piece after a
/// final newline.
pub open spec fn script_lines(s: Seq<u8>) -> Seq<Seq<u8>> {
    let l = split_lines(s);
    if l.last().len() == 0 {
        l.drop_last()
    } else {
        l
    }
}

/// Index of the first non-digit at or after `start`.
pub open spec fn digit_end(s: Seq<u8>, start: int) -> int
    decreases s.len() - start,
{
    if start < 0 || start >= s.len() || !is_digit(s[start]) {
        start
    } else {
        digit_end(s, start + 1)
    }
}

/// A command line `a<p> <n>` or `d<p> <n>`; text after the second number is
/// ignored. `None` where the line has another shape or a number overflows.
pub open spec fn line_command_spec(s: Seq<u8>) -> Option<LineCommand> {
    let e1 = digit_end(s, 1);
    let e2 = digit_end(s, e1 + 1);
    if s.len() > 0 && (s[0] == 97u8 || s[0] == 100u8) && e1 > 1 && e1 < s.len() && s[e1] == 32u8
        && e2 > e1 + 1 {
        let p = digits_value(s.subrange(1, e1));
        let n = digits_value(s.subrange(e1 + 1, e2));
        if p > usize::MAX || n > usize::MAX {
            None
        } else if s[0] == 97u8 {
            Some(LineCommand::Add { position: p as usize, lines: n as usize })
        } else {
            Some(LineCommand::Delete { position: p as usize, lines: n as usize })
        }
    } else {
        None
    }
}

/// The model of a command.
pub enum EdCommand {
    Add { position: usize, content: Seq<Seq<u8>> },
    Delete { position: usize, lines: usize },
}

impl EdCommand {
    pub open spec fn content(self) -> Seq<Seq<u8>> {
        match self {
            EdCommand::Add { content, .. } => content,
            EdCommand::Delete { .. } => Seq::empty(),
        }
    }
}

/// The commands of the script lines from index `i` on.
pub open spec fn commands_from(lines: Seq<Seq<u8>>, i: int) -> Result<Seq<EdCommand>, EdError>
    decreases lines.len() - i,
{
    if i < 0 || i >= lines.len() {
        Ok(Seq::empty())
    } else {
        match line_command_spec(lines[i]) {
            None => Err(
                EdError::Command {
                    error: if lines[i].len() == 0 {
                        CommandError::NoCommand
                    } else {
                        CommandError::InvalidCommand
                    },
                    line: (i + 1) as usize,
                },
            ),
            Some(LineCommand::Delete { position, lines: n }) => match commands_from(lines, i + 1) {
                Err(e) => Err(e),
                Ok(rest) => Ok(seq![EdCommand::Delete { position, lines: n }] + rest),
            },
            Some(LineCommand::Add { position, lines: n }) => if i + 1 + n > lines.len() {
                Err(EdError::EndOfFile { have: (lines.len() - i - 1) as usize, want: n })
            } else {
                match commands_from(lines, i + 1 + n) {
                    Err(e) => Err(e),
                    Ok(rest) => Ok(
                        seq![EdCommand::Add { position, content: lines.subrange(i + 1, i + 1 + n) }]
                            + rest,
                    ),
                }
            },
        }
    }
}

impl Command {
    pub open spec fn view(&self) -> EdCommand {
        match self {
            Command::Add { position, content } => EdCommand::Add {
                position: *position,
                content: lines_view(content@),
            },
            Command::Delete { position, lines } => EdCommand::Delete {
                position: *position,
                lines: *lines,
            },
        }
    }
}

pub open spec fn commands_view(v: Seq<Command>) -> Seq<EdCommand> {
    v.map_values(|c: Command| c.view())
}

/// The state of the line plan: one action per input line, and the command
/// whose content is prepended, if any.
pub struct Plan {
    pub actions: Seq<LineAction>,
    pub prepend: Option<usize>,
}

/// A line's action once the line is deleted: a line with an append keeps
/// the appended content in its place, so that the append is neither lost nor
/// forgotten.
pub open spec fn deleted(a: LineAction) -> LineAction {
    match a {
        LineAction::Add(i) => LineAction::Replace(i),
        LineAction::Replace(i) => LineAction::Replace(i),
        _ => LineAction::Delete,
    }
}

/// One command (at index `idx`) folded into the plan.
pub open spec fn plan_step(n: nat, p: Plan, cmd: EdCommand, idx: usize) -> Result<Plan, EdError> {
    match cmd {
        EdCommand::Add { position, content } => if position == 0 {
            if p.prepend is Some {
                Err(EdError::ConflictingAppend(0))
            } else {
                Ok(Plan { actions: p.actions, prepend: Some(idx) })
            }
        } else if position > n {
            Err(EdError::OutOfRange { position, lines: content.len() as usize })
        } else {
            match p.actions[position - 1] {
                LineAction::Keep => Ok(
                    Plan { actions: p.actions.update(position - 1, LineAction::Add(idx)), ..p },
                ),
                LineAction::Delete => Ok(
                    Plan { actions: p.actions.update(position - 1, LineAction::Replace(idx)), ..p },
                ),
                _ => Err(EdError::ConflictingAppend(position)),
            }
        },
        EdCommand::Delete { position, lines } => if position == 0 || position - 1 + lines > n {
            Err(EdError::OutOfRange { position, lines })
        } else {
            Ok(
                Plan {
                    actions: Seq::new(
                        n,
                        |i: int|
                            if position - 1 <= i < position - 1 + lines {
                                deleted(p.actions[i])
                            } else {
                                p.actions[i]
                            },
                    ),
                    ..p
                },
            )
        },
    }
}

/// The plan after the first `k` commands.
pub open spec fn plan_upto(n: nat, cmds: Seq<EdCommand>, k: nat) -> Result<Plan, EdError>
    decreases k,
{
    if k == 0 {
        Ok(Plan { actions: Seq::new(n, |i: int| LineAction::Keep), prepend: None })
    } else {
        match plan_upto(n, cmds, (k - 1) as nat) {
            Err(e) => Err(e),
            Ok(p) => plan_step(n, p, cmds[k - 1], (k - 1) as usize),
        }
    }
}

/// What one input line turns into.
pub open spec fn emit(line: Seq<u8>, a: LineAction, cmds: Seq<EdCommand>) -> Seq<Seq<u8>> {
    match a {
        LineAction::Keep => seq![line],
        LineAction::Delete => Seq::empty(),
        LineAction::Add(i) => seq![line] + cmds[i as int].content(),
        LineAction::Replace(i) => cmds[i as int].content(),
    }
}

/// The output of the first `k` input lines.
pub open spec fn emit_upto(lines: Seq<Seq<u8>>, acts: Seq<LineAction>, cmds: Seq<EdCommand>, k: nat) -> Seq<Seq<u8>>
    decreases k,
{
    if k == 0 {
        Seq::empty()
    } else {
        emit_upto(lines, acts, cmds, (k - 1) as nat) + emit(lines[k - 1], acts[k - 1], cmds)
    }
}

/// The result of applying `cmds` to `lines`.
pub open spec fn apply_spec(lines: Seq<Seq<u8>>, cmds: Seq<EdCommand>) -> Result<Seq<Seq<u8>>, EdError> {
    match plan_upto(lines.len(), cmds, cmds.len()) {
        Err(e) => Err(e),
        Ok(p) => Ok(
            match p.prepend {
                None => Seq::empty(),
                Some(i) => cmds[i as int].content(),
            } + emit_upto(lines, p.actions, cmds, lines.len()),
        ),
    }
}


/// Index of the first non-digit at or after `start`.
pub(crate) fn find_digit_end(s: &[u8], start: usize) -> (r: usize)
    requires
        start <= s@.len(),
    ensures
        r as int == digit_end(s@, start as int),
        start <= r <= s@.len(),
        forall|j: int| start <= j < r ==> is_digit(#[trigger] s@[j]),
{
    let mut i = start;
    while i < s.len() && 48 <= s[i] && s[i] <= 57
        invariant
            start <= i <= s@.len(),
            digit_end(s@, start as int) == digit_end(s@, i as int),
            forall|j: int| start <= j < i ==> is_digit(#[trigger] s@[j]),
        decreases s@.len() - i,
    {
        i = i + 1;
    }
    i
}

/// The value of the digits `s[start..end]`, if it fits in a `usize`.
pub(crate) fn read_number(s: &[u8], start: usize, end: usize) -> (r: Option<usize>)
    requires
        start < end <= s@.len(),
        forall|j: int| start <= j < end ==> is_digit(#[trigger] s@[j]),
    ensures
        r is Some <==> digits_value(s@.subrange(start as int, end as int)) <= usize::MAX,
        r is Some ==> r->0 == digits_value(s@.subrange(start as int, end as int)),
{
    let ghost sub = s@.subrange(start as int, end as int);
    assert forall|i: int| 0 <= i < sub.len() implies is_digit(#[trigger] sub[i]) by {
        assert(sub[i] == s@[start + i]);
    }
    match read_component(s, start, end) {
        None => None,
        Some(v) => if v <= usize::MAX as u64 {
            Some(v as usize)
        } else {
            None
        },
    }
}

impl LineCommand {
    /// Reads a command line `a<pos> <n>` or `d<pos> <n>`.
    pub fn parse(line: &[u8]) -> (r: Result<LineCommand, CommandError>)
        ensures
            match line_command_spec(line@) {
                Some(c) => r == Ok::<LineCommand, CommandError>(c),
                None => r == Err::<LineCommand, CommandError>(
                    if line@.len() == 0 {
                        CommandError::NoCommand
                    } else {
                        CommandError::InvalidCommand
                    },
                ),
            },
    {
        let fail = if line.len() == 0 {
            CommandError::NoCommand
        } else {
            CommandError::InvalidCommand
        };
        if line.len() == 0 || (line[0] != 97u8 && line[0] != 100u8) {
            return Err(fail);
        }
        let e1 = find_digit_end(line, 1);
        if e1 <= 1 || e1 >= line.len() || line[e1] != 32u8 {
            return Err(fail);
        }
        let e2 = find_digit_end(line, e1 + 1);
        if e2 <= e1 + 1 {
            return Err(fail);
        }
        let p = match read_number(line, 1, e1) {
            None => {
                return Err(fail);
            },
            Some(p) => p,
        };
        let n = match read_number(line, e1 + 1, e2) {
            None => {
                return Err(fail);
            },
            Some(n) => n,
        };
        if line[0] == 97u8 {
            Ok(LineCommand::Add { position: p, lines: n })
        } else {
            Ok(LineCommand::Delete { position: p, lines: n })
        }
    }
}

proof fn lemma_lines_view_push(v: Seq<Vec<u8>>, x: Vec<u8>)
    ensures
        lines_view(v.push(x)) == lines_view(v).push(x@),
{
    assert(lines_view(v.push(x)) =~= lines_view(v).push(x@));
}

/// Splits on `\n`.
pub(crate) fn split_newlines(data: &[u8]) -> (r: Vec<Vec<u8>>)
    ensures
        lines_view(r@) == split_lines(data@),
        r@.len() >= 1,
{
    let mut lines: Vec<Vec<u8>> = Vec::new();
    let mut cur: Vec<u8> = Vec::new();
    let mut i: usize = 0;
    while i < data.len()
        invariant
            i <= data@.len(),
            split_lines(data@.subrange(0, i as int)) == lines_view(lines@).push(cur@),
        decreases data@.len() - i,
    {
        let c = data[i];
        let ghost pre = data@.subrange(0, i as int);
        assert(data@.subrange(0, i + 1).drop_last() =~= pre);
        if c == 10u8 {
            proof {
                lemma_lines_view_push(lines@, cur);
            }
            lines.push(cur);
            cur = Vec::new();
        } else {
            let ghost old_cur = cur@;
            cur.push(c);
            assert(lines_view(lines@).push(old_cur).update(lines@.len() as int, old_cur.push(c))
                =~= lines_view(lines@).push(cur@));
        }
        i = i + 1;
    }
    assert(data@.subrange(0, i as int) =~= data@);
    proof {
        lemma_lines_view_push(lines@, cur);
    }
    lines.push(cur);
    lines
}

/// Appends copies of `src` to `out`.
fn push_lines(out: &mut Vec<Vec<u8>>, src: &Vec<Vec<u8>>)
    ensures
        lines_view(final(out)@) == lines_view(old(out)@) + lines_view(src@),
{
    let mut i: usize = 0;
    while i < src.len()
        invariant
            i <= src@.len(),
            lines_view(out@) == lines_view(old(out)@) + lines_view(src@.subrange(0, i as int)),
        decreases src@.len() - i,
    {
        let line = copy_bytes(src[i].as_slice());
        proof {
            lemma_lines_view_push(out@, line);
            assert(lines_view(src@.subrange(0, i + 1)) =~= lines_view(src@.subrange(0, i as int)).push(src@[i as int]@));
        }
        out.push(line);
        assert(lines_view(out@) =~= lines_view(old(out)@) + lines_view(src@.subrange(0, i + 1)));
        i = i + 1;
    }
    assert(src@.subrange(0, i as int) =~= src@);
}

impl File {
    pub closed spec fn view(&self) -> Seq<Seq<u8>> {
        lines_view(self.lines@)
    }

    /// A copy of the buffer.
    pub fn duplicate(&self) -> (r: File)
        ensures
            r.view() == self.view(),
    {
        let mut lines: Vec<Vec<u8>> = Vec::new();
        push_lines(&mut lines, &self.lines);
        assert(lines_view(lines@) =~= lines_view(self.lines@));
        File { lines }
    }

    /// Reads a buffer from bytes; a final line without a newline is kept, and
    /// a final newline gives an empty last line.
    pub fn new(data: &[u8]) -> (r: File)
        ensures
            r.view() == split_lines(data@),
    {
        File { lines: split_newlines(data) }
    }

    /// The lines of the buffer.
    pub fn iter(&self) -> (r: &Vec<Vec<u8>>)
        ensures
            lines_view(r@) == self.view(),
    {
        &self.lines
    }

    /// The lines joined by `\n`.
    pub fn as_bytes(&self) -> (r: Vec<u8>)
        ensures
            r@ == join_lines(self.view()),
    {
        join(&self.lines)
    }

    /// The lines joined by `\n`.
    pub fn into_bytes(self) -> (r: Vec<u8>)
        ensures
            r@ == join_lines(self.view()),
    {
        join(&self.lines)
    }

    /// The buffer after the commands, or the reason they do not apply.
    pub fn apply(&self, commands: &Vec<Command>) -> (r: Result<Vec<Vec<u8>>, EdError>)
        ensures
            match apply_spec(self.view(), commands_view(commands@)) {
                Ok(out) => r is Ok && lines_view(r->Ok_0@) == out,
                Err(e) => r == Err::<Vec<Vec<u8>>, EdError>(e),
            },
    {
        apply_lines(&self.lines, commands)
    }

    /// Applies the commands to the buffer itself; on an error it is left as
    /// it was.
    pub fn apply_in_place(&mut self, commands: &Vec<Command>) -> (r: Result<(), EdError>)
        ensures
            match apply_spec(old(self).view(), commands_view(commands@)) {
                Ok(out) => r is Ok && final(self).view() == out,
                Err(e) => r == Err::<(), EdError>(e) && final(self).view() == old(self).view(),
            },
    {
        match apply_lines(&self.lines, commands) {
            Ok(out) => {
                self.lines = out;
                Ok(())
            },
            Err(e) => Err(e),
        }
    }
}

/// Joins lines with `\n`.
fn join(lines: &Vec<Vec<u8>>) -> (r: Vec<u8>)
    ensures
        r@ == join_lines(lines_view(lines@)),
{
    let mut out: Vec<u8> = Vec::new();
    let mut i: usize = 0;
    while i < lines.len()
        invariant
            i <= lines@.len(),
            out@ == join_lines(lines_view(lines@.subrange(0, i as int))),
        decreases lines@.len() - i,
    {
        let ghost prev = lines_view(lines@.subrange(0, i as int));
        let ghost next = lines_view(lines@.subrange(0, i + 1));
        assert(next.drop_last() =~= prev);
        if i > 0 {
            out.push(10u8);
        }
        append_bytes(&mut out, lines[i].as_slice());
        assert(next.last() == lines@[i as int]@);
        i = i + 1;
    }
    assert(lines@.subrange(0, i as int) =~= lines@);
    out
}

/// The per-line plan of a command list.
pub struct LineCommands {
    pub lines: Vec<LineAction>,
    pub prepend: Option<usize>,
}

impl LineCommands {
    /// The number of slots of the plan: input lines and the prepended
    /// block.
    pub fn output_capacity(&self) -> (r: usize)
        requires
            self.lines@.len() + 1 <= usize::MAX,
        ensures
            r == self.lines@.len() + if self.prepend is Some {
                1usize
            } else {
                0usize
            },
    {
        self.lines.len() + if self.prepend.is_some() {
            1
        } else {
            0
        }
    }
}

/// Folds the commands into one action per input line.
pub fn calculate_line_commands(n: usize, commands: &Vec<Command>) -> (r: Result<LineCommands, EdError>)
    ensures
        match plan_upto(n as nat, commands_view(commands@), commands@.len()) {
            Ok(p) => r is Ok && r->Ok_0.lines@ == p.actions && r->Ok_0.prepend == p.prepend,
            Err(e) => r matches Err(x) && x == e,
        },
{
    let mut lines: Vec<LineAction> = Vec::new();
    let mut i: usize = 0;
    while i < n
        invariant
            i <= n,
            lines@ == Seq::new(i as nat, |j: int| LineAction::Keep),
        decreases n - i,
    {
        lines.push(LineAction::Keep);
        i = i + 1;
        assert(lines@ =~= Seq::new(i as nat, |j: int| LineAction::Keep));
    }
    let mut prepend: Option<usize> = None;
    let ghost cmds = commands_view(commands@);
    let mut k: usize = 0;
    while k < commands.len()
        invariant
            k <= commands@.len(),
            cmds == commands_view(commands@),
            lines@.len() == n,
            plan_upto(n as nat, cmds, k as nat) == Ok::<Plan, EdError>(
                Plan { actions: lines@, prepend },
            ),
        decreases commands@.len() - k,
    {
        assert(cmds[k as int] == commands@[k as int].view());
        match &commands[k] {
            Command::Add { position, content } => {
                let position = *position;
                if position == 0 {
                    if prepend.is_some() {
                        proof {
                            lemma_plan_err_sticks(n as nat, cmds, (k + 1) as nat, commands@.len());
                        }
                        return Err(EdError::ConflictingAppend(0));
                    }
                    prepend = Some(k);
                } else if position > n {
                    assert(lines_view(content@).len() == content@.len());
                    proof {
                        lemma_plan_err_sticks(n as nat, cmds, (k + 1) as nat, commands@.len());
                    }
                    return Err(EdError::OutOfRange { position, lines: content.len() });
                } else {
                    match lines[position - 1] {
                        LineAction::Keep => {
                            lines.set(position - 1, LineAction::Add(k));
                        },
                        LineAction::Delete => {
                            lines.set(position - 1, LineAction::Replace(k));
                        },
                        _ => {
                            proof {
                                lemma_plan_err_sticks(n as nat, cmds, (k + 1) as nat, commands@.len());
                            }
                            return Err(EdError::ConflictingAppend(position));
                        },
                    }
                }
            },
            Command::Delete { position, lines: count } => {
                let position = *position;
                let count = *count;
                if position == 0 || count > n || position - 1 > n - count {
                    proof {
                        lemma_plan_err_sticks(n as nat, cmds, (k + 1) as nat, commands@.len());
                    }
                    return Err(EdError::OutOfRange { position, lines: count });
                }
                let ghost before = lines@;
                let mut j = position - 1;
                while j < position - 1 + count
                    invariant
                        position >= 1,
                        position - 1 + count <= n,
                        position - 1 <= j <= position - 1 + count,
                        lines@.len() == n,
                        before.len() == n,
                        forall|x: int|
                            0 <= x < n ==> #[trigger] lines@[x] == if position - 1 <= x < j {
                                deleted(before[x])
                            } else {
                                before[x]
                            },
                    decreases position - 1 + count - j,
                {
                    let a = match lines[j] {
                        LineAction::Add(i) => LineAction::Replace(i),
                        LineAction::Replace(i) => LineAction::Replace(i),
                        _ => LineAction::Delete,
                    };
                    lines.set(j, a);
                    j = j + 1;
                }
                assert(lines@ =~= Seq::new(
                    n as nat,
                    |x: int|
                        if position - 1 <= x < position - 1 + count {
                            deleted(before[x])
                        } else {
                            before[x]
                        },
                ));
            },
        }
        k = k + 1;
    }
    assert(commands@.len() == k);
    Ok(LineCommands { lines, prepend })
}

/// Applies the commands to the lines.
fn apply_lines(orig: &Vec<Vec<u8>>, commands: &Vec<Command>) -> (r: Result<Vec<Vec<u8>>, EdError>)
    ensures
        match apply_spec(lines_view(orig@), commands_view(commands@)) {
            Ok(out) => r is Ok && lines_view(r->Ok_0@) == out,
            Err(e) => r == Err::<Vec<Vec<u8>>, EdError>(e),
        },
{
    let ghost cmds = commands_view(commands@);
    let ghost lv = lines_view(orig@);
    let plan = match calculate_line_commands(orig.len(), commands) {
        Ok(p) => p,
        Err(e) => {
            return Err(e);
        },
    };
    let mut output: Vec<Vec<u8>> = Vec::new();
    match plan.prepend {
        Some(i) => {
            proof {
                lemma_plan_indices(orig@.len(), cmds, commands@.len());
            }
            match &commands[i] {
                Command::Add { content, .. } => push_lines(&mut output, content),
                Command::Delete { .. } => {},
            }
        },
        None => {},
    }
    let ghost pre = lines_view(output@);
    proof {
        lemma_plan_indices(orig@.len(), cmds, commands@.len());
    }
    let mut i: usize = 0;
    while i < orig.len()
        invariant
            i <= orig@.len(),
            plan.lines@.len() == orig@.len(),
            lv == lines_view(orig@),
            cmds == commands_view(commands@),
            forall|x: int|
                0 <= x < plan.lines@.len() ==> action_in_range(#[trigger] plan.lines@[x], commands@.len()),
            lines_view(output@) == pre + emit_upto(lv, plan.lines@, cmds, i as nat),
        decreases orig@.len() - i,
    {
        let ghost before = lines_view(output@);
        assert(lv[i as int] == orig@[i as int]@);
        match plan.lines[i] {
            LineAction::Keep => {
                let line = copy_bytes(orig[i].as_slice());
                proof {
                    lemma_lines_view_push(output@, line);
                }
                output.push(line);
            },
            LineAction::Delete => {},
            LineAction::Add(c) => {
                let line = copy_bytes(orig[i].as_slice());
                proof {
                    lemma_lines_view_push(output@, line);
                }
                output.push(line);
                assert(cmds[c as int] == commands@[c as int].view());
                match &commands[c] {
                    Command::Add { content, .. } => push_lines(&mut output, content),
                    Command::Delete { .. } => {},
                }
            },
            LineAction::Replace(c) => {
                assert(cmds[c as int] == commands@[c as int].view());
                match &commands[c] {
                    Command::Add { content, .. } => push_lines(&mut output, content),
                    Command::Delete { .. } => {},
                }
            },
        }
        assert(lines_view(output@) =~= before + emit(lv[i as int], plan.lines@[i as int], cmds));
        i = i + 1;
    }
    proof {
        if plan.prepend is Some {
            assert(cmds[plan.prepend->0 as int] == commands@[plan.prepend->0 as int].view());
        }
    }
    Ok(output)
}

/// Once the fold fails, it fails with the same error.
proof fn lemma_plan_err_sticks(n: nat, cmds: Seq<EdCommand>, k: nat, m: nat)
    requires
        k <= m,
        plan_upto(n, cmds, k) is Err,
    ensures
        plan_upto(n, cmds, m) == plan_upto(n, cmds, k),
    decreases m - k,
{
    if k < m {
        lemma_plan_err_sticks(n, cmds, k, (m - 1) as nat);
    }
}

pub open spec fn action_in_range(a: LineAction, m: nat) -> bool {
    match a {
        LineAction::Add(i) => i < m,
        LineAction::Replace(i) => i < m,
        _ => true,
    }
}

/// Every command index that a plan refers to is that of an earlier command.
proof fn lemma_plan_indices(n: nat, cmds: Seq<EdCommand>, k: nat)
    requires
        k <= cmds.len(),
    ensures
        plan_upto(n, cmds, k) matches Ok(p) ==> {
            &&& p.actions.len() == n
            &&& (forall|x: int| 0 <= x < n ==> action_in_range(#[trigger] p.actions[x], k))
            &&& (p.prepend matches Some(i) ==> i < k)
        },
    decreases k,
{
    if k > 0 {
        lemma_plan_indices(n, cmds, (k - 1) as nat);
        if let Ok(p) = plan_upto(n, cmds, k) {
            let q = plan_upto(n, cmds, (k - 1) as nat)->Ok_0;
            assert forall|x: int| 0 <= x < n implies action_in_range(#[trigger] p.actions[x], k) by {
                assert(action_in_range(q.actions[x], (k - 1) as nat));
            }
        }
    }
}

/// An ed script as read from bytes; its commands come from
/// `into_command_list`.
pub struct Script {
    data: Vec<u8>,
}

impl Script {
    pub closed spec fn view(&self) -> Seq<u8> {
        self.data@
    }

    /// Takes the script's bytes.
    pub fn parse(data: &[u8]) -> (r: Script)
        ensures
            r.view() == data@,
    {
        Script { data: copy_bytes(data) }
    }

    /// The commands of the script, each `a` command with the content lines
    /// that follow it, or the first error met.
    pub fn into_command_list(self) -> (r: Result<Vec<Command>, EdError>)
        ensures
            match commands_from(script_lines(self.view()), 0) {
                Ok(c) => r is Ok && commands_view(r->Ok_0@) == c,
                Err(e) => r == Err::<Vec<Command>, EdError>(e),
            },
    {
        let mut lines = split_newlines(self.data.as_slice());
        let last = lines.len() - 1;
        if lines[last].len() == 0 {
            let ghost before = lines@;
            lines.pop();
            assert(lines_view(lines@) =~= lines_view(before).drop_last());
        }
        let ghost sl = lines_view(lines@);
        assert(sl == script_lines(self.data@));
        let mut out: Vec<Command> = Vec::new();
        let mut i: usize = 0;
        while i < lines.len()
            invariant
                i <= lines@.len(),
                sl == lines_view(lines@),
                sl == script_lines(self.view()),
                commands_from(sl, 0) == match commands_from(sl, i as int) {
                    Ok(rest) => Ok(commands_view(out@) + rest),
                    Err(e) => Err::<Seq<EdCommand>, EdError>(e),
                },
            decreases lines@.len() - i,
        {
            assert(sl[i as int] == lines@[i as int]@);
            match LineCommand::parse(lines[i].as_slice()) {
                Err(error) => {
                    assert(line_command_spec(sl[i as int]) is None);
                    assert(commands_from(sl, i as int) == Err::<Seq<EdCommand>, EdError>(
                        EdError::Command { error, line: (i + 1) as usize },
                    ));
                    return Err(EdError::Command { error, line: i + 1 });
                },
                Ok(LineCommand::Delete { position, lines: n }) => {
                    let c = Command::Delete { position, lines: n };
                    let ghost prev = commands_view(out@);
                    out.push(c);
                    assert(commands_view(out@) =~= prev.push(c.view()));
                    proof {
                        if let Ok(rest) = commands_from(sl, i + 1) {
                            assert(prev + (seq![c.view()] + rest) =~= commands_view(out@) + rest);
                        }
                    }
                    i = i + 1;
                },
                Ok(LineCommand::Add { position, lines: n }) => {
                    if n > lines.len() - i - 1 {
                        assert(commands_from(sl, i as int) == Err::<Seq<EdCommand>, EdError>(
                            EdError::EndOfFile { have: (lines.len() - i - 1) as usize, want: n },
                        ));
                        return Err(EdError::EndOfFile { have: lines.len() - i - 1, want: n });
                    }
                    let mut content: Vec<Vec<u8>> = Vec::new();
                    let mut j: usize = 0;
                    while j < n
                        invariant
                            j <= n,
                            i + 1 + n <= lines.len(),
                            sl == lines_view(lines@),
                            lines_view(content@) == sl.subrange(i + 1, i + 1 + j),
                        decreases n - j,
                    {
                        let line = copy_bytes(lines[i + 1 + j].as_slice());
                        proof {
                            lemma_lines_view_push(content@, line);
                        }
                        content.push(line);
                        assert(lines_view(content@) =~= sl.subrange(i + 1, i + 1 + j + 1));
                        j = j + 1;
                    }
                    let c = Command::Add { position, content };
                    let ghost prev = commands_view(out@);
                    out.push(c);
                    assert(commands_view(out@) =~= prev.push(c.view()));
                    proof {
                        if let Ok(rest) = commands_from(sl, i + 1 + n) {
                            assert(prev + (seq![c.view()] + rest) =~= commands_view(out@) + rest);
                        }
                    }
                    i = i + 1 + n;
                },
            }
        }
        assert(commands_view(out@) + Seq::<EdCommand>::empty() =~= commands_view(out@));
        Ok(out)
    }
}

proof fn lemma_split_nonempty(s: Seq<u8>)
    ensures
        split_lines(s).len() >= 1,
    decreases s.len(),
{
    if s.len() > 0 {
        lemma_split_nonempty(s.drop_last());
    }
}

proof fn lemma_join_extend_last(lines: Seq<Seq<u8>>, c: u8)
    requires
        lines.len() >= 1,
    ensures
        join_lines(lines.update(lines.len() - 1, lines.last().push(c))) == join_lines(lines).push(c),
{
    let u = lines.update(lines.len() - 1, lines.last().push(c));
    if lines.len() == 1 {
        assert(u[0] == lines[0].push(c));
    } else {
        assert(u.drop_last() =~= lines.drop_last());
        assert(join_lines(u) =~= join_lines(lines).push(c));
    }
}

/// Writing out the lines that a buffer reads from bytes gives the bytes
/// back, with or without a final newline.
pub proof fn lemma_split_join(s: Seq<u8>)
    ensures
        join_lines(split_lines(s)) == s,
    decreases s.len(),
{
    if s.len() == 0 {
        assert(join_lines(seq![Seq::<u8>::empty()]) =~= s);
    } else {
        let p = s.drop_last();
        lemma_split_join(p);
        lemma_split_nonempty(p);
        let l = split_lines(p);
        if s.last() == 10u8 {
            let l2 = l.push(Seq::<u8>::empty());
            assert(l2.drop_last() =~= l);
            assert(join_lines(l2) =~= s);
        } else {
            lemma_join_extend_last(l, s.last());
            assert(p.push(s.last()) =~= s);
        }
    }
}

} // verus!
