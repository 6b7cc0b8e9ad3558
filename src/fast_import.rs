//! The `git fast-import` side: marks, identities, blob and commit commands,
//! and a writer that frames them into the command stream.
use vstd::prelude::*;
use crate::bytes::{append_bytes, copy_bytes};
use crate::num::{decimal, push_decimal, digits_value};
use crate::ed::{split_lines, lines_view, digit_end, find_digit_end, read_number, split_newlines};
use vstd::string::StringSliceAdditionalSpecFns;

verus! {

/// A mark naming a Git object created through fast-import.
#[derive(Debug, Clone, Copy, PartialEq, Eq, PartialOrd, Ord)]
pub struct Mark(pub usize);

/// `:` and the decimal number.
pub open spec fn mark_wire(m: Mark) -> Seq<u8> {
    seq![58u8] + decimal(m.0 as nat)
}

fn push_mark(out: &mut Vec<u8>, m: Mark)
    ensures
        final(out)@ == old(out)@ + mark_wire(m),
{
    out.push(58u8);
    let ghost o1 = out@;
    push_decimal(out, m.0 as u64);
    assert(out@ =~= old(out)@ + mark_wire(m));
}

/// Appends the bytes of a string literal.
fn push_text(out: &mut Vec<u8>, s: &str)
    ensures
        final(out)@ == old(out)@ + s.spec_bytes(),
{
    append_bytes(out, s.as_bytes());
}

impl Mark {
    /// The mark in wire format, `:<n>`.
    pub fn to_bytes(&self) -> (r: Vec<u8>)
        ensures
            r@ == mark_wire(*self),
    {
        let mut out: Vec<u8> = Vec::new();
        push_mark(&mut out, *self);
        assert(out@ =~= mark_wire(*self));
        out
    }
}

/// A Git identity: an optional name, an e-mail, and a time in seconds since
/// the Unix epoch.
#[derive(Debug, Clone)]
pub struct Identity {
    pub name: Option<Vec<u8>>,
    pub email: Vec<u8>,
    pub when: u64,
}

/// `name <email> when +0000`, the name and its space only where given.
pub open spec fn name_wire(name: Option<Vec<u8>>) -> Seq<u8> {
    match name {
        Some(n) => n@ + " ".spec_bytes(),
        None => Seq::empty(),
    }
}

pub open spec fn identity_wire(i: Identity) -> Seq<u8> {
    name_wire(i.name) + "<".spec_bytes() + i.email@ + "> ".spec_bytes() + decimal(i.when as nat)
        + " +0000".spec_bytes()
}

impl Identity {
    /// An identity at the given time.
    pub fn new(name: Option<Vec<u8>>, email: Vec<u8>, when: u64) -> (r: Identity)
        ensures
            r.name == name,
            r.email == email,
            r.when == when,
    {
        Identity { name, email, when }
    }

    /// The identity as fast-import reads it.
    pub fn to_bytes(&self) -> (r: Vec<u8>)
        ensures
            r@ == identity_wire(*self),
    {
        let mut out: Vec<u8> = Vec::new();
        push_identity(&mut out, self);
        assert(out@ =~= identity_wire(*self));
        out
    }
}

fn push_identity(out: &mut Vec<u8>, i: &Identity)
    ensures
        final(out)@ == old(out)@ + identity_wire(*i),
{
    match &i.name {
        Some(n) => {
            append_bytes(out, n.as_slice());
            push_text(out, " ");
        },
        None => {},
    }
    push_text(out, "<");
    append_bytes(out, i.email.as_slice());
    push_text(out, "> ");
    push_decimal(out, i.when);
    push_text(out, " +0000");
    assert(out@ =~= old(out)@ + identity_wire(*i));
}

/// A `blob` command: stores data in the repository.
#[derive(Debug, Clone)]
pub struct Blob {
    pub data: Vec<u8>,
}

impl Blob {
    /// A blob holding a copy of the data.
    pub fn new(data: &[u8]) -> (r: Blob)
        ensures
            r.data@ == data@,
    {
        Blob { data: copy_bytes(data) }
    }
}

/// `blob`, its mark, and the data with its length.
pub open spec fn blob_wire(b: Blob, m: Mark) -> Seq<u8> {
    blob_bytes_wire(b.data@, m)
}

/// `blob`, its mark, and the data with its length.
pub open spec fn blob_bytes_wire(data: Seq<u8>, m: Mark) -> Seq<u8> {
    "blob\nmark ".spec_bytes() + mark_wire(m) + "\ndata ".spec_bytes() + decimal(data.len())
        + "\n".spec_bytes() + data + "\n".spec_bytes()
}

/// A file mode.
#[derive(Debug, Clone, Copy, PartialEq, Eq)]
pub enum Mode {
    /// A normal, non-executable file.
    Normal,
    /// An executable file.
    Executable,
    /// A symbolic link, whose content is the target path.
    Symlink,
}

pub open spec fn mode_wire(m: Mode) -> Seq<u8> {
    match m {
        Mode::Normal => "100644".spec_bytes(),
        Mode::Executable => "100755".spec_bytes(),
        Mode::Symlink => "120000".spec_bytes(),
    }
}

/// A change to one file within a commit.
#[derive(Debug, Clone)]
pub enum FileCommand {
    /// New content, named by the mark of its blob, with a mode.
    Modify { mode: Mode, mark: Mark, path: Vec<u8> },
    /// The file is deleted.
    Delete { path: Vec<u8> },
    /// The file is copied.
    Copy { from: Vec<u8>, to: Vec<u8> },
    /// The file is renamed.
    Rename { from: Vec<u8>, to: Vec<u8> },
    /// Every file is deleted; the files that remain are added after it.
    DeleteAll,
}

pub open spec fn file_command_wire(c: FileCommand) -> Seq<u8> {
    match c {
        FileCommand::Modify { mode, mark, path } => "M ".spec_bytes() + mode_wire(mode)
            + " ".spec_bytes() + mark_wire(mark) + " ".spec_bytes() + path@,
        FileCommand::Delete { path } => "D ".spec_bytes() + path@,
        FileCommand::Copy { from, to } => "C ".spec_bytes() + from@ + " ".spec_bytes() + to@,
        FileCommand::Rename { from, to } => "R ".spec_bytes() + from@ + " ".spec_bytes() + to@,
        FileCommand::DeleteAll => "deleteall".spec_bytes(),
    }
}

fn push_file_command(out: &mut Vec<u8>, c: &FileCommand)
    ensures
        final(out)@ == old(out)@ + file_command_wire(*c),
{
    match c {
        FileCommand::Modify { mode, mark, path } => {
            push_text(out, "M ");
            match mode {
                Mode::Normal => push_text(out, "100644"),
                Mode::Executable => push_text(out, "100755"),
                Mode::Symlink => push_text(out, "120000"),
            }
            push_text(out, " ");
            push_mark(out, *mark);
            push_text(out, " ");
            append_bytes(out, path.as_slice());
        },
        FileCommand::Delete { path } => {
            push_text(out, "D ");
            append_bytes(out, path.as_slice());
        },
        FileCommand::Copy { from, to } => {
            push_text(out, "C ");
            append_bytes(out, from.as_slice());
            push_text(out, " ");
            append_bytes(out, to.as_slice());
        },
        FileCommand::Rename { from, to } => {
            push_text(out, "R ");
            append_bytes(out, from.as_slice());
            push_text(out, " ");
            append_bytes(out, to.as_slice());
        },
        FileCommand::DeleteAll => push_text(out, "deleteall"),
    }
    assert(out@ =~= old(out)@ + file_command_wire(*c));
}

/// A `commit` command.
#[derive(Debug, Clone)]
pub struct Commit {
    pub branch_ref: Vec<u8>,
    pub author: Option<Identity>,
    pub committer: Identity,
    pub message: Vec<u8>,
    pub from: Option<Mark>,
    pub merge: Option<Mark>,
    pub commands: Vec<FileCommand>,
}

/// Why a commit could not be built.
#[derive(Debug, Clone, Copy, PartialEq, Eq)]
pub enum CommitError {
    MissingCommitter,
    MissingCommitMessage,
}

/// A builder for a [`Commit`].
#[derive(Debug, Clone)]
pub struct CommitBuilder {
    pub branch_ref: Vec<u8>,
    pub author: Option<Identity>,
    pub committer: Option<Identity>,
    pub message: Option<Vec<u8>>,
    pub from: Option<Mark>,
    pub merge: Option<Mark>,
    pub commands: Vec<FileCommand>,
}

impl CommitBuilder {
    /// A builder for a commit on the given ref, with nothing else set.
    pub fn new(branch_ref: Vec<u8>) -> (r: CommitBuilder)
        ensures
            r.branch_ref == branch_ref,
            r.author is None,
            r.committer is None,
            r.message is None,
            r.from is None,
            r.merge is None,
            r.commands@.len() == 0,
    {
        CommitBuilder {
            branch_ref,
            author: None,
            committer: None,
            message: None,
            from: None,
            merge: None,
            commands: Vec::new(),
        }
    }

    /// Sets the author.
    pub fn author(&mut self, identity: Identity)
        ensures
            *final(self) == (CommitBuilder { author: Some(identity), ..*old(self) }),
    {
        self.author = Some(identity);
    }

    /// Sets the committer.
    pub fn committer(&mut self, committer: Identity)
        ensures
            *final(self) == (CommitBuilder { committer: Some(committer), ..*old(self) }),
    {
        self.committer = Some(committer);
    }

    /// Sets the message.
    pub fn message(&mut self, message: Vec<u8>)
        ensures
            *final(self) == (CommitBuilder { message: Some(message), ..*old(self) }),
    {
        self.message = Some(message);
    }

    /// Sets the commit that this one extends.
    pub fn from(&mut self, from: Mark)
        ensures
            *final(self) == (CommitBuilder { from: Some(from), ..*old(self) }),
    {
        self.from = Some(from);
    }

    /// Sets the commit merged into this one.
    pub fn merge(&mut self, merge: Mark)
        ensures
            *final(self) == (CommitBuilder { merge: Some(merge), ..*old(self) }),
    {
        self.merge = Some(merge);
    }

    /// Adds a file command.
    pub fn add_file_command(&mut self, command: FileCommand)
        ensures
            final(self).commands@ == old(self).commands@.push(command),
            final(self).branch_ref == old(self).branch_ref,
            final(self).author == old(self).author,
            final(self).committer == old(self).committer,
            final(self).message == old(self).message,
            final(self).from == old(self).from,
            final(self).merge == old(self).merge,
    {
        self.commands.push(command);
    }

    /// The commit, once a committer and a message are set.
    pub fn build(self) -> (r: Result<Commit, CommitError>)
        ensures
            self.committer is None ==> r == Err::<Commit, CommitError>(CommitError::MissingCommitter),
            self.committer is Some && self.message is None ==> r == Err::<Commit, CommitError>(
                CommitError::MissingCommitMessage,
            ),
            self.committer is Some && self.message is Some ==> r == Ok::<Commit, CommitError>(
                Commit {
                    branch_ref: self.branch_ref,
                    author: self.author,
                    committer: self.committer->0,
                    message: self.message->0,
                    from: self.from,
                    merge: self.merge,
                    commands: self.commands,
                },
            ),
    {
        let committer = match self.committer {
            Some(c) => c,
            None => {
                return Err(CommitError::MissingCommitter);
            },
        };
        let message = match self.message {
            Some(m) => m,
            None => {
                return Err(CommitError::MissingCommitMessage);
            },
        };
        Ok(
            Commit {
                branch_ref: self.branch_ref,
                author: self.author,
                committer,
                message,
                from: self.from,
                merge: self.merge,
                commands: self.commands,
            },
        )
    }
}

pub open spec fn commands_wire(cs: Seq<FileCommand>) -> Seq<u8>
    decreases cs.len(),
{
    if cs.len() == 0 {
        Seq::empty()
    } else {
        commands_wire(cs.drop_last()) + file_command_wire(cs.last()) + "\n".spec_bytes()
    }
}

/// The commit command in wire format.
pub open spec fn author_wire(a: Option<Identity>) -> Seq<u8> {
    match a {
        Some(a) => "author ".spec_bytes() + identity_wire(a) + "\n".spec_bytes(),
        None => Seq::empty(),
    }
}

/// `<word> :<mark>` and a newline, where a mark is given.
pub open spec fn mark_line_wire(word: Seq<u8>, m: Option<Mark>) -> Seq<u8> {
    match m {
        Some(f) => word + mark_wire(f) + "\n".spec_bytes(),
        None => Seq::empty(),
    }
}

/// The commit command up to its message.
pub open spec fn commit_head_wire(c: Commit, m: Mark) -> Seq<u8> {
    commit_intro_wire(c, m) + author_wire(c.author) + committer_data_wire(c)
}

/// The commit command after its message.
pub open spec fn commit_tail_wire(c: Commit) -> Seq<u8> {
    mark_line_wire("from ".spec_bytes(), c.from) + mark_line_wire("merge ".spec_bytes(), c.merge)
        + commands_wire(c.commands@)
}

/// The commit command in wire format.
pub open spec fn commit_wire(c: Commit, m: Mark) -> Seq<u8> {
    commit_head_wire(c, m) + commit_tail_wire(c)
}

fn push_mark_line(out: &mut Vec<u8>, word: &str, m: Option<Mark>)
    ensures
        final(out)@ == old(out)@ + mark_line_wire(word.spec_bytes(), m),
{
    match m {
        Some(f) => {
            push_text(out, word);
            push_mark(out, f);
            push_text(out, "\n");
        },
        None => {},
    }
    assert(out@ =~= old(out)@ + mark_line_wire(word.spec_bytes(), m));
}

pub open spec fn commit_intro_wire(c: Commit, m: Mark) -> Seq<u8> {
    "commit ".spec_bytes() + c.branch_ref@ + "\nmark ".spec_bytes() + mark_wire(m) + "\n".spec_bytes()
}

pub open spec fn committer_data_wire(c: Commit) -> Seq<u8> {
    "committer ".spec_bytes() + identity_wire(c.committer) + "\ndata ".spec_bytes() + decimal(
        c.message@.len(),
    ) + "\n".spec_bytes() + c.message@ + "\n".spec_bytes()
}

fn push_commit_intro(out: &mut Vec<u8>, commit: &Commit, mark: Mark)
    ensures
        final(out)@ == old(out)@ + commit_intro_wire(*commit, mark),
{
    push_text(out, "commit ");
    append_bytes(out, commit.branch_ref.as_slice());
    push_text(out, "\nmark ");
    push_mark(out, mark);
    push_text(out, "\n");
    assert(out@ =~= old(out)@ + commit_intro_wire(*commit, mark));
}

fn push_author(out: &mut Vec<u8>, author: &Option<Identity>)
    ensures
        final(out)@ == old(out)@ + author_wire(*author),
{
    match author {
        Some(au) => {
            push_text(out, "author ");
            push_identity(out, au);
            push_text(out, "\n");
        },
        None => {},
    }
    assert(out@ =~= old(out)@ + author_wire(*author));
}

fn push_committer_data(out: &mut Vec<u8>, commit: &Commit)
    ensures
        final(out)@ == old(out)@ + committer_data_wire(*commit),
{
    push_text(out, "committer ");
    push_identity(out, &commit.committer);
    push_text(out, "\ndata ");
    push_decimal(out, commit.message.len() as u64);
    push_text(out, "\n");
    append_bytes(out, commit.message.as_slice());
    push_text(out, "\n");
    assert(out@ =~= old(out)@ + committer_data_wire(*commit));
}

fn push_commit_head(out: &mut Vec<u8>, commit: &Commit, mark: Mark)
    ensures
        final(out)@ == old(out)@ + commit_head_wire(*commit, mark),
{
    push_commit_intro(out, commit, mark);
    push_author(out, &commit.author);
    push_committer_data(out, commit);
    assert(out@ =~= old(out)@ + commit_head_wire(*commit, mark));
}

fn push_commit(out: &mut Vec<u8>, commit: &Commit, mark: Mark)
    ensures
        final(out)@ == old(out)@ + commit_wire(*commit, mark),
{
    push_commit_head(out, commit, mark);
    let ghost o0 = out@;
    push_mark_line(out, "from ", commit.from);
    push_mark_line(out, "merge ", commit.merge);
    let ghost o1 = out@;
    let mut i: usize = 0;
    while i < commit.commands.len()
        invariant
            i <= commit.commands@.len(),
            out@ == o1 + commands_wire(commit.commands@.subrange(0, i as int)),
        decreases commit.commands@.len() - i,
    {
        push_file_command(out, &commit.commands[i]);
        push_text(out, "\n");
        let ghost sub = commit.commands@.subrange(0, i + 1);
        assert(sub.drop_last() =~= commit.commands@.subrange(0, i as int));
        i = i + 1;
    }
    assert(commit.commands@.subrange(0, i as int) =~= commit.commands@);
    assert(out@ =~= o0 + commit_tail_wire(*commit));
    assert(out@ =~= old(out)@ + commit_wire(*commit, mark));
}

/// A `tag` command: an annotated tag on a commit.
#[derive(Debug, Clone)]
pub struct Tag {
    pub name: Vec<u8>,
    pub from: Mark,
    pub tagger: Identity,
    pub message: Vec<u8>,
}

impl Tag {
    /// An annotated tag named `name` on the commit `from`.
    pub fn new(name: Vec<u8>, from: Mark, tagger: Identity, message: Vec<u8>) -> (r: Tag)
        ensures
            r.name == name,
            r.from == from,
            r.tagger == tagger,
            r.message == message,
    {
        Tag { name, from, tagger, message }
    }
}

/// The tag command in wire format.
pub open spec fn tag_wire(t: Tag, m: Mark) -> Seq<u8> {
    tag_head_wire(t, m) + "\ntagger ".spec_bytes() + identity_wire(t.tagger) + data_wire(t.message@)
}

pub open spec fn tag_head_wire(t: Tag, m: Mark) -> Seq<u8> {
    "tag ".spec_bytes() + t.name@ + "\nmark ".spec_bytes() + mark_wire(m) + "\nfrom ".spec_bytes()
        + mark_wire(t.from)
}

/// `data`, the length, and the bytes, each followed by a newline.
pub open spec fn data_wire(d: Seq<u8>) -> Seq<u8> {
    "\ndata ".spec_bytes() + decimal(d.len()) + "\n".spec_bytes() + d + "\n".spec_bytes()
}

fn push_tag_head(out: &mut Vec<u8>, tag: &Tag, mark: Mark)
    ensures
        final(out)@ == old(out)@ + tag_head_wire(*tag, mark),
{
    push_text(out, "tag ");
    append_bytes(out, tag.name.as_slice());
    push_text(out, "\nmark ");
    push_mark(out, mark);
    push_text(out, "\nfrom ");
    push_mark(out, tag.from);
    assert(out@ =~= old(out)@ + tag_head_wire(*tag, mark));
}

fn push_data(out: &mut Vec<u8>, d: &[u8])
    ensures
        final(out)@ == old(out)@ + data_wire(d@),
{
    push_text(out, "\ndata ");
    push_decimal(out, d.len() as u64);
    push_text(out, "\n");
    append_bytes(out, d);
    push_text(out, "\n");
    assert(out@ =~= old(out)@ + data_wire(d@));
}

/// The command stream for `git fast-import`, gathered in memory, with the
/// counter that hands out marks.
#[derive(Debug)]
pub struct Writer {
    out: Vec<u8>,
    next_mark: usize,
}

/// The header: the features that the stream relies on, with the mark file.
pub open spec fn header_wire(mark_file: Seq<u8>) -> Seq<u8> {
    "feature done\nfeature date-format=raw\n".spec_bytes() + "feature import-marks-if-exists=".spec_bytes()
        + mark_file
        + "\nfeature export-marks=".spec_bytes() + mark_file + "\n".spec_bytes()
}

impl Writer {
    /// The bytes written and not yet taken.
    pub closed spec fn output(&self) -> Seq<u8> {
        self.out@
    }

    pub closed spec fn next_mark_spec(&self) -> usize {
        self.next_mark
    }

    /// A writer whose first mark follows `last_mark`, the last mark that the
    /// mark file holds (1 where there is none), and whose stream starts with
    /// the header.
    pub fn new(last_mark: Option<Mark>, mark_file: &[u8]) -> (r: Writer)
        requires
            last_mark matches Some(m) ==> m.0 < usize::MAX,
        ensures
            r.output() == header_wire(mark_file@),
            r.next_mark_spec() == match last_mark {
                Some(m) => (m.0 + 1) as usize,
                None => 1usize,
            },
    {
        let mut w = Writer {
            out: Vec::new(),
            next_mark: match last_mark {
                Some(m) => m.0 + 1,
                None => 1,
            },
        };
        w.send_generic_header();
        w.send_mark_header(mark_file);
        assert(w.out@ =~= header_wire(mark_file@));
        w
    }

    fn send_generic_header(&mut self)
        ensures
            final(self).out@ == old(self).out@ + "feature done\nfeature date-format=raw\n".spec_bytes(),
            final(self).next_mark == old(self).next_mark,
    {
        push_text(&mut self.out, "feature done\nfeature date-format=raw\n");
    }

    fn send_mark_header(&mut self, mark_file: &[u8])
        ensures
            final(self).out@ == old(self).out@ + "feature import-marks-if-exists=".spec_bytes()
                + mark_file@ + "\nfeature export-marks=".spec_bytes() + mark_file@ + "\n".spec_bytes(),
            final(self).next_mark == old(self).next_mark,
    {
        push_text(&mut self.out, "feature import-marks-if-exists=");
        append_bytes(&mut self.out, mark_file);
        push_text(&mut self.out, "\nfeature export-marks=");
        append_bytes(&mut self.out, mark_file);
        push_text(&mut self.out, "\n");
    }

    /// The mark that the next command will get.
    pub fn next_mark(&self) -> (r: usize)
        ensures
            r == self.next_mark_spec(),
    {
        self.next_mark
    }

    /// Sends a `checkpoint` command.
    pub fn checkpoint(&mut self)
        ensures
            final(self).output() == old(self).output() + "checkpoint\n".spec_bytes(),
            final(self).next_mark_spec() == old(self).next_mark_spec(),
    {
        push_text(&mut self.out, "checkpoint\n");
    }

    /// Sends a `progress` command.
    pub fn progress(&mut self, message: &[u8])
        ensures
            final(self).output() == old(self).output() + "progress ".spec_bytes() + message@
                + "\n".spec_bytes(),
            final(self).next_mark_spec() == old(self).next_mark_spec(),
    {
        push_text(&mut self.out, "progress ");
        append_bytes(&mut self.out, message);
        push_text(&mut self.out, "\n");
    }

    /// Sends a `reset` command, pointing the ref at `from` where given.
    pub fn reset(&mut self, branch_ref: &[u8], from: Option<Mark>)
        ensures
            final(self).output() == old(self).output() + "reset ".spec_bytes() + branch_ref@
                + "\n".spec_bytes() + mark_line_wire("from ".spec_bytes(), from),
            final(self).next_mark_spec() == old(self).next_mark_spec(),
    {
        push_text(&mut self.out, "reset ");
        append_bytes(&mut self.out, branch_ref);
        push_text(&mut self.out, "\n");
        push_mark_line(&mut self.out, "from ", from);
        assert(self.out@ =~= old(self).out@ + "reset ".spec_bytes() + branch_ref@ + "\n".spec_bytes()
            + mark_line_wire("from ".spec_bytes(), from));
    }

    /// Sends a blob and returns its mark.
    pub fn blob(&mut self, blob: &Blob) -> (r: Mark)
        requires
            old(self).next_mark_spec() < usize::MAX,
        ensures
            r == Mark(old(self).next_mark_spec()),
            final(self).next_mark_spec() == old(self).next_mark_spec() + 1,
            final(self).output() == old(self).output() + blob_wire(*blob, r),
    {
        let mark = Mark(self.next_mark);
        self.next_mark = self.next_mark + 1;
        push_text(&mut self.out, "blob\nmark ");
        push_mark(&mut self.out, mark);
        push_text(&mut self.out, "\ndata ");
        push_decimal(&mut self.out, blob.data.len() as u64);
        push_text(&mut self.out, "\n");
        append_bytes(&mut self.out, blob.data.as_slice());
        push_text(&mut self.out, "\n");
        assert(self.out@ =~= old(self).out@ + blob_wire(*blob, mark));
        mark
    }

    /// Sends a commit and returns its mark.
    pub fn commit(&mut self, commit: &Commit) -> (r: Mark)
        requires
            old(self).next_mark_spec() < usize::MAX,
        ensures
            r == Mark(old(self).next_mark_spec()),
            final(self).next_mark_spec() == old(self).next_mark_spec() + 1,
            final(self).output() == old(self).output() + commit_wire(*commit, r),
    {
        let mark = Mark(self.next_mark);
        self.next_mark = self.next_mark + 1;
        push_commit(&mut self.out, commit, mark);
        mark
    }

    /// Sends an annotated tag and returns its mark.
    pub fn tag(&mut self, tag: &Tag) -> (r: Mark)
        requires
            old(self).next_mark_spec() < usize::MAX,
        ensures
            r == Mark(old(self).next_mark_spec()),
            final(self).next_mark_spec() == old(self).next_mark_spec() + 1,
            final(self).output() == old(self).output() + tag_wire(*tag, r),
    {
        let mark = Mark(self.next_mark);
        self.next_mark = self.next_mark + 1;
        let ghost o0 = self.out@;
        push_tag_head(&mut self.out, tag, mark);
        push_text(&mut self.out, "\ntagger ");
        push_identity(&mut self.out, &tag.tagger);
        push_data(&mut self.out, tag.message.as_slice());
        assert(self.out@ =~= o0 + tag_wire(*tag, mark));
        mark
    }

    /// Takes the bytes written so far, leaving the writer's buffer empty.
    pub fn take_output(&mut self) -> (r: Vec<u8>)
        ensures
            r@ == old(self).output(),
            final(self).output() == Seq::<u8>::empty(),
            final(self).next_mark_spec() == old(self).next_mark_spec(),
    {
        let mut taken: Vec<u8> = Vec::new();
        std::mem::swap(&mut taken, &mut self.out);
        taken
    }

    /// Ends the stream with `done` and returns what is left of it.
    pub fn finish(self) -> (r: Vec<u8>)
        ensures
            r@ == self.output() + "done\n".spec_bytes(),
    {
        let mut out = self.out;
        push_text(&mut out, "done\n");
        out
    }
}

/// Why the mark file could not be read.
#[derive(Debug, Clone, Copy, PartialEq, Eq)]
pub enum MarkFileError {
    /// The last non-empty line is not `:<mark> <object>`.
    MarkParsingError,
}

pub open spec fn is_space(c: u8) -> bool {
    c == 32u8 || c == 9u8 || c == 13u8 || c == 10u8
}

pub open spec fn is_alnum(c: u8) -> bool {
    (48 <= c <= 57) || (65 <= c <= 90) || (97 <= c <= 122)
}

/// Index of the first non-space at or after `start`.
pub open spec fn space_end(s: Seq<u8>, start: int) -> int
    decreases s.len() - start,
{
    if start < 0 || start >= s.len() || !is_space(s[start]) {
        start
    } else {
        space_end(s, start + 1)
    }
}

/// The mark of a mark-file line `:<digits><spaces><alphanumeric>...`.
pub open spec fn mark_line_spec(line: Seq<u8>) -> Option<usize> {
    let e1 = digit_end(line, 1);
    let w = space_end(line, e1);
    if line.len() > 0 && line[0] == 58u8 && e1 > 1 && w > e1 && w < line.len() && is_alnum(line[w])
        && digits_value(line.subrange(1, e1)) <= usize::MAX {
        Some(digits_value(line.subrange(1, e1)) as usize)
    } else {
        None
    }
}

/// Index of the last non-empty line below `n`, or -1.
pub open spec fn last_nonempty(lines: Seq<Seq<u8>>, n: int) -> int
    decreases n,
{
    if n <= 0 {
        -1
    } else if lines[n - 1].len() > 0 {
        n - 1
    } else {
        last_nonempty(lines, n - 1)
    }
}

/// What the mark file says of the last mark.
pub open spec fn last_mark_spec(data: Seq<u8>) -> Result<Option<Mark>, MarkFileError> {
    let lines = split_lines(data);
    let k = last_nonempty(lines, lines.len() as int);
    if k < 0 {
        Ok(None)
    } else {
        match mark_line_spec(lines[k]) {
            Some(m) => Ok(Some(Mark(m))),
            None => Err(MarkFileError::MarkParsingError),
        }
    }
}

fn find_space_end(s: &[u8], start: usize) -> (r: usize)
    requires
        start <= s@.len(),
    ensures
        r as int == space_end(s@, start as int),
        start <= r <= s@.len(),
{
    let mut i = start;
    while i < s.len() && (s[i] == 32u8 || s[i] == 9u8 || s[i] == 13u8 || s[i] == 10u8)
        invariant
            start <= i <= s@.len(),
            space_end(s@, start as int) == space_end(s@, i as int),
        decreases s@.len() - i,
    {
        i = i + 1;
    }
    i
}

/// Reads a mark-file line.
fn mark_line(line: &[u8]) -> (r: Option<usize>)
    ensures
        r == mark_line_spec(line@),
{
    if line.len() == 0 || line[0] != 58u8 {
        return None;
    }
    let e1 = find_digit_end(line, 1);
    if e1 <= 1 {
        return None;
    }
    let w = find_space_end(line, e1);
    if w <= e1 || w >= line.len() {
        return None;
    }
    let c = line[w];
    if !((48 <= c && c <= 57) || (65 <= c && c <= 90) || (97 <= c && c <= 122)) {
        return None;
    }
    read_number(line, 1, e1)
}

/// The last mark recorded in a mark file's contents: that of its last
/// non-empty line, or `None` where every line is empty.
pub fn get_last_mark(data: &[u8]) -> (r: Result<Option<Mark>, MarkFileError>)
    ensures
        r == last_mark_spec(data@),
{
    let lines = split_newlines(data);
    let ghost lv = lines_view(lines@);
    let mut n = lines.len();
    while n > 0 && lines[n - 1].len() == 0
        invariant
            n <= lines@.len(),
            lv == lines_view(lines@),
            last_nonempty(lv, lv.len() as int) == last_nonempty(lv, n as int),
        decreases n,
    {
        assert(lv[n - 1] == lines@[n - 1]@);
        n = n - 1;
    }
    if n == 0 {
        return Ok(None);
    }
    assert(lv[n - 1] == lines@[n - 1]@);
    match mark_line(lines[n - 1].as_slice()) {
        Some(m) => Ok(Some(Mark(m))),
        None => Err(MarkFileError::MarkParsingError),
    }
}

} // verus!
