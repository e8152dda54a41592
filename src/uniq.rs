use vstd::prelude::*;
use vstd::string::*;

use crate::format::{decimal, push_decimal, push_right_justified, right_justify};
use crate::laws::law_split_is_unique;

verus! {

/// Width of the field that holds an occurrence count.
pub const COUNT_WIDTH: usize = 4;

/// What a line is compared by: its text without a trailing `\n` or `\r\n`.
pub open spec fn key(line: Seq<char>) -> Seq<char> {
    let n = line.len();
    if n >= 1 && line[n - 1] == '\n' {
        if n >= 2 && line[n - 2] == '\r' {
            line.take(n - 2)
        } else {
            line.take(n - 1)
        }
    } else {
        line
    }
}

/// A group as the model sees it: representative text and number of lines.
pub type GroupModel = (Seq<char>, nat);

/// The groups after one more line: it joins the last group when its key is
/// that group's, and opens a group of its own otherwise.
pub open spec fn push_line(gs: Seq<GroupModel>, line: Seq<char>) -> Seq<GroupModel> {
    if gs.len() > 0 && key(gs.last().0) == key(line) {
        gs.update(gs.len() - 1, (gs.last().0, gs.last().1 + 1))
    } else {
        gs.push((line, 1))
    }
}

/// Run-length encoding of `lines`: each maximal run of adjacent lines with
/// equal keys becomes its first line and the length of the run.
pub open spec fn groups(lines: Seq<Seq<char>>) -> Seq<GroupModel>
    decreases lines.len(),
{
    if lines.len() == 0 {
        Seq::empty()
    } else {
        push_line(groups(lines.drop_last()), lines.last())
    }
}

/// The text written for one group: nothing for a count of zero; otherwise the
/// count right-justified in four columns and a space when counts are shown,
/// then the representative verbatim.
pub open spec fn formatted(text: Seq<char>, count: nat, with_count: bool) -> Seq<char> {
    if count == 0 {
        Seq::empty()
    } else if with_count {
        right_justify(decimal(count), COUNT_WIDTH as nat) + seq![' '] + text
    } else {
        text
    }
}

/// The text written for a sequence of groups, in order.
pub open spec fn render(gs: Seq<GroupModel>, with_count: bool) -> Seq<char>
    decreases gs.len(),
{
    if gs.len() == 0 {
        Seq::empty()
    } else {
        render(gs.drop_last(), with_count) + formatted(gs.last().0, gs.last().1, with_count)
    }
}

/// The representatives of a sequence of groups.
pub open spec fn representatives(gs: Seq<GroupModel>) -> Seq<Seq<char>> {
    gs.map_values(|g: GroupModel| g.0)
}

/// Total of the counts of a sequence of groups.
pub open spec fn total_count(gs: Seq<GroupModel>) -> nat
    decreases gs.len(),
{
    if gs.len() == 0 {
        0
    } else {
        total_count(gs.drop_last()) + gs.last().1
    }
}

/// The views of a sequence of strings.
pub open spec fn lines_view(lines: Seq<String>) -> Seq<Seq<char>> {
    lines.map_values(|s: String| s@)
}

/// A completed group: its representative line and how many lines it took.
pub struct Group {
    pub text: String,
    pub count: u64,
}

/// Input configuration of a run: where lines come from (`-` for standard
/// input), where output goes (standard output when absent), and whether
/// counts are shown.
pub struct Config {
    pub in_file: String,
    pub out_file: Option<String>,
    pub count: bool,
}

/// The state of the current run of adjacent equal lines: empty, or a
/// representative with its key and a positive count.
pub struct Tracker {
    rep: String,
    rep_key: String,
    count: u64,
}

/// The key of `line`, as a string.
pub fn line_key(line: &str) -> (r: String)
    ensures
        r@ == key(line@),
{
    let n = line.unicode_len();
    let mut k: usize = n;
    if n >= 1 && line.get_char(n - 1) == '\n' {
        if n >= 2 && line.get_char(n - 2) == '\r' {
            k = n - 2;
        } else {
            k = n - 1;
        }
    }
    line.substring_char(0, k).to_owned()
}

/// The text written for a group of `count` lines represented by `text`.
pub fn format_group(count: u64, text: &str, with_count: bool) -> (r: String)
    ensures
        r@ == formatted(text@, count as nat, with_count),
{
    let mut out = String::new();
    if count == 0 {
        return out;
    }
    if with_count {
        let mut digits = String::new();
        push_decimal(&mut digits, count);
        push_right_justified(&mut out, digits.as_str(), COUNT_WIDTH);
        proof { reveal_strlit(" "); }
        out.append(" ");
    }
    out.append(text);
    proof {
        assert(out@ =~= formatted(text@, count as nat, with_count));
    }
    out
}

impl Tracker {
    /// The state is consistent: the stored key is the representative's.
    pub closed spec fn wf(&self) -> bool {
        self.rep_key@ == key(self.rep@)
    }

    /// The group being accumulated: none, or one with a positive count.
    pub closed spec fn pending(&self) -> Seq<GroupModel> {
        if self.count == 0 {
            Seq::empty()
        } else {
            seq![(self.rep@, self.count as nat)]
        }
    }

    /// An empty tracker.
    pub fn new() -> (t: Tracker)
        ensures
            t.wf(),
            t.pending() == Seq::<GroupModel>::empty(),
    {
        Tracker { rep: String::new(), rep_key: String::new(), count: 0 }
    }

    /// Number of lines in the pending group (zero when there is none).
    pub fn count(&self) -> (r: u64)
        ensures
            r == (if self.pending().len() == 0 { 0 } else { self.pending()[0].1 }),
    {
        self.count
    }

    /// Takes in one line. When it starts a new group while another is
    /// pending, the pending group is completed and returned.
    pub fn feed(&mut self, line: String) -> (r: Option<Group>)
        requires
            old(self).wf(),
            old(self).pending().len() == 0 || old(self).pending()[0].1 < u64::MAX,
        ensures
            final(self).wf(),
            final(self).pending().len() == 1,
            emitted(r) + final(self).pending() == push_line(old(self).pending(), line@),
            r matches Some(g) ==> g.count > 0,
            final(self).pending()[0].1 == 1 || final(self).pending()[0].1 == old(self).pending()[0].1
                + 1,
    {
        let k = line_key(line.as_str());
        if self.count > 0 && k == self.rep_key {
            self.count = self.count + 1;
            None
        } else {
            let old_count = self.count;
            let old_rep = self.rep.clone();
            self.rep = line;
            self.rep_key = k;
            self.count = 1;
            if old_count > 0 {
                Some(Group { text: old_rep, count: old_count })
            } else {
                None
            }
        }
    }

    /// Ends the input: the pending group, if any, is returned.
    pub fn finish(self) -> (r: Option<Group>)
        ensures
            emitted(r) == self.pending(),
            r matches Some(g) ==> g.count > 0,
    {
        if self.count > 0 {
            Some(Group { text: self.rep, count: self.count })
        } else {
            None
        }
    }
}

/// The groups that an optional completed group stands for.
pub open spec fn emitted(r: Option<Group>) -> Seq<GroupModel> {
    match r {
        Some(g) => seq![(g.text@, g.count as nat)],
        None => Seq::empty(),
    }
}


proof fn lemma_push_line_after(done: Seq<GroupModel>, pending: Seq<GroupModel>, line: Seq<char>)
    requires
        pending.len() == 1,
    ensures
        push_line(done + pending, line) == done + push_line(pending, line),
{
    let gs = done + pending;
    assert(gs.last() == pending.last());
    assert(push_line(gs, line) =~= done + push_line(pending, line));
}

proof fn lemma_render_push(gs: Seq<GroupModel>, g: GroupModel, with_count: bool)
    ensures
        render(gs.push(g), with_count) == render(gs, with_count) + formatted(g.0, g.1, with_count),
{
    assert(gs.push(g).drop_last() =~= gs);
}

/// Runs the grouping engine over `lines` and returns everything it writes:
/// one formatted group per maximal run of adjacent lines with equal keys.
pub fn uniq_lines(lines: &Vec<String>, with_count: bool) -> (out: String)
    ensures
        out@ == render(groups(lines_view(lines@)), with_count),
{
    let mut tracker = Tracker::new();
    let mut out = String::new();
    let ghost mut done: Seq<GroupModel> = Seq::empty();
    let mut i: usize = 0;
    while i < lines.len()
        invariant
            i <= lines.len(),
            tracker.wf(),
            done + tracker.pending() == groups(lines_view(lines@.take(i as int))),
            i > 0 ==> tracker.pending().len() == 1,
            tracker.pending().len() == 1 ==> tracker.pending()[0].1 <= i,
            out@ == render(done, with_count),
        decreases lines.len() - i,
    {
        let ghost before = tracker.pending();
        let ghost prefix = lines_view(lines@.take(i as int));
        let line = lines[i].clone();
        let r = tracker.feed(line);
        proof {
            let next = lines_view(lines@.take(i + 1));
            assert(next.drop_last() =~= prefix);
            assert(next.last() == lines@[i as int]@);
            if i > 0 {
                lemma_push_line_after(done, before, lines@[i as int]@);
            } else {
                assert(done + before =~= before);
                assert(done =~= Seq::<GroupModel>::empty());
            }
        }
        match r {
            Some(g) => {
                let piece = format_group(g.count, g.text.as_str(), with_count);
                out.append(piece.as_str());
                proof {
                    lemma_render_push(done, (g.text@, g.count as nat), with_count);
                    done = done.push((g.text@, g.count as nat));
                }
            },
            None => {},
        }
        proof {
            assert(done + tracker.pending() =~= groups(lines_view(lines@.take(i + 1))));
        }
        i = i + 1;
    }
    let last = tracker.finish();
    assert(lines@.take(lines.len() as int) =~= lines@);
    match last {
        Some(g) => {
            let piece = format_group(g.count, g.text.as_str(), with_count);
            out.append(piece.as_str());
            proof {
                lemma_render_push(done, (g.text@, g.count as nat), with_count);
                assert(done.push((g.text@, g.count as nat)) =~= done + emitted(last));
            }
        },
        None => {
            assert(done + Seq::<GroupModel>::empty() =~= done);
        },
    }
    out
}

/// Why a run failed: the input could not be opened, a line could not be
/// read, or output could not be written.
pub enum RunError {
    Open { path: String, cause: String },
    Read { cause: String },
    Write { cause: String },
}

/// The message reported for an error: an open failure names the path
/// before its cause.
pub open spec fn error_message(e: RunError) -> Seq<char> {
    match e {
        RunError::Open { path, cause } => path@ + ": "@ + cause@,
        RunError::Read { cause } => cause@,
        RunError::Write { cause } => cause@,
    }
}

impl RunError {
    /// The text reported for this error.
    pub fn message(&self) -> (r: String)
        ensures
            r@ == error_message(*self),
    {
        match self {
            RunError::Open { path, cause } => {
                let mut m = path.clone();
                m.append(": ");
                m.append(cause.as_str());
                m
            },
            RunError::Read { cause } => cause.clone(),
            RunError::Write { cause } => cause.clone(),
        }
    }
}

/// The path that stands for standard input.
pub open spec fn is_stdin_path(path: Seq<char>) -> bool {
    path == seq!['-']
}

impl Config {
    /// Whether lines are read from standard input rather than a file.
    pub fn reads_stdin(&self) -> (r: bool)
        ensures
            r == is_stdin_path(self.in_file@),
    {
        let p = self.in_file.as_str();
        let r = p.unicode_len() == 1 && p.get_char(0) == '-';
        assert(r ==> p@ =~= seq!['-']);
        r
    }
}


/// The lines of a sequence joined back together.
pub open spec fn concat(lines: Seq<Seq<char>>) -> Seq<char>
    decreases lines.len(),
{
    if lines.len() == 0 {
        Seq::empty()
    } else {
        concat(lines.drop_last()) + lines.last()
    }
}

/// `lines` is `text` cut after each newline: together they are `text`, none
/// is empty, a newline only ends a line, and every line but the last ends
/// with one.
pub open spec fn is_split_of(lines: Seq<Seq<char>>, text: Seq<char>) -> bool {
    &&& concat(lines) == text
    &&& forall|i: int| 0 <= i < lines.len() ==> (#[trigger] lines[i]).len() > 0
    &&& forall|i: int, j: int|
        0 <= i < lines.len() && 0 <= j < lines[i].len() - 1 ==> #[trigger] lines[i][j] != '\n'
    &&& forall|i: int| 0 <= i < lines.len() - 1 ==> (#[trigger] lines[i]).last() == '\n'
}

/// Cuts `text` into lines, each keeping its terminator; a last line without
/// one is kept as it is.
pub fn split_lines(text: &str) -> (r: Vec<String>)
    ensures
        is_split_of(lines_view(r@), text@),
{
    let cs = crate::text::chars_of(text);
    let n = cs.len();
    let mut r: Vec<String> = Vec::new();
    let mut start: usize = 0;
    let mut i: usize = 0;
    while i < n
        invariant
            start <= i <= n,
            n == cs@.len(),
            cs@ == text@,
            concat(lines_view(r@)) == cs@.take(start as int),
            forall|j: int| start <= j < i ==> cs@[j] != '\n',
            forall|k: int| 0 <= k < r@.len() ==> (#[trigger] r@[k])@.len() > 0,
            forall|k: int| 0 <= k < r@.len() ==> (#[trigger] r@[k])@.last() == '\n',
            forall|k: int, j: int|
                0 <= k < r@.len() && 0 <= j < r@[k]@.len() - 1 ==> #[trigger] r@[k]@[j] != '\n',
        decreases n - i,
    {
        if cs[i] == '\n' {
            let line = text.substring_char(start, i + 1).to_owned();
            proof {
                let old_r = r@;
                assert(line@ =~= cs@.subrange(start as int, i + 1));
                assert(lines_view(old_r.push(line)) =~= lines_view(old_r).push(line@));
                assert(lines_view(old_r).push(line@).drop_last() =~= lines_view(old_r));
                assert(cs@.take(start as int) + line@ =~= cs@.take(i + 1));
            }
            r.push(line);
            start = i + 1;
        }
        i = i + 1;
    }
    if start < n {
        let line = text.substring_char(start, n).to_owned();
        proof {
            let old_r = r@;
            assert(line@ =~= cs@.subrange(start as int, n as int));
            assert(lines_view(old_r.push(line)) =~= lines_view(old_r).push(line@));
            assert(lines_view(old_r).push(line@).drop_last() =~= lines_view(old_r));
            assert(cs@.take(start as int) + line@ =~= cs@.take(n as int));
        }
        r.push(line);
    }
    assert(cs@.take(n as int) =~= cs@);
    let ghost v = lines_view(r@);
    assert forall|i: int| 0 <= i < v.len() implies (#[trigger] v[i]).len() > 0 by {
        assert(v[i] == r@[i]@);
    }
    assert forall|i: int, j: int| 0 <= i < v.len() && 0 <= j < v[i].len() - 1 implies #[trigger] v[i][j]
        != '\n' by {
        assert(v[i] == r@[i]@);
    }
    assert forall|i: int| 0 <= i < v.len() - 1 implies (#[trigger] v[i]).last() == '\n' by {
        assert(v[i] == r@[i]@);
    }
    r
}

/// Runs the grouping engine over the lines of `text`.
pub fn uniq_text(text: &str, with_count: bool) -> (out: String)
    ensures
        exists|lines: Seq<Seq<char>>| is_split_of(lines, text@),
        forall|lines: Seq<Seq<char>>|
            is_split_of(lines, text@) ==> out@ == render(groups(lines), with_count),
{
    let lines = split_lines(text);
    let out = uniq_lines(&lines, with_count);
    proof {
        let v = lines_view(lines@);
        assert(is_split_of(v, text@));
        assert forall|other: Seq<Seq<char>>| is_split_of(other, text@) implies out@ == render(
            groups(other),
            with_count,
        ) by {
            law_split_is_unique(v, other, text@);
        }
    }
    out
}

} // verus!
