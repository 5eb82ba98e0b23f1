//! Recording the source locations of the steps of an annotated schedule. Each recorded step
//! carries the frames of its task's backtrace that lie in the project's own sources: the file and
//! the function of each frame are interned in tables, so that a frame refers to them by index,
//! and each task remembers the first and the last step it took. Capturing the backtrace, and
//! writing the recording out, is the caller's part.
use vstd::prelude::*;
use regex::Regex;
use crate::text::chars_of;

verus! {

/// The capture groups of each match of the regular expression `pattern` in `text`, left to
/// right: group 0, the whole match, first, and a group that took no part in the match as empty
/// text. `None` where `pattern` is not a regular expression the `regex` crate accepts.
pub uninterp spec fn regex_captures(pattern: Seq<char>, text: Seq<char>) -> Option<Seq<Seq<Seq<char>>>>;

/// The text of each group of each match.
pub open spec fn captures_view(m: Seq<Vec<String>>) -> Seq<Seq<Seq<char>>> {
    Seq::new(m.len(), |i: int| Seq::new(m[i]@.len(), |j: int| m[i]@[j]@))
}

/// `Regex::new(pattern)`, then `captures_iter(text)` of the `regex` crate, each match's groups
/// taken by `Captures::iter` as their text. The matches are those the crate finds, named and not
/// stated; a pattern the crate refuses gives `None`.
#[verifier::external_body]
fn captures_of(pattern: &str, text: &str) -> (r: Option<Vec<Vec<String>>>)
    ensures
        match regex_captures(pattern@, text@) {
            Some(m) => r matches Some(v) && captures_view(v@) == m,
            None => r is None,
        },
{
    match Regex::new(pattern) {
        Ok(re) => Some(
            re.captures_iter(text).map(|c| c.iter().map(|g| g.map_or(String::new(), |m| m.as_str().to_string())).collect()).collect(),
        ),
        Err(_) => None,
    }
}

/// The pattern of a backtrace frame in the project's own sources: its number, its function, and
/// on the next line the path under `./src/`, the line and the column.
pub open spec fn frame_pattern() -> Seq<char> {
    r"([0-9]+): ([^\n]+)\n +at (\./src/[^:]+):([0-9]+):([0-9]+)\b"@
}

/// The value of a decimal numeral: some digits, and nothing else.
pub open spec fn decimal_value(s: Seq<char>) -> Option<nat>
    decreases s.len(),
{
    if s.len() == 0 {
        None
    } else {
        let c = s.last();
        if !('0' <= c && c <= '9') {
            None
        } else if s.len() == 1 {
            Some(((c as int) - 48) as nat)
        } else {
            match decimal_value(s.drop_last()) {
                Some(v) => Some(v * 10 + ((c as int) - 48) as nat),
                None => None,
            }
        }
    }
}

/// A frame: its function, its path, its line and its column.
pub type FrameText = (Seq<char>, Seq<char>, nat, nat);

/// The frame a match gives: the function, the path, and the line and column where they are
/// numerals that fit in a `usize`.
pub open spec fn frame_of(groups: Seq<Seq<char>>) -> Option<FrameText> {
    if groups.len() != 6 {
        None
    } else {
        match (decimal_value(groups[4]), decimal_value(groups[5])) {
            (Some(line), Some(column)) => if line <= usize::MAX && column <= usize::MAX {
                Some((groups[2], groups[3], line, column))
            } else {
                None
            },
            _ => None,
        }
    }
}

/// The frames the matches give, in order.
pub open spec fn frames_of(matches: Seq<Seq<Seq<char>>>) -> Seq<FrameText>
    decreases matches.len(),
{
    if matches.len() == 0 {
        Seq::empty()
    } else {
        let rest = frames_of(matches.drop_last());
        match frame_of(matches.last()) {
            Some(f) => rest.push(f),
            None => rest,
        }
    }
}

/// The frames of a backtrace's text that lie in the project's own sources, in order.
pub open spec fn local_frames_spec(text: Seq<char>) -> Seq<FrameText> {
    match regex_captures(frame_pattern(), text) {
        Some(m) => frames_of(m),
        None => Seq::empty(),
    }
}

/// The views of frames.
pub open spec fn frames_view(v: Seq<(String, String, usize, usize)>) -> Seq<FrameText> {
    Seq::new(v.len(), |i: int| (v[i].0@, v[i].1@, v[i].2 as nat, v[i].3 as nat))
}

/// The value of a decimal numeral, where it is one that fits in a `usize`.
fn parse_decimal(s: &String) -> (r: Option<usize>)
    ensures
        match decimal_value(s@) {
            Some(v) => if v <= usize::MAX { r == Some(v as usize) } else { r is None },
            None => r is None,
        },
{
    let chars = chars_of(s.as_str());
    if chars.len() == 0 {
        return None;
    }
    let mut v: usize = 0;
    let mut i: usize = 0;
    while i < chars.len()
        invariant
            0 <= i <= chars@.len(),
            chars@ == s@,
            chars@.len() > 0,
            i == 0 ==> v == 0,
            i > 0 ==> decimal_value(chars@.take(i as int)) == Some(v as nat),
        decreases chars@.len() - i,
    {
        let c = chars[i];
        let ghost prefix = chars@.take(i as int);
        let ghost next = chars@.take(i + 1);
        proof {
            assert(next.drop_last() =~= prefix);
            assert(next.last() == c);
        }
        if !('0' <= c && c <= '9') {
            proof {
                lemma_not_decimal_extends(chars@, i + 1);
            }
            return None;
        }
        let d = (c as u32 - '0' as u32) as usize;
        if v > (usize::MAX - d) / 10 {
            proof {
                lemma_decimal_grows(chars@, i + 1);
            }
            return None;
        }
        v = v * 10 + d;
        i = i + 1;
    }
    proof {
        assert(chars@.take(i as int) =~= chars@);
    }
    Some(v)
}

/// A prefix that is no numeral makes no numeral of the whole.
proof fn lemma_not_decimal_extends(s: Seq<char>, k: int)
    requires
        0 < k <= s.len(),
        decimal_value(s.take(k)) is None,
    ensures
        decimal_value(s) is None,
    decreases s.len() - k,
{
    if k < s.len() {
        assert(s.take(k + 1).drop_last() =~= s.take(k));
        lemma_not_decimal_extends(s, k + 1);
    } else {
        assert(s.take(k) =~= s);
    }
}

/// A numeral is at least as large as any of its prefixes.
proof fn lemma_decimal_grows(s: Seq<char>, k: int)
    requires
        0 < k <= s.len(),
    ensures
        decimal_value(s.take(k)) is None ==> decimal_value(s) is None,
        decimal_value(s.take(k)) matches Some(p) ==> (decimal_value(s) is None || decimal_value(s)->0 >= p),
    decreases s.len() - k,
{
    if k < s.len() {
        assert(s.take(k + 1).drop_last() =~= s.take(k));
        lemma_decimal_grows(s, k + 1);
    } else {
        assert(s.take(k) =~= s);
    }
}

/// The frames of a backtrace's text that lie in the project's own sources, in order; a frame
/// whose line or column does not fit in a `usize` is left out.
pub fn local_frames(text: &str) -> (r: Vec<(String, String, usize, usize)>)
    ensures
        frames_view(r@) == local_frames_spec(text@),
{
    let pattern = r"([0-9]+): ([^\n]+)\n +at (\./src/[^:]+):([0-9]+):([0-9]+)\b";
    let matches = match captures_of(pattern, text) {
        Some(m) => m,
        None => {
            let r: Vec<(String, String, usize, usize)> = Vec::new();
            proof {
                assert(frames_view(r@) =~= Seq::<FrameText>::empty());
            }
            return r;
        },
    };
    let ghost all = captures_view(matches@);
    let mut r: Vec<(String, String, usize, usize)> = Vec::new();
    let mut i: usize = 0;
    proof {
        assert(all.take(0) =~= Seq::<Seq<Seq<char>>>::empty());
        assert(frames_view(r@) =~= Seq::<FrameText>::empty());
    }
    while i < matches.len()
        invariant
            i <= matches@.len(),
            all == captures_view(matches@),
            frames_view(r@) == frames_of(all.take(i as int)),
        decreases matches@.len() - i,
    {
        let groups = &matches[i];
        proof {
            assert(all.take(i + 1).drop_last() =~= all.take(i as int));
            assert(all.take(i + 1).last() == all[i as int]);
            assert(all[i as int] == Seq::new(groups@.len(), |j: int| groups@[j]@));
        }
        if groups.len() == 6 {
            let line = parse_decimal(&groups[4]);
            let column = parse_decimal(&groups[5]);
            match (line, column) {
                (Some(l), Some(c)) => {
                    let ghost before = frames_view(r@);
                    r.push((groups[2].clone(), groups[3].clone(), l, c));
                    proof {
                        assert(frames_view(r@) =~= before.push((groups@[2]@, groups@[3]@, l as nat, c as nat)));
                    }
                },
                _ => {},
            }
        }
        i = i + 1;
    }
    proof {
        assert(all.take(i as int) =~= all);
    }
    r
}

/// A recorded frame: its file and function, as indices into the tables, its line and its column.
pub type FrameIds = (nat, nat, nat, nat);

/// The state of a recording, as values: the files and the functions met so far, the first and
/// the last step of each task, and the task and the frames of each step.
pub struct RecordingView {
    pub files: Seq<Seq<char>>,
    pub functions: Seq<Seq<char>>,
    pub tasks: Seq<(nat, nat)>,
    pub steps: Seq<(nat, Seq<FrameIds>)>,
}

/// The first index of `s` in `table` at or after `from`, if any.
pub open spec fn position_from(table: Seq<Seq<char>>, s: Seq<char>, from: int) -> Option<nat>
    decreases table.len() - from,
{
    if from < 0 || from >= table.len() {
        None
    } else if table[from] == s {
        Some(from as nat)
    } else {
        position_from(table, s, from + 1)
    }
}

/// The table with `s` interned, and the index of `s` in it: the first where `s` already is,
/// else a new one at the end.
pub open spec fn intern(table: Seq<Seq<char>>, s: Seq<char>) -> (Seq<Seq<char>>, nat) {
    match position_from(table, s, 0) {
        Some(i) => (table, i),
        None => (table.push(s), table.len()),
    }
}

/// The tables once the frames are interned in turn, and the frames by index.
pub open spec fn intern_frames(files: Seq<Seq<char>>, functions: Seq<Seq<char>>, frames: Seq<FrameText>) -> (Seq<Seq<char>>, Seq<Seq<char>>, Seq<FrameIds>)
    decreases frames.len(),
{
    if frames.len() == 0 {
        (files, functions, Seq::empty())
    } else {
        let (f1, g1, ids) = intern_frames(files, functions, frames.drop_last());
        let fr = frames.last();
        let (f2, file) = intern(f1, fr.1);
        let (g2, function) = intern(g1, fr.0);
        (f2, g2, ids.push((file, function, fr.2, fr.3)))
    }
}

/// The recording of an annotated schedule.
pub struct Recording {
    files: Vec<String>,
    functions: Vec<String>,
    tasks: Vec<(usize, usize)>,
    steps: Vec<(usize, Vec<(usize, usize, usize, usize)>)>,
}

/// The views of frames by index.
pub open spec fn ids_view(v: Seq<(usize, usize, usize, usize)>) -> Seq<FrameIds> {
    Seq::new(v.len(), |i: int| (v[i].0 as nat, v[i].1 as nat, v[i].2 as nat, v[i].3 as nat))
}

/// The views of texts.
pub open spec fn texts_view(v: Seq<String>) -> Seq<Seq<char>> {
    Seq::new(v.len(), |i: int| v[i]@)
}

/// The index of `s` in `table`, interning it at the end where it is not there yet.
fn intern_text(table: &mut Vec<String>, s: &String) -> (r: usize)
    requires
        old(table)@.len() < usize::MAX,
    ensures
        texts_view(final(table)@) == intern(texts_view(old(table)@), s@).0,
        r as nat == intern(texts_view(old(table)@), s@).1,
{
    let ghost t = texts_view(table@);
    let mut i: usize = 0;
    while i < table.len()
        invariant
            i <= table@.len(),
            t == texts_view(table@),
            table@ == old(table)@,
            position_from(t, s@, 0) == position_from(t, s@, i as int),
        decreases table@.len() - i,
    {
        if table[i] == *s {
            return i;
        }
        i = i + 1;
    }
    let n = table.len();
    table.push(s.clone());
    proof {
        assert(texts_view(table@) =~= t.push(s@));
    }
    n
}

impl Recording {
    pub closed spec fn view(&self) -> RecordingView {
        RecordingView {
            files: texts_view(self.files@),
            functions: texts_view(self.functions@),
            tasks: Seq::new(self.tasks@.len(), |i: int| (self.tasks@[i].0 as nat, self.tasks@[i].1 as nat)),
            steps: Seq::new(self.steps@.len(), |i: int| (self.steps@[i].0 as nat, ids_view(self.steps@[i].1@))),
        }
    }

    /// Nothing recorded.
    pub fn new() -> (r: Recording)
        ensures
            r.view().files.len() == 0,
            r.view().functions.len() == 0,
            r.view().tasks.len() == 0,
            r.view().steps.len() == 0,
    {
        Recording { files: Vec::new(), functions: Vec::new(), tasks: Vec::new(), steps: Vec::new() }
    }

    /// The files met, by index.
    pub fn files(&self) -> (r: &[String])
        ensures
            texts_view(r@) == self.view().files,
    {
        self.files.as_slice()
    }

    /// The functions met, by index.
    pub fn functions(&self) -> (r: &[String])
        ensures
            texts_view(r@) == self.view().functions,
    {
        self.functions.as_slice()
    }

    /// The first and the last step of each task.
    pub fn tasks(&self) -> (r: &[(usize, usize)])
        ensures
            Seq::new(r@.len(), |i: int| (r@[i].0 as nat, r@[i].1 as nat)) == self.view().tasks,
    {
        self.tasks.as_slice()
    }

    /// The task and the frames of each step.
    pub fn steps(&self) -> (r: &[(usize, Vec<(usize, usize, usize, usize)>)])
        ensures
            Seq::new(r@.len(), |i: int| (r@[i].0 as nat, ids_view(r@[i].1@))) == self.view().steps,
    {
        self.steps.as_slice()
    }

    /// A new task, which has taken no step yet: its first step is the largest there can be and
    /// its last the first.
    pub fn add_task(&mut self)
        ensures
            final(self).view() == (RecordingView {
                tasks: old(self).view().tasks.push((usize::MAX as nat, 0nat)),
                ..old(self).view()
            }),
    {
        let ghost v = self.view();
        self.tasks.push((usize::MAX, 0));
        proof {
            assert(self.view().tasks =~= v.tasks.push((usize::MAX as nat, 0nat)));
            assert(self.view().steps =~= v.steps);
        }
    }

    /// Records a step of `task` whose backtrace has the given frames: the step's number is the
    /// number of steps recorded before it, which becomes the task's first step if it is earlier
    /// and its last if later; the frames' files and functions are interned in turn.
    pub fn record_frames(&mut self, task: usize, frames: Vec<(String, String, usize, usize)>)
        requires
            task < old(self).view().tasks.len(),
            old(self).view().steps.len() < usize::MAX,
            old(self).view().files.len() + frames@.len() < usize::MAX,
            old(self).view().functions.len() + frames@.len() < usize::MAX,
        ensures
            ({
                let v = old(self).view();
                let step = v.steps.len();
                let (first, last) = v.tasks[task as int];
                let (files, functions, ids) = intern_frames(v.files, v.functions, frames_view(frames@));
                final(self).view() == (RecordingView {
                    files,
                    functions,
                    tasks: v.tasks.update(task as int, (if step < first { step } else { first }, if step > last { step } else { last })),
                    steps: v.steps.push((task as nat, ids)),
                })
            }),
    {
        let ghost v = self.view();
        let step = self.steps.len();
        let (first, last) = self.tasks[task];
        let first2 = if step < first { step } else { first };
        let last2 = if step > last { step } else { last };
        self.tasks.set(task, (first2, last2));
        let ghost fv = frames_view(frames@);
        let mut ids: Vec<(usize, usize, usize, usize)> = Vec::new();
        let mut i: usize = 0;
        proof {
            assert(fv.take(0) =~= Seq::<FrameText>::empty());
            assert(ids_view(ids@) =~= Seq::<FrameIds>::empty());
        }
        while i < frames.len()
            invariant
                i <= frames@.len(),
                fv == frames_view(frames@),
                v.files.len() + frames@.len() < usize::MAX,
                v.functions.len() + frames@.len() < usize::MAX,
                texts_view(self.files@).len() <= v.files.len() + i,
                texts_view(self.functions@).len() <= v.functions.len() + i,
                (texts_view(self.files@), texts_view(self.functions@), ids_view(ids@))
                    == intern_frames(v.files, v.functions, fv.take(i as int)),
                self.steps@ == old(self).steps@,
                self.tasks@ == old(self).tasks@.update(task as int, (first2, last2)),
                self.files@.len() == texts_view(self.files@).len(),
                self.functions@.len() == texts_view(self.functions@).len(),
            decreases frames@.len() - i,
        {
            let ghost ids0 = ids_view(ids@);
            proof {
                assert(fv.take(i + 1).drop_last() =~= fv.take(i as int));
                assert(fv.take(i + 1).last() == fv[i as int]);
            }
            let file = intern_text(&mut self.files, &frames[i].1);
            let function = intern_text(&mut self.functions, &frames[i].0);
            ids.push((file, function, frames[i].2, frames[i].3));
            proof {
                assert(ids_view(ids@) =~= ids0.push((file as nat, function as nat, frames@[i as int].2 as nat, frames@[i as int].3 as nat)));
            }
            i = i + 1;
        }
        proof {
            assert(fv.take(i as int) =~= fv);
        }
        let ghost idv = ids_view(ids@);
        self.steps.push((task, ids));
        proof {
            assert(self.view().steps =~= v.steps.push((task as nat, idv)));
            assert(self.view().tasks =~= v.tasks.update(task as int, (first2 as nat, last2 as nat)));
        }
    }
}

} // verus!
