//! Following a transcript file: new text is cut into complete lines, each
//! parsed for an event; an unfinished last line waits for the rest.
use vstd::prelude::*;
use vstd::string::{StringExecFns, StringSliceAdditionalSpecFns};
use vstd::utf8::*;
use std::path::{Path, PathBuf};
use crate::text::{seq_has_prefix, str_eq, str_starts_with};
use crate::transcript::{line_event, parse_transcript_line, EventRecord, TranscriptEvent};

verus! {

broadcast use vstd::utf8::encode_utf8_decode_utf8, vstd::utf8::encode_utf8_valid_utf8;

#[verifier::external_type_specification]
#[verifier::external_body]
pub struct ExPathBuf(std::path::PathBuf);

#[verifier::external_type_specification]
#[verifier::external_body]
pub struct ExPath(std::path::Path);

/// Index of the first newline in `s`, or -1 when there is none.
pub open spec fn first_newline(s: Seq<char>) -> int
    decreases s.len(),
{
    if s.len() == 0 {
        -1
    } else if s[0] == '\n' {
        0
    } else {
        let k = first_newline(s.drop_first());
        if k < 0 {
            -1
        } else {
            k + 1
        }
    }
}

pub proof fn lemma_first_newline(s: Seq<char>)
    ensures
        -1 <= first_newline(s) < s.len(),
        first_newline(s) >= 0 ==> s[first_newline(s)] == '\n',
        forall|j: int| 0 <= j < s.len() && (first_newline(s) < 0 || j < first_newline(s)) ==> s[j]
            != '\n',
    decreases s.len(),
{
    if s.len() > 0 {
        lemma_first_newline(s.drop_first());
        assert forall|j: int| 0 <= j < s.len() && (first_newline(s) < 0 || j < first_newline(s)) implies s[j]
            != '\n' by {
            if j > 0 {
                assert(s.drop_first()[j - 1] == s[j]);
            }
        }
    }
}

/// The pieces of `s` between newlines, as `str::split('\n')` gives them: always
/// at least one, the last being what follows the last newline.
pub open spec fn split_lines(s: Seq<char>) -> Seq<Seq<char>>
    decreases s.len(),
{
    let k = first_newline(s);
    if k < 0 {
        seq![s]
    } else {
        proof {
            lemma_first_newline(s);
        }
        seq![s.take(k)].add(split_lines(s.skip(k + 1)))
    }
}

/// The events of the given lines, in order, skipping lines without one.
pub open spec fn line_events(lines: Seq<Seq<char>>) -> Seq<EventRecord>
    decreases lines.len(),
{
    if lines.len() == 0 {
        seq![]
    } else {
        let rest = line_events(lines.drop_last());
        match line_event(lines.last()) {
            Some(e) => rest.push(e),
            None => rest,
        }
    }
}

/// The views of a list of events.
pub open spec fn events_view(events: Seq<TranscriptEvent>) -> Seq<EventRecord> {
    events.map_values(|e: TranscriptEvent| e@)
}

/// Reads a transcript incrementally: where the next read starts, and the
/// unfinished line held back from the last read.
pub struct TranscriptReader {
    path: PathBuf,
    offset: u64,
    partial_line: String,
}

impl TranscriptReader {
    pub closed spec fn spec_path(&self) -> PathBuf {
        self.path
    }

    pub closed spec fn spec_offset(&self) -> u64 {
        self.offset
    }

    /// The text of the unfinished line held back.
    pub closed spec fn pending(&self) -> Seq<char> {
        self.partial_line@
    }

    /// A reader of the file at `path`, from its start.
    pub fn new(path: PathBuf) -> (r: TranscriptReader)
        ensures
            r.spec_path() == path,
            r.spec_offset() == 0,
            r.pending() == Seq::<char>::empty(),
    {
        TranscriptReader { path, offset: 0, partial_line: String::new() }
    }

    /// The file read.
    pub fn path(&self) -> (p: &PathBuf)
        ensures
            *p == self.spec_path(),
    {
        &self.path
    }

    /// Where the next read starts, in bytes.
    pub fn offset(&self) -> (o: u64)
        ensures
            o == self.spec_offset(),
    {
        self.offset
    }

    /// Takes the text read from the file up to byte `new_offset`: joins it to the
    /// held-back line, returns the events of the complete lines in order, and holds
    /// back what follows the last newline.
    pub fn ingest(&mut self, new_content: &str, new_offset: u64) -> (events: Vec<TranscriptEvent>)
        ensures
            final(self).spec_path() == old(self).spec_path(),
            final(self).spec_offset() == new_offset,
            final(self).pending() == split_lines(old(self).pending() + new_content@).last(),
            events_view(events@) == line_events(
                split_lines(old(self).pending() + new_content@).drop_last(),
            ),
    {
        self.offset = new_offset;
        let mut content = self.partial_line.clone();
        content.append(new_content);
        let ghost all = content@;
        let mut events: Vec<TranscriptEvent> = Vec::new();
        let mut rest: &str = content.as_str();
        let ghost mut done: Seq<Seq<char>> = seq![];
        proof {
            assert(split_lines(all) =~= done + split_lines(rest@));
            assert(events_view(events@) =~= line_events(done));
        }
        loop
            invariant
                self.offset == new_offset,
                self.path == old(self).path,
                all == old(self).partial_line@ + new_content@,
                split_lines(all) == done + split_lines(rest@),
                events_view(events@) == line_events(done),
            decreases rest@.len(),
        {
            let bytes = rest.as_bytes();
            let mut i: usize = 0;
            while i < bytes.len() && bytes[i] != 10
                invariant
                    i <= bytes@.len(),
                    bytes@ == rest.spec_bytes(),
                    forall|j: int| 0 <= j < i ==> bytes@[j] != 10,
                decreases bytes@.len() - i,
            {
                i = i + 1;
            }
            if i == bytes.len() {
                proof {
                    assert(rest.spec_bytes() == encode_utf8(rest@));
                    assert(decode_utf8(encode_utf8(rest@)) == rest@);
                    lemma_no_newline(rest.spec_bytes());
                    lemma_no_newline_first(rest@);
                    assert(split_lines(rest@) == seq![rest@]);
                    assert(all == all);
                }
                self.partial_line = rest.to_owned();
                proof {
                    assert(split_lines(all).drop_last() =~= done);
                }
                return events;
            }
            proof {
                lemma_newline_boundary(rest.spec_bytes(), i as int);
            }
            let (line, tail) = rest.split_at(i);
            proof {
                lemma_tail_boundary(tail.spec_bytes());
            }
            let (_newline, after) = tail.split_at(1);
            proof {
                lemma_split_at_newline(rest@, rest.spec_bytes(), i as int, line@, tail@, after@);
                assert(split_lines(rest@) == seq![line@] + split_lines(after@));
            }
            let ghost before_events = events@;
            match parse_transcript_line(line) {
                Some(e) => {
                    events.push(e);
                },
                None => {},
            }
            proof {
                let done2 = done.push(line@);
                assert(done2.drop_last() =~= done);
                assert(done2.last() == line@);
                assert(events_view(events@) =~= line_events(done2));
                assert(split_lines(all) =~= done2 + split_lines(after@));
                done = done2;
            }
            rest = after;
        }
    }
}

/// Bytes without a newline byte decode to text without a newline.
proof fn lemma_no_newline(bytes: Seq<u8>)
    requires
        valid_utf8(bytes),
        forall|j: int| 0 <= j < bytes.len() ==> bytes[j] != 10,
    ensures
        forall|j: int| 0 <= j < decode_utf8(bytes).len() ==> decode_utf8(bytes)[j] != '\n',
    decreases bytes.len(),
{
    if bytes.len() > 0 {
        let rest = pop_first_scalar(bytes);
        assert forall|j: int| 0 <= j < rest.len() implies rest[j] != 10 by {
            assert(rest[j] == bytes[j + length_of_first_scalar(bytes)]);
        }
        lemma_no_newline(rest);
        let d = decode_utf8(bytes);
        assert(d == seq![decode_first_scalar(bytes) as char] + decode_utf8(rest));
        let b0 = bytes[0];
        assert(decode_first_scalar(bytes) != 10) by {
            if is_leading_byte_width_1(b0) {
                assert(b0 != 10 && b0 <= 0x7f ==> (b0 & 0x7f) as u32 != 10) by (bit_vector);
            }
        }
        assert forall|j: int| 0 <= j < d.len() implies d[j] != '\n' by {
            if j == 0 {
                decode_utf8_first_scalar(bytes);
                if d[0] == '\n' {
                    assert(((d[0]) as u32) == 10);
                    assert((10u32 & 0x7f) as u8 == 10u8) by (bit_vector);
                    assert(encode_scalar(10u32)[0] == 10u8);
                    assert(take_first_scalar(bytes)[0] == bytes[0]);
                }
            } else {
                assert(d[j] == decode_utf8(rest)[j - 1]);
            }
        }
    }
}

/// Text without a newline has no first newline.
proof fn lemma_no_newline_first(s: Seq<char>)
    requires
        forall|j: int| 0 <= j < s.len() ==> s[j] != '\n',
    ensures
        first_newline(s) == -1,
    decreases s.len(),
{
    if s.len() > 0 {
        assert forall|j: int| 0 <= j < s.len() - 1 implies s.drop_first()[j] != '\n' by {
            assert(s.drop_first()[j] == s[j + 1]);
        }
        lemma_no_newline_first(s.drop_first());
    }
}

/// A newline byte starts a character.
proof fn lemma_newline_boundary(bytes: Seq<u8>, i: int)
    requires
        valid_utf8(bytes),
        0 <= i < bytes.len(),
        bytes[i] == 10,
    ensures
        is_char_boundary(bytes, i),
{
    is_char_boundary_iff_not_is_continuation_byte(bytes, i);
}

/// After a leading newline byte comes a character boundary.
proof fn lemma_tail_boundary(bytes: Seq<u8>)
    requires
        valid_utf8(bytes),
        bytes.len() > 0,
        bytes[0] == 10,
    ensures
        is_char_boundary(bytes, 1),
{
    reveal_with_fuel(is_char_boundary, 2);
    is_char_boundary_start_end_of_seq(pop_first_scalar(bytes));
}

/// Cutting text at its first newline byte: what precedes it is the first
/// piece, what follows it the rest.
proof fn lemma_split_at_newline(
    s: Seq<char>,
    bytes: Seq<u8>,
    i: int,
    line: Seq<char>,
    tail: Seq<char>,
    after: Seq<char>,
)
    requires
        bytes == encode_utf8(s),
        0 <= i < bytes.len(),
        bytes[i] == 10,
        forall|j: int| 0 <= j < i ==> bytes[j] != 10,
        encode_utf8(line) == bytes.subrange(0, i),
        encode_utf8(tail) == bytes.subrange(i, bytes.len() as int),
        encode_utf8(after) == encode_utf8(tail).subrange(1, encode_utf8(tail).len() as int),
    ensures
        split_lines(s) == seq![line] + split_lines(after),
        s == line + seq!['\n'] + after,
{
    let lb = bytes.subrange(0, i);
    let tb = bytes.subrange(i, bytes.len() as int);
    lemma_newline_boundary(bytes, i);
    decode_utf8_split(bytes, i);
    assert(s == decode_utf8(bytes));
    assert(line == decode_utf8(lb));
    assert(tail == decode_utf8(tb));
    assert(s =~= line + tail);
    // the tail starts with the newline
    assert(tb[0] == 10);
    lemma_tail_boundary(tb);
    decode_utf8_split(tb, 1);
    assert((10u8 & 0x7f) as u32 == 10u32) by (bit_vector);
    assert(valid_utf8(tb));
    assert(pop_first_scalar(tb) =~= tb.subrange(1, tb.len() as int));
    assert(decode_utf8(tb) == seq![(decode_first_scalar(tb) as char)] + decode_utf8(
        pop_first_scalar(tb),
    ));
    assert(decode_first_scalar(tb) == 10);
    assert((10u32 as char) == '\n');
    assert(tail =~= seq!['\n'] + after);
    // no newline before it
    assert forall|j: int| 0 <= j < lb.len() implies lb[j] != 10 by {
        assert(lb[j] == bytes[j]);
    }
    lemma_no_newline(lb);
    lemma_first_newline_at(line, after);
    assert(s =~= line + seq!['\n'] + after);
    assert(s.take(line.len() as int) =~= line);
    assert(s.skip(line.len() as int + 1) =~= after);
}

/// The first newline of `line + "\n" + after`, when `line` has none, ends `line`.
proof fn lemma_first_newline_at(line: Seq<char>, after: Seq<char>)
    requires
        forall|j: int| 0 <= j < line.len() ==> line[j] != '\n',
    ensures
        first_newline(line + seq!['\n'] + after) == line.len(),
    decreases line.len(),
{
    let s = line + seq!['\n'] + after;
    if line.len() == 0 {
        assert(s[0] == '\n');
    } else {
        assert forall|j: int| 0 <= j < line.len() - 1 implies line.drop_first()[j] != '\n' by {
            assert(line.drop_first()[j] == line[j + 1]);
        }
        lemma_first_newline_at(line.drop_first(), after);
        assert(s.drop_first() =~= line.drop_first() + seq!['\n'] + after);
        assert(s[0] == line[0]);
    }
}

// ---------------------------------------------------------------------------
// Reading in pieces
// ---------------------------------------------------------------------------

proof fn lemma_split_nonempty(s: Seq<char>)
    ensures
        split_lines(s).len() >= 1,
    decreases s.len(),
{
    lemma_first_newline(s);
    if first_newline(s) >= 0 {
        lemma_split_nonempty(s.skip(first_newline(s) + 1));
    }
}

proof fn lemma_first_newline_concat(x: Seq<char>, y: Seq<char>)
    requires
        first_newline(x) >= 0,
    ensures
        first_newline(x + y) == first_newline(x),
    decreases x.len(),
{
    if x[0] != '\n' {
        lemma_first_newline_concat(x.drop_first(), y);
        assert((x + y).drop_first() =~= x.drop_first() + y);
    }
}

/// Splitting `x + y` is splitting `x`, then splitting its unfinished last piece
/// followed by `y`.
pub proof fn lemma_split_concat(x: Seq<char>, y: Seq<char>)
    ensures
        split_lines(x + y) == split_lines(x).drop_last() + split_lines(split_lines(x).last() + y),
    decreases x.len(),
{
    lemma_first_newline(x);
    let k = first_newline(x);
    if k < 0 {
        assert(split_lines(x) == seq![x]);
        assert(split_lines(x).drop_last() =~= Seq::<Seq<char>>::empty());
        assert(split_lines(x).drop_last() + split_lines(x + y) =~= split_lines(x + y));
    } else {
        let rest = x.skip(k + 1);
        lemma_first_newline_concat(x, y);
        lemma_first_newline(x + y);
        lemma_split_concat(rest, y);
        lemma_split_nonempty(rest);
        assert((x + y).take(k) =~= x.take(k));
        assert((x + y).skip(k + 1) =~= rest + y);
        assert(split_lines(x) == seq![x.take(k)] + split_lines(rest));
        assert(split_lines(x).drop_last() =~= seq![x.take(k)] + split_lines(rest).drop_last());
        assert(split_lines(x).last() == split_lines(rest).last());
        assert(split_lines(x + y) == seq![x.take(k)] + split_lines(rest + y));
        assert(split_lines(x + y) =~= split_lines(x).drop_last() + split_lines(
            split_lines(x).last() + y,
        ));
    }
}

/// The events of two runs of lines are the events of each, in order.
pub proof fn lemma_line_events_concat(l1: Seq<Seq<char>>, l2: Seq<Seq<char>>)
    ensures
        line_events(l1 + l2) == line_events(l1) + line_events(l2),
    decreases l2.len(),
{
    if l2.len() == 0 {
        assert(l1 + l2 =~= l1);
        assert(line_events(l1) + line_events(l2) =~= line_events(l1));
    } else {
        lemma_line_events_concat(l1, l2.drop_last());
        assert((l1 + l2).drop_last() =~= l1 + l2.drop_last());
        assert((l1 + l2).last() == l2.last());
        match line_event(l2.last()) {
            Some(e) => {
                assert(line_events(l1 + l2) =~= line_events(l1) + line_events(l2));
            },
            None => {},
        }
    }
}

/// Reading in pieces changes nothing: taking text `a` and then text `b` gives
/// the events, in order, and leaves the unfinished line, that taking `a + b` at
/// once would.
pub proof fn law_ingest_in_pieces(pending: Seq<char>, a: Seq<char>, b: Seq<char>)
    ensures
        line_events(split_lines(pending + a).drop_last()) + line_events(
            split_lines(split_lines(pending + a).last() + b).drop_last(),
        ) == line_events(split_lines(pending + a + b).drop_last()),
        split_lines(split_lines(pending + a).last() + b).last() == split_lines(
            pending + a + b,
        ).last(),
{
    let x = pending + a;
    lemma_split_concat(x, b);
    let s1 = split_lines(x);
    let s2 = split_lines(s1.last() + b);
    lemma_split_nonempty(s1.last() + b);
    assert(split_lines(x + b) == s1.drop_last() + s2);
    assert((s1.drop_last() + s2).drop_last() =~= s1.drop_last() + s2.drop_last());
    lemma_line_events_concat(s1.drop_last(), s2.drop_last());
}

/// Text without a newline gives no event and is held back whole (after what
/// was held back before).
pub proof fn law_unfinished_line_waits(pending: Seq<char>, text: Seq<char>)
    requires
        forall|j: int| 0 <= j < pending.len() ==> pending[j] != '\n',
        forall|j: int| 0 <= j < text.len() ==> text[j] != '\n',
    ensures
        line_events(split_lines(pending + text).drop_last()) == Seq::<EventRecord>::empty(),
        split_lines(pending + text).last() == pending + text,
{
    let s = pending + text;
    assert forall|j: int| 0 <= j < s.len() implies s[j] != '\n' by {
        if j < pending.len() {
        } else {
            assert(s[j] == text[j - pending.len()]);
        }
    }
    lemma_no_newline_first(s);
    assert(split_lines(s) == seq![s]);
    assert(split_lines(s).drop_last() =~= Seq::<Seq<char>>::empty());
}

// ---------------------------------------------------------------------------
// Paths
// ---------------------------------------------------------------------------

/// Seconds within which a transcript must have been written to count as active.
pub const RECENT_SECS: u64 = 600;

/// Whether a directory entry is an active transcript: a file with extension
/// `jsonl`, not empty, last written less than ten minutes ago. `size` and
/// `age_secs` are `None` when the file system could not tell.
pub fn is_recent_transcript(
    extension: Option<&str>,
    is_file: bool,
    size: Option<u64>,
    age_secs: Option<u64>,
) -> (r: bool)
    ensures
        r == ((extension matches Some(e) && e@ == "jsonl"@) && is_file && (size matches Some(n)
            && n > 0) && (age_secs matches Some(a) && a < RECENT_SECS)),
{
    let jsonl = match extension {
        Some(e) => str_eq(e, "jsonl"),
        None => false,
    };
    let non_empty = match size {
        Some(n) => n > 0,
        None => false,
    };
    let recent = match age_secs {
        Some(a) => a < RECENT_SECS,
        None => false,
    };
    jsonl && is_file && non_empty && recent
}

/// `Path::starts_with` on two resolved paths (whole components only). Nothing
/// is claimed of the answer: a `Path` has no contents that these contracts can
/// name.
#[verifier::external_body]
fn path_under(path: &PathBuf, base: &PathBuf) -> bool {
    path.starts_with(base)
}

/// `Path::canonicalize`, which asks the file system; `None` when the path
/// cannot be resolved. Nothing is claimed of the result: it depends on what is
/// on disk.
#[verifier::external_body]
fn canonical(p: &Path) -> Option<PathBuf> {
    p.canonicalize().ok()
}

/// `Path::to_string_lossy`. Nothing is claimed of the result: a `Path` has no
/// contents that these contracts can name.
#[verifier::external_body]
fn path_text(p: &Path) -> String {
    p.to_string_lossy().into_owned()
}

/// The verdict of `is_safe_path` from what the file system answered: when both
/// paths resolved, whether the resolved path lies under the resolved root
/// (`resolved_under`); otherwise whether the raw path's text starts with the
/// raw root's text.
pub fn safe_path_verdict(resolved_under: Option<bool>, path_text: &str, root_text: &str) -> (r:
    bool)
    ensures
        r == match resolved_under {
            Some(b) => b,
            None => seq_has_prefix(path_text@, root_text@),
        },
{
    match resolved_under {
        Some(b) => b,
        None => str_starts_with(path_text, root_text),
    }
}

/// Whether `path` lies under `allowed_root`: compared resolved (through
/// `canonicalize`) when both resolve, else by the text of the raw paths (a path
/// not created yet). Which of the two applies, and the resolved paths, come from
/// the file system (symbolic links can resolve a path anywhere), so either
/// answer can come back for any two paths; the decision taken on what came back
/// is `safe_path_verdict`, whose contract is exact.
pub fn is_safe_path(path: &Path, allowed_root: &Path) -> bool {
    let resolved_path = canonical(path);
    let resolved_root = canonical(allowed_root);
    match (resolved_path, resolved_root) {
        (Some(p), Some(q)) => safe_path_verdict(Some(path_under(&p, &q)), "", ""),
        _ => {
            let pt = path_text(path);
            let rt = path_text(allowed_root);
            safe_path_verdict(None, pt.as_str(), rt.as_str())
        },
    }
}

} // verus!
