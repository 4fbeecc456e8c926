//! Incremental extraction of complete lines from a growing byte stream.
//!
//! The file is modelled as the sequence of bytes read so far; a cursor
//! records how many of them have already been consumed. One drain returns
//! every complete newline-terminated line past the cursor, in file order,
//! and leaves an incomplete trailing line for a later call.

use vstd::prelude::*;
use crate::bytes::copy_range;

verus! {

/// The byte that terminates a line.
pub open spec fn is_newline(b: u8) -> bool {
    b == 10u8
}

/// Number of bytes in the line that starts at `i`: the count of consecutive
/// non-newline bytes from `i`, up to the first newline or the end of `s`.
pub open spec fn line_len(s: Seq<u8>, i: int) -> nat
    decreases s.len() - i,
{
    if !(0 <= i < s.len()) {
        0
    } else if is_newline(s[i]) {
        0
    } else {
        1 + line_len(s, i + 1)
    }
}

/// The line that starts at `i` is terminated by a newline inside `s`.
pub open spec fn has_complete_line(s: Seq<u8>, i: int) -> bool {
    i + line_len(s, i) < s.len()
}

/// The complete, newline-terminated lines of `s` from offset `i`, in file
/// order, each with its terminator stripped.
pub open spec fn complete_lines(s: Seq<u8>, i: int) -> Seq<Seq<u8>>
    decreases s.len() - i,
{
    if 0 <= i && has_complete_line(s, i) {
        seq![s.subrange(i, i + line_len(s, i))] + complete_lines(s, i + line_len(s, i) + 1)
    } else {
        Seq::empty()
    }
}

/// The offset just past the last complete line of `s` at or after `i`: the
/// bytes of `[i, consumed_to(s, i))` are exactly the complete lines.
pub open spec fn consumed_to(s: Seq<u8>, i: int) -> int
    decreases s.len() - i,
{
    if 0 <= i && has_complete_line(s, i) {
        consumed_to(s, i + line_len(s, i) + 1)
    } else {
        i
    }
}

/// The line at `i` never runs past the end of `s`.
pub proof fn lemma_line_len_bound(s: Seq<u8>, i: int)
    requires
        0 <= i <= s.len(),
    ensures
        i + line_len(s, i) <= s.len(),
    decreases s.len() - i,
{
    if i < s.len() && !is_newline(s[i]) {
        lemma_line_len_bound(s, i + 1);
    }
}

/// If no byte of `[a, b)` is a newline and `b` is the end of `s` or holds
/// one, the line at `a` spans exactly `[a, b)`.
pub proof fn lemma_line_len_range(s: Seq<u8>, a: int, b: int)
    requires
        0 <= a <= b <= s.len(),
        forall|k: int| a <= k < b ==> !is_newline(s[k]),
        b == s.len() || is_newline(s[b]),
    ensures
        line_len(s, a) == b - a,
    decreases b - a,
{
    if a < b {
        lemma_line_len_range(s, a + 1, b);
    }
}

/// A cursor over one file instance: the number of bytes already consumed
/// from the front of the stream. It only ever moves forward.
pub struct TailCursor {
    pub offset: usize,
}

impl TailCursor {
    /// A fresh cursor for a newly opened file: nothing consumed yet.
    pub fn new() -> (c: TailCursor)
        ensures
            c.offset == 0,
    {
        TailCursor { offset: 0 }
    }
}

/// A single decoded line with its trailing terminator stripped.
pub struct LineRecord {
    pub bytes: Vec<u8>,
}

impl View for LineRecord {
    type V = Seq<u8>;

    open spec fn view(&self) -> Seq<u8> {
        self.bytes@
    }
}

/// The drained records as plain byte sequences, in order.
pub open spec fn records_view(rs: Seq<LineRecord>) -> Seq<Seq<u8>> {
    rs.map_values(|r: LineRecord| r@)
}

/// Reads forward from the cursor's offset through `content`, the bytes of
/// the file seen so far, and returns every complete newline-terminated line
/// from the offset on, in file order, terminators stripped. The cursor
/// advances to just past the last complete line; an incomplete trailing line
/// stays unconsumed for a later call. Never waits for more bytes.
pub fn drain(cursor: &mut TailCursor, content: &Vec<u8>) -> (records: Vec<LineRecord>)
    requires
        old(cursor).offset <= content@.len(),
    ensures
        records_view(records@) == complete_lines(content@, old(cursor).offset as int),
        final(cursor).offset == consumed_to(content@, old(cursor).offset as int),
        old(cursor).offset <= final(cursor).offset <= content@.len(),
{
    let offset0 = cursor.offset;
    let ghost s = content@;
    let mut records: Vec<LineRecord> = Vec::new();
    let mut line_start: usize = offset0;
    let mut i: usize = offset0;
    while i < content.len()
        invariant
            offset0 <= line_start <= i <= s.len(),
            s == content@,
            forall|k: int| line_start <= k < i ==> !is_newline(s[k]),
            complete_lines(s, offset0 as int) == records_view(records@) + complete_lines(
                s,
                line_start as int,
            ),
            consumed_to(s, offset0 as int) == consumed_to(s, line_start as int),
        decreases s.len() - i,
    {
        if content[i] == 10u8 {
            proof {
                lemma_line_len_range(s, line_start as int, i as int);
            }
            let ghost old_records = records@;
            let rec = LineRecord { bytes: copy_range(content, line_start, i) };
            records.push(rec);
            proof {
                assert(has_complete_line(s, line_start as int));
                assert(complete_lines(s, line_start as int) == seq![
                    s.subrange(line_start as int, i as int),
                ] + complete_lines(s, i + 1));
                assert(records_view(records@) =~= records_view(old_records).push(rec@));
                assert(records_view(records@) + complete_lines(s, i + 1)
                    =~= records_view(old_records) + complete_lines(s, line_start as int));
            }
            line_start = i + 1;
        }
        i += 1;
    }
    proof {
        lemma_line_len_range(s, line_start as int, s.len() as int);
        assert(!has_complete_line(s, line_start as int));
        assert(complete_lines(s, line_start as int) =~= Seq::<Seq<u8>>::empty());
        assert(records_view(records@) =~= records_view(records@) + complete_lines(
            s,
            line_start as int,
        ));
    }
    cursor.offset = line_start;
    records
}

/// One line as it stands in the file: its content followed by a newline.
pub open spec fn encode_line(l: Seq<u8>) -> Seq<u8> {
    l + seq![10u8]
}

/// A batch of lines as appended to the file, first line first.
pub open spec fn encode_lines(ls: Seq<Seq<u8>>) -> Seq<u8>
    decreases ls.len(),
{
    if ls.len() == 0 {
        Seq::empty()
    } else {
        encode_line(ls[0]) + encode_lines(ls.drop_first())
    }
}

/// Line content that is legal on the wire: it holds no newline byte.
pub open spec fn line_ok(l: Seq<u8>) -> bool {
    forall|k: int| 0 <= k < l.len() ==> !is_newline(l[k])
}

/// Appending a batch of complete lines to a fully consumed stream makes one
/// drain yield exactly those lines, in order, and consume every appended
/// byte.
pub proof fn lemma_append_complete_lines(s: Seq<u8>, ls: Seq<Seq<u8>>)
    requires
        forall|j: int| 0 <= j < ls.len() ==> line_ok(ls[j]),
    ensures
        complete_lines(s + encode_lines(ls), s.len() as int) == ls,
        consumed_to(s + encode_lines(ls), s.len() as int) == s.len() + encode_lines(ls).len(),
    decreases ls.len(),
{
    let t = s + encode_lines(ls);
    if ls.len() == 0 {
        assert(complete_lines(t, s.len() as int) =~= ls);
    } else {
        let l0 = ls[0];
        let rest = ls.drop_first();
        let s2 = s + encode_line(l0);
        assert(line_ok(l0));
        assert(t =~= s2 + encode_lines(rest));
        assert forall|k: int| s.len() <= k < s.len() + l0.len() implies !is_newline(t[k]) by {
            assert(t[k] == l0[k - s.len()]);
        }
        assert(is_newline(t[s.len() + l0.len() as int]));
        lemma_line_len_range(t, s.len() as int, s.len() + l0.len() as int);
        assert(has_complete_line(t, s.len() as int));
        assert forall|j: int| 0 <= j < rest.len() implies line_ok(rest[j]) by {
            assert(rest[j] == ls[j + 1]);
        }
        lemma_append_complete_lines(s2, rest);
        assert(t.subrange(s.len() as int, s.len() + l0.len() as int) =~= l0);
        assert(complete_lines(t, s.len() as int) == seq![l0] + complete_lines(
            t,
            s2.len() as int,
        ));
        assert(seq![l0] + rest =~= ls);
        assert(encode_lines(ls).len() == l0.len() + 1 + encode_lines(rest).len());
    }
}

/// A trailing line without its newline yet is withheld: nothing is drained
/// and the offset does not move.
pub proof fn lemma_partial_line_withheld(s: Seq<u8>, i: int)
    requires
        0 <= i <= s.len(),
        forall|k: int| i <= k < s.len() ==> !is_newline(s[k]),
    ensures
        complete_lines(s, i) == Seq::<Seq<u8>>::empty(),
        consumed_to(s, i) == i,
{
    lemma_line_len_range(s, i, s.len() as int);
}

/// Appending the remainder of a partial line and its terminator completes
/// it: the next drain emits the whole line, withheld prefix included, and
/// nothing else.
pub proof fn lemma_completed_line(s: Seq<u8>, i: int, rest: Seq<u8>)
    requires
        0 <= i <= s.len(),
        forall|k: int| i <= k < s.len() ==> !is_newline(s[k]),
        line_ok(rest),
    ensures
        complete_lines(s + rest + seq![10u8], i) == seq![s.subrange(i, s.len() as int) + rest],
        consumed_to(s + rest + seq![10u8], i) == s.len() + rest.len() + 1,
{
    let t = s + rest + seq![10u8];
    let b: int = s.len() + rest.len() as int;
    assert forall|k: int| i <= k < b implies !is_newline(t[k]) by {
        if k < s.len() {
            assert(t[k] == s[k]);
        } else {
            assert(t[k] == rest[k - s.len()]);
        }
    }
    assert(is_newline(t[b]));
    lemma_line_len_range(t, i, b);
    assert(has_complete_line(t, i));
    assert(t.subrange(i, b) =~= s.subrange(i, s.len() as int) + rest);
    assert(complete_lines(t, b + 1) =~= Seq::<Seq<u8>>::empty());
    assert(complete_lines(t, i) =~= seq![s.subrange(i, s.len() as int) + rest]);
    assert(consumed_to(t, b + 1) == b + 1);
    assert(consumed_to(t, i) == b + 1);
}

/// Re-draining at a fully consumed offset yields nothing: past
/// `consumed_to(s, i)` there is no further complete line, and the consumed
/// offset is a fixed point while the stream is unchanged.
pub proof fn lemma_drain_idempotent(s: Seq<u8>, i: int)
    requires
        0 <= i <= s.len(),
    ensures
        i <= consumed_to(s, i) <= s.len(),
        complete_lines(s, consumed_to(s, i)) == Seq::<Seq<u8>>::empty(),
        consumed_to(s, consumed_to(s, i)) == consumed_to(s, i),
    decreases s.len() - i,
{
    lemma_line_len_bound(s, i);
    if has_complete_line(s, i) {
        lemma_drain_idempotent(s, i + line_len(s, i) + 1);
    }
}

} // verus!
