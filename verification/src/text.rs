//! Finding a byte in a buffer, and cutting a buffer into lines.

use vstd::prelude::*;

verus! {

/// The byte that ends a line.
pub const NEWLINE: u8 = 10;

/// The position of the first `b` in `s`, or the length of `s` where there is
/// none.
pub open spec fn first_index_of(s: Seq<u8>, b: u8) -> int
    decreases s.len(),
{
    if s.len() == 0 || s[0] == b {
        0
    } else {
        1 + first_index_of(s.skip(1), b)
    }
}

/// The lines of a buffer: the runs of bytes between its newlines. A buffer
/// with `n` newlines has `n + 1` lines, of which any may be empty; the last
/// one is what follows the last newline.
pub open spec fn split_lines(data: Seq<u8>) -> Seq<Seq<u8>>
    decreases data.len(),
{
    let i = first_index_of(data, NEWLINE);
    if 0 <= i < data.len() {
        seq![data.take(i)] + split_lines(data.skip(i + 1))
    } else {
        seq![data]
    }
}

/// True when the buffer is empty or ends with a newline, so that another
/// buffer put behind it starts a new line.
pub open spec fn ends_lines(chunk: Seq<u8>) -> bool {
    chunk.len() == 0 || chunk.last() == NEWLINE
}

/// The chunks one after the other, as one buffer.
pub open spec fn joined(chunks: Seq<Seq<u8>>) -> Seq<u8>
    decreases chunks.len(),
{
    if chunks.len() == 0 {
        Seq::<u8>::empty()
    } else {
        joined(chunks.drop_last()) + chunks.last()
    }
}

/// Finds the first `b` in `s`.
pub fn position(s: &[u8], b: u8) -> (found: Option<usize>)
    ensures
        match found {
            Some(i) => i < s.len() && i == first_index_of(s@, b) && s@[i as int] == b,
            None => first_index_of(s@, b) == s.len(),
        },
{
    for i in 0..s.len()
        invariant
            forall|j: int| 0 <= j < i ==> s@[j] != b,
    {
        if s[i] == b {
            proof {
                lemma_first_index_is(s@, b, i as int);
            }
            return Some(i);
        }
    }
    proof {
        lemma_first_index_is(s@, b, s.len() as int);
    }
    None
}

/// Cuts the first line off a buffer: the line, and what follows its newline
/// if it ends with one.
pub fn cut_line(data: &[u8]) -> (cut: (&[u8], Option<&[u8]>))
    ensures
        split_lines(data@).len() >= 1,
        cut.0@ == split_lines(data@)[0],
        match cut.1 {
            Some(rest) => {
                &&& rest.len() < data.len()
                &&& split_lines(rest@) == split_lines(data@).skip(1)
                &&& split_lines(data@).len() >= 2
            },
            None => split_lines(data@).len() == 1,
        },
{
    match position(data, NEWLINE) {
        Some(at) => {
            let (line, tail) = data.split_at(at);
            let (_, rest) = tail.split_at(1);
            proof {
                assert(line@ == data@.take(at as int));
                assert(rest@ == data@.skip(at + 1));
                lemma_split_lines_unfold(rest@);
            }
            (line, Some(rest))
        },
        None => (data, None),
    }
}

/// What `first_index_of` finds is the first occurrence, and it reaches the
/// end exactly when there is no occurrence.
pub proof fn lemma_first_index_of(s: Seq<u8>, b: u8)
    ensures
        0 <= first_index_of(s, b) <= s.len(),
        first_index_of(s, b) < s.len() ==> s[first_index_of(s, b)] == b,
        forall|j: int| 0 <= j < first_index_of(s, b) ==> s[j] != b,
        first_index_of(s, b) < s.len() <==> s.contains(b),
    decreases s.len(),
{
    if s.len() == 0 || s[0] == b {
    } else {
        let t = s.skip(1);
        lemma_first_index_of(t, b);
        assert forall|j: int| 0 <= j < first_index_of(s, b) implies s[j] != b by {
            if j > 0 {
                assert(t[j - 1] == s[j]);
            }
        }
        if first_index_of(t, b) < t.len() {
            assert(s[first_index_of(t, b) + 1] == t[first_index_of(t, b)]);
        }
        if s.contains(b) {
            let i = choose|i: int| 0 <= i < s.len() && s[i] == b;
            assert(t[i - 1] == b);
        }
    }
}

/// A position that holds `b` and has no `b` before it is the first.
pub proof fn lemma_first_index_is(s: Seq<u8>, b: u8, i: int)
    requires
        0 <= i <= s.len(),
        i < s.len() ==> s[i] == b,
        forall|j: int| 0 <= j < i ==> s[j] != b,
    ensures
        first_index_of(s, b) == i,
{
    lemma_first_index_of(s, b);
    let f = first_index_of(s, b);
    if f < i {
        assert(s[f] != b);
    }
}

/// A buffer has at least one line, and where it holds a newline its lines are
/// the one before the first newline and those of what follows that newline.
pub proof fn lemma_split_lines_unfold(data: Seq<u8>)
    ensures
        split_lines(data).len() >= 1,
        ({
            let i = first_index_of(data, NEWLINE);
            if i < data.len() {
                &&& split_lines(data)[0] == data.take(i)
                &&& split_lines(data).skip(1) == split_lines(data.skip(i + 1))
            } else {
                split_lines(data) == seq![data]
            }
        }),
{
    lemma_first_index_of(data, NEWLINE);
    let i = first_index_of(data, NEWLINE);
    if i < data.len() {
        let tail = split_lines(data.skip(i + 1));
        assert((seq![data.take(i)] + tail).skip(1) == tail);
    }
}

/// Behind a buffer that ends its last line, another buffer adds its own
/// lines: the empty line that the first buffer ends with is where the second
/// one starts.
pub proof fn lemma_split_lines_concat(a: Seq<u8>, b: Seq<u8>)
    requires
        ends_lines(a),
    ensures
        split_lines(a).len() >= 1,
        split_lines(a).last().len() == 0,
        split_lines(a + b) == split_lines(a).drop_last() + split_lines(b),
    decreases a.len(),
{
    lemma_first_index_of(a, NEWLINE);
    let i = first_index_of(a, NEWLINE);
    if a.len() == 0 {
        assert(a + b == b);
        assert(split_lines(a).drop_last() == Seq::<Seq<u8>>::empty());
    } else {
        assert(a[a.len() - 1] == NEWLINE);
        assert(a.contains(NEWLINE));
        let whole = a + b;
        assert(whole[i] == a[i]);
        assert forall|j: int| 0 <= j < i implies whole[j] != NEWLINE by {
            assert(whole[j] == a[j]);
        }
        lemma_first_index_is(whole, NEWLINE, i);
        assert(whole.take(i) == a.take(i));
        let tail = a.skip(i + 1);
        assert(whole.skip(i + 1) == tail + b);
        if tail.len() > 0 {
            assert(tail.last() == a.last());
        }
        lemma_split_lines_concat(tail, b);
        let first = seq![a.take(i)];
        assert(split_lines(a) == first + split_lines(tail));
        assert((first + split_lines(tail)).drop_last() == first + split_lines(tail).drop_last());
        assert(first + (split_lines(tail).drop_last() + split_lines(b)) == (first + split_lines(
            tail,
        ).drop_last()) + split_lines(b));
    }
}

/// Chunks that each end their last line make a buffer that ends its last
/// line.
pub proof fn lemma_joined_ends_lines(chunks: Seq<Seq<u8>>)
    requires
        forall|i: int| 0 <= i < chunks.len() ==> ends_lines(#[trigger] chunks[i]),
    ensures
        ends_lines(joined(chunks)),
    decreases chunks.len(),
{
    if chunks.len() > 0 {
        lemma_joined_ends_lines(chunks.drop_last());
        assert(ends_lines(chunks[chunks.len() - 1]));
    }
}

} // verus!
