//! What a line is: a run of bytes that ends with its only newline.
use vstd::prelude::*;

verus! {

/// The byte that ends a line.
pub const NEWLINE: u8 = 10;

/// `s` is exactly one line, its newline included.
pub open spec fn is_line(s: Seq<u8>) -> bool {
    &&& s.len() > 0
    &&& s.last() == NEWLINE
    &&& forall|i: int| 0 <= i < s.len() - 1 ==> s[i] != NEWLINE
}

/// The first complete line of `bytes`, its newline included.
pub open spec fn first_line(bytes: Seq<u8>) -> Option<Seq<u8>> {
    match bytes.index_of_first(NEWLINE) {
        Some(i) => Some(bytes.take(i + 1)),
        None => None,
    }
}

/// `first_line` gives a line that `bytes` starts with, and nothing only where there is no newline.
pub proof fn lemma_first_line(bytes: Seq<u8>)
    ensures
        match first_line(bytes) {
            Some(line) => {
                &&& is_line(line)
                &&& 0 < line.len() <= bytes.len()
                &&& line == bytes.take(line.len() as int)
                &&& bytes == line + bytes.skip(line.len() as int)
            },
            None => !bytes.contains(NEWLINE),
        },
{
    bytes.index_of_first_ensures(NEWLINE);
    if let Some(i) = bytes.index_of_first(NEWLINE) {
        let line = bytes.take(i + 1);
        assert(bytes =~= line + bytes.skip(line.len() as int));
    }
}

/// Bytes that start with a line have that line as their first.
pub proof fn lemma_first_line_unique(line: Seq<u8>, rest: Seq<u8>)
    requires
        is_line(line),
    ensures
        first_line(line + rest) == Some(line),
        (line + rest).skip(line.len() as int) == rest,
{
    let bytes = line + rest;
    lemma_first_line(bytes);
    assert(bytes[line.len() - 1] == NEWLINE);
    assert(bytes.skip(line.len() as int) =~= rest);
    let found = first_line(bytes)->0;
    assert(found.last() == bytes[found.len() - 1]);
    if found.len() < line.len() {
        assert(line[found.len() - 1] == bytes[found.len() - 1]);
    }
    if found.len() > line.len() {
        assert(found[line.len() - 1] == bytes[line.len() - 1]);
    }
    assert(found =~= line);
}

/// The complete lines of `bytes`, in order.
pub open spec fn lines_of(bytes: Seq<u8>) -> Seq<Seq<u8>>
    decreases bytes.len(),
{
    match first_line(bytes) {
        Some(line) => {
            proof {
                lemma_first_line(bytes);
            }
            seq![line] + lines_of(bytes.skip(line.len() as int))
        },
        None => Seq::empty(),
    }
}

/// What `bytes` holds behind its last newline.
pub open spec fn rest_of(bytes: Seq<u8>) -> Seq<u8>
    decreases bytes.len(),
{
    match first_line(bytes) {
        Some(line) => {
            proof {
                lemma_first_line(bytes);
            }
            rest_of(bytes.skip(line.len() as int))
        },
        None => bytes,
    }
}

/// All of `parts`, one behind the other.
pub open spec fn join(parts: Seq<Seq<u8>>) -> Seq<u8>
    decreases parts.len(),
{
    if parts.len() == 0 {
        Seq::empty()
    } else {
        parts[0] + join(parts.drop_first())
    }
}

/// The lines that come out where `chunks` arrive one after the other, `held` is what was left
/// over before, and the complete lines are taken out after each chunk.
pub open spec fn lines_by_chunk(held: Seq<u8>, chunks: Seq<Seq<u8>>) -> Seq<Seq<u8>>
    decreases chunks.len(),
{
    if chunks.len() == 0 {
        Seq::empty()
    } else {
        let bytes = held + chunks[0];
        lines_of(bytes) + lines_by_chunk(rest_of(bytes), chunks.drop_first())
    }
}

/// Taking bytes apart into lines loses, adds and reorders nothing: every part is a line, what
/// remains holds no newline, and all of it together is what was taken apart.
pub proof fn law_lines_partition_bytes(bytes: Seq<u8>)
    ensures
        join(lines_of(bytes)) + rest_of(bytes) == bytes,
        !rest_of(bytes).contains(NEWLINE),
        forall|i: int| 0 <= i < lines_of(bytes).len() ==> is_line(#[trigger] lines_of(bytes)[i]),
    decreases bytes.len(),
{
    lemma_first_line(bytes);
    if let Some(line) = first_line(bytes) {
        let tail = bytes.skip(line.len() as int);
        law_lines_partition_bytes(tail);
        assert(lines_of(bytes).drop_first() =~= lines_of(tail));
        assert(join(lines_of(bytes)) + rest_of(bytes) =~= line + (join(lines_of(tail)) + rest_of(
            tail,
        )));
        assert forall|i: int| 0 <= i < lines_of(bytes).len() implies is_line(
            #[trigger] lines_of(bytes)[i],
        ) by {
            if i > 0 {
                assert(lines_of(bytes)[i] == lines_of(tail)[i - 1]);
            }
        }
    } else {
        assert(join(lines_of(bytes)) + rest_of(bytes) =~= bytes);
    }
}

/// Lines that were written one behind the other are read back one by one, and what follows them
/// without a newline stays for later.
pub proof fn law_joined_lines_are_recovered(lines: Seq<Seq<u8>>, rest: Seq<u8>)
    requires
        forall|i: int| 0 <= i < lines.len() ==> is_line(#[trigger] lines[i]),
        !rest.contains(NEWLINE),
    ensures
        lines_of(join(lines) + rest) == lines,
        rest_of(join(lines) + rest) == rest,
    decreases lines.len(),
{
    let bytes = join(lines) + rest;
    lemma_first_line(bytes);
    if lines.len() == 0 {
        assert(bytes =~= rest);
    } else {
        let others = lines.drop_first();
        assert forall|i: int| 0 <= i < others.len() implies is_line(#[trigger] others[i]) by {
            assert(others[i] == lines[i + 1]);
        }
        law_joined_lines_are_recovered(others, rest);
        assert(bytes =~= lines[0] + (join(others) + rest));
        lemma_first_line_unique(lines[0], join(others) + rest);
        assert(seq![lines[0]] + others =~= lines);
    }
}

/// Bytes that arrive in two parts give the same lines, and the same remainder, whether the lines
/// of the first part are taken out before the second arrives or not.
pub proof fn law_split_is_irrelevant(a: Seq<u8>, b: Seq<u8>)
    ensures
        lines_of(a + b) == lines_of(a) + lines_of(rest_of(a) + b),
        rest_of(a + b) == rest_of(rest_of(a) + b),
    decreases a.len(),
{
    lemma_first_line(a);
    if let Some(line) = first_line(a) {
        let tail = a.skip(line.len() as int);
        law_split_is_irrelevant(tail, b);
        assert(a + b =~= line + (tail + b));
        lemma_first_line_unique(line, tail + b);
        assert(lines_of(a + b) =~= seq![line] + (lines_of(tail) + lines_of(rest_of(a) + b)));
        assert(lines_of(a + b) =~= lines_of(a) + lines_of(rest_of(a) + b));
    } else {
        assert(lines_of(a + b) =~= lines_of(a) + lines_of(rest_of(a) + b));
    }
}

/// Framing does not depend on how a stream is cut into chunks: taking the complete lines out
/// after each chunk gives the lines of the whole stream.
pub proof fn law_chunking_is_irrelevant(held: Seq<u8>, chunks: Seq<Seq<u8>>)
    requires
        !held.contains(NEWLINE),
    ensures
        lines_by_chunk(held, chunks) == lines_of(held + join(chunks)),
    decreases chunks.len(),
{
    if chunks.len() == 0 {
        assert(held + join(chunks) =~= held);
        lemma_first_line(held);
    } else {
        let bytes = held + chunks[0];
        let later = chunks.drop_first();
        law_lines_partition_bytes(bytes);
        law_chunking_is_irrelevant(rest_of(bytes), later);
        law_split_is_irrelevant(bytes, join(later));
        assert(held + join(chunks) =~= bytes + join(later));
    }
}

/// The first line reaches up to the first newline, and there is none only where there is no
/// newline.
pub proof fn law_first_line_reaches_the_first_newline(bytes: Seq<u8>)
    ensures
        match first_line(bytes) {
            Some(line) => {
                &&& 0 < line.len() <= bytes.len()
                &&& forall|i: int| 0 <= i < line.len() ==> line[i] == bytes[i]
                &&& bytes[line.len() - 1] == 10
                &&& forall|i: int| 0 <= i < line.len() - 1 ==> bytes[i] != 10
            },
            None => forall|i: int| 0 <= i < bytes.len() ==> bytes[i] != 10,
        },
{
    lemma_first_line(bytes);
    if let Some(line) = first_line(bytes) {
        assert(line.last() == 10);
        assert forall|i: int| 0 <= i < line.len() implies line[i] == bytes[i] by {
            assert(line[i] == bytes.take(line.len() as int)[i]);
        }
    } else {
        assert forall|i: int| 0 <= i < bytes.len() implies bytes[i] != 10 by {
            if bytes[i] == 10 {
                assert(bytes.contains(NEWLINE));
            }
        }
    }
}

/// A line is what ends with its only newline.
pub proof fn law_line_ends_with_its_only_newline(s: Seq<u8>)
    ensures
        is_line(s) <==> s.len() > 0 && forall|i: int|
            0 <= i < s.len() ==> (s[i] == 10 <==> i == s.len() - 1),
{
    if s.len() > 0 && forall|i: int| 0 <= i < s.len() ==> (s[i] == 10 <==> i == s.len() - 1) {
        assert(s[s.len() - 1] == 10);
    }
}

/// Bytes without a newline hold no line and remain as they are; a line in front comes off first
/// and leaves what follows to be taken apart.
pub proof fn law_lines_come_off_the_front(line: Seq<u8>, rest: Seq<u8>)
    requires
        forall|i: int| 0 <= i < line.len() - 1 ==> line[i] != 10,
    ensures
        line.len() > 0 && line[line.len() - 1] == 10 ==> {
            &&& lines_of(line + rest) == seq![line] + lines_of(rest)
            &&& rest_of(line + rest) == rest_of(rest)
        },
        line.len() == 0 || line[line.len() - 1] != 10 ==> {
            &&& lines_of(line).len() == 0
            &&& rest_of(line) == line
        },
{
    if line.len() > 0 && line[line.len() - 1] == 10 {
        lemma_first_line_unique(line, rest);
    } else {
        lemma_first_line(line);
        if first_line(line) is Some {
            let found = first_line(line)->0;
            assert(found.last() == line[found.len() - 1]);
        }
    }
}

/// Joining keeps every part and its place, and adds nothing.
pub proof fn law_join_puts_parts_in_a_row(a: Seq<Seq<u8>>, part: Seq<u8>, b: Seq<Seq<u8>>)
    ensures
        join(Seq::<Seq<u8>>::empty()).len() == 0,
        join(seq![part]) == part,
        join(a + b) == join(a) + join(b),
    decreases a.len(),
{
    assert(seq![part].drop_first() =~= Seq::<Seq<u8>>::empty());
    assert(join(seq![part].drop_first()) =~= Seq::<u8>::empty());
    assert(join(seq![part]) =~= part);
    if a.len() == 0 {
        assert(a + b =~= b);
        assert(join(a) + join(b) =~= join(b));
    } else {
        law_join_puts_parts_in_a_row(a.drop_first(), part, b);
        assert((a + b).drop_first() =~= a.drop_first() + b);
        assert(join(a + b) =~= join(a) + join(b));
    }
}

} // verus!
