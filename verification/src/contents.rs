//! What the chunks of an array hold, taken together.

use crate::geometry::{
    chunk_of, chunk_start, chunks_for, filled, lemma_chunk_is_unique, lemma_chunk_of,
    lemma_chunks_for, lemma_chunk_of_below, lemma_chunk_start_monotone, lemma_chunk_start_next,
    lemma_filled, lemma_lives_at, lives_at, offset_of,
};
use vstd::prelude::*;

verus! {

/// The first `len` indices are stored in `parts`, one part for each chunk, with no
/// gap: a chunk holds what the geometry assigns to it, and nothing else.
pub open spec fn packed<T>(parts: Seq<Seq<T>>, base: nat, len: int) -> bool {
    &&& 0 <= len <= chunk_start(base, parts.len())
    &&& forall|c: int|
        0 <= c < parts.len() ==> (#[trigger] parts[c]).len() == filled(base, len, c as nat)
}

/// Packed parts hold one value for each index, in its slot.
pub proof fn lemma_packed<T>(parts: Seq<Seq<T>>, base: nat, len: int)
    requires
        packed(parts, base, len),
    ensures
        parts.flatten().len() == len,
        forall|i: int|
            0 <= i < len ==> #[trigger] parts.flatten()[i] == parts[chunk_of(
                base,
                i,
            ) as int][offset_of(base, i)],
    decreases parts.len(),
{
    if parts.len() > 0 {
        let last = (parts.len() - 1) as nat;
        let start = chunk_start(base, last) as int;
        let before = parts.drop_last();
        let before_len = if len <= start {
            len
        } else {
            start
        };
        lemma_chunk_start_next(base, last);
        assert forall|c: int| 0 <= c < before.len() implies (#[trigger] before[c]).len() == filled(
            base,
            before_len,
            c as nat,
        ) by {
            lemma_chunk_start_monotone(base, c as nat, last);
            assert(before[c] == parts[c]);
        }
        lemma_packed(before, base, before_len);
        before.lemma_flatten_push(parts.last());
        assert(before.push(parts.last()) =~= parts);
        assert(parts[last as int].len() == filled(base, len, last));
        assert forall|i: int| 0 <= i < len implies #[trigger] parts.flatten()[i] == parts[chunk_of(
            base,
            i,
        ) as int][offset_of(base, i)] by {
            if i < start {
                lemma_chunk_of(base, i);
                lemma_chunk_of_below(base, i, last);
                assert(parts.flatten()[i] == before.flatten()[i]);
            } else {
                lemma_chunk_of(base, i);
                lemma_chunk_is_unique(base, i, last, chunk_of(base, i));
            }
        }
    }
}

/// A part is the stretch of the contents from the start of its chunk on.
pub proof fn lemma_part<T>(parts: Seq<Seq<T>>, base: nat, len: int, chunk: int)
    requires
        packed(parts, base, len),
        0 <= chunk < parts.len(),
    ensures
        parts[chunk].len() > 0 ==> chunk_start(base, chunk as nat) + parts[chunk].len() <= len
            && parts[chunk] == parts.flatten().subrange(
            chunk_start(base, chunk as nat) as int,
            (chunk_start(base, chunk as nat) + parts[chunk].len()) as int,
        ),
{
    let start = chunk_start(base, chunk as nat) as int;
    let part = parts[chunk];
    lemma_packed(parts, base, len);
    assert(part.len() == filled(base, len, chunk as nat));
    if part.len() > 0 {
        let stretch = parts.flatten().subrange(start, start + part.len());
        assert forall|o: int| 0 <= o < part.len() implies #[trigger] part[o] == stretch[o] by {
            lemma_lives_at(base, start + o, chunk, o);
            assert(stretch[o] == parts.flatten()[start + o]);
        }
        assert(part =~= stretch);
    }
}

/// The first parts hold the contents up to the start of the chunk after them.
pub proof fn lemma_first_parts<T>(parts: Seq<Seq<T>>, base: nat, len: int, chunks: int)
    requires
        packed(parts, base, len),
        0 <= chunks <= parts.len(),
    ensures
        parts.take(chunks).flatten().len() == if len <= chunk_start(base, chunks as nat) {
            len
        } else {
            chunk_start(base, chunks as nat) as int
        },
{
    let start = chunk_start(base, chunks as nat) as int;
    let first = parts.take(chunks);
    let first_len = if len <= start {
        len
    } else {
        start
    };
    assert forall|c: int| 0 <= c < first.len() implies (#[trigger] first[c]).len() == filled(
        base,
        first_len,
        c as nat,
    ) by {
        lemma_chunk_start_monotone(base, c as nat, chunks as nat);
        assert(first[c] == parts[c]);
    }
    lemma_packed(first, base, first_len);
}

/// The contiguous segments of `contents`: what each chunk that holds anything holds.
pub open spec fn segments<T>(base: nat, contents: Seq<T>) -> Seq<Seq<T>> {
    Seq::new(
        chunks_for(base, contents.len() as int),
        |c: int|
            contents.subrange(
                chunk_start(base, c as nat) as int,
                chunk_start(base, c as nat) as int + filled(base, contents.len() as int, c as nat),
            ),
    )
}

/// The parts that hold anything are the segments, and the others are empty.
pub proof fn lemma_segments<T>(parts: Seq<Seq<T>>, base: nat, len: int)
    requires
        packed(parts, base, len),
    ensures
        chunks_for(base, len) <= parts.len(),
        segments(base, parts.flatten()) == parts.take(chunks_for(base, len) as int),
        forall|c: int|
            0 <= c < chunks_for(base, len) ==> (#[trigger] parts[c]).len() > 0,
        forall|c: int|
            chunks_for(base, len) <= c < parts.len() ==> (#[trigger] parts[c]).len() == 0,
{
    let count = chunks_for(base, len);
    let contents = parts.flatten();
    lemma_packed(parts, base, len);
    lemma_chunks_for(base, len, parts.len());
    lemma_chunks_for(base, len, count);
    assert forall|c: int| 0 <= c < count implies (#[trigger] parts[c]).len() > 0 && parts[c]
        == segments(base, contents)[c] by {
        assert(parts[c].len() == filled(base, len, c as nat));
        lemma_chunks_for(base, len, c as nat);
        lemma_chunk_start_next(base, c as nat);
        lemma_part(parts, base, len, c);
    }
    assert forall|c: int| count <= c < parts.len() implies (#[trigger] parts[c]).len() == 0 by {
        assert(parts[c].len() == filled(base, len, c as nat));
        lemma_chunks_for(base, len, c as nat);
    }
    assert(segments(base, contents) =~= parts.take(count as int));
}

/// The number of parts up to the last one that holds anything.
pub open spec fn held<T>(parts: Seq<Seq<T>>) -> nat
    decreases parts.len(),
{
    if parts.len() == 0 {
        0
    } else if parts.last().len() > 0 {
        parts.len()
    } else {
        held(parts.drop_last())
    }
}

/// The parts behind the last one that holds anything hold nothing.
pub proof fn lemma_held<T>(parts: Seq<Seq<T>>)
    ensures
        held(parts) <= parts.len(),
        held(parts) > 0 ==> parts[held(parts) - 1].len() > 0,
        forall|c: int| held(parts) <= c < parts.len() ==> (#[trigger] parts[c]).len() == 0,
        parts.take(held(parts) as int).flatten() == parts.flatten(),
    decreases parts.len(),
{
    if parts.len() == 0 || parts.last().len() > 0 {
        assert(parts.take(parts.len() as int) =~= parts);
    } else {
        let fewer = parts.drop_last();
        lemma_held(fewer);
        assert forall|c: int| held(parts) <= c < parts.len() implies (#[trigger] parts[c]).len()
            == 0 by {
            if c < fewer.len() {
                assert(fewer[c].len() == 0);
            }
        }
        fewer.lemma_flatten_push(parts.last());
        assert(fewer.push(parts.last()) =~= parts);
        assert(parts.flatten() =~= fewer.flatten());
        assert(fewer.take(held(parts) as int) =~= parts.take(held(parts) as int));
    }
}

/// Packed parts are told apart by what they hold at each index.
pub proof fn lemma_same_contents<T>(parts: Seq<Seq<T>>, base: nat, len: int, contents: Seq<T>)
    requires
        packed(parts, base, len),
        contents.len() == len,
        forall|i: int|
            #![trigger contents[i]]
            0 <= i < len ==> contents[i] == parts[chunk_of(base, i) as int][offset_of(base, i)],
    ensures
        parts.flatten() == contents,
{
    lemma_packed(parts, base, len);
    assert forall|i: int| 0 <= i < len implies #[trigger] parts.flatten()[i] == contents[i] by {}
    assert(parts.flatten() =~= contents);
}

/// A value written to the slot after the last one is appended.
pub proof fn lemma_append<T>(
    parts: Seq<Seq<T>>,
    base: nat,
    len: int,
    chunk: int,
    offset: int,
    value: T,
)
    requires
        packed(parts, base, len),
        lives_at(base, len, chunk, offset),
        chunk < parts.len(),
    ensures
        parts[chunk].len() == offset,
        packed(parts.update(chunk, parts[chunk].push(value)), base, len + 1),
        parts.update(chunk, parts[chunk].push(value)).flatten() == parts.flatten().push(value),
{
    let after = parts.update(chunk, parts[chunk].push(value));
    let contents = parts.flatten().push(value);
    lemma_packed(parts, base, len);
    lemma_lives_at(base, len, chunk, offset);
    lemma_chunk_start_next(base, chunk as nat);
    lemma_chunk_start_monotone(base, chunk as nat + 1, parts.len());
    assert forall|c: int| 0 <= c < after.len() implies (#[trigger] after[c]).len() == filled(
        base,
        len + 1,
        c as nat,
    ) by {
        assert(parts[c].len() == filled(base, len, c as nat));
        if c < chunk {
            lemma_chunk_start_monotone(base, c as nat, chunk as nat);
        } else if c > chunk {
            lemma_chunk_start_monotone(base, chunk as nat, c as nat);
        }
    }
    assert forall|i: int| 0 <= i < len + 1 implies #[trigger] contents[i] == after[chunk_of(
        base,
        i,
    ) as int][offset_of(base, i)] by {
        lemma_chunk_of(base, i);
        lemma_chunk_of_below(base, i, parts.len());
        if i < len {
            lemma_filled(base, len, i);
            assert(parts.flatten()[i] == contents[i]);
        }
    }
    lemma_same_contents(after, base, len + 1, contents);
}

/// The parts that are left when only the first `len` indices stay.
pub open spec fn cut<T>(parts: Seq<Seq<T>>, base: nat, len: int) -> Seq<Seq<T>> {
    Seq::new(parts.len(), |c: int| parts[c].take(filled(base, len, c as nat) as int))
}

/// What is left after a cut is packed, and is the front of the contents.
pub proof fn lemma_cut<T>(parts: Seq<Seq<T>>, base: nat, len: int, kept: int)
    requires
        packed(parts, base, len),
        0 <= kept <= len,
    ensures
        packed(cut(parts, base, kept), base, kept),
        cut(parts, base, kept).flatten() == parts.flatten().take(kept),
{
    let after = cut(parts, base, kept);
    let contents = parts.flatten().take(kept);
    lemma_packed(parts, base, len);
    assert forall|c: int| 0 <= c < after.len() implies (#[trigger] after[c]).len() == filled(
        base,
        kept,
        c as nat,
    ) by {
        assert(parts[c].len() == filled(base, len, c as nat));
    }
    assert forall|i: int| 0 <= i < kept implies #[trigger] contents[i] == after[chunk_of(
        base,
        i,
    ) as int][offset_of(base, i)] by {
        lemma_chunk_of(base, i);
        lemma_chunk_of_below(base, i, parts.len());
        lemma_filled(base, kept, i);
        assert(parts[chunk_of(base, i) as int].len() == filled(base, len, chunk_of(base, i)));
        assert(parts.flatten()[i] == contents[i]);
    }
    lemma_same_contents(after, base, kept, contents);
}

/// A value written to the slot of an index replaces what was there.
pub proof fn lemma_replace<T>(parts: Seq<Seq<T>>, base: nat, len: int, index: int, value: T)
    requires
        packed(parts, base, len),
        0 <= index < len,
    ensures
        chunk_of(base, index) < parts.len(),
        0 <= offset_of(base, index) < parts[chunk_of(base, index) as int].len(),
        ({
            let chunk = chunk_of(base, index) as int;
            let after = parts.update(chunk, parts[chunk].update(offset_of(base, index), value));
            &&& packed(after, base, len)
            &&& after.flatten() == parts.flatten().update(index, value)
        }),
{
    let chunk = chunk_of(base, index) as int;
    let offset = offset_of(base, index);
    lemma_chunk_of(base, index);
    lemma_chunk_of_below(base, index, parts.len());
    lemma_filled(base, len, index);
    assert(parts[chunk].len() == filled(base, len, chunk as nat));
    let after = parts.update(chunk, parts[chunk].update(offset, value));
    let contents = parts.flatten().update(index, value);
    lemma_packed(parts, base, len);
    assert forall|c: int| 0 <= c < after.len() implies (#[trigger] after[c]).len() == filled(
        base,
        len,
        c as nat,
    ) by {
        assert(parts[c].len() == filled(base, len, c as nat));
    }
    assert forall|i: int| 0 <= i < len implies #[trigger] contents[i] == after[chunk_of(
        base,
        i,
    ) as int][offset_of(base, i)] by {
        lemma_chunk_of(base, i);
        lemma_chunk_of_below(base, i, parts.len());
        lemma_filled(base, len, i);
        assert(parts[chunk_of(base, i) as int].len() == filled(base, len, chunk_of(base, i)));
        if i != index {
            assert(parts.flatten()[i] == contents[i]);
        }
    }
    lemma_same_contents(after, base, len, contents);
}

/// A part that holds nothing adds nothing.
pub proof fn lemma_push_empty<T>(parts: Seq<Seq<T>>, base: nat, len: int)
    requires
        packed(parts, base, len),
    ensures
        packed(parts.push(Seq::empty()), base, len),
        parts.push(Seq::empty()).flatten() == parts.flatten(),
{
    let after = parts.push(Seq::<T>::empty());
    lemma_chunk_start_next(base, parts.len());
    assert forall|c: int| 0 <= c < after.len() implies (#[trigger] after[c]).len() == filled(
        base,
        len,
        c as nat,
    ) by {
        if c < parts.len() {
            assert(after[c] == parts[c]);
        }
    }
    parts.lemma_flatten_push(Seq::empty());
}

} // verus!
