//! Splitting a long message into chunks at natural boundaries.

use vstd::prelude::*;

use crate::text::{self, chars_of, end_of_text, start_of_text, text_of};

verus! {

/// Matrix's soft limit per event body, in characters: no chunk is longer.
pub const MATRIX_MAX_MESSAGE_LEN: usize = 4096;

/// A message longer than this is split at its last paragraph break, though it fits within the limit.
pub const LONG_MESSAGE_LEN: usize = 4000;

/// Where a message may be split, from the most natural place to the least.
#[derive(Clone, Copy, PartialEq, Eq, Structural)]
pub enum Boundary {
    /// At a double newline.
    Paragraph,
    /// At a newline.
    Line,
    /// At the space after a full stop, an exclamation mark or a question mark.
    Sentence,
    /// At a space.
    Word,
}

impl Boundary {
    /// Whether such a boundary stands at position `i` of `s`.
    pub open spec fn stands(self, s: Seq<char>, i: int) -> bool {
        match self {
            Boundary::Paragraph => i + 1 < s.len() && s[i] == '\n' && s[i + 1] == '\n',
            Boundary::Line => s[i] == '\n',
            Boundary::Sentence => 0 < i && (s[i - 1] == '.' || s[i - 1] == '!' || s[i - 1] == '?')
                && s[i] == ' ',
            Boundary::Word => s[i] == ' ',
        }
    }

    /// The last position of `s` below `n` at which such a boundary stands.
    pub open spec fn last_below(self, s: Seq<char>, n: int) -> Option<int>
        decreases n,
    {
        if n <= 0 {
            None
        } else if self.stands(s, n - 1) {
            Some(n - 1)
        } else {
            self.last_below(s, n - 1)
        }
    }
}

/// Where to split a window of text: at the last boundary of the most natural kind that it has, or
/// at its end where it has none or starts with that one.
pub open spec fn window_cut(window: Seq<char>) -> int {
    let n = window.len() as int;
    let at = if Boundary::Paragraph.last_below(window, n) is Some {
        Boundary::Paragraph.last_below(window, n)->0
    } else if Boundary::Line.last_below(window, n) is Some {
        Boundary::Line.last_below(window, n)->0
    } else if Boundary::Sentence.last_below(window, n) is Some {
        Boundary::Sentence.last_below(window, n)->0
    } else if Boundary::Word.last_below(window, n) is Some {
        Boundary::Word.last_below(window, n)->0
    } else {
        n
    };
    if at == 0 {
        n
    } else {
        at
    }
}

/// How many characters of `rest` go into its first chunk, before trimming: all of them where it fits
/// within the limit.
pub open spec fn first_cut(rest: Seq<char>) -> int {
    if rest.len() <= MATRIX_MAX_MESSAGE_LEN {
        rest.len() as int
    } else {
        window_cut(rest.take(MATRIX_MAX_MESSAGE_LEN as int))
    }
}

/// The chunks of a text: the first, then those of what follows it, with the white space at a
/// split left out.
pub open spec fn chunks_of(rest: Seq<char>) -> Seq<Seq<char>>
    decreases rest.len(),
    via chunks_shrink
{
    if rest.len() == 0 {
        Seq::empty()
    } else if first_cut(rest) >= rest.len() {
        seq![rest]
    } else {
        seq![text::trimmed_end(rest.take(first_cut(rest)))] + chunks_of(
            text::trimmed_start(rest.skip(first_cut(rest))),
        )
    }
}

#[via_fn]
proof fn chunks_shrink(rest: Seq<char>) {
    cut_is_within(rest);
    start_is_within(rest.skip(first_cut(rest)));
}

/// Where a long message that fits within the limit is split: at its last paragraph break, if it has
/// one, and text before and after it.
pub open spec fn early_cut(text: Seq<char>) -> Option<int> {
    let n = text.len() as int;
    if LONG_MESSAGE_LEN < n <= MATRIX_MAX_MESSAGE_LEN {
        match Boundary::Paragraph.last_below(text, n) {
            Some(at) => if 0 < at && text::trimmed_start(text.skip(at)).len() > 0 {
                Some(at)
            } else {
                None
            },
            None => None,
        }
    } else {
        None
    }
}

/// What a message is sent as: an empty one as itself, any other as its chunks.
pub open spec fn message_chunks(text: Seq<char>) -> Seq<Seq<char>> {
    if text.len() == 0 {
        seq![text]
    } else {
        match early_cut(text) {
            Some(at) => seq![text::trimmed_end(text.take(at))] + chunks_of(
                text::trimmed_start(text.skip(at)),
            ),
            None => chunks_of(text),
        }
    }
}

proof fn last_is_within(b: Boundary, s: Seq<char>, n: int)
    requires
        n <= s.len(),
    ensures
        b.last_below(s, n) matches Some(at) ==> 0 <= at < n && b.stands(s, at),
    decreases n,
{
    if n > 0 && !b.stands(s, n - 1) {
        last_is_within(b, s, n - 1);
    }
}

proof fn cut_is_within(rest: Seq<char>)
    ensures
        0 <= first_cut(rest) <= rest.len(),
        rest.len() > 0 ==> 0 < first_cut(rest) <= MATRIX_MAX_MESSAGE_LEN,
        first_cut(rest) == rest.len() ==> rest.len() <= MATRIX_MAX_MESSAGE_LEN,
{
    let n = rest.len() as int;
    if n > MATRIX_MAX_MESSAGE_LEN {
        let w = rest.take(MATRIX_MAX_MESSAGE_LEN as int);
        last_is_within(Boundary::Paragraph, w, w.len() as int);
        last_is_within(Boundary::Line, w, w.len() as int);
        last_is_within(Boundary::Sentence, w, w.len() as int);
        last_is_within(Boundary::Word, w, w.len() as int);
    }
}

proof fn start_is_within(s: Seq<char>)
    ensures
        text::trimmed_start(s).len() <= s.len(),
    decreases s.len(),
{
    if s.len() > 0 && text::is_space(s[0]) {
        start_is_within(s.skip(1));
    }
}

proof fn end_is_within(s: Seq<char>)
    ensures
        text::trimmed_end(s).len() <= s.len(),
    decreases s.len(),
{
    if s.len() > 0 && text::is_space(s.last()) {
        end_is_within(s.drop_last());
    }
}

/// The last place below the end of the window of `len` characters from `from` on at which such a
/// boundary stands, counted from `from`.
fn last_boundary(b: Boundary, chars: &Vec<char>, from: usize, len: usize) -> (at: Option<usize>)
    requires
        from + len <= chars.len(),
    ensures
        match b.last_below(chars@.subrange(from as int, from + len), len as int) {
            Some(i) => at == Some(i as usize) && 0 <= i < len,
            None => at is None,
        },
{
    let ghost w = chars@.subrange(from as int, from + len);
    let mut n: usize = len;
    while n > 0
        invariant
            n <= len,
            from + len <= chars.len(),
            w == chars@.subrange(from as int, from + len),
            b.last_below(w, len as int) == b.last_below(w, n as int),
        decreases n,
    {
        let i: usize = n - 1;
        let c: char = chars[from + i];
        assert(c == w[i as int]);
        let stands = match b {
            Boundary::Paragraph => n < len && c == '\n' && chars[from + n] == '\n',
            Boundary::Line => c == '\n',
            Boundary::Sentence => i > 0 && c == ' ' && (chars[from + i - 1] == '.' || chars[from + i
                - 1] == '!' || chars[from + i - 1] == '?'),
            Boundary::Word => c == ' ',
        };
        assert(stands == b.stands(w, i as int));
        if stands {
            return Some(i);
        }
        n = i;
    }
    None
}

/// How many of the characters from `from` on go into the next chunk.
fn cut_from(chars: &Vec<char>, from: usize) -> (cut: usize)
    requires
        from <= chars.len(),
    ensures
        cut == first_cut(chars@.skip(from as int)),
        from + cut <= chars.len(),
{
    let ghost rest = chars@.skip(from as int);
    let n: usize = chars.len() - from;
    proof {
        cut_is_within(rest);
        assert(chars@.subrange(from as int, from + n) == rest);
    }
    if n <= MATRIX_MAX_MESSAGE_LEN {
        return n;
    }
    let w: usize = MATRIX_MAX_MESSAGE_LEN;
    assert(chars@.subrange(from as int, from + w) == rest.take(w as int));
    let mut at: Option<usize> = last_boundary(Boundary::Paragraph, chars, from, w);
    if at.is_none() {
        at = last_boundary(Boundary::Line, chars, from, w);
    }
    if at.is_none() {
        at = last_boundary(Boundary::Sentence, chars, from, w);
    }
    if at.is_none() {
        at = last_boundary(Boundary::Word, chars, from, w);
    }
    match at {
        Some(i) => if i == 0 { w } else { i },
        None => w,
    }
}

/// Split a long message into chunks that fit within Matrix's limit.
///
/// Splits at the most natural boundary of the text that fits (a paragraph break, a newline, the
/// end of a sentence, a space, in this order), or at the limit where it has none. A message that fits
/// within the limit is one chunk, but for a long one with a paragraph break.
pub fn split_message(text: &str) -> (chunks: Vec<String>)
    ensures
        text::texts(chunks@) == message_chunks(text@),
{
    let chars = chars_of(text);
    let mut chunks: Vec<String> = Vec::new();
    if chars.len() == 0 {
        chunks.push(text.to_owned());
        assert(text::texts(chunks@) =~= message_chunks(text@));
        return chunks;
    }
    let mut from: usize = 0;
    let ghost all = message_chunks(text@);
    assert(chars@.skip(0) == chars@);
    if LONG_MESSAGE_LEN < chars.len() && chars.len() <= MATRIX_MAX_MESSAGE_LEN {
        let n: usize = chars.len();
        assert(chars@.subrange(0, n as int) == chars@);
        if let Some(at) = last_boundary(Boundary::Paragraph, &chars, 0, n) {
            let next: usize = start_of_text(&chars, at);
            if at > 0 && next < n {
                let end: usize = end_of_text(&chars, 0, at);
                chunks.push(text_of(&chars, 0, end));
                from = next;
                proof {
                    assert(chars@.subrange(0, at as int) == chars@.take(at as int));
                    assert(text::texts(chunks@) =~= seq![
                        text::trimmed_end(chars@.take(at as int)),
                    ]);
                }
            }
        }
    }
    assert(text::texts(chunks@) + chunks_of(chars@.skip(from as int)) =~= all);
    while from < chars.len()
        invariant
            from <= chars.len(),
            text::texts(chunks@) + chunks_of(chars@.skip(from as int)) == all,
        decreases chars.len() - from,
    {
        let ghost before = text::texts(chunks@);
        let ghost rest = chars@.skip(from as int);
        let cut: usize = cut_from(&chars, from);
        proof {
            cut_is_within(rest);
        }
        if cut >= chars.len() - from {
            chunks.push(text_of(&chars, from, chars.len()));
            from = chars.len();
            assert(chunks@.last()@ == rest);
            assert(chars@.skip(from as int) == Seq::<char>::empty());
            assert(text::texts(chunks@) =~= before + seq![rest]);
            assert(chunks_of(rest) == seq![rest]);
            assert(chunks_of(chars@.skip(from as int)) =~= Seq::<Seq<char>>::empty());
            assert(text::texts(chunks@) + chunks_of(chars@.skip(from as int)) =~= before + chunks_of(
                rest,
            ));
        } else {
            let end: usize = end_of_text(&chars, from, from + cut);
            chunks.push(text_of(&chars, from, end));
            let next: usize = start_of_text(&chars, from + cut);
            proof {
                assert(chars@.subrange(from as int, from + cut) == rest.take(cut as int));
                assert(chars@.skip(from + cut) == rest.skip(cut as int));
                let chunk = text::trimmed_end(rest.take(cut as int));
                assert(chunks@.last()@ == chunk);
                assert(text::texts(chunks@) =~= before + seq![chunk]);
                assert(chunks_of(rest) == seq![chunk] + chunks_of(chars@.skip(next as int)));
                assert(text::texts(chunks@) + chunks_of(chars@.skip(next as int)) =~= before + chunks_of(
                    rest,
                ));
            }
            from = next;
        }
    }
    assert(chars@.skip(from as int) == Seq::<char>::empty());
    assert(text::texts(chunks@) =~= all);
    chunks
}

// ---------------------------------------------------------------------------
// Laws
// ---------------------------------------------------------------------------

/// No chunk of a message is longer than Matrix's limit.
pub proof fn chunks_fit_the_limit(text: Seq<char>, i: int)
    requires
        0 <= i < message_chunks(text).len(),
    ensures
        message_chunks(text)[i].len() <= MATRIX_MAX_MESSAGE_LEN,
{
    if text.len() > 0 {
        match early_cut(text) {
            Some(at) => {
                last_is_within(Boundary::Paragraph, text, text.len() as int);
                end_is_within(text.take(at));
                if i > 0 {
                    chunks_fit(text::trimmed_start(text.skip(at)), i - 1);
                }
            },
            None => {
                chunks_fit(text, i);
            },
        }
    }
}

proof fn chunks_fit(rest: Seq<char>, i: int)
    requires
        0 <= i < chunks_of(rest).len(),
    ensures
        chunks_of(rest)[i].len() <= MATRIX_MAX_MESSAGE_LEN,
    decreases rest.len(),
{
    cut_is_within(rest);
    if rest.len() > 0 && first_cut(rest) < rest.len() {
        let cut = first_cut(rest);
        start_is_within(rest.skip(cut));
        end_is_within(rest.take(cut));
        if i > 0 {
            chunks_fit(text::trimmed_start(rest.skip(cut)), i - 1);
        }
    }
}

/// A message that is not long is sent whole and unchanged, as one chunk; so is any that fits within
/// the limit and has no paragraph break to split it at.
pub proof fn short_message_is_whole(text: Seq<char>)
    requires
        text.len() <= LONG_MESSAGE_LEN || (text.len() <= MATRIX_MAX_MESSAGE_LEN && early_cut(text) is None),
    ensures
        message_chunks(text) == seq![text],
{
}

/// A message is sent as at least one chunk.
pub proof fn some_chunk_is_sent(text: Seq<char>)
    ensures
        message_chunks(text).len() > 0,
{
    cut_is_within(text);
}

/// Whether every character of `s` is white space.
pub open spec fn all_space(s: Seq<char>) -> bool {
    forall|i: int| 0 <= i < s.len() ==> text::is_space(s[i])
}

/// The chunks one after the other, each followed by its gap.
pub open spec fn woven(chunks: Seq<Seq<char>>, gaps: Seq<Seq<char>>) -> Seq<char>
    decreases chunks.len(),
{
    if chunks.len() == 0 {
        Seq::empty()
    } else {
        chunks[0] + gaps[0] + woven(chunks.skip(1), gaps.skip(1))
    }
}

/// Whether the gaps are what `text` has after each of the chunks: white space only; and every chunk
/// but the first starts with another character.
pub open spec fn are_gaps(text: Seq<char>, chunks: Seq<Seq<char>>, gaps: Seq<Seq<char>>) -> bool {
    &&& gaps.len() == chunks.len()
    &&& forall|i: int| 0 <= i < gaps.len() ==> all_space(#[trigger] gaps[i])
    &&& forall|i: int|
        0 < i < chunks.len() ==> (#[trigger] chunks[i]).len() > 0 && !text::is_space(chunks[i][0])
    &&& text == woven(chunks, gaps)
}

proof fn start_splits(s: Seq<char>) -> (head: Seq<char>)
    ensures
        all_space(head),
        s == head + text::trimmed_start(s),
        text::trimmed_start(s).len() > 0 ==> !text::is_space(text::trimmed_start(s)[0]),
    decreases s.len(),
{
    if s.len() > 0 && text::is_space(s[0]) {
        let rest = start_splits(s.skip(1));
        let head = seq![s[0]] + rest;
        let kept = text::trimmed_start(s.skip(1));
        assert(text::trimmed_start(s) == kept);
        assert(s =~= seq![s[0]] + s.skip(1));
        assert(seq![s[0]] + (rest + kept) =~= head + kept);
        head
    } else {
        assert(s =~= Seq::<char>::empty() + s);
        Seq::empty()
    }
}

proof fn end_splits(s: Seq<char>) -> (tail: Seq<char>)
    ensures
        all_space(tail),
        s == text::trimmed_end(s) + tail,
        s.len() > 0 && !text::is_space(s[0]) ==> text::trimmed_end(s).len() > 0,
    decreases s.len(),
{
    if s.len() > 0 && text::is_space(s.last()) {
        let rest = end_splits(s.drop_last());
        let tail = rest.push(s.last());
        let kept = text::trimmed_end(s.drop_last());
        assert(text::trimmed_end(s) == kept);
        assert(s =~= s.drop_last().push(s.last()));
        assert((kept + rest).push(s.last()) =~= kept + tail);
        tail
    } else {
        assert(s =~= s + Seq::<char>::empty());
        Seq::empty()
    }
}

proof fn chunks_weave(rest: Seq<char>) -> (gaps: Seq<Seq<char>>)
    ensures
        are_gaps(rest, chunks_of(rest), gaps),
        rest.len() > 0 && !text::is_space(rest[0]) ==> chunks_of(rest)[0].len() > 0
            && !text::is_space(chunks_of(rest)[0][0]),
        rest.len() > 0 ==> chunks_of(rest).len() > 0,
    decreases rest.len(),
{
    cut_is_within(rest);
    let chunks = chunks_of(rest);
    reveal_with_fuel(woven, 2);
    if rest.len() == 0 {
        assert(rest =~= woven(chunks, Seq::empty()));
        Seq::empty()
    } else if first_cut(rest) >= rest.len() {
        let gaps = seq![Seq::<char>::empty()];
        assert(chunks.skip(1) =~= Seq::empty());
        assert(rest =~= woven(chunks, gaps));
        gaps
    } else {
        split_weaves(rest, first_cut(rest), chunks)
    }
}

proof fn split_weaves(rest: Seq<char>, cut: int, chunks: Seq<Seq<char>>) -> (gaps: Seq<Seq<char>>)
    requires
        0 < cut <= rest.len(),
        chunks == seq![text::trimmed_end(rest.take(cut))] + chunks_of(
            text::trimmed_start(rest.skip(cut)),
        ),
    ensures
        are_gaps(rest, chunks, gaps),
        !text::is_space(rest[0]) ==> chunks[0].len() > 0 && !text::is_space(chunks[0][0]),
    decreases rest.len(), 0int,
{
    let next = text::trimmed_start(rest.skip(cut));
    let tail = end_splits(rest.take(cut));
    let head = start_splits(rest.skip(cut));
    start_is_within(rest.skip(cut));
    let more = chunks_weave(next);
    let gaps = seq![tail + head] + more;
    assert(chunks.skip(1) =~= chunks_of(next));
    assert(gaps.skip(1) =~= more);
    assert(rest =~= rest.take(cut) + rest.skip(cut));
    assert(rest =~= chunks[0] + gaps[0] + woven(chunks.skip(1), gaps.skip(1)));
    assert forall|i: int| 0 < i < chunks.len() implies (#[trigger] chunks[i]).len() > 0
        && !text::is_space(chunks[i][0]) by {
        assert(chunks[i] == chunks_of(next)[i - 1]);
    }
    assert forall|i: int| 0 <= i < gaps.len() implies all_space(#[trigger] gaps[i]) by {
        if i > 0 {
            assert(gaps[i] == more[i - 1]);
        }
    }
    if !text::is_space(rest[0]) {
        assert(rest.take(cut)[0] == rest[0]);
        assert(rest.take(cut)[0] == chunks[0][0]);
    }
    gaps
}

/// Splitting loses nothing but white space at the splits: the message is its chunks, one after the
/// other, with only white space between them, and every chunk but the first starts with another
/// character.
pub proof fn chunks_keep_the_text(text: Seq<char>)
    ensures
        exists|gaps: Seq<Seq<char>>| are_gaps(text, message_chunks(text), gaps),
{
    let chunks = message_chunks(text);
    reveal_with_fuel(woven, 2);
    if text.len() == 0 {
        let gaps = seq![Seq::<char>::empty()];
        assert(chunks.skip(1) =~= Seq::empty());
        assert(text =~= woven(chunks, gaps));
        assert(are_gaps(text, chunks, gaps));
    } else {
        match early_cut(text) {
            Some(at) => {
                last_is_within(Boundary::Paragraph, text, text.len() as int);
                let gaps = split_weaves(text, at, chunks);
                assert(are_gaps(text, chunks, gaps));
            },
            None => {
                let gaps = chunks_weave(text);
                assert(are_gaps(text, chunks, gaps));
            },
        }
    }
}

/// Whether a text may be broken at position `i`, at a place of the given rank: an empty line, then the end
/// of a line, then that of a sentence, then that of a word.
pub open spec fn breaks_at(rank: int, s: Seq<char>, i: int) -> bool {
    &&& 0 <= i < s.len()
    &&& if rank == 0 {
        i + 1 < s.len() && s[i] == '\n' && s[i + 1] == '\n'
    } else if rank == 1 {
        s[i] == '\n'
    } else if rank == 2 {
        i > 0 && (s[i - 1] == '.' || s[i - 1] == '!' || s[i - 1] == '?') && s[i] == ' '
    } else {
        s[i] == ' '
    }
}

/// Whether `i` is the last place of its rank at which the text may be broken, and it has none of a better
/// rank.
pub open spec fn is_best_break(rank: int, s: Seq<char>, i: int) -> bool {
    &&& 0 <= rank <= 3
    &&& breaks_at(rank, s, i)
    &&& forall|j: int| i < j ==> !#[trigger] breaks_at(rank, s, j)
    &&& forall|better: int, j: int| 0 <= better < rank ==> !#[trigger] breaks_at(better, s, j)
}

/// Whether there is no place at which the text may be broken.
pub open spec fn has_no_break(s: Seq<char>) -> bool {
    forall|rank: int, j: int| 0 <= rank <= 3 ==> !#[trigger] breaks_at(rank, s, j)
}

/// Whether a text is cut into a first part and a rest, and only white space around the cut is left out, all
/// of it.
pub open spec fn is_cut(text: Seq<char>, cut: int, first: Seq<char>, rest: Seq<char>) -> bool {
    &&& 0 < cut <= text.len()
    &&& first.len() <= cut
    &&& first == text.take(first.len() as int)
    &&& all_space(text.subrange(first.len() as int, cut))
    &&& first.len() > 0 ==> !text::is_space(first.last())
    &&& rest.len() <= text.len() - cut
    &&& rest == text.skip(text.len() - rest.len())
    &&& all_space(text.subrange(cut, text.len() - rest.len()))
    &&& rest.len() > 0 ==> !text::is_space(rest[0])
}

proof fn last_below_is_last(b: Boundary, rank: int, s: Seq<char>, n: int)
    requires
        0 <= n <= s.len(),
        b is Paragraph <==> rank == 0,
        b is Line <==> rank == 1,
        b is Sentence <==> rank == 2,
        b is Word <==> rank == 3,
    ensures
        match b.last_below(s, n) {
            Some(at) => 0 <= at < n && breaks_at(rank, s, at) && forall|j: int|
                at < j < n ==> !#[trigger] breaks_at(rank, s, j),
            None => forall|j: int| j < n ==> !#[trigger] breaks_at(rank, s, j),
        },
    decreases n,
{
    if n > 0 {
        last_below_is_last(b, rank, s, n - 1);
        assert(b.stands(s, n - 1) == breaks_at(rank, s, n - 1));
    }
}

proof fn trimming_cuts(text: Seq<char>, cut: int) -> (r: (Seq<char>, Seq<char>))
    requires
        0 < cut <= text.len(),
    ensures
        r.0 == text::trimmed_end(text.take(cut)),
        r.1 == text::trimmed_start(text.skip(cut)),
        is_cut(text, cut, r.0, r.1),
{
    let first = text::trimmed_end(text.take(cut));
    let rest = text::trimmed_start(text.skip(cut));
    let tail = end_splits(text.take(cut));
    let head = start_splits(text.skip(cut));
    end_is_trimmed(text.take(cut));
    assert forall|i: int| 0 <= i < first.len() implies first[i] == text[i] by {
        assert((first + tail)[i] == text.take(cut)[i]);
    }
    assert(first =~= text.take(first.len() as int));
    assert forall|i: int| first.len() <= i < cut implies text::is_space(#[trigger] text[i]) by {
        assert((first + tail)[i] == text.take(cut)[i]);
        assert(text::is_space(tail[i - first.len()]));
    }
    let from = text.len() - rest.len();
    assert forall|i: int| from <= i < text.len() implies text[i] == rest[i - from] by {
        assert((head + rest)[i - cut] == text.skip(cut)[i - cut]);
    }
    assert(rest =~= text.skip(from));
    assert forall|i: int| cut <= i < from implies text::is_space(#[trigger] text[i]) by {
        assert((head + rest)[i - cut] == text.skip(cut)[i - cut]);
        assert(text::is_space(head[i - cut]));
    }
    (first, rest)
}

proof fn end_is_trimmed(s: Seq<char>)
    ensures
        text::trimmed_end(s).len() > 0 ==> !text::is_space(text::trimmed_end(s).last()),
    decreases s.len(),
{
    if s.len() > 0 && text::is_space(s.last()) {
        end_is_trimmed(s.drop_last());
    }
}

/// A text over the limit is cut within its first 4096 characters, at the last of the most natural breaks that
/// they have; or behind them, where they have none, or only start with it. What is before the cut is the first
/// chunk, and what follows it is split in the same way.
pub proof fn long_text_is_cut_at_its_best_break(text: Seq<char>) -> (r: (int, Seq<char>, Seq<char>))
    requires
        text.len() > 4096,
    ensures
        message_chunks(text) == chunks_of(text),
        chunks_of(text) == seq![r.1] + chunks_of(r.2),
        is_cut(text, r.0, r.1, r.2),
        (exists|rank: int| #[trigger] is_best_break(rank, text.take(4096), r.0)) || (r.0 == 4096 && (
        has_no_break(text.take(4096)) || exists|rank: int| #[trigger]
            is_best_break(rank, text.take(4096), 0))),
{
    let w = text.take(4096);
    last_below_is_last(Boundary::Paragraph, 0, w, 4096);
    last_below_is_last(Boundary::Line, 1, w, 4096);
    last_below_is_last(Boundary::Sentence, 2, w, 4096);
    last_below_is_last(Boundary::Word, 3, w, 4096);
    cut_is_within(text);
    let cut = first_cut(text);
    let r = trimming_cuts(text, cut);
    let p = Boundary::Paragraph.last_below(w, 4096);
    let l = Boundary::Line.last_below(w, 4096);
    let s = Boundary::Sentence.last_below(w, 4096);
    let o = Boundary::Word.last_below(w, 4096);
    if p is Some {
        assert(is_best_break(0, w, p->0));
    } else if l is Some {
        assert(is_best_break(1, w, l->0));
    } else if s is Some {
        assert(is_best_break(2, w, s->0));
    } else if o is Some {
        assert(is_best_break(3, w, o->0));
    } else {
        assert(has_no_break(w));
    }
    (cut, r.0, r.1)
}

/// A text within the limit is one chunk, or none where it is empty. A message of at most 4000 characters is
/// sent as it is; so is a longer one within the limit without an empty line. One that has an empty line, and
/// text after the last, is sent as what is before and what is after it.
pub proof fn text_within_the_limit_is_whole(text: Seq<char>, at: int)
    requires
        text.len() <= 4096,
    ensures
        chunks_of(text) == (if text.len() == 0 {
            Seq::empty()
        } else {
            seq![text]
        }),
        text.len() <= 4000 ==> message_chunks(text) == seq![text],
        (forall|j: int| !#[trigger] breaks_at(0, text, j)) ==> message_chunks(text) == seq![text],
        text.len() > 4000 && at > 0 && is_best_break(0, text, at) && !all_space(text.skip(at)) ==> exists|
            first: Seq<char>,
            rest: Seq<char>,
        |
            #[trigger] is_cut(text, at, first, rest) && message_chunks(text) == seq![first, rest],
{
    let n = text.len() as int;
    last_below_is_last(Boundary::Paragraph, 0, text, n);
    if text.len() > 4000 && at > 0 && is_best_break(0, text, at) && !all_space(text.skip(at)) {
        let last = Boundary::Paragraph.last_below(text, n)->0;
        assert(breaks_at(0, text, last));
        assert(breaks_at(0, text, at));
        assert(last == at);
        let r = trimming_cuts(text, at);
        let head = start_splits(text.skip(at));
        if r.1.len() == 0 {
            assert(text.skip(at) =~= head);
        }
        assert(chunks_of(r.1) == seq![r.1]);
        assert(message_chunks(text) =~= seq![r.0, r.1]);
        assert(is_cut(text, at, r.0, r.1));
    }
}

} // verus!
