//! Laws of the reassembler: where chunk boundaries fall does not matter.
use vstd::prelude::*;
use crate::sse::{
    events_of, joined, lemma_lines_of_concat, lemma_run_concat, lemma_run_done, lines_of, rest_of,
    run_on, split_from, step, Progress, ReaderState,
};

verus! {

/// A blank line starts at `p` in `s`.
pub open spec fn delim_at(s: Seq<u8>, p: int) -> bool {
    0 <= p && p + 1 < s.len() && s[p] == 10 && s[p + 1] == 10
}

proof fn lemma_split_shift(s: Seq<u8>, k: int, start: int, j: int)
    requires
        0 <= k <= start <= j <= s.len(),
    ensures
        split_from(s, start, j).0 == split_from(s.subrange(k, s.len() as int), start - k, j - k).0,
        split_from(s, start, j).1 == split_from(s.subrange(k, s.len() as int), start - k, j - k).1
            + k,
    decreases s.len() - j,
{
    let t = s.subrange(k, s.len() as int);
    if j + 1 >= s.len() {
    } else if s[j] == 10 && s[j + 1] == 10 {
        assert(t[j - k] == 10 && t[j - k + 1] == 10);
        lemma_split_shift(s, k, j + 2, j + 2);
        assert(t.subrange(start - k, j - k) =~= s.subrange(start, j));
    } else {
        assert(!(t[j - k] == 10 && t[j - k + 1] == 10));
        lemma_split_shift(s, k, start, j + 1);
    }
}

proof fn lemma_split_skip(s: Seq<u8>, start: int, m: int)
    requires
        0 <= start <= m,
        forall|p: int| start <= p < m ==> !delim_at(s, p),
    ensures
        split_from(s, start, start) == split_from(s, start, m),
    decreases m - start,
{
    if m > start {
        lemma_split_skip(s, start, m - 1);
        assert(!delim_at(s, m - 1));
        assert(split_from(s, start, m - 1) == split_from(s, start, m));
    }
}

proof fn lemma_split_prefix(x: Seq<u8>, b: Seq<u8>, start: int, j: int)
    requires
        0 <= start <= j <= x.len(),
        j < x.len() || j == start,
        forall|p: int| start <= p < j ==> !delim_at(x, p),
    ensures
        start <= split_from(x, start, j).1 <= x.len(),
        split_from(x + b, start, j).0 == split_from(x, start, j).0 + split_from(
            x + b,
            split_from(x, start, j).1,
            split_from(x, start, j).1,
        ).0,
        split_from(x + b, start, j).1 == split_from(
            x + b,
            split_from(x, start, j).1,
            split_from(x, start, j).1,
        ).1,
    decreases x.len() - j,
{
    let s = x + b;
    if j + 1 >= x.len() {
        assert forall|p: int| start <= p < j implies !delim_at(s, p) by {
            assert(!delim_at(x, p));
        }
        lemma_split_skip(s, start, j);
        assert(Seq::<Seq<u8>>::empty() + split_from(s, start, start).0 =~= split_from(
            s,
            start,
            start,
        ).0);
    } else if x[j] == 10 && x[j + 1] == 10 {
        lemma_split_prefix(x, b, j + 2, j + 2);
        let r = split_from(x, j + 2, j + 2);
        assert(s.subrange(start, j) =~= x.subrange(start, j));
        assert(seq![x.subrange(start, j)] + (r.0 + split_from(s, r.1, r.1).0) =~= (seq![
            x.subrange(start, j),
        ] + r.0) + split_from(s, r.1, r.1).0);
    } else {
        assert(!delim_at(x, j));
        lemma_split_prefix(x, b, start, j + 1);
    }
}

/// The events of a byte stream cut in two are the events of the first part,
/// then those of its unfinished tail joined to the second part; the tail left
/// at the end is the same. So events come out whole and in the order they were
/// sent wherever a boundary falls, also inside `data: ` or inside a blank line.
pub proof fn lemma_events_split(x: Seq<u8>, b: Seq<u8>)
    ensures
        events_of(x + b) == events_of(x) + events_of(rest_of(x) + b),
        rest_of(x + b) == rest_of(rest_of(x) + b),
{
    lemma_split_prefix(x, b, 0, 0);
    let r = split_from(x, 0, 0).1;
    let s = x + b;
    lemma_split_shift(s, r, r, r);
    assert(s.subrange(r, s.len() as int) =~= rest_of(x) + b);
    let rr = split_from(rest_of(x) + b, 0, 0).1;
    lemma_split_prefix(rest_of(x) + b, Seq::empty(), 0, 0);
    assert(s.subrange(rr + r, s.len() as int) =~= (rest_of(x) + b).subrange(
        rr,
        (rest_of(x) + b).len() as int,
    ));
}

proof fn lemma_run_prefix(f: Seq<Seq<char>>, lines: Seq<Seq<u8>>)
    ensures
        run_on((f, false), lines) == (
            f + run_on((Seq::empty(), false), lines).0,
            run_on((Seq::empty(), false), lines).1,
        ),
    decreases lines.len(),
{
    let e: Progress = (Seq::empty(), false);
    if lines.len() == 0 {
        assert(f + Seq::<Seq<char>>::empty() =~= f);
    } else {
        lemma_run_prefix(f, lines.drop_last());
        let g = run_on(e, lines.drop_last()).0;
        let l = lines.last();
        if !run_on(e, lines.drop_last()).1 && !crate::sse::is_done_line(l) {
            if let Some(c) = crate::sse::line_fragment(l) {
                assert((f + g).push(c) =~= f + g.push(c));
            }
        }
    }
}

proof fn lemma_joined_concat(f: Seq<Seq<char>>, g: Seq<Seq<char>>)
    ensures
        joined(f + g) == joined(f) + joined(g),
    decreases g.len(),
{
    if g.len() == 0 {
        assert(f + g =~= f);
        assert(joined(f) + joined(g) =~= joined(f));
    } else {
        assert((f + g).drop_last() =~= f + g.drop_last());
        lemma_joined_concat(f, g.drop_last());
        assert(joined(f) + (joined(g.drop_last()) + g.last()) =~= (joined(f) + joined(
            g.drop_last(),
        )) + g.last());
    }
}

/// Feeding a reader two chunks in turn leaves it in the state that feeding it
/// their concatenation at once would, and hands back the same fragments in
/// the same order.
pub proof fn lemma_chunk_boundaries(st: ReaderState, a: Seq<u8>, b: Seq<u8>)
    ensures
        step(step(st, a).0, b).0 == step(st, a + b).0,
        step(st, a).1 + step(step(st, a).0, b).1 == step(st, a + b).1,
{
    if st.done {
        assert(a + b =~= a + b);
        assert(step(st, a).1 + step(step(st, a).0, b).1 =~= Seq::<Seq<char>>::empty());
    } else {
        let x = st.pending + a;
        assert(st.pending + (a + b) =~= x + b);
        lemma_events_split(x, b);
        let e: Progress = (Seq::empty(), false);
        let e1 = events_of(x);
        let e2 = events_of(rest_of(x) + b);
        lemma_lines_of_concat(e1, e2);
        lemma_run_concat(e, lines_of(e1), lines_of(e2));
        let r1 = run_on(e, lines_of(e1));
        let r2 = run_on(e, lines_of(e2));
        if r1.1 {
            lemma_run_done(r1, lines_of(e2));
            assert(r1.0 + Seq::<Seq<char>>::empty() =~= r1.0);
        } else {
            lemma_run_prefix(r1.0, lines_of(e2));
            lemma_joined_concat(r1.0, r2.0);
            assert(st.text + joined(r1.0) + joined(r2.0) =~= st.text + (joined(r1.0) + joined(
                r2.0,
            )));
        }
    }
}

/// The concatenation of chunks.
pub open spec fn concat_all(chunks: Seq<Seq<u8>>) -> Seq<u8>
    decreases chunks.len(),
{
    if chunks.len() == 0 {
        Seq::empty()
    } else {
        concat_all(chunks.drop_last()) + chunks.last()
    }
}

/// Chunks fed one after another: the final state and every fragment handed
/// back, in order.
pub open spec fn feed_all(st: ReaderState, chunks: Seq<Seq<u8>>) -> (ReaderState, Seq<Seq<char>>)
    decreases chunks.len(),
{
    if chunks.len() == 0 {
        (st, Seq::empty())
    } else {
        let r = feed_all(st, chunks.drop_last());
        let s = step(r.0, chunks.last());
        (s.0, r.1 + s.1)
    }
}

/// A reader before the first chunk.
pub open spec fn fresh() -> ReaderState {
    ReaderState { pending: Seq::empty(), text: Seq::empty(), done: false }
}

/// However a body is cut into chunks, a fresh reader fed them in turn ends in
/// the state, and hands back the fragments, of one fed the whole body at once.
pub proof fn lemma_any_chunking(chunks: Seq<Seq<u8>>)
    ensures
        feed_all(fresh(), chunks) == step(fresh(), concat_all(chunks)),
    decreases chunks.len(),
{
    if chunks.len() == 0 {
        let s = step(fresh(), Seq::empty());
        assert(fresh().pending + Seq::<u8>::empty() =~= Seq::<u8>::empty());
        assert(lines_of(Seq::<Seq<u8>>::empty()) =~= Seq::<Seq<u8>>::empty());
        assert(s.0.pending =~= Seq::<u8>::empty());
        assert(s.0.text =~= Seq::<char>::empty());
    } else {
        lemma_any_chunking(chunks.drop_last());
        lemma_chunk_boundaries(fresh(), concat_all(chunks.drop_last()), chunks.last());
        let r = feed_all(fresh(), chunks.drop_last());
        assert(r.0 == step(fresh(), concat_all(chunks.drop_last())).0);
    }
}

/// No blank line is left in `p`: every complete event has been taken.
pub open spec fn settled(p: Seq<u8>) -> bool {
    forall|q: int| !delim_at(p, q)
}

proof fn lemma_split_tail_settled(s: Seq<u8>, start: int, j: int)
    requires
        0 <= start <= j <= s.len(),
        forall|p: int| start <= p < j ==> !delim_at(s, p),
    ensures
        start <= split_from(s, start, j).1 <= s.len(),
        forall|p: int| split_from(s, start, j).1 <= p ==> !delim_at(s, p),
    decreases s.len() - j,
{
    if j + 1 >= s.len() {
    } else if s[j] == 10 && s[j + 1] == 10 {
        lemma_split_tail_settled(s, j + 2, j + 2);
    } else {
        lemma_split_tail_settled(s, start, j + 1);
    }
}

/// After every chunk the unfinished event holds no blank line: a pass takes
/// every complete event before it returns.
pub proof fn lemma_pending_settled(st: ReaderState, chunk: Seq<u8>)
    requires
        settled(st.pending),
    ensures
        settled(step(st, chunk).0.pending),
{
    if !st.done {
        let all = st.pending + chunk;
        lemma_split_tail_settled(all, 0, 0);
        let r = split_from(all, 0, 0).1;
        let rest = all.subrange(r, all.len() as int);
        assert forall|q: int| !delim_at(step(st, chunk).0.pending, q) by {
            if run_on((Seq::empty(), false), lines_of(split_from(all, 0, 0).0)).1 {
            } else if delim_at(rest, q) {
                assert(delim_at(all, q + r));
            }
        }
    }
}

/// The text of a fresh reader, after any chunks, is the concatenation in
/// order of every fragment it handed back.
pub proof fn lemma_text_is_fragments(chunks: Seq<Seq<u8>>)
    ensures
        feed_all(fresh(), chunks).0.text == joined(feed_all(fresh(), chunks).1),
    decreases chunks.len(),
{
    if chunks.len() > 0 {
        lemma_text_is_fragments(chunks.drop_last());
        let r = feed_all(fresh(), chunks.drop_last());
        let s = step(r.0, chunks.last());
        lemma_joined_concat(r.1, s.1);
        if r.0.done {
            assert(r.1 + s.1 =~= r.1);
        }
    }
}

} // verus!
