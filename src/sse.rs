//! Reassembly of a Server-Sent-Events body into assistant text.
//!
//! Bytes arrive in chunks whose boundaries are set by the network. The reader
//! keeps the bytes of the unfinished event, cuts complete events at each blank
//! line, and reads every `data: ` line of an event: `[DONE]` ends the stream,
//! any other payload is a JSON delta record whose content fragment, if any, is
//! appended to the text and handed back to the caller.
//!
//! The unfinished event is kept as raw bytes and a payload is decoded only
//! once its event is complete, so a character split across two chunks is
//! decoded whole.
use vstd::prelude::*;
use vstd::string::*;
use crate::text::views;

verus! {

/// What `String::from_utf8_lossy` makes of a byte sequence.
pub uninterp spec fn lossy_of(b: Seq<u8>) -> Seq<char>;

/// The content fragment of the first choice of a JSON delta record, if the
/// record parses and carries one.
pub uninterp spec fn delta_of(data: Seq<char>) -> Option<Seq<char>>;

/// Relies on `String::from_utf8_lossy`: decodes UTF-8, putting U+FFFD in place
/// of invalid sequences; the result depends on the bytes alone.
#[verifier::external_body]
fn decode_lossy(b: &Vec<u8>) -> (r: String)
    ensures
        r@ == lossy_of(b@),
{
    String::from_utf8_lossy(b.as_slice()).into_owned()
}

/// Relies on `serde_json::from_str` into a `serde_json::Value` and on its
/// accessors: reads `choices[0].delta.content` as a string; `None` where the
/// text is no JSON or that field is missing or not a string.
#[verifier::external_body]
fn delta_content(data: &str) -> (r: Option<String>)
    ensures
        match r {
            Some(c) => delta_of(data@) == Some(c@),
            None => delta_of(data@) is None,
        },
{
    let v: serde_json::Value = serde_json::from_str(data).ok()?;
    let content = v.get("choices")?.as_array()?.first()?.get("delta")?.get("content")?;
    content.as_str().map(|s| s.to_string())
}

/// The event split: the complete events of `s` from the one that starts at
/// `start`, the scan for a blank line being at `j`; and where the unfinished
/// tail begins.
pub open spec fn split_from(s: Seq<u8>, start: int, j: int) -> (Seq<Seq<u8>>, int)
    decreases s.len() - j,
{
    if j + 1 >= s.len() {
        (Seq::empty(), start)
    } else if s[j] == 10 && s[j + 1] == 10 {
        let r = split_from(s, j + 2, j + 2);
        (seq![s.subrange(start, j)] + r.0, r.1)
    } else {
        split_from(s, start, j + 1)
    }
}

/// The complete events of `s`, in order: the text before each blank line.
pub open spec fn events_of(s: Seq<u8>) -> Seq<Seq<u8>> {
    split_from(s, 0, 0).0
}

/// What follows the last blank line of `s`: the unfinished event.
pub open spec fn rest_of(s: Seq<u8>) -> Seq<u8> {
    s.subrange(split_from(s, 0, 0).1, s.len() as int)
}

/// A line without the carriage return that ended it.
pub open spec fn strip_cr(l: Seq<u8>) -> Seq<u8> {
    if l.len() > 0 && l.last() == 13 {
        l.drop_last()
    } else {
        l
    }
}

/// The lines of `e` from the one that starts at `start`, the scan for a line
/// feed being at `j`. A line that ends in a line feed loses a carriage return
/// before it; the last line is kept as it is.
pub open spec fn lines_from(e: Seq<u8>, start: int, j: int) -> Seq<Seq<u8>>
    decreases e.len() - j,
{
    if j >= e.len() {
        seq![e.subrange(start, e.len() as int)]
    } else if e[j] == 10 {
        seq![strip_cr(e.subrange(start, j))] + lines_from(e, j + 1, j + 1)
    } else {
        lines_from(e, start, j + 1)
    }
}

pub open spec fn event_lines(e: Seq<u8>) -> Seq<Seq<u8>> {
    lines_from(e, 0, 0)
}

/// The lines of a sequence of events, in order.
pub open spec fn lines_of(evs: Seq<Seq<u8>>) -> Seq<Seq<u8>>
    decreases evs.len(),
{
    if evs.len() == 0 {
        Seq::empty()
    } else {
        lines_of(evs.drop_last()) + event_lines(evs.last())
    }
}

/// `data: `
pub open spec fn data_prefix() -> Seq<u8> {
    seq![100u8, 97u8, 116u8, 97u8, 58u8, 32u8]
}

/// `[DONE]`
pub open spec fn done_marker() -> Seq<u8> {
    seq![91u8, 68u8, 79u8, 78u8, 69u8, 93u8]
}

/// The payload of a `data: ` line.
pub open spec fn payload_of(l: Seq<u8>) -> Option<Seq<u8>> {
    if l.len() >= 6 && l.subrange(0, 6) == data_prefix() {
        Some(l.subrange(6, l.len() as int))
    } else {
        None
    }
}

pub open spec fn is_done_line(l: Seq<u8>) -> bool {
    payload_of(l) == Some(done_marker())
}

/// The content fragment that a line carries.
pub open spec fn line_fragment(l: Seq<u8>) -> Option<Seq<char>> {
    match payload_of(l) {
        Some(d) => if d == done_marker() {
            None
        } else {
            delta_of(lossy_of(d))
        },
        None => None,
    }
}

/// The fragments forwarded so far, and whether `[DONE]` was seen.
pub type Progress = (Seq<Seq<char>>, bool);

/// The effect of one line: after `[DONE]` nothing changes.
pub open spec fn take_line_spec(p: Progress, l: Seq<u8>) -> Progress {
    if p.1 {
        p
    } else if is_done_line(l) {
        (p.0, true)
    } else {
        match line_fragment(l) {
            Some(c) => (p.0.push(c), false),
            None => p,
        }
    }
}

/// The effect of lines taken in order.
pub open spec fn run_on(p: Progress, lines: Seq<Seq<u8>>) -> Progress
    decreases lines.len(),
{
    if lines.len() == 0 {
        p
    } else {
        take_line_spec(run_on(p, lines.drop_last()), lines.last())
    }
}

/// The concatenation of fragments.
pub open spec fn joined(f: Seq<Seq<char>>) -> Seq<char>
    decreases f.len(),
{
    if f.len() == 0 {
        Seq::empty()
    } else {
        joined(f.drop_last()) + f.last()
    }
}

/// The state of a reader: the bytes of the unfinished event, the text so far,
/// and whether `[DONE]` was seen.
pub ghost struct ReaderState {
    pub pending: Seq<u8>,
    pub text: Seq<char>,
    pub done: bool,
}

/// One chunk taken by a reader in state `st`: the new state and the fragments
/// handed back, in order. After `[DONE]` chunks are ignored.
pub open spec fn step(st: ReaderState, chunk: Seq<u8>) -> (ReaderState, Seq<Seq<char>>) {
    if st.done {
        (st, Seq::empty())
    } else {
        let all = st.pending + chunk;
        let sp = split_from(all, 0, 0);
        let r = run_on((Seq::empty(), false), lines_of(sp.0));
        (
            ReaderState {
                pending: if r.1 {
                    Seq::empty()
                } else {
                    all.subrange(sp.1, all.len() as int)
                },
                text: st.text + joined(r.0),
                done: r.1,
            },
            r.0,
        )
    }
}

/// Incremental reader of one streamed response.
pub struct SseReader {
    pending: Vec<u8>,
    text: String,
    done: bool,
}

impl View for SseReader {
    type V = ReaderState;

    closed spec fn view(&self) -> ReaderState {
        ReaderState { pending: self.pending@, text: self.text@, done: self.done }
    }
}

/// The bytes `v[from..to]`.
fn copy_range(v: &Vec<u8>, from: usize, to: usize) -> (r: Vec<u8>)
    requires
        from <= to <= v@.len(),
    ensures
        r@ == v@.subrange(from as int, to as int),
{
    let mut r: Vec<u8> = Vec::new();
    let mut i: usize = from;
    while i < to
        invariant
            from <= i <= to <= v@.len(),
            r@ == v@.subrange(from as int, i as int),
        decreases to - i,
    {
        r.push(v[i]);
        i += 1;
        assert(r@ =~= v@.subrange(from as int, i as int));
    }
    r
}

/// Whether `v` holds `p` at index `at`.
fn holds_at(v: &Vec<u8>, at: usize, p: &Vec<u8>) -> (r: bool)
    requires
        at + p@.len() <= v@.len(),
    ensures
        r == (v@.subrange(at as int, at + p@.len()) == p@),
{
    let n = v.len();
    let mut k: usize = 0;
    while k < p.len()
        invariant
            k <= p@.len(),
            at + p@.len() <= v@.len(),
            n == v@.len(),
            forall|m: int| 0 <= m < k ==> v@[at + m] == p@[m],
        decreases p@.len() - k,
    {
        if v[at + k] != p[k] {
            assert(v@.subrange(at as int, at + p@.len())[k as int] != p@[k as int]);
            return false;
        }
        k += 1;
    }
    assert(v@.subrange(at as int, at + p@.len()) =~= p@);
    true
}

fn data_prefix_bytes() -> (r: Vec<u8>)
    ensures
        r@ == data_prefix(),
{
    let mut r: Vec<u8> = Vec::new();
    r.push(100);
    r.push(97);
    r.push(116);
    r.push(97);
    r.push(58);
    r.push(32);
    assert(r@ =~= data_prefix());
    r
}

fn done_marker_bytes() -> (r: Vec<u8>)
    ensures
        r@ == done_marker(),
{
    let mut r: Vec<u8> = Vec::new();
    r.push(91);
    r.push(68);
    r.push(79);
    r.push(78);
    r.push(69);
    r.push(93);
    assert(r@ =~= done_marker());
    r
}


pub proof fn lemma_run_done(p: Progress, lines: Seq<Seq<u8>>)
    requires
        p.1,
    ensures
        run_on(p, lines) == p,
    decreases lines.len(),
{
    if lines.len() > 0 {
        lemma_run_done(p, lines.drop_last());
    }
}

pub proof fn lemma_run_concat(p: Progress, a: Seq<Seq<u8>>, b: Seq<Seq<u8>>)
    ensures
        run_on(p, a + b) == run_on(run_on(p, a), b),
    decreases b.len(),
{
    if b.len() == 0 {
        assert(a + b =~= a);
    } else {
        assert((a + b).drop_last() =~= a + b.drop_last());
        lemma_run_concat(p, a, b.drop_last());
    }
}

proof fn lemma_run_one(p: Progress, l: Seq<u8>)
    ensures
        run_on(p, seq![l]) == take_line_spec(p, l),
{
    assert(seq![l].drop_last() =~= Seq::<Seq<u8>>::empty());
    assert(seq![l].last() == l);
    assert(run_on(p, Seq::<Seq<u8>>::empty()) == p);
}

pub proof fn lemma_lines_of_concat(a: Seq<Seq<u8>>, b: Seq<Seq<u8>>)
    ensures
        lines_of(a + b) == lines_of(a) + lines_of(b),
    decreases b.len(),
{
    if b.len() == 0 {
        assert(a + b =~= a);
        assert(lines_of(a) + lines_of(b) =~= lines_of(a));
    } else {
        assert((a + b).drop_last() =~= a + b.drop_last());
        lemma_lines_of_concat(a, b.drop_last());
        assert(lines_of(a) + (lines_of(b.drop_last()) + event_lines(b.last())) =~= (lines_of(a)
            + lines_of(b.drop_last())) + event_lines(b.last()));
    }
}

proof fn lemma_lines_of_push(a: Seq<Seq<u8>>, e: Seq<u8>)
    ensures
        lines_of(a.push(e)) == lines_of(a) + event_lines(e),
{
    assert(a.push(e).drop_last() =~= a);
}

proof fn lemma_joined_push(f: Seq<Seq<char>>, c: Seq<char>)
    ensures
        joined(f.push(c)) == joined(f) + c,
{
    assert(f.push(c).drop_last() =~= f);
}

fn strip_cr_vec(l: Vec<u8>) -> (r: Vec<u8>)
    ensures
        r@ == strip_cr(l@),
{
    let mut l = l;
    let n = l.len();
    if n > 0 && l[n - 1] == 13 {
        l.pop();
    }
    l
}

impl SseReader {
    /// A reader before the first chunk.
    pub fn new() -> (r: SseReader)
        ensures
            r@.pending == Seq::<u8>::empty(),
            r@.text == Seq::<char>::empty(),
            !r@.done,
    {
        SseReader { pending: Vec::new(), text: String::new(), done: false }
    }

    /// Whether `[DONE]` was seen.
    pub fn is_done(&self) -> (r: bool)
        ensures
            r == self@.done,
    {
        self.done
    }

    /// The text accumulated so far.
    pub fn text(&self) -> (r: &String)
        ensures
            r@ == self@.text,
    {
        &self.text
    }

    /// Takes one line of an event.
    fn take_line(&mut self, line: &Vec<u8>, out: &mut Vec<String>, Ghost(base): Ghost<Seq<char>>) -> (stop: bool)
        requires
            !old(self).done,
            old(self).text@ == base + joined(views(old(out)@)),
        ensures
            (views(final(out)@), stop) == take_line_spec((views(old(out)@), false), line@),
            final(self).text@ == base + joined(views(final(out)@)),
            final(self).pending@ == old(self).pending@,
            final(self).done == old(self).done,
    {
        let prefix = data_prefix_bytes();
        if line.len() >= 6 && holds_at(line, 0, &prefix) {
            let payload = copy_range(line, 6, line.len());
            let marker = done_marker_bytes();
            if payload.len() == 6 && holds_at(&payload, 0, &marker) {
                assert(payload@.subrange(0, 6) =~= payload@);
                return true;
            }
            if payload.len() == 6 {
                assert(payload@.subrange(0, 6) =~= payload@);
            }
            let data = decode_lossy(&payload);
            match delta_content(data.as_str()) {
                Some(c) => {
                    let ghost before = views(out@);
                    self.text.append(c.as_str());
                    out.push(c);
                    proof {
                        assert(views(out@) =~= before.push(c@));
                        lemma_joined_push(before, c@);
                    }
                },
                None => {},
            }
        }
        false
    }

    /// Takes the lines of one complete event, in order, up to `[DONE]`.
    fn take_event(&mut self, ev: &Vec<u8>, out: &mut Vec<String>, Ghost(base): Ghost<Seq<char>>) -> (stop: bool)
        requires
            !old(self).done,
            old(self).text@ == base + joined(views(old(out)@)),
        ensures
            (views(final(out)@), stop) == run_on((views(old(out)@), false), event_lines(ev@)),
            final(self).text@ == base + joined(views(final(out)@)),
            final(self).pending@ == old(self).pending@,
            final(self).done == old(self).done,
    {
        let ghost p0: Progress = (views(out@), false);
        let n = ev.len();
        let mut start: usize = 0;
        let mut j: usize = 0;
        loop
            invariant
                n == ev@.len(),
                p0 == (views(old(out)@), false),
                start <= j <= n,
                !self.done,
                self.done == old(self).done,
                self.pending@ == old(self).pending@,
                self.text@ == base + joined(views(out@)),
                run_on(p0, event_lines(ev@)) == run_on((views(out@), false), lines_from(ev@, start as int, j as int)),
            decreases n - j,
        {
            if j >= n {
                let line = copy_range(ev, start, n);
                let ghost cur: Progress = (views(out@), false);
                assert(lines_from(ev@, start as int, j as int) == seq![line@]);
                let stop = self.take_line(&line, out, Ghost(base));
                proof {
                    lemma_run_one(cur, line@);
                }
                return stop;
            }
            if ev[j] == 10 {
                let raw = copy_range(ev, start, j);
                let line = strip_cr_vec(raw);
                let ghost cur: Progress = (views(out@), false);
                let ghost rest = lines_from(ev@, j + 1, j + 1);
                assert(lines_from(ev@, start as int, j as int) == seq![line@] + rest);
                let stop = self.take_line(&line, out, Ghost(base));
                proof {
                    lemma_run_concat(cur, seq![line@], rest);
                    lemma_run_one(cur, line@);
                }
                if stop {
                    proof {
                        lemma_run_done((views(out@), true), rest);
                    }
                    return true;
                }
                start = j + 1;
                j = j + 1;
            } else {
                j = j + 1;
            }
        }
    }

    /// Takes one chunk of the body: appends it to the unfinished event, then
    /// reads every complete event, in order, until `[DONE]`. Returns the
    /// content fragments read, in order; they are also appended to the text.
    /// After `[DONE]` a chunk changes nothing.
    pub fn feed(&mut self, chunk: &[u8]) -> (r: Vec<String>)
        ensures
            (final(self)@, views(r@)) == step(old(self)@, chunk@),
    {
        let mut out: Vec<String> = Vec::new();
        if self.done {
            assert(views(out@) =~= Seq::<Seq<char>>::empty());
            return out;
        }
        let mut i: usize = 0;
        while i < chunk.len()
            invariant
                i <= chunk@.len(),
                self.pending@ == old(self).pending@ + chunk@.subrange(0, i as int),
                self.text@ == old(self).text@,
                !old(self).done,
                !self.done,
            decreases chunk@.len() - i,
        {
            self.pending.push(chunk[i]);
            i += 1;
            assert(self.pending@ =~= old(self).pending@ + chunk@.subrange(0, i as int));
        }
        assert(chunk@.subrange(0, chunk@.len() as int) =~= chunk@);
        let ghost all = self.pending@;
        let ghost base = self.text@;
        let ghost init: Progress = (Seq::empty(), false);
        let ghost mut done_evs: Seq<Seq<u8>> = Seq::empty();
        assert(views(out@) =~= Seq::<Seq<char>>::empty());
        assert(base + joined(views(out@)) =~= base);
        assert(done_evs + split_from(all, 0, 0).0 =~= split_from(all, 0, 0).0);
        let n = self.pending.len();
        let mut start: usize = 0;
        let mut j: usize = 0;
        loop
            invariant
                n == all.len(),
                self.pending@ == all,
                all == old(self).pending@ + chunk@,
                base == old(self).text@,
                init == (Seq::<Seq<char>>::empty(), false),
                !old(self).done,
                !self.done,
                start <= j <= n,
                split_from(all, 0, 0).0 == done_evs + split_from(all, start as int, j as int).0,
                split_from(all, 0, 0).1 == split_from(all, start as int, j as int).1,
                run_on(init, lines_of(done_evs)) == (views(out@), false),
                self.text@ == base + joined(views(out@)),
            ensures
                start <= n,
                n == all.len(),
                self.pending@ == all,
                !self.done,
                split_from(all, 0, 0).0 == done_evs,
                split_from(all, 0, 0).1 == start,
                run_on(init, lines_of(done_evs)) == (views(out@), false),
                self.text@ == base + joined(views(out@)),
            decreases n - j,
        {
            if n - j < 2 {
                assert(done_evs + Seq::<Seq<u8>>::empty() =~= done_evs);
                break ;
            }
            if self.pending[j] == 10 && self.pending[j + 1] == 10 {
                let ev = copy_range(&self.pending, start, j);
                let ghost rest_evs = split_from(all, j + 2, j + 2).0;
                assert(split_from(all, start as int, j as int).0 == seq![ev@] + rest_evs);
                let ghost cur: Progress = (views(out@), false);
                let stop = self.take_event(&ev, &mut out, Ghost(base));
                proof {
                    assert(split_from(all, 0, 0).0 == done_evs.push(ev@) + rest_evs) by {
                        assert(done_evs + (seq![ev@] + rest_evs) =~= done_evs.push(ev@) + rest_evs);
                    }
                    lemma_lines_of_concat(done_evs.push(ev@), rest_evs);
                    lemma_lines_of_push(done_evs, ev@);
                    lemma_run_concat(init, lines_of(done_evs), event_lines(ev@));
                    lemma_run_concat(init, lines_of(done_evs.push(ev@)), lines_of(rest_evs));
                    done_evs = done_evs.push(ev@);
                }
                if stop {
                    proof {
                        lemma_run_done((views(out@), true), lines_of(rest_evs));
                        assert(run_on(init, lines_of(done_evs)) == (views(out@), true));
                        assert(run_on(init, lines_of(split_from(all, 0, 0).0)) == (views(out@), true));
                    }
                    self.done = true;
                    self.pending = Vec::new();
                    assert(self.pending@ =~= Seq::<u8>::empty());
                    return out;
                }
                start = j + 2;
                j = j + 2;
            } else {
                j = j + 1;
            }
        }
        self.pending = copy_range(&self.pending, start, n);
        out
    }

    /// The accumulated text, ending the read.
    pub fn finish(self) -> (r: String)
        ensures
            r@ == self@.text,
    {
        self.text
    }
}

} // verus!
