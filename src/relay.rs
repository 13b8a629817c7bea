//! The output relay: turns the bytes a child writes on one stream into
//! line events, in the order the lines were written.
use vstd::prelude::*;
use vstd::string::*;
use vstd::utf8::{decode_utf8, valid_utf8};

verus! {

/// Which standard stream of the child a relay reads.
#[derive(Debug, Clone, Copy, PartialEq, Eq, Structural)]
pub enum Stream {
    Stdout,
    Stderr,
}

/// The complete lines (without their `\n`) and the unfinished rest of the
/// bytes `b`.
pub open spec fn split_bytes(b: Seq<u8>) -> (Seq<Seq<u8>>, Seq<u8>)
    decreases b.len(),
{
    if b.len() == 0 {
        (Seq::empty(), Seq::empty())
    } else {
        let (done, rest) = split_bytes(b.drop_last());
        if b.last() == 10 {
            (done.push(rest), Seq::empty())
        } else {
            (done, rest.push(b.last()))
        }
    }
}

/// The text of an event for `line` read from `stream`.
pub open spec fn tagged(stream: Stream, line: Seq<char>) -> Seq<char> {
    match stream {
        Stream::Stdout => line,
        Stream::Stderr => "[stderr] "@ + line,
    }
}

/// `b` without one final carriage return.
pub open spec fn strip_cr_byte(b: Seq<u8>) -> Seq<u8> {
    if b.len() > 0 && b.last() == 13 {
        b.drop_last()
    } else {
        b
    }
}

/// The event text for one complete line of bytes; none when the line is
/// not valid UTF-8, which is skipped.
pub open spec fn line_event(stream: Stream, piece: Seq<u8>) -> Option<Seq<char>> {
    if valid_utf8(strip_cr_byte(piece)) {
        Some(tagged(stream, decode_utf8(strip_cr_byte(piece))))
    } else {
        None
    }
}

/// The event texts for the complete lines `done`, in order.
pub open spec fn events_of(stream: Stream, done: Seq<Seq<u8>>) -> Seq<Seq<char>>
    decreases done.len(),
{
    if done.len() == 0 {
        Seq::empty()
    } else {
        let e = events_of(stream, done.drop_last());
        match line_event(stream, done.last()) {
            Some(t) => e.push(t),
            None => e,
        }
    }
}

/// The event texts a relay has emitted after reading `fed` from `stream`.
pub open spec fn emitted(stream: Stream, fed: Seq<u8>) -> Seq<Seq<char>> {
    events_of(stream, split_bytes(fed).0)
}

/// The bytes a child writes for the lines `ls`, each ended by `\n`.
pub open spec fn joined(ls: Seq<Seq<u8>>) -> Seq<u8>
    decreases ls.len(),
{
    if ls.len() == 0 {
        Seq::empty()
    } else {
        joined(ls.drop_last()) + ls.last() + seq![10u8]
    }
}

proof fn lemma_split_extend(a: Seq<u8>, l: Seq<u8>)
    requires
        !l.contains(10u8),
    ensures
        split_bytes(a + l) == (split_bytes(a).0, split_bytes(a).1 + l),
    decreases l.len(),
{
    if l.len() == 0 {
        assert(a + l =~= a);
        assert(split_bytes(a).1 + l =~= split_bytes(a).1);
    } else {
        let l2 = l.drop_last();
        assert(!l2.contains(10u8)) by {
            if l2.contains(10u8) {
                let k = choose|k: int| 0 <= k < l2.len() && l2[k] == 10u8;
                assert(l[k] == 10u8);
            }
        }
        lemma_split_extend(a, l2);
        assert((a + l).drop_last() =~= a + l2);
        assert((a + l).last() == l[l.len() - 1]);
        assert(l[l.len() - 1] != 10u8);
        assert(split_bytes(a).1 + l2 + seq![l.last()] =~= split_bytes(a).1 + l);
        assert((split_bytes(a).1 + l2).push(l.last()) =~= split_bytes(a).1 + l);
    }
}

/// Lines come out in the order they were written: when a child writes the
/// lines `ls` (none holding a `\n`) one after another, the relay's events
/// are exactly the events of those lines, in that order, with a line that
/// is not valid UTF-8 skipped.
pub proof fn law_lines_in_order(stream: Stream, ls: Seq<Seq<u8>>)
    requires
        forall|i: int| 0 <= i < ls.len() ==> !(#[trigger] ls[i]).contains(10u8),
    ensures
        split_bytes(joined(ls)) == (ls, Seq::<u8>::empty()),
        emitted(stream, joined(ls)) == events_of(stream, ls),
    decreases ls.len(),
{
    if ls.len() == 0 {
        assert(ls =~= Seq::<Seq<u8>>::empty());
    } else {
        let front = ls.drop_last();
        assert forall|i: int| 0 <= i < front.len() implies !(#[trigger] front[i]).contains(10u8) by {
            assert(front[i] == ls[i]);
        }
        law_lines_in_order(stream, front);
        let l = ls.last();
        assert(!l.contains(10u8)) by {
            assert(l == ls[ls.len() - 1]);
        }
        let a = joined(front);
        lemma_split_extend(a, l);
        let b = a + l + seq![10u8];
        assert(b.drop_last() =~= a + l);
        assert(b.last() == 10u8);
        assert(Seq::<u8>::empty() + l =~= l);
        assert(front.push(l) =~= ls);
    }
}

/// Relies on std's `String::from_utf8`: the bytes decoded when they are
/// valid UTF-8, an error otherwise.
#[verifier::external_body]
fn decode(b: Vec<u8>) -> (r: Option<String>)
    ensures
        match r {
            Some(s) => valid_utf8(b@) && s@ == decode_utf8(b@),
            None => !valid_utf8(b@),
        },
{
    String::from_utf8(b).ok()
}

/// The relay of one stream of one child.
pub struct LineRelay {
    stream: Stream,
    pending: Vec<u8>,
    fed: Ghost<Seq<u8>>,
}

impl LineRelay {
    /// Everything read so far.
    pub closed spec fn fed(&self) -> Seq<u8> {
        self.fed@
    }

    pub closed spec fn stream(&self) -> Stream {
        self.stream
    }

    pub closed spec fn wf(&self) -> bool {
        self.pending@ == split_bytes(self.fed@).1
    }

    /// A relay for `stream` that has read nothing.
    pub fn new(stream: Stream) -> (r: Self)
        ensures
            r.wf(),
            r.fed() == Seq::<u8>::empty(),
            r.stream() == stream,
    {
        LineRelay { stream, pending: Vec::new(), fed: Ghost(Seq::empty()) }
    }

    fn event_text(&self, line: Vec<u8>) -> (r: Option<String>)
        ensures
            match line_event(self.stream, line@) {
                Some(t) => r matches Some(s) && s@ == t,
                None => r is None,
            },
    {
        let mut line = line;
        let ghost orig = line@;
        let n = line.len();
        if n > 0 && line[n - 1] == 13u8 {
            let _ = line.pop();
            assert(line@ =~= orig.drop_last());
        }
        match decode(line) {
            Some(s) => match self.stream {
                Stream::Stdout => Some(s),
                Stream::Stderr => {
                    let p = String::from_str("[stderr] ");
                    Some(p.concat(s.as_str()))
                },
            },
            None => None,
        }
    }

    /// Reads `chunk` and returns the event texts of the lines it completed,
    /// in order: what was emitted before and these together are the events
    /// of every complete line read so far.
    pub fn feed(&mut self, chunk: &[u8]) -> (r: Vec<String>)
        requires
            old(self).wf(),
        ensures
            final(self).wf(),
            final(self).stream() == old(self).stream(),
            final(self).fed() == old(self).fed() + chunk@,
            emitted(old(self).stream(), old(self).fed()) + r@.map_values(|s: String| s@)
                == emitted(final(self).stream(), final(self).fed()),
    {
        let ghost start = self.fed@;
        let mut out: Vec<String> = Vec::new();
        let mut i: usize = 0;
        assert(start + chunk@.subrange(0, 0) =~= start);
        while i < chunk.len()
            invariant
                self.wf(),
                i <= chunk@.len(),
                self.fed@ == start + chunk@.subrange(0, i as int),
                self.stream == old(self).stream,
                emitted(self.stream, start) + out@.map_values(|s: String| s@) == emitted(
                    self.stream,
                    self.fed@,
                ),
            decreases chunk@.len() - i,
        {
            let b = chunk[i];
            let ghost before = self.fed@;
            let ghost out_before = out@.map_values(|s: String| s@);
            self.fed = Ghost(before.push(b));
            assert(self.fed@.drop_last() =~= before);
            assert(start + chunk@.subrange(0, i + 1) =~= before.push(b));
            if b == 10u8 {
                let mut line: Vec<u8> = Vec::new();
                std::mem::swap(&mut line, &mut self.pending);
                assert(split_bytes(self.fed@).0 == split_bytes(before).0.push(line@));
                assert(split_bytes(self.fed@).0.drop_last() =~= split_bytes(before).0);
                match self.event_text(line) {
                    Some(t) => {
                        out.push(t);
                        assert(out@.map_values(|s: String| s@) =~= out_before.push(t@));
                    },
                    None => {
                        assert(out@.map_values(|s: String| s@) =~= out_before);
                    },
                }
            } else {
                self.pending.push(b);
                assert(out@.map_values(|s: String| s@) =~= out_before);
            }
            i = i + 1;
        }
        assert(chunk@.subrange(0, i as int) =~= chunk@);
        out
    }

    /// At the end of the stream: the event text of an unfinished last line,
    /// if there is one and it is valid UTF-8 (it keeps any carriage return).
    pub fn finish(self) -> (r: Option<String>)
        requires
            self.wf(),
        ensures
            split_bytes(self.fed()).1.len() == 0 ==> r is None,
            split_bytes(self.fed()).1.len() > 0 ==> match valid_utf8(split_bytes(self.fed()).1) {
                true => r matches Some(s) && s@ == tagged(
                    self.stream(),
                    decode_utf8(split_bytes(self.fed()).1),
                ),
                false => r is None,
            },
    {
        if self.pending.len() == 0 {
            return None;
        }
        match decode(self.pending) {
            Some(s) => match self.stream {
                Stream::Stdout => Some(s),
                Stream::Stderr => {
                    let p = String::from_str("[stderr] ");
                    Some(p.concat(s.as_str()))
                },
            },
            None => None,
        }
    }
}

} // verus!
