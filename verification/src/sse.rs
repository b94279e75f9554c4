//! Server-sent-events parser for the streaming model API: bytes in, complete
//! `event:` / `data:` records out, whatever the chunking of the bytes.
use vstd::prelude::*;
use vstd::string::*;

use crate::text::{has_prefix, owned, starts_with, trim, trim_str};

verus! {

/// What `String::from_utf8_lossy` makes of bytes that are not UTF-8.
pub uninterp spec fn utf8_lossy(bytes: Seq<u8>) -> Seq<char>;

/// The text of a line's bytes: the characters they encode when they are
/// UTF-8; else what the lossy decoding makes of them.
pub open spec fn line_text(bytes: Seq<u8>) -> Seq<char> {
    if vstd::utf8::valid_utf8(bytes) {
        vstd::utf8::decode_utf8(bytes)
    } else {
        utf8_lossy(bytes)
    }
}

/// `String::from_utf8_lossy`: on valid UTF-8 the text those bytes encode
/// (its encoding is the bytes themselves); on other bytes each invalid
/// sequence is replaced with U+FFFD, which is named, not described.
#[verifier::external_body]
fn decode_lossy(bytes: &[u8]) -> (s: String)
    ensures
        vstd::utf8::valid_utf8(bytes@) ==> s@ == vstd::utf8::decode_utf8(bytes@) && vstd::utf8::encode_utf8(s@) == bytes@,
        !vstd::utf8::valid_utf8(bytes@) ==> s@ == utf8_lossy(bytes@),
{
    String::from_utf8_lossy(bytes).into_owned()
}

/// One complete record: its event name and its (joined) data lines.
#[derive(Debug)]
pub struct SseEvent {
    pub name: String,
    pub data: String,
}

/// Incremental parser state: the bytes of the unfinished line, and the event
/// name and data collected since the last record.
#[derive(Debug)]
pub struct SseParser {
    buffer: Vec<u8>,
    event: String,
    data: String,
}

/// Parser state as values.
pub struct SseState {
    pub buffer: Seq<u8>,
    pub event: Seq<char>,
    pub data: Seq<char>,
}

/// `s` without trailing carriage returns (`trim_end_matches('\r')`).
pub open spec fn strip_cr(s: Seq<char>) -> Seq<char>
    decreases s.len(),
{
    if s.len() > 0 && s.last() == '\r' {
        strip_cr(s.drop_last())
    } else {
        s
    }
}

/// Effect of one complete line on (event, data): a blank line closes a
/// record if anything was collected; `event:` sets the name; `data:` adds a
/// data line; anything else is ignored.
pub open spec fn line_effect(event: Seq<char>, data: Seq<char>, line: Seq<char>) -> (
    Seq<char>,
    Seq<char>,
    Option<(Seq<char>, Seq<char>)>,
) {
    if line.len() == 0 {
        if event.len() > 0 || data.len() > 0 {
            (Seq::empty(), Seq::empty(), Some((event, data)))
        } else {
            (event, data, None)
        }
    } else if has_prefix(line, "event:"@) {
        (trim(line.subrange("event:"@.len() as int, line.len() as int)), data, None)
    } else if has_prefix(line, "data:"@) {
        let sep = if data.len() > 0 {
            seq!['\n']
        } else {
            Seq::empty()
        };
        (event, data + sep + trim(line.subrange("data:"@.len() as int, line.len() as int)), None)
    } else {
        (event, data, None)
    }
}

/// One byte: a newline ends the buffered line, any other byte is buffered.
pub open spec fn feed_byte(st: SseState, b: u8) -> (SseState, Seq<(Seq<char>, Seq<char>)>) {
    if b == 10u8 {
        let line = strip_cr(line_text(st.buffer));
        let (event, data, out) = line_effect(st.event, st.data, line);
        (
            SseState { buffer: Seq::empty(), event, data },
            match out {
                Some(e) => seq![e],
                None => Seq::empty(),
            },
        )
    } else {
        (SseState { buffer: st.buffer.push(b), event: st.event, data: st.data }, Seq::empty())
    }
}

/// The state after a byte sequence and the records completed on the way.
pub open spec fn feed(st: SseState, bytes: Seq<u8>) -> (SseState, Seq<(Seq<char>, Seq<char>)>)
    decreases bytes.len(),
{
    if bytes.len() == 0 {
        (st, Seq::empty())
    } else {
        let (mid, evs) = feed(st, bytes.drop_last());
        let (last, more) = feed_byte(mid, bytes.last());
        (last, evs + more)
    }
}

pub open spec fn event_view(e: SseEvent) -> (Seq<char>, Seq<char>) {
    (e.name@, e.data@)
}

/// Feeding bytes in two pieces gives the state and records of feeding them at
/// once: how a stream is cut into chunks does not matter.
pub proof fn lemma_feed_chunking(st: SseState, a: Seq<u8>, b: Seq<u8>)
    ensures
        feed(st, a + b).0 == feed(feed(st, a).0, b).0,
        feed(st, a + b).1 == feed(st, a).1 + feed(feed(st, a).0, b).1,
    decreases b.len(),
{
    if b.len() == 0 {
        assert(a + b =~= a);
        assert(feed(st, a).1 + Seq::<(Seq<char>, Seq<char>)>::empty() =~= feed(st, a).1);
    } else {
        let b0 = b.drop_last();
        lemma_feed_chunking(st, a, b0);
        assert((a + b).drop_last() =~= a + b0);
        assert((a + b).last() == b.last());
        let mid = feed(feed(st, a).0, b0);
        let step = feed_byte(mid.0, b.last());
        assert(feed(st, a).1 + mid.1 + step.1 =~= feed(st, a).1 + (mid.1 + step.1));
    }
}

impl SseParser {
    pub closed spec fn state(&self) -> SseState {
        SseState { buffer: self.buffer@, event: self.event@, data: self.data@ }
    }

    pub fn new() -> (p: SseParser)
        ensures
            p.state() == (SseState {
                buffer: Seq::empty(),
                event: Seq::empty(),
                data: Seq::empty(),
            }),
    {
        SseParser { buffer: Vec::new(), event: String::new(), data: String::new() }
    }

    /// Applies one complete line (the buffered bytes) to the state.
    fn finish_line(&mut self) -> (out: Option<SseEvent>)
        ensures
            final(self).state() == feed_byte(old(self).state(), 10u8).0,
            match out {
                Some(e) => feed_byte(old(self).state(), 10u8).1 == seq![event_view(e)],
                None => feed_byte(old(self).state(), 10u8).1 == Seq::<(Seq<char>, Seq<char>)>::empty(),
            },
    {
        let decoded = decode_lossy(self.buffer.as_slice());
        let line = strip_trailing_cr(decoded.as_str());
        self.buffer = Vec::new();
        let ghost ev0 = self.event@;
        let ghost data0 = self.data@;
        proof {
            reveal_strlit("event:");
            reveal_strlit("data:");
            reveal_strlit("\n");
        }
        let n = line.unicode_len();
        if n == 0 {
            if self.event.unicode_len() > 0 || self.data.unicode_len() > 0 {
                let mut name = String::new();
                std::mem::swap(&mut name, &mut self.event);
                let mut data = String::new();
                std::mem::swap(&mut data, &mut self.data);
                return Some(SseEvent { name, data });
            }
            return None;
        }
        if starts_with(line.as_str(), "event:") {
            let rest = line.as_str().substring_char(6, n);
            self.event = trim_str(rest);
        } else if starts_with(line.as_str(), "data:") {
            let rest = line.as_str().substring_char(5, n);
            if self.data.unicode_len() > 0 {
                self.data.append("\n");
            }
            let piece = trim_str(rest);
            self.data.append(piece.as_str());
            proof {
                if data0.len() > 0 {
                    assert(self.data@ =~= data0 + seq!['\n'] + piece@);
                } else {
                    assert(self.data@ =~= data0 + Seq::<char>::empty() + piece@);
                }
            }
        }
        None
    }

    /// Feeds a chunk of bytes; returns the records it completed, in order.
    pub fn push_chunk(&mut self, bytes: &[u8]) -> (events: Vec<SseEvent>)
        ensures
            final(self).state() == feed(old(self).state(), bytes@).0,
            events@.map_values(|e: SseEvent| event_view(e)) == feed(old(self).state(), bytes@).1,
    {
        let mut events: Vec<SseEvent> = Vec::new();
        let mut i: usize = 0;
        proof {
            assert(bytes@.subrange(0, 0) =~= Seq::<u8>::empty());
        }
        while i < bytes.len()
            invariant
                i <= bytes@.len(),
                self.state() == feed(old(self).state(), bytes@.subrange(0, i as int)).0,
                events@.map_values(|e: SseEvent| event_view(e)) == feed(
                    old(self).state(),
                    bytes@.subrange(0, i as int),
                ).1,
            decreases bytes.len() - i,
        {
            let b = bytes[i];
            let ghost pre = bytes@.subrange(0, i as int);
            let ghost next = bytes@.subrange(0, i + 1);
            proof {
                assert(next.drop_last() =~= pre);
                assert(next.last() == b);
            }
            let ghost before = events@.map_values(|e: SseEvent| event_view(e));
            if b == 10u8 {
                match self.finish_line() {
                    Some(e) => {
                        events.push(e);
                        proof {
                            assert(events@.map_values(|e: SseEvent| event_view(e)) =~= before + seq![event_view(e)]);
                        }
                    },
                    None => {
                        proof {
                            assert(before + Seq::<(Seq<char>, Seq<char>)>::empty() =~= before);
                        }
                    },
                }
            } else {
                self.buffer.push(b);
                proof {
                    assert(before + Seq::<(Seq<char>, Seq<char>)>::empty() =~= before);
                }
            }
            i = i + 1;
        }
        proof {
            assert(bytes@.subrange(0, bytes@.len() as int) =~= bytes@);
        }
        events
    }
}

/// `trim_end_matches('\r')`, as an owned string.
fn strip_trailing_cr(s: &str) -> (r: String)
    ensures
        r@ == strip_cr(s@),
{
    let mut j: usize = s.unicode_len();
    proof {
        assert(s@.subrange(0, s@.len() as int) =~= s@);
    }
    while j > 0
        invariant
            j <= s@.len(),
            strip_cr(s@) == strip_cr(s@.subrange(0, j as int)),
        ensures
            j <= s@.len(),
            strip_cr(s@) == strip_cr(s@.subrange(0, j as int)),
            j == 0 || s@[j - 1] != '\r',
        decreases j,
    {
        if s.get_char(j - 1) != '\r' {
            break;
        }
        proof {
            let t = s@.subrange(0, j as int);
            assert(t.drop_last() =~= s@.subrange(0, j - 1));
        }
        j = j - 1;
    }
    let out = s.substring_char(0, j);
    proof {
        let t = s@.subrange(0, j as int);
        if j > 0 {
            assert(t.last() == s@[j - 1]);
        }
    }
    owned(out)
}

} // verus!
