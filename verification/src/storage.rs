//! Storage contract: the error type, the data-root domains and the
//! whitelisted relative path that is the only way into a domain.
use vstd::prelude::*;
use vstd::string::*;

use crate::session::SessionKey;
use crate::text::{ascii_alnum, concat3, is_ascii_alnum};

verus! {

#[derive(Debug)]
pub enum StorageError {
    SessionNotFound(SessionKey),
    MistakeNotFound(String),
    AlreadyExists(String),
    Corrupt(String),
    Io(String),
    InvalidPath(String),
    Internal(String),
}

/// A subdirectory of the data root that storage owns.
#[derive(Debug, Clone, Copy, PartialEq, Eq, Structural)]
pub enum Domain {
    Mistakes,
    Sessions,
    Memory,
    Data,
    Uploads,
}

impl Domain {
    /// Directory name of the domain under the data root.
    pub open spec fn dir_name(self) -> Seq<char> {
        match self {
            Domain::Mistakes => "mistakes"@,
            Domain::Sessions => "sessions"@,
            Domain::Memory => "memory"@,
            Domain::Data => "data"@,
            Domain::Uploads => "uploads"@,
        }
    }

    pub fn as_dir(self) -> (r: &'static str)
        ensures
            r@ == self.dir_name(),
    {
        match self {
            Domain::Mistakes => "mistakes",
            Domain::Sessions => "sessions",
            Domain::Memory => "memory",
            Domain::Data => "data",
            Domain::Uploads => "uploads",
        }
    }
}

/// Characters allowed inside a path segment: `[a-zA-Z0-9._-]`.
pub open spec fn is_segment_char(c: char) -> bool {
    is_ascii_alnum(c) || c == '.' || c == '_' || c == '-'
}

/// A segment is non-empty, starts and ends with an ASCII letter or digit, and
/// holds only `[a-zA-Z0-9._-]`.
pub open spec fn valid_segment(s: Seq<char>) -> bool {
    &&& s.len() > 0
    &&& is_ascii_alnum(s[0])
    &&& is_ascii_alnum(s.last())
    &&& forall|i: int| 0 <= i < s.len() ==> is_segment_char(#[trigger] s[i])
}

/// `str::split(sep)`: the pieces between separators, empty pieces included.
pub open spec fn split_on(s: Seq<char>, sep: char) -> Seq<Seq<char>>
    decreases s.len(),
{
    if s.len() == 0 {
        seq![Seq::<char>::empty()]
    } else {
        let rest = split_on(s.drop_last(), sep);
        if s.last() == sep {
            rest.push(Seq::<char>::empty())
        } else {
            rest.update(rest.len() - 1, rest.last().push(s.last()))
        }
    }
}

/// Pieces joined with `sep` between them (`[..].join(sep)`).
pub open spec fn join_with(segs: Seq<Seq<char>>, sep: char) -> Seq<char>
    decreases segs.len(),
{
    if segs.len() == 0 {
        Seq::<char>::empty()
    } else if segs.len() == 1 {
        segs[0]
    } else {
        join_with(segs.drop_last(), sep).push(sep) + segs.last()
    }
}

/// All segments of a path are valid and there is at least one.
pub open spec fn valid_segments(segs: Seq<Seq<char>>) -> bool {
    segs.len() >= 1 && forall|k: int| 0 <= k < segs.len() ==> valid_segment(#[trigger] segs[k])
}

/// What `RelPath::parse` accepts: a non-empty string whose `/`-separated
/// segments are all valid.  Its value is the list of segments.
pub open spec fn parse_rel_path(raw: Seq<char>) -> Option<Seq<Seq<char>>> {
    if raw.len() > 0 && valid_segments(split_on(raw, '/')) {
        Some(split_on(raw, '/'))
    } else {
        None
    }
}

pub open spec fn invalid_segment_message(seg: Seq<char>) -> Seq<char> {
    "非法路径段："@ + seg + "（仅允许字母数字开头结尾，中间 [a-zA-Z0-9._-]）"@
}

pub open spec fn empty_path_message() -> Seq<char> {
    "路径为空"@
}

/// Relative path inside a domain, checked when it is built: there is no way to
/// write `..`, `.`, an empty segment, a separator or a non-ASCII character in it.
/// Why a text is no relative path: it is empty, or names its first bad
/// segment.
pub open spec fn path_refusal(raw: Seq<char>, msg: Seq<char>) -> bool {
    &&& parse_rel_path(raw) is None
    &&& if raw.len() == 0 {
        msg == empty_path_message()
    } else {
        exists|k: int|
            0 <= k < split_on(raw, '/').len() && (forall|j: int| 0 <= j < k ==> valid_segment(#[trigger] split_on(raw, '/')[j]))
                && !valid_segment(split_on(raw, '/')[k]) && msg == invalid_segment_message(split_on(raw, '/')[k])
    }
}

#[derive(Debug)]
pub struct RelPath {
    segments: Vec<String>,
}

impl View for RelPath {
    type V = Seq<Seq<char>>;

    closed spec fn view(&self) -> Seq<Seq<char>> {
        self.segments@.map_values(|s: String| s@)
    }
}

impl RelPath {
    /// Every value built by `parse` satisfies this.
    pub open spec fn wf(&self) -> bool {
        valid_segments(self@)
    }

    /// Builds a path from text; the whole check happens here.
    pub fn parse(raw: &str) -> (r: Result<RelPath, StorageError>)
        ensures
            match r {
                Ok(p) => parse_rel_path(raw@) == Some(p@) && p.wf(),
                Err(StorageError::InvalidPath(msg)) => path_refusal(raw@, msg@),
                Err(_) => false,
            },
    {
        if raw.unicode_len() == 0 {
            return Err(StorageError::InvalidPath("路径为空".to_owned()));
        }
        let pieces = split_str(raw, '/');
        let ghost split = split_on(raw@, '/');
        let mut k: usize = 0;
        while k < pieces.len()
            invariant
                pieces@.map_values(|s: String| s@) == split,
                split == split_on(raw@, '/'),
                raw@.len() > 0,
                k <= pieces.len(),
                forall|j: int| 0 <= j < k ==> valid_segment(#[trigger] split[j]),
            decreases pieces.len() - k,
        {
            let seg = pieces[k].as_str();
            assert(split[k as int] == seg@);
            if !valid_segment_exec(seg) {
                let msg = concat3(
                    "非法路径段：",
                    seg,
                    "（仅允许字母数字开头结尾，中间 [a-zA-Z0-9._-]）",
                );
                proof {
                    assert(!valid_segment(split[k as int]));
                    assert(!valid_segments(split));
                    assert(msg@ == invalid_segment_message(split[k as int]));
                }
                return Err(StorageError::InvalidPath(msg));
            }
            k = k + 1;
        }
        assert(split.len() == pieces.len());
        proof {
            lemma_split_nonempty(raw@, '/');
        }
        let r = RelPath { segments: pieces };
        assert(r@ == split);
        assert(valid_segments(split));
        assert(parse_rel_path(raw@) == Some(split));
        Ok(r)
    }

    /// The segments, in order.
    pub fn segments(&self) -> (r: &Vec<String>)
        ensures
            r@.map_values(|s: String| s@) == self@,
    {
        &self.segments
    }

    /// The path written with `/` between segments.
    pub fn as_str(&self) -> (r: String)
        ensures
            r@ == join_with(self@, '/'),
    {
        let n = self.segments.len();
        let mut out = String::new();
        let mut k: usize = 0;
        while k < n
            invariant
                n == self.segments@.len(),
                k <= n,
                out@ == join_with(self@.subrange(0, k as int), '/'),
            decreases n - k,
        {
            proof {
                let v = self@;
                let prev = v.subrange(0, k as int);
                let next = v.subrange(0, k + 1);
                assert(next.drop_last() =~= prev);
                assert(v[k as int] == self.segments@[k as int]@);
            }
            if k > 0 {
                out.append("/");
                proof {
                    reveal_strlit("/");
                }
            }
            out.append(self.segments[k].as_str());
            proof {
                let v = self@;
                let next = v.subrange(0, k + 1);
                if k == 0 {
                    assert(out@ =~= next[0]);
                } else {
                    assert(out@ =~= join_with(next.drop_last(), '/').push('/') + next.last());
                }
            }
            k = k + 1;
        }
        proof {
            assert(self@.subrange(0, n as int) =~= self@);
        }
        out
    }
}

/// Checks one segment against the whitelist.
fn valid_segment_exec(seg: &str) -> (b: bool)
    ensures
        b == valid_segment(seg@),
{
    let n = seg.unicode_len();
    if n == 0 {
        return false;
    }
    if !ascii_alnum(seg.get_char(0)) || !ascii_alnum(seg.get_char(n - 1)) {
        return false;
    }
    let mut i: usize = 0;
    while i < n
        invariant
            n == seg@.len(),
            i <= n,
            forall|j: int| 0 <= j < i ==> is_segment_char(#[trigger] seg@[j]),
        decreases n - i,
    {
        let c = seg.get_char(i);
        if !(ascii_alnum(c) || c == '.' || c == '_' || c == '-') {
            return false;
        }
        i = i + 1;
    }
    true
}

/// `split` never yields an empty list.
pub proof fn lemma_split_nonempty(s: Seq<char>, sep: char)
    ensures
        split_on(s, sep).len() >= 1,
    decreases s.len(),
{
    if s.len() > 0 {
        lemma_split_nonempty(s.drop_last(), sep);
    }
}

proof fn lemma_split_step(s: Seq<char>, i: int, sep: char)
    requires
        0 <= i < s.len(),
    ensures
        s.subrange(0, i + 1).drop_last() == s.subrange(0, i),
        s.subrange(0, i + 1).last() == s[i],
{
    assert(s.subrange(0, i + 1).drop_last() =~= s.subrange(0, i));
}

/// `str::split(sep)` into owned pieces.
pub(crate) fn split_str(s: &str, sep: char) -> (r: Vec<String>)
    ensures
        r@.map_values(|p: String| p@) == split_on(s@, sep),
{
    let n = s.unicode_len();
    let mut out: Vec<String> = Vec::new();
    let mut start: usize = 0;
    let mut i: usize = 0;
    proof {
        assert(s@.subrange(0, 0) =~= Seq::<char>::empty());
        assert(split_on(s@.subrange(0, 0), sep) =~= seq![Seq::<char>::empty()]);
        assert(s@.subrange(0, 0) =~= Seq::<char>::empty());
    }
    while i < n
        invariant
            n == s@.len(),
            start <= i <= n,
            split_on(s@.subrange(0, i as int), sep) == out@.map_values(|p: String| p@).push(
                s@.subrange(start as int, i as int),
            ),
        decreases n - i,
    {
        let c = s.get_char(i);
        proof {
            lemma_split_step(s@, i as int, sep);
        }
        if c == sep {
            let piece = s.substring_char(start, i).to_owned();
            let ghost before = out@.map_values(|p: String| p@);
            out.push(piece);
            proof {
                assert(out@.map_values(|p: String| p@) =~= before.push(s@.subrange(start as int, i as int)));
                assert(s@.subrange((i + 1) as int, (i + 1) as int) =~= Seq::<char>::empty());
            }
            start = i + 1;
        } else {
            proof {
                let prefix = s@.subrange(0, (i + 1) as int);
                let rest = split_on(prefix.drop_last(), sep);
                assert(rest.last().push(c) =~= s@.subrange(start as int, (i + 1) as int));
                assert(rest.update(rest.len() - 1, rest.last().push(c)) =~= out@.map_values(
                    |p: String| p@,
                ).push(s@.subrange(start as int, (i + 1) as int)));
            }
        }
        i = i + 1;
    }
    let piece = s.substring_char(start, n).to_owned();
    let ghost before = out@.map_values(|p: String| p@);
    out.push(piece);
    proof {
        assert(s@.subrange(0, n as int) =~= s@);
        assert(out@.map_values(|p: String| p@) =~= before.push(s@.subrange(start as int, n as int)));
    }
    out
}

} // verus!

verus! {

/// `sep` does not occur in `s`.
pub open spec fn free_of(s: Seq<char>, sep: char) -> bool {
    forall|i: int| 0 <= i < s.len() ==> s[i] != sep
}

proof fn lemma_split_append_plain(a: Seq<char>, b: Seq<char>, sep: char)
    requires
        free_of(b, sep),
    ensures
        split_on(a + b, sep).len() == split_on(a, sep).len(),
        split_on(a + b, sep) == split_on(a, sep).update(
            split_on(a, sep).len() - 1,
            split_on(a, sep).last() + b,
        ),
    decreases b.len(),
{
    lemma_split_nonempty(a, sep);
    if b.len() == 0 {
        assert(a + b =~= a);
        assert(split_on(a, sep).last() + b =~= split_on(a, sep).last());
        assert(split_on(a, sep).update(split_on(a, sep).len() - 1, split_on(a, sep).last())
            =~= split_on(a, sep));
    } else {
        let b0 = b.drop_last();
        let c = b.last();
        lemma_split_append_plain(a, b0, sep);
        assert((a + b).drop_last() =~= a + b0);
        assert((a + b).last() == c);
        let sa = split_on(a, sep);
        assert((sa.last() + b0).push(c) =~= sa.last() + b);
        assert(split_on(a + b, sep) =~= sa.update(sa.len() - 1, sa.last() + b));
    }
}

proof fn lemma_split_join(segs: Seq<Seq<char>>, sep: char)
    requires
        segs.len() >= 1,
        forall|k: int| 0 <= k < segs.len() ==> free_of(#[trigger] segs[k], sep),
    ensures
        split_on(join_with(segs, sep), sep) == segs,
    decreases segs.len(),
{
    if segs.len() == 1 {
        let e = Seq::<char>::empty();
        assert(free_of(segs[0], sep));
        lemma_split_append_plain(e, segs[0], sep);
        assert(e + segs[0] =~= segs[0]);
        assert(split_on(e, sep) =~= seq![e]);
        assert(e + segs[0] =~= segs[0]);
        assert(seq![e].update(0, e + segs[0]) =~= segs);
    } else {
        let init = segs.drop_last();
        assert forall|k: int| 0 <= k < init.len() implies free_of(#[trigger] init[k], sep) by {
            assert(init[k] == segs[k]);
        }
        lemma_split_join(init, sep);
        let x = join_with(init, sep).push(sep);
        assert(x.drop_last() =~= join_with(init, sep));
        assert(split_on(x, sep) == init.push(Seq::<char>::empty()));
        assert(free_of(segs.last(), sep));
        lemma_split_append_plain(x, segs.last(), sep);
        assert(Seq::<char>::empty() + segs.last() =~= segs.last());
        assert(init.push(Seq::<char>::empty()).update(init.len() as int, segs.last()) =~= segs);
    }
}

proof fn lemma_join_nonempty(segs: Seq<Seq<char>>, sep: char)
    requires
        segs.len() >= 1,
        segs[0].len() > 0,
    ensures
        join_with(segs, sep).len() > 0,
    decreases segs.len(),
{
    if segs.len() > 1 {
        lemma_join_nonempty(segs.drop_last(), sep);
    }
}

/// Writing a valid path with `/` and parsing it again gives back the same
/// segments: `RelPath::parse(p.as_str())` rebuilds `p`.
pub proof fn lemma_rel_path_roundtrip(segs: Seq<Seq<char>>)
    requires
        valid_segments(segs),
    ensures
        parse_rel_path(join_with(segs, '/')) == Some(segs),
{
    assert forall|k: int| 0 <= k < segs.len() implies free_of(#[trigger] segs[k], '/') by {
        assert(valid_segment(segs[k]));
        assert forall|i: int| 0 <= i < segs[k].len() implies segs[k][i] != '/' by {
            assert(is_segment_char(segs[k][i]));
        }
    }
    lemma_split_join(segs, '/');
    assert(valid_segment(segs[0]));
    lemma_join_nonempty(segs, '/');
}

/// A valid path cannot express a directory traversal: no segment is empty,
/// `.` or `..`, begins with a dot, or holds a separator, a backslash, a colon
/// or whitespace.
pub proof fn lemma_rel_path_no_traversal(segs: Seq<Seq<char>>, k: int)
    requires
        valid_segments(segs),
        0 <= k < segs.len(),
    ensures
        segs[k].len() > 0,
        segs[k][0] != '.',
        segs[k] != "."@,
        segs[k] != ".."@,
        forall|i: int|
            0 <= i < segs[k].len() ==> segs[k][i] != '/' && segs[k][i] != '\\' && segs[k][i] != ':'
                && segs[k][i] != ' ',
{
    reveal_strlit(".");
    reveal_strlit("..");
    assert(valid_segment(segs[k]));
    assert forall|i: int| 0 <= i < segs[k].len() implies segs[k][i] != '/' && segs[k][i] != '\\'
        && segs[k][i] != ':' && segs[k][i] != ' ' by {
        assert(is_segment_char(segs[k][i]));
    }
}

} // verus!
