//! Attachments: the file extension of a pasted image, the names its two
//! copies get, and the base64 text they travel as.
use vstd::prelude::*;

use base64::Engine;

use crate::text::{concat2, concat3, owned, str_eq, trim, trim_str};

verus! {

/// ASCII upper-case letters made lower-case, other characters kept
/// (`char::to_ascii_lowercase`).
pub open spec fn ascii_lower_char(c: char) -> char {
    if 'A' <= c && c <= 'Z' {
        ((c as u32) + 32) as char
    } else {
        c
    }
}

/// `str::to_ascii_lowercase`.
pub open spec fn ascii_lower(s: Seq<char>) -> Seq<char> {
    s.map_values(|c: char| ascii_lower_char(c))
}

fn lower_char(c: char) -> (r: char)
    ensures
        r == ascii_lower_char(c),
{
    if 'A' <= c && c <= 'Z' {
        let b: u8 = c as u8;
        ((b + 32) as char)
    } else {
        c
    }
}

/// An ASCII-lower-cased copy.
pub fn to_ascii_lower(s: &str) -> (r: String)
    ensures
        r@ == ascii_lower(s@),
{
    let n = s.unicode_len();
    let mut out = String::new();
    let mut i: usize = 0;
    while i < n
        invariant
            n == s@.len(),
            i <= n,
            out@ == ascii_lower(s@.take(i as int)),
        decreases n - i,
    {
        let c = lower_char(s.get_char(i));
        let one = char_str(c);
        out.append(one.as_str());
        proof {
            assert(ascii_lower(s@.take(i + 1)) =~= ascii_lower(s@.take(i as int)).push(c));
        }
        i = i + 1;
    }
    proof {
        assert(s@.take(n as int) =~= s@);
    }
    out
}

/// A one-character string.
#[verifier::external_body]
fn char_str(c: char) -> (r: String)
    ensures
        r@ == seq![c],
{
    c.to_string()
}

/// Extension of a pasted image by its MIME type (trimmed, case ignored);
/// "png" for any other type.
pub open spec fn mime_ext(mime: Seq<char>) -> Seq<char> {
    let m = ascii_lower(trim(mime));
    if m == "image/png"@ {
        "png"@
    } else if m == "image/jpeg"@ || m == "image/jpg"@ {
        "jpg"@
    } else if m == "image/webp"@ {
        "webp"@
    } else if m == "image/bmp"@ {
        "bmp"@
    } else {
        "png"@
    }
}

pub fn ext_for_mime(mime: &str) -> (r: &'static str)
    ensures
        r@ == mime_ext(mime@),
{
    let t = trim_str(mime);
    let m = to_ascii_lower(t.as_str());
    if str_eq(m.as_str(), "image/png") {
        "png"
    } else if str_eq(m.as_str(), "image/jpeg") || str_eq(m.as_str(), "image/jpg") {
        "jpg"
    } else if str_eq(m.as_str(), "image/webp") {
        "webp"
    } else if str_eq(m.as_str(), "image/bmp") {
        "bmp"
    } else {
        "png"
    }
}

/// Names of the two copies of a staged attachment with this identity: the
/// temporary file (its prefix is what the kernel accepts) and the kept copy.
pub fn staged_names(id: &str, ext: &str) -> (r: (String, String))
    ensures
        r.0@ == "mistake-agent-"@ + id@ + "."@ + ext@,
        r.1@ == id@ + "."@ + ext@,
{
    let temp = concat3("mistake-agent-", id, ".").concat(ext);
    let kept = concat3(id, ".", ext);
    (temp, kept)
}

/// Display name of a pasted image.
pub fn pasted_name(ext: &str) -> (r: String)
    ensures
        r@ == "粘贴截图."@ + ext@,
{
    concat2("粘贴截图.", ext)
}

// ---------- base64 ----------

/// What the base64 standard engine decodes a text to, or the text of its
/// error.
pub uninterp spec fn base64_decode(s: Seq<char>) -> Result<Seq<u8>, Seq<char>>;

/// A symbol of the standard base64 alphabet: `A`-`Z`, `a`-`z`, `0`-`9`, `+`, `/`.
pub open spec fn base64_symbol(n: int) -> char {
    if n < 26 {
        (65 + n) as char
    } else if n < 52 {
        (97 + n - 26) as char
    } else if n < 62 {
        (48 + n - 52) as char
    } else if n == 62 {
        '+'
    } else {
        '/'
    }
}

/// Standard base64 with padding: each three bytes become four symbols of
/// six bits each, most significant first; a last group of one or two bytes
/// is padded with zero bits and then with `=` to four symbols.
pub open spec fn base64_encode(b: Seq<u8>) -> Seq<char>
    decreases b.len(),
{
    if b.len() == 0 {
        Seq::empty()
    } else {
        let x = b[0] as int;
        let y = if b.len() > 1 {
            b[1] as int
        } else {
            0
        };
        let z = if b.len() > 2 {
            b[2] as int
        } else {
            0
        };
        let s1 = base64_symbol(x / 4);
        let s2 = base64_symbol((x % 4) * 16 + y / 16);
        let s3 = base64_symbol((y % 16) * 4 + z / 64);
        let s4 = base64_symbol(z % 64);
        if b.len() == 1 {
            seq![s1, s2, '=', '=']
        } else if b.len() == 2 {
            seq![s1, s2, s3, '=']
        } else {
            seq![s1, s2, s3, s4] + base64_encode(b.skip(3))
        }
    }
}

/// `base64::engine::general_purpose::STANDARD.decode`: the bytes, or the
/// error's text; both are named, they depend on the input alone.
#[verifier::external_body]
fn decode_standard(s: &str) -> (r: Result<Vec<u8>, String>)
    ensures
        match r {
            Ok(b) => base64_decode(s@) == Ok::<Seq<u8>, Seq<char>>(b@),
            Err(e) => base64_decode(s@) == Err::<Seq<u8>, Seq<char>>(e@),
        },
{
    match base64::engine::general_purpose::STANDARD.decode(s) {
        Ok(b) => Ok(b),
        Err(e) => Err(e.to_string()),
    }
}

/// `base64::engine::general_purpose::STANDARD.encode`: the standard
/// alphabet with padding (the `PAD` configuration).  The engine panics when
/// the encoded length overflows `usize`; shorter inputs are required.
#[verifier::external_body]
fn encode_standard(b: &Vec<u8>) -> (r: String)
    requires
        b@.len() <= (usize::MAX / 4 - 1) * 3,
    ensures
        r@ == base64_encode(b@),
{
    base64::engine::general_purpose::STANDARD.encode(b)
}

/// Decodes a pasted image (surrounding whitespace ignored); the error says
/// what was wrong.
pub fn decode_pasted_image(data_base64: &str) -> (r: Result<Vec<u8>, String>)
    ensures
        match base64_decode(trim(data_base64@)) {
            Ok(b) => r matches Ok(v) && v@ == b,
            Err(e) => r matches Err(m) && m@ == "图片数据解码失败："@ + e,
        },
{
    let t = trim_str(data_base64);
    match decode_standard(t.as_str()) {
        Ok(b) => Ok(b),
        Err(e) => Err(concat2("图片数据解码失败：", e.as_str())),
    }
}

/// Base64 text of an attachment's bytes (as the front end shows it).
pub fn encode_attachment(bytes: &Vec<u8>) -> (r: String)
    requires
        bytes@.len() <= (usize::MAX / 4 - 1) * 3,
    ensures
        r@ == base64_encode(bytes@),
{
    encode_standard(bytes)
}


// ---------- where an attachment may be read from ----------

/// The components of a path: the runs of characters between `/`
/// separators (empty runs dropped).
pub open spec fn path_parts(s: Seq<char>) -> Seq<Seq<char>>
    decreases s.len(),
{
    if s.len() == 0 {
        Seq::empty()
    } else {
        let w = path_parts(s.drop_last());
        let c = s.last();
        if c == '/' {
            w
        } else if s.len() >= 2 && s[s.len() - 2] != '/' {
            w.update(w.len() - 1, w.last().push(c))
        } else {
            w.push(seq![c])
        }
    }
}

pub open spec fn is_absolute(s: Seq<char>) -> bool {
    s.len() > 0 && s[0] == '/'
}

/// `path` lies in the directory `dir`: both absolute or both relative, and
/// the components of `dir` begin those of `path` (as `Path::starts_with`
/// compares canonical paths).
pub open spec fn inside_dir(path: Seq<char>, dir: Seq<char>) -> bool {
    &&& is_absolute(path) == is_absolute(dir)
    &&& path_parts(dir).len() <= path_parts(path).len()
    &&& path_parts(path).subrange(0, path_parts(dir).len() as int) == path_parts(dir)
}

proof fn lemma_parts_nonempty(s: Seq<char>)
    requires
        s.len() > 0,
        s.last() != '/',
    ensures
        path_parts(s).len() > 0,
    decreases s.len(),
{
    if s.len() >= 2 && s[s.len() - 2] != '/' {
        let t = s.drop_last();
        assert(t.last() == s[s.len() - 2]);
        lemma_parts_nonempty(t);
    }
}

pub open spec fn parts_view(v: Seq<Vec<char>>) -> Seq<Seq<char>> {
    v.map_values(|p: Vec<char>| p@)
}

/// The components of a path (see `path_parts`).
pub fn split_path(s: &str) -> (r: Vec<Vec<char>>)
    ensures
        parts_view(r@) == path_parts(s@),
{
    let n = s.unicode_len();
    let mut parts: Vec<Vec<char>> = Vec::new();
    let mut i: usize = 0;
    proof {
        assert(s@.subrange(0, 0) =~= Seq::<char>::empty());
        assert(parts_view(parts@) =~= Seq::<Seq<char>>::empty());
    }
    while i < n
        invariant
            n == s@.len(),
            i <= n,
            parts_view(parts@) == path_parts(s@.subrange(0, i as int)),
        decreases n - i,
    {
        let c = s.get_char(i);
        let ghost pre = s@.subrange(0, i as int);
        let ghost next = s@.subrange(0, i + 1);
        proof {
            assert(next.drop_last() =~= pre);
            assert(next.last() == c);
        }
        if c != '/' {
            if i > 0 && s.get_char(i - 1) != '/' {
                proof {
                    assert(next[next.len() - 2] == s@[i - 1]);
                    assert(pre.last() == s@[i - 1]);
                    lemma_parts_nonempty(pre);
                }
                let ghost before = parts@;
                let mut last = parts.pop().unwrap();
                last.push(c);
                parts.push(last);
                proof {
                    assert(parts_view(parts@) =~= parts_view(before).update(
                        parts_view(before).len() - 1,
                        parts_view(before).last().push(c),
                    ));
                }
            } else {
                proof {
                    if i > 0 {
                        assert(next[next.len() - 2] == s@[i - 1]);
                    }
                }
                let mut v: Vec<char> = Vec::new();
                v.push(c);
                let ghost before = parts@;
                parts.push(v);
                proof {
                    assert(v@ =~= seq![c]);
                    assert(parts_view(parts@) =~= parts_view(before).push(seq![c]));
                }
            }
        }
        i = i + 1;
    }
    proof {
        assert(s@.subrange(0, n as int) =~= s@);
    }
    parts
}

fn chars_eq(a: &Vec<char>, b: &Vec<char>) -> (r: bool)
    ensures
        r == (a@ == b@),
{
    if a.len() != b.len() {
        return false;
    }
    let mut i: usize = 0;
    while i < a.len()
        invariant
            a@.len() == b@.len(),
            i <= a@.len(),
            forall|k: int| 0 <= k < i ==> a@[k] == b@[k],
        decreases a.len() - i,
    {
        if a[i] != b[i] {
            return false;
        }
        i = i + 1;
    }
    assert(a@ =~= b@);
    true
}

/// Whether a canonical `path` lies in the canonical directory `dir`; an
/// attachment is read only from inside the uploads directory.
pub fn within_dir(path: &str, dir: &str) -> (b: bool)
    ensures
        b == inside_dir(path@, dir@),
{
    let path_abs = path.unicode_len() > 0 && path.get_char(0) == '/';
    let dir_abs = dir.unicode_len() > 0 && dir.get_char(0) == '/';
    if path_abs != dir_abs {
        return false;
    }
    let p = split_path(path);
    let d = split_path(dir);
    let ghost pv = parts_view(p@);
    let ghost dv = parts_view(d@);
    assert(pv.len() == p@.len() && dv.len() == d@.len());
    if d.len() > p.len() {
        return false;
    }
    let mut k: usize = 0;
    while k < d.len()
        invariant
            d@.len() <= p@.len(),
            k <= d@.len(),
            pv == parts_view(p@),
            dv == parts_view(d@),
            pv == path_parts(path@),
            dv == path_parts(dir@),
            is_absolute(path@) == is_absolute(dir@),
            forall|j: int| 0 <= j < k ==> pv[j] == dv[j],
        decreases d.len() - k,
    {
        if !chars_eq(&p[k], &d[k]) {
            proof {
                assert(pv[k as int] == p@[k as int]@);
                assert(dv[k as int] == d@[k as int]@);
                assert(pv.subrange(0, dv.len() as int)[k as int] != dv[k as int]);
            }
            return false;
        }
        proof {
            assert(pv[k as int] == p@[k as int]@);
            assert(dv[k as int] == d@[k as int]@);
        }
        k = k + 1;
    }
    proof {
        assert(pv.subrange(0, dv.len() as int) =~= dv);
    }
    true
}

} // verus!
