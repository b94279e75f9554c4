//! The in-memory file store: files of the data-root domains, legacy paths
//! and staged uploads, each under a text key (`<domain>/<path>`, or the
//! staged path itself), as the storage keeps them for tests and fallback.
use vstd::prelude::*;

use crate::storage::{join_with, Domain, RelPath, StorageError};
use crate::text::{concat2, concat3, has_prefix, owned, str_eq};

verus! {

// ---------- keys and their order ----------

/// The key of a domain file: `<domain>/<path>`.
pub open spec fn file_key(domain: Domain, path: Seq<char>) -> Seq<char> {
    domain.dir_name() + "/"@ + path
}

/// Lexicographic order of texts by code point (the order of `String`, as
/// UTF-8 keeps code-point order).
pub open spec fn seq_lt(a: Seq<char>, b: Seq<char>) -> bool
    decreases a.len(),
{
    if a.len() == 0 {
        b.len() > 0
    } else if b.len() == 0 {
        false
    } else if a[0] != b[0] {
        (a[0] as u32) < (b[0] as u32)
    } else {
        seq_lt(a.drop_first(), b.drop_first())
    }
}

/// The path order is strict: no path comes before itself.
pub proof fn lemma_lt_irreflexive(a: Seq<char>)
    ensures
        !seq_lt(a, a),
    decreases a.len(),
{
    if a.len() > 0 {
        lemma_lt_irreflexive(a.drop_first());
    }
}

/// The path order is total: of two different paths, one comes first.
pub proof fn lemma_lt_total(a: Seq<char>, b: Seq<char>)
    requires
        a != b,
    ensures
        seq_lt(a, b) || seq_lt(b, a),
    decreases a.len(),
{
    if a.len() > 0 && b.len() > 0 && a[0] == b[0] {
        if a.drop_first() == b.drop_first() {
            assert(a =~= seq![a[0]] + a.drop_first());
            assert(b =~= seq![b[0]] + b.drop_first());
        }
        lemma_lt_total(a.drop_first(), b.drop_first());
    } else if a.len() == 0 && b.len() == 0 {
        assert(a =~= b);
    } else if a.len() > 0 && b.len() > 0 {
        vstd::utf8::char_u32_cast(a[0], a[0] as u32);
        vstd::utf8::char_u32_cast(b[0], b[0] as u32);
    }
}

/// The path order is transitive.
pub proof fn lemma_lt_trans(a: Seq<char>, b: Seq<char>, c: Seq<char>)
    requires
        seq_lt(a, b),
        seq_lt(b, c),
    ensures
        seq_lt(a, c),
    decreases a.len(),
{
    if a.len() > 0 && b.len() > 0 && c.len() > 0 && a[0] == b[0] && b[0] == c[0] {
        lemma_lt_trans(a.drop_first(), b.drop_first(), c.drop_first());
    }
}

/// `a` comes before `b`.
pub fn str_lt(a: &str, b: &str) -> (r: bool)
    ensures
        r == seq_lt(a@, b@),
{
    let n = a.unicode_len();
    let m = b.unicode_len();
    let mut i: usize = 0;
    proof {
        assert(a@.skip(0) =~= a@);
        assert(b@.skip(0) =~= b@);
    }
    while i < n && i < m
        invariant
            n == a@.len(),
            m == b@.len(),
            i <= n,
            i <= m,
            seq_lt(a@, b@) == seq_lt(a@.skip(i as int), b@.skip(i as int)),
        decreases n - i,
    {
        let x = a.get_char(i);
        let y = b.get_char(i);
        proof {
            assert(a@.skip(i as int)[0] == x);
            assert(b@.skip(i as int)[0] == y);
            assert(a@.skip(i as int).drop_first() =~= a@.skip(i + 1));
            assert(b@.skip(i as int).drop_first() =~= b@.skip(i + 1));
        }
        if x != y {
            return (x as u32) < (y as u32);
        }
        i = i + 1;
    }
    proof {
        if i == n {
            assert(a@.skip(i as int).len() == 0);
        } else {
            assert(b@.skip(i as int).len() == 0);
        }
    }
    i == n && i < m
}

// ---------- the store ----------

pub open spec fn entry_views(v: Seq<(String, Vec<u8>)>) -> Seq<(Seq<char>, Seq<u8>)> {
    v.map_values(|e: (String, Vec<u8>)| (e.0@, e.1@))
}

/// The bytes under `key`: the latest entry for it.
pub open spec fn lookup_file(v: Seq<(Seq<char>, Seq<u8>)>, key: Seq<char>) -> Option<Seq<u8>>
    decreases v.len(),
{
    if v.len() == 0 {
        None
    } else if v.last().0 == key {
        Some(v.last().1)
    } else {
        lookup_file(v.drop_last(), key)
    }
}

pub open spec fn files_map(v: Seq<(Seq<char>, Seq<u8>)>) -> Map<Seq<char>, Seq<u8>> {
    Map::new(|k: Seq<char>| lookup_file(v, k) is Some, |k: Seq<char>| lookup_file(v, k)->0)
}

pub struct MemoryFiles {
    files: Vec<(String, Vec<u8>)>,
}

impl View for MemoryFiles {
    type V = Map<Seq<char>, Seq<u8>>;

    closed spec fn view(&self) -> Map<Seq<char>, Seq<u8>> {
        files_map(entry_views(self.files@))
    }
}

pub open spec fn missing_file_message(key: Seq<char>) -> Seq<char> {
    "内存文件不存在："@ + key
}

pub open spec fn missing_legacy_message(key: Seq<char>) -> Seq<char> {
    "内存历史文件不存在："@ + key
}

pub open spec fn missing_staged_message(key: Seq<char>) -> Seq<char> {
    "内存暂存不存在："@ + key
}

pub open spec fn missing_tree_message() -> Seq<char> {
    "内存子树不存在"@
}

/// The keys a subtree removal takes: the path itself and everything below it.
pub open spec fn in_tree(k: Seq<char>, key: Seq<char>) -> bool {
    k == key || has_prefix(k, key + "/"@)
}

/// The entries of a domain, listed by their paths.
pub open spec fn listed(files: Map<Seq<char>, Seq<u8>>, domain: Domain) -> Set<Seq<char>> {
    Set::new(|p: Seq<char>| files.contains_key(file_key(domain, p)))
}

pub open spec fn names(v: Seq<String>) -> Seq<Seq<char>> {
    v.map_values(|s: String| s@)
}

pub open spec fn strictly_sorted(s: Seq<Seq<char>>) -> bool {
    forall|i: int, j: int| 0 <= i < j < s.len() ==> seq_lt(#[trigger] s[i], #[trigger] s[j])
}

/// The outcome of reading `key` from `files`.
pub open spec fn read_result(files: Map<Seq<char>, Seq<u8>>, key: Seq<char>, missing: Seq<char>, r: Result<Vec<u8>, StorageError>) -> bool {
    if files.contains_key(key) {
        r matches Ok(b) && b@ == files[key]
    } else {
        r matches Err(StorageError::Io(m)) && m@ == missing
    }
}

/// The outcome of removing `key` from `files`.
pub open spec fn remove_result(
    before: Map<Seq<char>, Seq<u8>>,
    after: Map<Seq<char>, Seq<u8>>,
    key: Seq<char>,
    missing: Seq<char>,
    r: Result<(), StorageError>,
) -> bool {
    if before.contains_key(key) {
        r is Ok && after == before.remove(key)
    } else {
        r matches Err(StorageError::Io(m)) && m@ == missing && after == before
    }
}

proof fn lemma_lookup_push(v: Seq<(Seq<char>, Seq<u8>)>, e: (Seq<char>, Seq<u8>), k: Seq<char>)
    ensures
        lookup_file(v.push(e), k) == if e.0 == k {
            Some(e.1)
        } else {
            lookup_file(v, k)
        },
{
    assert(v.push(e).drop_last() =~= v);
}

proof fn lemma_lookup_in(v: Seq<(Seq<char>, Seq<u8>)>, k: Seq<char>)
    ensures
        lookup_file(v, k) is Some <==> exists|i: int| 0 <= i < v.len() && #[trigger] v[i].0 == k,
    decreases v.len(),
{
    if v.len() > 0 {
        lemma_lookup_in(v.drop_last(), k);
        if lookup_file(v, k) is Some && v.last().0 != k {
            let i = choose|i: int| 0 <= i < v.drop_last().len() && #[trigger] v.drop_last()[i].0 == k;
            assert(v[i].0 == k);
        }
        if exists|i: int| 0 <= i < v.len() && #[trigger] v[i].0 == k {
            let i = choose|i: int| 0 <= i < v.len() && #[trigger] v[i].0 == k;
            if i < v.len() - 1 {
                assert(v.drop_last()[i].0 == k);
            }
        }
    }
}

impl MemoryFiles {
    /// No two entries share a key.
    pub closed spec fn wf(&self) -> bool {
        forall|i: int, j: int|
            0 <= i < j < self.files@.len() ==> (#[trigger] self.files@[i]).0@ != (#[trigger] self.files@[j]).0@
    }

    pub fn new() -> (s: MemoryFiles)
        ensures
            s.wf(),
            s@ == Map::<Seq<char>, Seq<u8>>::empty(),
    {
        let s = MemoryFiles { files: Vec::new() };
        proof {
            assert(s@ =~= Map::<Seq<char>, Seq<u8>>::empty());
        }
        s
    }

    fn find(&self, key: &str) -> (r: Option<usize>)
        ensures
            match r {
                Some(i) => i < self.files@.len() && self.files@[i as int].0@ == key@ && lookup_file(
                    entry_views(self.files@),
                    key@,
                ) == Some(self.files@[i as int].1@),
                None => lookup_file(entry_views(self.files@), key@) is None,
            },
    {
        let ghost ev = entry_views(self.files@);
        let mut j: usize = self.files.len();
        proof {
            assert(ev.take(j as int) =~= ev);
        }
        while j > 0
            invariant
                ev == entry_views(self.files@),
                j <= self.files@.len(),
                lookup_file(ev, key@) == lookup_file(ev.take(j as int), key@),
            decreases j,
        {
            proof {
                assert(ev.take(j as int).last() == ev[j - 1]);
                assert(ev.take(j as int).drop_last() =~= ev.take(j - 1));
            }
            if str_eq(self.files[j - 1].0.as_str(), key) {
                return Some(j - 1);
            }
            j = j - 1;
        }
        proof {
            assert(ev.take(0) =~= Seq::<(Seq<char>, Seq<u8>)>::empty());
        }
        None
    }

    /// The entries kept when those whose key satisfies `drop` go.
    fn keep_others(&self, key: &str) -> (r: Vec<(String, Vec<u8>)>)
        requires
            self.wf(),
        ensures
            forall|k: Seq<char>| k != key@ ==> lookup_file(entry_views(r@), k) == lookup_file(entry_views(self.files@), k),
            lookup_file(entry_views(r@), key@) is None,
            forall|i: int, j: int| 0 <= i < j < r@.len() ==> (#[trigger] r@[i]).0@ != (#[trigger] r@[j]).0@,
            forall|i: int| 0 <= i < r@.len() ==> (#[trigger] r@[i]).0@ != key@,
    {
        let ghost ev = entry_views(self.files@);
        let mut out: Vec<(String, Vec<u8>)> = Vec::new();
        let mut i: usize = 0;
        while i < self.files.len()
            invariant
                self.wf(),
                ev == entry_views(self.files@),
                i <= self.files@.len(),
                forall|k: Seq<char>| k != key@ ==> lookup_file(entry_views(out@), k) == lookup_file(ev.take(i as int), k),
                lookup_file(entry_views(out@), key@) is None,
                forall|a: int, b: int| 0 <= a < b < out@.len() ==> (#[trigger] out@[a]).0@ != (#[trigger] out@[b]).0@,
                forall|a: int| 0 <= a < out@.len() ==> (#[trigger] out@[a]).0@ != key@,
                forall|a: int| 0 <= a < out@.len() ==> exists|b: int| 0 <= b < i && (#[trigger] out@[a]).0@ == self.files@[b].0@,
            decreases self.files.len() - i,
        {
            let ghost before = out@;
            proof {
                assert(ev.take(i + 1).drop_last() =~= ev.take(i as int));
                assert(ev.take(i + 1).last() == ev[i as int]);
                assert forall|k: Seq<char>| true implies lookup_file(ev.take(i + 1), k) == if ev[i as int].0 == k {
                    Some(ev[i as int].1)
                } else {
                    lookup_file(ev.take(i as int), k)
                } by {
                    lemma_lookup_push(ev.take(i as int), ev[i as int], k);
                    assert(ev.take(i as int).push(ev[i as int]) =~= ev.take(i + 1));
                }
            }
            if !str_eq(self.files[i].0.as_str(), key) {
                let e = (owned(self.files[i].0.as_str()), self.files[i].1.clone());
                out.push(e);
                proof {
                    assert(entry_views(out@) =~= entry_views(before).push(ev[i as int]));
                    assert forall|k: Seq<char>| true implies lookup_file(entry_views(out@), k) == if ev[i as int].0 == k {
                        Some(ev[i as int].1)
                    } else {
                        lookup_file(entry_views(before), k)
                    } by {
                        lemma_lookup_push(entry_views(before), ev[i as int], k);
                    }
                    assert forall|a: int, b: int| 0 <= a < b < out@.len() implies (#[trigger] out@[a]).0@
                        != (#[trigger] out@[b]).0@ by {
                        if b == out@.len() - 1 {
                            let c = choose|c: int| 0 <= c < i && before[a].0@ == self.files@[c].0@;
                            assert(self.files@[c].0@ != self.files@[i as int].0@);
                        }
                    }
                    assert forall|a: int| 0 <= a < out@.len() implies exists|b: int|
                        0 <= b < i + 1 && (#[trigger] out@[a]).0@ == self.files@[b].0@ by {
                        if a < before.len() {
                            let c = choose|c: int| 0 <= c < i && before[a].0@ == self.files@[c].0@;
                            assert(out@[a] == before[a]);
                        } else {
                            assert(out@[a].0@ == self.files@[i as int].0@);
                        }
                    }
                }
            } else {
                proof {
                    assert forall|a: int| 0 <= a < out@.len() implies exists|b: int|
                        0 <= b < i + 1 && (#[trigger] out@[a]).0@ == self.files@[b].0@ by {
                        let c = choose|c: int| 0 <= c < i && out@[a].0@ == self.files@[c].0@;
                    }
                }
            }
            i = i + 1;
        }
        proof {
            assert(ev.take(self.files@.len() as int) =~= ev);
        }
        out
    }

    fn put(&mut self, key: &str, bytes: Vec<u8>)
        requires
            old(self).wf(),
        ensures
            final(self).wf(),
            final(self)@ == old(self)@.insert(key@, bytes@),
    {
        let mut kept = self.keep_others(key);
        let ghost before = kept@;
        kept.push((owned(key), bytes));
        proof {
            let ev = entry_views(kept@);
            assert(ev =~= entry_views(before).push((key@, bytes@)));
            assert forall|k: Seq<char>| true implies lookup_file(ev, k) == if k == key@ {
                Some(bytes@)
            } else {
                lookup_file(entry_views(self.files@), k)
            } by {
                lemma_lookup_push(entry_views(before), (key@, bytes@), k);
            }
            assert forall|a: int, b: int| 0 <= a < b < kept@.len() implies (#[trigger] kept@[a]).0@
                != (#[trigger] kept@[b]).0@ by {
                if b == kept@.len() - 1 {
                    assert(before[a].0@ != key@);
                }
            }
        }
        let ghost old_view = self@;
        self.files = kept;
        proof {
            assert(self@ =~= old_view.insert(key@, bytes@));
        }
    }

    fn take_out(&mut self, key: &str, missing: &str) -> (r: Result<(), StorageError>)
        requires
            old(self).wf(),
        ensures
            final(self).wf(),
            remove_result(old(self)@, final(self)@, key@, missing@, r),
    {
        match self.find(key) {
            None => {
                proof {
                    assert(!self@.contains_key(key@));
                }
                Err(StorageError::Io(owned(missing)))
            },
            Some(_) => {
                let kept = self.keep_others(key);
                let ghost old_view = self@;
                self.files = kept;
                proof {
                    assert(self@ =~= old_view.remove(key@));
                }
                Ok(())
            },
        }
    }

    fn get_bytes(&self, key: &str, missing: &str) -> (r: Result<Vec<u8>, StorageError>)
        ensures
            read_result(self@, key@, missing@, r),
    {
        match self.find(key) {
            Some(i) => Ok(self.files[i].1.clone()),
            None => Err(StorageError::Io(owned(missing))),
        }
    }

    /// `read`: the bytes of a domain file.
    pub fn read(&self, domain: Domain, rel: &RelPath) -> (r: Result<Vec<u8>, StorageError>)
        ensures
            read_result(self@, file_key(domain, join_with(rel@, '/')), missing_file_message(file_key(domain, join_with(rel@, '/'))), r),
    {
        let key = concat3(domain.as_dir(), "/", rel.as_str().as_str());
        let missing = concat2("内存文件不存在：", key.as_str());
        self.get_bytes(key.as_str(), missing.as_str())
    }

    /// `write`: a domain file with these bytes, replacing what was there.
    pub fn write(&mut self, domain: Domain, rel: &RelPath, bytes: &[u8]) -> (r: Result<(), StorageError>)
        requires
            old(self).wf(),
        ensures
            final(self).wf(),
            r is Ok,
            final(self)@ == old(self)@.insert(file_key(domain, join_with(rel@, '/')), bytes@),
    {
        let key = concat3(domain.as_dir(), "/", rel.as_str().as_str());
        self.put(key.as_str(), vstd::slice::slice_to_vec(bytes));
        Ok(())
    }

    /// `remove`: one domain file.
    pub fn remove(&mut self, domain: Domain, rel: &RelPath) -> (r: Result<(), StorageError>)
        requires
            old(self).wf(),
        ensures
            final(self).wf(),
            remove_result(
                old(self)@,
                final(self)@,
                file_key(domain, join_with(rel@, '/')),
                missing_file_message(file_key(domain, join_with(rel@, '/'))),
                r,
            ),
    {
        let key = concat3(domain.as_dir(), "/", rel.as_str().as_str());
        let missing = concat2("内存文件不存在：", key.as_str());
        self.take_out(key.as_str(), missing.as_str())
    }

    /// `read_legacy`: a domain file under a legacy path, unchecked.
    pub fn read_legacy(&self, domain: Domain, legacy_rel: &str) -> (r: Result<Vec<u8>, StorageError>)
        ensures
            read_result(self@, file_key(domain, legacy_rel@), missing_legacy_message(file_key(domain, legacy_rel@)), r),
    {
        let key = concat3(domain.as_dir(), "/", legacy_rel);
        let missing = concat2("内存历史文件不存在：", key.as_str());
        self.get_bytes(key.as_str(), missing.as_str())
    }

    /// `remove_legacy`: a domain file under a legacy path.
    pub fn remove_legacy(&mut self, domain: Domain, legacy_rel: &str) -> (r: Result<(), StorageError>)
        requires
            old(self).wf(),
        ensures
            final(self).wf(),
            remove_result(
                old(self)@,
                final(self)@,
                file_key(domain, legacy_rel@),
                missing_legacy_message(file_key(domain, legacy_rel@)),
                r,
            ),
    {
        let key = concat3(domain.as_dir(), "/", legacy_rel);
        let missing = concat2("内存历史文件不存在：", key.as_str());
        self.take_out(key.as_str(), missing.as_str())
    }

    /// `read_staged`: a staged upload, by its path.
    pub fn read_staged(&self, path: &str) -> (r: Result<Vec<u8>, StorageError>)
        ensures
            read_result(self@, path@, missing_staged_message(path@), r),
    {
        let missing = concat2("内存暂存不存在：", path);
        self.get_bytes(path, missing.as_str())
    }

    /// `remove_staged`: a staged upload, by its path.
    pub fn remove_staged(&mut self, path: &str) -> (r: Result<(), StorageError>)
        requires
            old(self).wf(),
        ensures
            final(self).wf(),
            remove_result(old(self)@, final(self)@, path@, missing_staged_message(path@), r),
    {
        let missing = concat2("内存暂存不存在：", path);
        self.take_out(path, missing.as_str())
    }

    fn keep_outside_tree(&self, key: &str) -> (r: (Vec<(String, Vec<u8>)>, bool))
        requires
            self.wf(),
        ensures
            forall|k: Seq<char>|
                #![trigger lookup_file(entry_views(r.0@), k)]
                lookup_file(entry_views(r.0@), k) == if in_tree(k, key@) {
                    None
                } else {
                    lookup_file(entry_views(self.files@), k)
                },
            forall|i: int, j: int| 0 <= i < j < r.0@.len() ==> (#[trigger] r.0@[i]).0@ != (#[trigger] r.0@[j]).0@,
            r.1 <==> exists|b: int| 0 <= b < self.files@.len() && in_tree(#[trigger] self.files@[b].0@, key@),
    {
        let ghost ev = entry_views(self.files@);
        let below = concat2(key, "/");
        let mut out: Vec<(String, Vec<u8>)> = Vec::new();
        let mut removed = false;
        let mut i: usize = 0;
        while i < self.files.len()
            invariant
                self.wf(),
                ev == entry_views(self.files@),
                below@ == key@ + "/"@,
                i <= self.files@.len(),
                forall|k: Seq<char>|
                    #![trigger lookup_file(entry_views(out@), k)]
                    lookup_file(entry_views(out@), k) == if in_tree(k, key@) {
                        None
                    } else {
                        lookup_file(ev.take(i as int), k)
                    },
                forall|a: int, b: int| 0 <= a < b < out@.len() ==> (#[trigger] out@[a]).0@ != (#[trigger] out@[b]).0@,
                forall|a: int| 0 <= a < out@.len() ==> exists|b: int| 0 <= b < i && (#[trigger] out@[a]).0@ == self.files@[b].0@,
                removed <==> exists|b: int| 0 <= b < i && in_tree(#[trigger] self.files@[b].0@, key@),
            decreases self.files.len() - i,
        {
            let ghost before = out@;
            proof {
                assert(ev.take(i + 1).drop_last() =~= ev.take(i as int));
                assert forall|k: Seq<char>| true implies lookup_file(ev.take(i + 1), k) == if ev[i as int].0 == k {
                    Some(ev[i as int].1)
                } else {
                    lookup_file(ev.take(i as int), k)
                } by {
                    lemma_lookup_push(ev.take(i as int), ev[i as int], k);
                    assert(ev.take(i as int).push(ev[i as int]) =~= ev.take(i + 1));
                }
            }
            let name = self.files[i].0.as_str();
            let inside = str_eq(name, key) || crate::text::starts_with(name, below.as_str());
            if !inside {
                out.push((owned(name), self.files[i].1.clone()));
                proof {
                    assert(entry_views(out@) =~= entry_views(before).push(ev[i as int]));
                    assert forall|k: Seq<char>| true implies lookup_file(entry_views(out@), k) == if ev[i as int].0 == k {
                        Some(ev[i as int].1)
                    } else {
                        lookup_file(entry_views(before), k)
                    } by {
                        lemma_lookup_push(entry_views(before), ev[i as int], k);
                    }
                    assert forall|a: int, b: int| 0 <= a < b < out@.len() implies (#[trigger] out@[a]).0@
                        != (#[trigger] out@[b]).0@ by {
                        if b == out@.len() - 1 {
                            let c = choose|c: int| 0 <= c < i && before[a].0@ == self.files@[c].0@;
                            assert(self.files@[c].0@ != self.files@[i as int].0@);
                        }
                    }
                    assert forall|a: int| 0 <= a < out@.len() implies exists|b: int|
                        0 <= b < i + 1 && (#[trigger] out@[a]).0@ == self.files@[b].0@ by {
                        if a < before.len() {
                            let c = choose|c: int| 0 <= c < i && before[a].0@ == self.files@[c].0@;
                            assert(out@[a] == before[a]);
                        } else {
                            assert(out@[a].0@ == self.files@[i as int].0@);
                        }
                    }
                }
            } else {
                removed = true;
                proof {
                    assert(in_tree(self.files@[i as int].0@, key@));
                    assert forall|a: int| 0 <= a < out@.len() implies exists|b: int|
                        0 <= b < i + 1 && (#[trigger] out@[a]).0@ == self.files@[b].0@ by {
                        let c = choose|c: int| 0 <= c < i && out@[a].0@ == self.files@[c].0@;
                    }
                }
            }
            i = i + 1;
        }
        proof {
            assert(ev.take(self.files@.len() as int) =~= ev);
        }
        (out, removed)
    }

    /// `remove_tree`: a path and everything below it; refused when nothing
    /// is there.
    pub fn remove_tree(&mut self, domain: Domain, rel: &RelPath) -> (r: Result<(), StorageError>)
        requires
            old(self).wf(),
        ensures
            final(self).wf(),
            ({
                let key = file_key(domain, join_with(rel@, '/'));
                if exists|k: Seq<char>| old(self)@.contains_key(k) && in_tree(k, key) {
                    r is Ok && final(self)@ == old(self)@.remove_keys(Set::new(|k: Seq<char>| in_tree(k, key)))
                } else {
                    r matches Err(StorageError::Io(m)) && m@ == missing_tree_message() && final(self)@ == old(self)@
                }
            }),
    {
        let key = concat3(domain.as_dir(), "/", rel.as_str().as_str());
        let (kept, removed) = self.keep_outside_tree(key.as_str());
        let ghost ev = entry_views(self.files@);
        proof {
            if removed {
                let b = choose|b: int| 0 <= b < self.files@.len() && in_tree(#[trigger] self.files@[b].0@, key@);
                lemma_lookup_in(ev, self.files@[b].0@);
                assert(ev[b].0 == self.files@[b].0@);
                assert(self@.contains_key(self.files@[b].0@));
            } else {
                assert forall|k: Seq<char>| self@.contains_key(k) implies !in_tree(k, key@) by {
                    lemma_lookup_in(ev, k);
                    let b = choose|b: int| 0 <= b < ev.len() && #[trigger] ev[b].0 == k;
                    assert(self.files@[b].0@ == k);
                }
            }
        }
        if !removed {
            return Err(StorageError::Io(owned("内存子树不存在")));
        }
        let ghost old_view = self@;
        self.files = kept;
        proof {
            assert(self@ =~= old_view.remove_keys(Set::new(|k: Seq<char>| in_tree(k, key@))));
        }
        Ok(())
    }

    /// `list`: the paths of a domain's files, sorted.
    pub fn list(&self, domain: Domain) -> (r: Vec<String>)
        requires
            self.wf(),
        ensures
            strictly_sorted(names(r@)),
            names(r@).to_set() == listed(self@, domain),
    {
        let ghost ev = entry_views(self.files@);
        let prefix = concat2(domain.as_dir(), "/");
        let plen = prefix.unicode_len();
        let mut out: Vec<String> = Vec::new();
        let mut i: usize = 0;
        while i < self.files.len()
            invariant
                self.wf(),
                ev == entry_views(self.files@),
                prefix@ == domain.dir_name() + "/"@,
                plen == prefix@.len(),
                i <= self.files@.len(),
                strictly_sorted(names(out@)),
                forall|x: Seq<char>|
                    #![trigger names(out@).contains(x)]
                    names(out@).contains(x) <==> exists|b: int|
                        0 <= b < i && #[trigger] self.files@[b].0@ == prefix@ + x,
            decreases self.files.len() - i,
        {
            let name = self.files[i].0.as_str();
            if crate::text::starts_with(name, prefix.as_str()) {
                let n = name.unicode_len();
                let x = owned(name.substring_char(plen, n));
                proof {
                    assert(name@ =~= prefix@ + x@);
                }
                let ghost xs = names(out@);
                proof {
                    if xs.contains(x@) {
                        let b = choose|b: int| 0 <= b < i && #[trigger] self.files@[b].0@ == prefix@ + x@;
                        assert(self.files@[b].0@ == self.files@[i as int].0@);
                    }
                }
                let mut q: usize = 0;
                while q < out.len() && str_lt(out[q].as_str(), x.as_str())
                    invariant
                        q <= out@.len(),
                        xs == names(out@),
                        forall|a: int| 0 <= a < q ==> seq_lt(#[trigger] xs[a], x@),
                    decreases out.len() - q,
                {
                    q = q + 1;
                }
                let ghost old_out = out@;
                out.insert(q, x);
                proof {
                    let ys = names(out@);
                    assert(ys =~= xs.insert(q as int, x@));
                    if q < xs.len() {
                        assert(!seq_lt(xs[q as int], x@));
                        assert(xs[q as int] != x@) by {
                            assert(xs.contains(xs[q as int]));
                        }
                        lemma_lt_total(xs[q as int], x@);
                    }
                    assert forall|a: int, b: int| 0 <= a < b < ys.len() implies seq_lt(#[trigger] ys[a], #[trigger] ys[b]) by {
                        if b < q {
                            assert(ys[a] == xs[a]);
                            assert(ys[b] == xs[b]);
                        } else if a < q && b == q {
                        } else if a < q && b > q {
                            assert(ys[b] == xs[b - 1]);
                        } else if a == q {
                            assert(ys[b] == xs[b - 1]);
                            if b - 1 > q {
                                lemma_lt_trans(x@, xs[q as int], xs[b - 1]);
                            }
                        } else {
                            assert(ys[a] == xs[a - 1]);
                            assert(ys[b] == xs[b - 1]);
                        }
                    }
                    assert forall|y: Seq<char>| #![trigger ys.contains(y)]
                        ys.contains(y) <==> exists|b: int| 0 <= b < i + 1 && #[trigger] self.files@[b].0@ == prefix@ + y by {
                        if ys.contains(y) {
                            let a = choose|a: int| 0 <= a < ys.len() && ys[a] == y;
                            if a == q {
                                assert(self.files@[i as int].0@ == prefix@ + y);
                            } else if a < q {
                                assert(xs.contains(xs[a]));
                            } else {
                                assert(xs[a - 1] == y);
                                assert(xs.contains(xs[a - 1]));
                            }
                        }
                        if exists|b: int| 0 <= b < i + 1 && #[trigger] self.files@[b].0@ == prefix@ + y {
                            let b = choose|b: int| 0 <= b < i + 1 && #[trigger] self.files@[b].0@ == prefix@ + y;
                            if b == i {
                                assert(prefix@ + y == prefix@ + x@);
                                assert(y =~= (prefix@ + y).skip(prefix@.len() as int));
                                assert(x@ =~= (prefix@ + x@).skip(prefix@.len() as int));
                                assert(ys[q as int] == y);
                            } else {
                                assert(xs.contains(y));
                                let a = choose|a: int| 0 <= a < xs.len() && xs[a] == y;
                                if a < q {
                                    assert(ys[a] == y);
                                } else {
                                    assert(ys[a + 1] == y);
                                }
                            }
                        }
                    }
                }
            } else {
                proof {
                    let xs = names(out@);
                    assert forall|y: Seq<char>| #![trigger xs.contains(y)]
                        xs.contains(y) <==> exists|b: int| 0 <= b < i + 1 && #[trigger] self.files@[b].0@ == prefix@ + y by {
                        if exists|b: int| 0 <= b < i + 1 && #[trigger] self.files@[b].0@ == prefix@ + y {
                            let b = choose|b: int| 0 <= b < i + 1 && #[trigger] self.files@[b].0@ == prefix@ + y;
                            if b == i {
                                assert((prefix@ + y).subrange(0, prefix@.len() as int) =~= prefix@);
                            }
                        }
                    }
                }
            }
            i = i + 1;
        }
        proof {
            let xs = names(out@);
            assert forall|y: Seq<char>| #![auto] xs.to_set().contains(y) <==> listed(self@, domain).contains(y) by {
                lemma_lookup_in(ev, prefix@ + y);
                if listed(self@, domain).contains(y) {
                    let b = choose|b: int| 0 <= b < ev.len() && #[trigger] ev[b].0 == prefix@ + y;
                    assert(self.files@[b].0@ == prefix@ + y);
                }
                if xs.contains(y) {
                    let b = choose|b: int| 0 <= b < i && #[trigger] self.files@[b].0@ == prefix@ + y;
                    assert(ev[b].0 == prefix@ + y);
                }
            }
            assert(xs.to_set() =~= listed(self@, domain));
        }
        out
    }

    /// `read_data_file`: a teaching data file of the data domain, as text.
    pub fn read_data_file(&self, name: &str) -> (r: Result<String, StorageError>)
        ensures
            match crate::storage::parse_rel_path(name@) {
                None => r matches Err(StorageError::InvalidPath(m)) && crate::storage::path_refusal(name@, m@),
                Some(segs) => {
                    let key = file_key(Domain::Data, join_with(segs, '/'));
                    if !self@.contains_key(key) {
                        r matches Err(StorageError::Io(m)) && m@ == missing_file_message(key)
                    } else if vstd::utf8::valid_utf8(self@[key]) {
                        r matches Ok(t) && vstd::utf8::encode_utf8(t@) == self@[key]
                    } else {
                        r matches Err(StorageError::Corrupt(m)) && m@ == "数据文件非 UTF-8："@ + crate::text::utf8_error_text(
                            self@[key],
                        )
                    }
                },
            },
    {
        let rel = match RelPath::parse(name) {
            Ok(p) => p,
            Err(e) => return Err(e),
        };
        let bytes = match self.read(Domain::Data, &rel) {
            Ok(b) => b,
            Err(e) => return Err(e),
        };
        match crate::text::utf8_text(bytes) {
            Ok(t) => Ok(t),
            Err(m) => Err(StorageError::Corrupt(concat2("数据文件非 UTF-8：", m.as_str()))),
        }
    }

    /// `write_data_file`: a teaching data file of the data domain.
    pub fn write_data_file(&mut self, name: &str, content: &str) -> (r: Result<(), StorageError>)
        requires
            old(self).wf(),
        ensures
            final(self).wf(),
            match crate::storage::parse_rel_path(name@) {
                None => r matches Err(StorageError::InvalidPath(m)) && crate::storage::path_refusal(name@, m@)
                    && final(self)@ == old(self)@,
                Some(segs) => r is Ok && final(self)@ == old(self)@.insert(
                    file_key(Domain::Data, join_with(segs, '/')),
                    vstd::utf8::encode_utf8(content@),
                ),
            },
    {
        let rel = match RelPath::parse(name) {
            Ok(p) => p,
            Err(e) => return Err(e),
        };
        self.write(Domain::Data, &rel, content.as_bytes())
    }
}

// ---------- laws of the file store ----------

/// A read gives back what the last write of that file wrote.
pub proof fn lemma_read_returns_written(
    files: Map<Seq<char>, Seq<u8>>,
    key: Seq<char>,
    bytes: Seq<u8>,
    missing: Seq<char>,
    r: Result<Vec<u8>, StorageError>,
)
    requires
        read_result(files.insert(key, bytes), key, missing, r),
    ensures
        r matches Ok(b) && b@ == bytes,
{
}

/// A write touches no other file.
pub proof fn lemma_write_leaves_others(
    files: Map<Seq<char>, Seq<u8>>,
    written: Seq<char>,
    bytes: Seq<u8>,
    key: Seq<char>,
    missing: Seq<char>,
    r: Result<Vec<u8>, StorageError>,
)
    requires
        written != key,
    ensures
        read_result(files.insert(written, bytes), key, missing, r) == read_result(files, key, missing, r),
{
}

/// Files of different domains never share a key, whatever their paths.
pub proof fn lemma_domains_apart(d1: Domain, d2: Domain, p1: Seq<char>, p2: Seq<char>)
    requires
        d1 != d2,
    ensures
        file_key(d1, p1) != file_key(d2, p2),
{
    reveal_strlit("mistakes");
    reveal_strlit("sessions");
    reveal_strlit("memory");
    reveal_strlit("data");
    reveal_strlit("uploads");
    reveal_strlit("/");
    let k1 = file_key(d1, p1);
    let k2 = file_key(d2, p2);
    if k1 == k2 {
        assert(k1[0] == k2[0]);
        assert(k1[1] == k2[1]);
        assert(k1[2] == k2[2]);
    }
}

/// After a subtree removal, nothing at or below the path is left and every
/// other file is as it was.
pub proof fn lemma_subtree_gone(files: Map<Seq<char>, Seq<u8>>, key: Seq<char>, k: Seq<char>)
    ensures
        files.remove_keys(Set::new(|x: Seq<char>| in_tree(x, key))).contains_key(k) <==> (files.contains_key(k)
            && !in_tree(k, key)),
        files.contains_key(k) && !in_tree(k, key) ==> files.remove_keys(Set::new(|x: Seq<char>| in_tree(x, key)))[k]
            == files[k],
{
}

/// A written domain file is listed under its path.
pub proof fn lemma_written_is_listed(files: Map<Seq<char>, Seq<u8>>, domain: Domain, path: Seq<char>, bytes: Seq<u8>)
    ensures
        listed(files.insert(file_key(domain, path), bytes), domain).contains(path),
{
}

/// A data file written as text reads back as that text: the bytes written
/// are valid UTF-8, and the only text they encode is the one written.
pub proof fn lemma_data_text_roundtrip(files: Map<Seq<char>, Seq<u8>>, key: Seq<char>, content: Seq<char>, t: Seq<char>)
    ensures
        vstd::utf8::valid_utf8(files.insert(key, vstd::utf8::encode_utf8(content))[key]),
        vstd::utf8::encode_utf8(t) == files.insert(key, vstd::utf8::encode_utf8(content))[key] ==> t == content,
{
    vstd::utf8::encode_utf8_valid_utf8(content);
    vstd::utf8::encode_utf8_decode_utf8(content);
    vstd::utf8::encode_utf8_decode_utf8(t);
}

} // verus!
