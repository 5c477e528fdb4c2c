//! The trust store: which directory has approved which exact file content.

use crate::parser::{parse_result_view, parse_spec, Command, ParseError, Parser};
use sha2::{Digest, Sha256};
use vstd::prelude::*;

verus! {

/// The lowercase hex SHA-256 digest of the UTF-8 encoding of `s`.
pub uninterp spec fn sha256_hex_of(s: Seq<char>) -> Seq<char>;

/// A character of `0-9a-f`.
pub open spec fn is_lower_hex_digit(c: char) -> bool {
    let u = c as u32;
    (0x30 <= u && u <= 0x39) || (0x61 <= u && u <= 0x66)
}

/// Sixty-four lowercase hex digits: the rendering of a 256-bit digest.
pub open spec fn is_hex_digest(s: Seq<char>) -> bool {
    s.len() == 64 && forall|i: int| 0 <= i < s.len() ==> is_lower_hex_digit(#[trigger] s[i])
}

/// Relies on `sha2::Sha256::digest` (through `digest::Digest`) for the digest of
/// the string's bytes, and on generic-array's `LowerHex` for its rendering as
/// two lowercase hex digits per byte, 32 bytes in all.
#[verifier::external_body]
fn sha256_hex(s: &str) -> (r: String)
    ensures
        r@ == sha256_hex_of(s@),
        is_hex_digest(r@),
{
    format!("{:x}", Sha256::digest(s.as_bytes()))
}

/// The storage key of a directory: the digest of its canonical path text.
pub open spec fn fingerprint(dir: Seq<char>) -> Seq<char> {
    sha256_hex_of(dir)
}

/// The digest that an approval binds to a file's content.
pub open spec fn content_digest(content: Seq<char>) -> Seq<char> {
    sha256_hex_of(content)
}

/// What a `DirInfo` holds, as mathematical values.
pub struct DirInfoView {
    pub path: Seq<char>,
    pub file_hash: Seq<char>,
    pub allowed_at: u64,
}

/// One approval: the directory, the digest of the approved content, and the
/// time of approval in seconds since the Unix epoch.
#[derive(Debug, Clone)]
pub struct DirInfo {
    pub path: String,
    pub file_hash: String,
    pub allowed_at: u64,
}

impl View for DirInfo {
    type V = DirInfoView;

    open spec fn view(&self) -> DirInfoView {
        DirInfoView { path: self.path@, file_hash: self.file_hash@, allowed_at: self.allowed_at }
    }
}

impl DirInfo {
    /// A field-by-field copy whose contents are known to be equal.
    pub fn duplicate(&self) -> (r: DirInfo)
        ensures
            r@ == self@,
    {
        DirInfo {
            path: self.path.clone(),
            file_hash: self.file_hash.clone(),
            allowed_at: self.allowed_at,
        }
    }
}

/// The record that approving `content` for `dir` at time `now` stores.
pub open spec fn approval_record(dir: Seq<char>, content: Seq<char>, now: u64) -> DirInfoView {
    DirInfoView { path: dir, file_hash: content_digest(content), allowed_at: now }
}

/// Whether a store authorizes `content` for the directory whose canonical
/// path text is `dir`.
pub open spec fn authorizes(
    store: Map<Seq<char>, DirInfoView>,
    dir: Seq<char>,
    content: Seq<char>,
) -> bool {
    store.contains_key(fingerprint(dir)) && store[fingerprint(dir)].file_hash == content_digest(
        content,
    )
}

/// The store after approving `content` for `dir` at time `now`.
pub open spec fn approved(
    store: Map<Seq<char>, DirInfoView>,
    dir: Seq<char>,
    content: Seq<char>,
    now: u64,
) -> Map<Seq<char>, DirInfoView> {
    store.insert(fingerprint(dir), approval_record(dir, content, now))
}

/// The store after revoking the approval of `dir`.
pub open spec fn revoked(store: Map<Seq<char>, DirInfoView>, dir: Seq<char>) -> Map<
    Seq<char>,
    DirInfoView,
> {
    store.remove(fingerprint(dir))
}

/// An empty store authorizes no content for any directory.
pub proof fn lemma_empty_store_authorizes_nothing(dir: Seq<char>, content: Seq<char>)
    ensures
        !authorizes(Map::<Seq<char>, DirInfoView>::empty(), dir, content),
{
}

/// After approving `content` for `dir`, that content is authorized there, and
/// any other content is not, unless its digest collides with the approved one.
pub proof fn lemma_approval_binds_content(
    store: Map<Seq<char>, DirInfoView>,
    dir: Seq<char>,
    content: Seq<char>,
    other: Seq<char>,
    now: u64,
)
    requires
        content_digest(other) != content_digest(content),
    ensures
        authorizes(approved(store, dir, content, now), dir, content),
        !authorizes(approved(store, dir, content, now), dir, other),
{
}

/// Revoking a directory right after approving it leaves the content
/// unauthorized.
pub proof fn lemma_revoke_withdraws_approval(
    store: Map<Seq<char>, DirInfoView>,
    dir: Seq<char>,
    content: Seq<char>,
    now: u64,
)
    ensures
        !authorizes(revoked(approved(store, dir, content, now), dir), dir, content),
{
}

/// A second approval of the same directory replaces the first record whole:
/// the store is as if only the second had happened, and the earlier content
/// is no longer authorized unless the two digests collide.
pub proof fn lemma_reapproval_replaces_record(
    store: Map<Seq<char>, DirInfoView>,
    dir: Seq<char>,
    first: Seq<char>,
    second: Seq<char>,
    t1: u64,
    t2: u64,
)
    ensures
        approved(approved(store, dir, first, t1), dir, second, t2) == approved(
            store,
            dir,
            second,
            t2,
        ),
        content_digest(first) != content_digest(second) ==> !authorizes(
            approved(approved(store, dir, first, t1), dir, second, t2),
            dir,
            first,
        ),
{
    assert(approved(approved(store, dir, first, t1), dir, second, t2) =~= approved(
        store,
        dir,
        second,
        t2,
    ));
}

/// Two directory arguments with the same canonical path text have the same
/// fingerprint and share their trust state: an approval through one is seen
/// through the other. Canonicalizing a path (resolving symlinks and relative
/// parts) is left to the caller, which hands the store the canonical text.
pub proof fn lemma_canonical_path_determines_trust(
    store: Map<Seq<char>, DirInfoView>,
    p: Seq<char>,
    q: Seq<char>,
    content: Seq<char>,
    now: u64,
)
    requires
        p == q,
    ensures
        fingerprint(p) == fingerprint(q),
        authorizes(store, p, content) == authorizes(store, q, content),
        authorizes(approved(store, p, content, now), q, content),
        !authorizes(revoked(store, p), q, content),
{
}

/// Every record is keyed by the fingerprint of its own path, and that key and
/// the stored content digest are both hex digests.
pub open spec fn records_consistent(store: Map<Seq<char>, DirInfoView>) -> bool {
    forall|k: Seq<char>|
        #[trigger] store.contains_key(k) ==> k == fingerprint(store[k].path) && is_hex_digest(k)
            && is_hex_digest(store[k].file_hash)
}

/// The set of approvals, keyed by directory fingerprint.
///
/// Directory arguments are the directory's canonical path text; where the
/// directory cannot be canonicalized, its literal path text.
#[derive(Debug)]
pub struct Config {
    entries: Vec<(String, DirInfo)>,
}

impl View for Config {
    type V = Map<Seq<char>, DirInfoView>;

    closed spec fn view(&self) -> Map<Seq<char>, DirInfoView> {
        Map::new(
            |k: Seq<char>| exists|i: int| 0 <= i < self.entries@.len() && self.entries@[i].0@ == k,
            |k: Seq<char>|
                self.entries@[choose|i: int|
                    0 <= i < self.entries@.len() && self.entries@[i].0@ == k].1@,
        )
    }
}

impl Default for Config {
    fn default() -> (r: Config)
        ensures
            r.wf(),
            r@ == Map::<Seq<char>, DirInfoView>::empty(),
    {
        Config::new()
    }
}

impl Config {
    /// No two entries share a key.
    pub closed spec fn wf(&self) -> bool {
        forall|i: int, j: int|
            0 <= i < j < self.entries@.len() ==> self.entries@[i].0@ != self.entries@[j].0@
    }

    proof fn lemma_view_at(&self, i: int)
        requires
            self.wf(),
            0 <= i < self.entries@.len(),
        ensures
            self@.contains_key(self.entries@[i].0@),
            self@[self.entries@[i].0@] == self.entries@[i].1@,
    {
        let k = self.entries@[i].0@;
        assert(exists|j: int| 0 <= j < self.entries@.len() && self.entries@[j].0@ == k);
        let c = choose|j: int| 0 <= j < self.entries@.len() && self.entries@[j].0@ == k;
        assert(c == i);
    }

    /// An empty store.
    pub fn new() -> (r: Config)
        ensures
            r.wf(),
            r@ == Map::<Seq<char>, DirInfoView>::empty(),
    {
        let r = Config { entries: Vec::new() };
        assert(r@ =~= Map::<Seq<char>, DirInfoView>::empty());
        r
    }

    /// The position of `key` among the entries, if it is there.
    fn find(&self, key: &String) -> (r: Option<usize>)
        requires
            self.wf(),
        ensures
            match r {
                Some(i) => i < self.entries@.len() && self.entries@[i as int].0@ == key@,
                None => !self@.contains_key(key@),
            },
    {
        let mut i: usize = 0;
        while i < self.entries.len()
            invariant
                i <= self.entries@.len(),
                forall|j: int| 0 <= j < i ==> self.entries@[j].0@ != key@,
            decreases self.entries@.len() - i,
        {
            if self.entries[i].0 == *key {
                return Some(i);
            }
            i += 1;
        }
        None
    }

    /// The record stored under `key`, if any.
    pub fn get(&self, key: &String) -> (r: Option<&DirInfo>)
        requires
            self.wf(),
        ensures
            match r {
                Some(info) => self@.contains_key(key@) && self@[key@] == info@,
                None => !self@.contains_key(key@),
            },
    {
        match self.find(key) {
            Some(i) => {
                proof {
                    self.lemma_view_at(i as int);
                }
                Some(&self.entries[i].1)
            },
            None => None,
        }
    }

    /// Stores `info` under `key`, replacing whatever was stored there.
    pub fn insert_record(&mut self, key: String, info: DirInfo)
        requires
            old(self).wf(),
        ensures
            final(self).wf(),
            final(self)@ == old(self)@.insert(key@, info@),
    {
        let ghost k = key@;
        let ghost v = info@;
        match self.find(&key) {
            Some(i) => {
                self.entries.set(i, (key, info));
                proof {
                    assert forall|a: int, b: int|
                        0 <= a < b < self.entries@.len() implies self.entries@[a].0@
                        != self.entries@[b].0@ by {
                        assert(old(self).entries@[a].0@ != old(self).entries@[b].0@);
                    }
                    assert forall|kk: Seq<char>|
                        #![auto]
                        self@.contains_key(kk) == old(self)@.insert(k, v).contains_key(kk) by {
                        if kk == k {
                            assert(self.entries@[i as int].0@ == kk);
                        }
                        if old(self)@.contains_key(kk) {
                            let j = choose|j: int|
                                0 <= j < old(self).entries@.len() && old(self).entries@[j].0@
                                    == kk;
                            if j != i {
                                assert(self.entries@[j].0@ == kk);
                            }
                        }
                        if self@.contains_key(kk) {
                            let j = choose|j: int|
                                0 <= j < self.entries@.len() && self.entries@[j].0@ == kk;
                            if j != i {
                                assert(old(self).entries@[j].0@ == kk);
                            }
                        }
                    }
                    assert forall|kk: Seq<char>| #[trigger]
                        self@.contains_key(kk) implies self@[kk] == old(self)@.insert(
                        k,
                        v,
                    )[kk] by {
                        let j = choose|j: int|
                            0 <= j < self.entries@.len() && self.entries@[j].0@ == kk;
                        self.lemma_view_at(j);
                        if j != i {
                            old(self).lemma_view_at(j);
                        }
                    }
                    assert(self@ =~= old(self)@.insert(k, v));
                }
            },
            None => {
                self.entries.push((key, info));
                proof {
                    let n = old(self).entries@.len() as int;
                    assert forall|a: int, b: int|
                        0 <= a < b < self.entries@.len() implies self.entries@[a].0@
                        != self.entries@[b].0@ by {
                        if b == n {
                            if self.entries@[a].0@ == k {
                                assert(old(self).entries@[a].0@ == k);
                            }
                        } else {
                            assert(old(self).entries@[a].0@ != old(self).entries@[b].0@);
                        }
                    }
                    assert forall|kk: Seq<char>|
                        #![auto]
                        self@.contains_key(kk) == old(self)@.insert(k, v).contains_key(kk) by {
                        if old(self)@.contains_key(kk) {
                            let j = choose|j: int|
                                0 <= j < old(self).entries@.len() && old(self).entries@[j].0@
                                    == kk;
                            assert(self.entries@[j].0@ == kk);
                        }
                        if kk == k {
                            assert(self.entries@[n].0@ == kk);
                        }
                        if self@.contains_key(kk) {
                            let j = choose|j: int|
                                0 <= j < self.entries@.len() && self.entries@[j].0@ == kk;
                            if j != n {
                                assert(old(self).entries@[j].0@ == kk);
                            }
                        }
                    }
                    assert forall|kk: Seq<char>| #[trigger]
                        self@.contains_key(kk) implies self@[kk] == old(self)@.insert(
                        k,
                        v,
                    )[kk] by {
                        let j = choose|j: int|
                            0 <= j < self.entries@.len() && self.entries@[j].0@ == kk;
                        self.lemma_view_at(j);
                        if j != n {
                            old(self).lemma_view_at(j);
                        }
                    }
                    assert(self@ =~= old(self)@.insert(k, v));
                }
            },
        }
    }
    /// Removes whatever is stored under `key`; a missing key is no error.
    pub fn remove_record(&mut self, key: &String)
        requires
            old(self).wf(),
        ensures
            final(self).wf(),
            final(self)@ == old(self)@.remove(key@),
    {
        let ghost k = key@;
        match self.find(key) {
            Some(i) => {
                self.entries.remove(i);
                proof {
                    let ghost o = old(self).entries@;
                    assert forall|a: int, b: int|
                        0 <= a < b < self.entries@.len() implies self.entries@[a].0@
                        != self.entries@[b].0@ by {
                        let oa = if a < i { a } else { a + 1 };
                        let ob = if b < i { b } else { b + 1 };
                        assert(self.entries@[a] == o[oa]);
                        assert(self.entries@[b] == o[ob]);
                    }
                    assert forall|kk: Seq<char>|
                        #![auto]
                        self@.contains_key(kk) == old(self)@.remove(k).contains_key(kk) by {
                        if old(self)@.contains_key(kk) && kk != k {
                            let j = choose|j: int| 0 <= j < o.len() && o[j].0@ == kk;
                            if j < i {
                                assert(self.entries@[j].0@ == kk);
                            } else {
                                assert(j != i);
                                assert(self.entries@[j - 1].0@ == kk);
                            }
                        }
                        if self@.contains_key(kk) {
                            let j = choose|j: int|
                                0 <= j < self.entries@.len() && self.entries@[j].0@ == kk;
                            let oj = if j < i { j } else { j + 1 };
                            assert(o[oj].0@ == kk);
                            assert(o[i as int].0@ == k);
                        }
                    }
                    assert forall|kk: Seq<char>| #[trigger]
                        self@.contains_key(kk) implies self@[kk] == old(self)@.remove(k)[kk] by {
                        let j = choose|j: int|
                            0 <= j < self.entries@.len() && self.entries@[j].0@ == kk;
                        let oj = if j < i { j } else { j + 1 };
                        assert(o[oj] == self.entries@[j]);
                        self.lemma_view_at(j);
                        old(self).lemma_view_at(oj);
                    }
                    assert(self@ =~= old(self)@.remove(k));
                }
            },
            None => {
                assert(self@ =~= old(self)@.remove(k));
            },
        }
    }

    /// Every stored key with its record, each key once.
    pub fn records(&self) -> (r: Vec<(String, DirInfo)>)
        requires
            self.wf(),
        ensures
            forall|i: int|
                0 <= i < r@.len() ==> #[trigger] self@.contains_key(r@[i].0@) && self@[r@[i].0@]
                    == r@[i].1@,
            forall|k: Seq<char>|
                #[trigger] self@.contains_key(k) ==> exists|i: int|
                    0 <= i < r@.len() && r@[i].0@ == k,
            forall|i: int, j: int| 0 <= i < j < r@.len() ==> r@[i].0@ != r@[j].0@,
    {
        let mut r: Vec<(String, DirInfo)> = Vec::new();
        let mut i: usize = 0;
        while i < self.entries.len()
            invariant
                i <= self.entries@.len(),
                r@.len() == i,
                forall|j: int|
                    0 <= j < i ==> r@[j].0@ == self.entries@[j].0@ && r@[j].1@
                        == self.entries@[j].1@,
            decreases self.entries@.len() - i,
        {
            let key = self.entries[i].0.clone();
            let info = self.entries[i].1.duplicate();
            r.push((key, info));
            i += 1;
        }
        proof {
            assert forall|j: int| 0 <= j < r@.len() implies #[trigger] self@.contains_key(
                r@[j].0@,
            ) && self@[r@[j].0@] == r@[j].1@ by {
                self.lemma_view_at(j);
            }
            assert forall|k: Seq<char>| #[trigger] self@.contains_key(k) implies exists|j: int|
                0 <= j < r@.len() && r@[j].0@ == k by {
                let j = choose|j: int|
                    0 <= j < self.entries@.len() && self.entries@[j].0@ == k;
                assert(r@[j].0@ == k);
            }
        }
        r
    }

    /// The key under which the approval of `dir` is stored.
    pub fn hash_path(dir: &str) -> (r: String)
        ensures
            r@ == fingerprint(dir@),
            is_hex_digest(r@),
    {
        sha256_hex(dir)
    }

    /// The digest that an approval of `content` records.
    pub fn hash_content(content: &str) -> (r: String)
        ensures
            r@ == content_digest(content@),
            is_hex_digest(r@),
    {
        sha256_hex(content)
    }

    /// Whether `content` is the content approved for `dir`.
    pub fn is_allowed(&self, dir: &str, file_content: &str) -> (r: bool)
        requires
            self.wf(),
        ensures
            r == authorizes(self@, dir@, file_content@),
    {
        let dir_key = Self::hash_path(dir);
        match self.get(&dir_key) {
            Some(info) => {
                let current_hash = Self::hash_content(file_content);
                info.file_hash == current_hash
            },
            None => false,
        }
    }

    /// Approves `file_content` for `dir` at time `now` (seconds since the Unix
    /// epoch), replacing any earlier approval of `dir`.
    pub fn allow(&mut self, dir: &str, file_content: &str, now: u64)
        requires
            old(self).wf(),
        ensures
            final(self).wf(),
            final(self)@ == approved(old(self)@, dir@, file_content@, now),
            is_hex_digest(fingerprint(dir@)),
            is_hex_digest(content_digest(file_content@)),
            records_consistent(old(self)@) ==> records_consistent(final(self)@),
    {
        let dir_key = Self::hash_path(dir);
        let file_hash = Self::hash_content(file_content);
        let info = DirInfo { path: String::from_str(dir), file_hash, allowed_at: now };
        self.insert_record(dir_key, info);
    }

    /// Withdraws the approval of `dir`, if there is one.
    pub fn deny(&mut self, dir: &str)
        requires
            old(self).wf(),
        ensures
            final(self).wf(),
            final(self)@ == revoked(old(self)@, dir@),
            records_consistent(old(self)@) ==> records_consistent(final(self)@),
    {
        let dir_key = Self::hash_path(dir);
        self.remove_record(&dir_key);
    }
    /// The directives of `content` where it is the content approved for
    /// `dir`, and `Ok(None)` where it is not: unapproved content is never
    /// parsed, so nothing of it can be compiled.
    pub fn approved_directives(&self, dir: &str, content: &str) -> (r: Result<
        Option<Vec<Command>>,
        ParseError,
    >)
        requires
            self.wf(),
        ensures
            !authorizes(self@, dir@, content@) ==> r matches Ok(None),
            authorizes(self@, dir@, content@) ==> match r {
                Ok(Some(v)) => parse_result_view(Ok(v)) == parse_spec(content@),
                Ok(None) => false,
                Err(e) => parse_result_view(Err(e)) == parse_spec(content@),
            },
    {
        if !self.is_allowed(dir, content) {
            return Ok(None);
        }
        match Parser::parse(content) {
            Ok(v) => Ok(Some(v)),
            Err(e) => Err(e),
        }
    }
}

} // verus!
