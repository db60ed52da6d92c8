//! The content-addressed blob store: write-once keyed blobs, lookup and
//! deletion under final-component path normalization, and a time-based
//! sweep that removes blobs older than the retention window.
use vstd::prelude::*;
use crate::digest::digest;
use crate::digest::digest_of;
use crate::hex::hex_bytes;
use crate::hex::hex_of_u64;
use crate::hex::lemma_hex_bytes_are_hex_digits;

verus! {

pub const SLASH: u8 = 47;

pub const DOT: u8 = 46;

/// What the store remembers of one blob.
pub struct Blob {
    pub data: Seq<u8>,
    pub created_at: u64,
}

struct Entry {
    key: Vec<u8>,
    data: Vec<u8>,
    created_at: u64,
}

/// The suffix of a path after its last separator byte; the whole path
/// when it has no separator.
pub open spec fn final_component(p: Seq<u8>) -> Seq<u8>
    decreases p.len(),
{
    if p.len() == 0 {
        p
    } else if p.last() == SLASH {
        Seq::empty()
    } else {
        final_component(p.drop_last()).push(p.last())
    }
}

/// A name the store will look up: non-empty, free of separators, and not
/// one of the two relative-directory names.
pub open spec fn is_plain_name(c: Seq<u8>) -> bool {
    &&& c.len() > 0
    &&& forall|i: int| 0 <= i < c.len() ==> c[i] != SLASH
    &&& c != seq![DOT]
    &&& c != seq![DOT, DOT]
}

/// The lookup target of a requested path: its final component, or nothing
/// when that component is no plain name.
pub open spec fn normalize(p: Seq<u8>) -> Option<Seq<u8>> {
    if is_plain_name(final_component(p)) {
        Some(final_component(p))
    } else {
        None
    }
}

/// A blob is expired once its age exceeds the retention window.
pub open spec fn expired(created_at: u64, window: u64, now: u64) -> bool {
    created_at + window < now
}

/// The key a store files an upload under: the hexadecimal rendering of
/// the digest of path, data and salt.
pub open spec fn put_key(path: Seq<u8>, data: Seq<u8>, salt: u64) -> Seq<u8> {
    hex_bytes(digest(path, data, salt) as int)
}

/// What a sweep at `now` does to the stored map: exactly the expired
/// blobs leave; the others keep their content and creation time.
pub open spec fn sweep_rel(
    m0: Map<Seq<u8>, Blob>,
    m1: Map<Seq<u8>, Blob>,
    window: u64,
    now: u64,
) -> bool {
    &&& (forall|k: Seq<u8>|
        m1.contains_key(k) <==> (#[trigger] m0.contains_key(k) && !expired(
            m0[k].created_at,
            window,
            now,
        )))
    &&& (forall|k: Seq<u8>| #[trigger] m1.contains_key(k) ==> m1[k] == m0[k])
}

spec fn entry_blob(e: Entry) -> Blob {
    Blob { data: e.data@, created_at: e.created_at }
}

spec fn map_of(s: Seq<Entry>) -> Map<Seq<u8>, Blob>
    decreases s.len(),
{
    if s.len() == 0 {
        Map::empty()
    } else {
        map_of(s.drop_last()).insert(s.last().key@, entry_blob(s.last()))
    }
}

spec fn has_key_in(s: Seq<Entry>, k: Seq<u8>) -> bool {
    exists|i: int| 0 <= i < s.len() && s[i].key@ == k
}

spec fn unique_keys(s: Seq<Entry>) -> bool {
    forall|i: int, j: int| 0 <= i < j < s.len() ==> s[i].key@ != s[j].key@
}

spec fn plain_keys(s: Seq<Entry>) -> bool {
    forall|i: int| 0 <= i < s.len() ==> is_plain_name(#[trigger] s[i].key@)
}

proof fn lemma_map_of_contains(s: Seq<Entry>, k: Seq<u8>)
    ensures
        map_of(s).contains_key(k) <==> has_key_in(s, k),
    decreases s.len(),
{
    if s.len() > 0 {
        lemma_map_of_contains(s.drop_last(), k);
        if s.last().key@ == k {
            assert(s[s.len() - 1].key@ == k);
        } else {
            if has_key_in(s, k) {
                let i = choose|i: int| 0 <= i < s.len() && s[i].key@ == k;
                assert(s.drop_last()[i] == s[i]);
            }
            if has_key_in(s.drop_last(), k) {
                let i = choose|i: int| 0 <= i < s.drop_last().len() && s.drop_last()[i].key@ == k;
                assert(s[i].key@ == k);
            }
        }
    }
}

proof fn lemma_map_of_index(s: Seq<Entry>, i: int)
    requires
        unique_keys(s),
        0 <= i < s.len(),
    ensures
        map_of(s).contains_key(s[i].key@),
        map_of(s)[s[i].key@] == entry_blob(s[i]),
    decreases s.len(),
{
    lemma_map_of_contains(s, s[i].key@);
    if i == s.len() - 1 {
    } else {
        assert(s.drop_last()[i] == s[i]);
        assert(unique_keys(s.drop_last()));
        lemma_map_of_index(s.drop_last(), i);
        assert(s[i].key@ != s.last().key@);
    }
}

proof fn lemma_map_of_remove(s: Seq<Entry>, i: int)
    requires
        unique_keys(s),
        0 <= i < s.len(),
    ensures
        map_of(s.remove(i)) == map_of(s).remove(s[i].key@),
    decreases s.len(),
{
    let k = s[i].key@;
    if i == s.len() - 1 {
        assert(s.remove(i) =~= s.drop_last());
        lemma_map_of_contains(s.drop_last(), k);
        assert(!has_key_in(s.drop_last(), k)) by {
            if has_key_in(s.drop_last(), k) {
                let j = choose|j: int| 0 <= j < s.drop_last().len() && s.drop_last()[j].key@ == k;
                assert(s[j].key@ == s[i].key@);
            }
        }
        assert(map_of(s).remove(k) =~= map_of(s.drop_last()));
    } else {
        let d = s.drop_last();
        assert(unique_keys(d));
        assert(d[i] == s[i]);
        lemma_map_of_remove(d, i);
        assert(s.remove(i).drop_last() =~= d.remove(i));
        assert(s.remove(i).last() == s.last());
        assert(s.last().key@ != k);
        assert(map_of(s.remove(i)) == map_of(d.remove(i)).insert(
            s.last().key@,
            entry_blob(s.last()),
        ));
        assert(map_of(d).remove(k).insert(s.last().key@, entry_blob(s.last())) =~= map_of(d).insert(
            s.last().key@,
            entry_blob(s.last()),
        ).remove(k));
    }
}

/// Two entry sequences that agree position by position on key, data and
/// creation time; they then file the same map.
spec fn sim(a: Seq<Entry>, b: Seq<Entry>) -> bool {
    a.len() == b.len() && forall|i: int|
        0 <= i < a.len() ==> ((#[trigger] a[i]).key@ == (#[trigger] b[i]).key@ && a[i].data@
            == b[i].data@ && a[i].created_at == b[i].created_at)
}

proof fn lemma_sim_map(a: Seq<Entry>, b: Seq<Entry>)
    requires
        sim(a, b),
    ensures
        map_of(a) == map_of(b),
        forall|k: Seq<u8>| has_key_in(a, k) <==> has_key_in(b, k),
        unique_keys(a) <==> unique_keys(b),
        plain_keys(a) <==> plain_keys(b),
    decreases a.len(),
{
    if a.len() > 0 {
        assert(sim(a.drop_last(), b.drop_last()));
        lemma_sim_map(a.drop_last(), b.drop_last());
        assert(a[a.len() - 1].key@ == b[b.len() - 1].key@);
        assert(entry_blob(a.last()) == entry_blob(b.last()));
    }
    assert forall|k: Seq<u8>| has_key_in(a, k) implies has_key_in(b, k) by {
        let i = choose|i: int| 0 <= i < a.len() && a[i].key@ == k;
        assert(b[i].key@ == k);
    }
    assert forall|k: Seq<u8>| has_key_in(b, k) implies has_key_in(a, k) by {
        let i = choose|i: int| 0 <= i < b.len() && b[i].key@ == k;
        assert(a[i].key@ == k);
    }
    if unique_keys(a) {
        assert forall|i: int, j: int| 0 <= i < j < b.len() implies b[i].key@ != b[j].key@ by {
            assert(a[i].key@ == b[i].key@ && a[j].key@ == b[j].key@);
            assert(a[i].key@ != a[j].key@);
        }
    }
    if unique_keys(b) {
        assert forall|i: int, j: int| 0 <= i < j < a.len() implies a[i].key@ != a[j].key@ by {
            assert(a[i].key@ == b[i].key@ && a[j].key@ == b[j].key@);
            assert(b[i].key@ != b[j].key@);
        }
    }
    if plain_keys(a) {
        assert forall|i: int| 0 <= i < b.len() implies is_plain_name(#[trigger] b[i].key@) by {
            assert(is_plain_name(a[i].key@));
        }
    }
    if plain_keys(b) {
        assert forall|i: int| 0 <= i < a.len() implies is_plain_name(#[trigger] a[i].key@) by {
            assert(is_plain_name(b[i].key@));
        }
    }
}

spec fn kept_of(s: Seq<Entry>, window: u64, now: u64) -> Seq<Entry>
    decreases s.len(),
{
    if s.len() == 0 {
        s
    } else {
        let r = kept_of(s.drop_last(), window, now);
        if expired(s.last().created_at, window, now) {
            r
        } else {
            r.push(s.last())
        }
    }
}

proof fn lemma_kept_of(s: Seq<Entry>, window: u64, now: u64)
    requires
        unique_keys(s),
    ensures
        unique_keys(kept_of(s, window, now)),
        forall|i: int|
            0 <= i < kept_of(s, window, now).len() ==> exists|j: int|
                0 <= j < s.len() && #[trigger] kept_of(s, window, now)[i] == s[j] && !expired(
                    s[j].created_at,
                    window,
                    now,
                ),
        forall|k: Seq<u8>|
            has_key_in(kept_of(s, window, now), k) <==> exists|j: int|
                0 <= j < s.len() && #[trigger] s[j].key@ == k && !expired(
                    s[j].created_at,
                    window,
                    now,
                ),
    decreases s.len(),
{
    let r = kept_of(s, window, now);
    if s.len() > 0 {
        let d = s.drop_last();
        assert(unique_keys(d));
        lemma_kept_of(d, window, now);
        let rd = kept_of(d, window, now);
        assert(forall|j: int| 0 <= j < d.len() ==> d[j] == s[j]);
        if expired(s.last().created_at, window, now) {
            assert(forall|k: Seq<u8>| has_key_in(r, k) <==> has_key_in(rd, k));
            assert forall|k: Seq<u8>| has_key_in(r, k) implies exists|j: int|
                0 <= j < s.len() && #[trigger] s[j].key@ == k && !expired(
                    s[j].created_at,
                    window,
                    now,
                ) by {
                let j = choose|j: int|
                    0 <= j < d.len() && #[trigger] d[j].key@ == k && !expired(
                        d[j].created_at,
                        window,
                        now,
                    );
                assert(s[j].key@ == k && !expired(s[j].created_at, window, now));
            }
            assert forall|k: Seq<u8>|
                (exists|j: int|
                    0 <= j < s.len() && #[trigger] s[j].key@ == k && !expired(
                        s[j].created_at,
                        window,
                        now,
                    )) implies has_key_in(r, k) by {
                let j = choose|j: int|
                    0 <= j < s.len() && #[trigger] s[j].key@ == k && !expired(
                        s[j].created_at,
                        window,
                        now,
                    );
                assert(j != s.len() - 1) by {
                    if j == s.len() - 1 {
                        assert(s[j] == s.last());
                    }
                }
                assert(d[j] == s[j]);
                assert(d[j].key@ == k && !expired(d[j].created_at, window, now));
                assert(has_key_in(rd, k));
                assert(r =~= rd);
            }
        } else {
            assert(r == rd.push(s.last()));
            // the appended entry's key is fresh among the kept ones
            assert forall|i: int| 0 <= i < rd.len() implies rd[i].key@ != s.last().key@ by {
                let j = choose|j: int|
                    0 <= j < d.len() && #[trigger] rd[i] == d[j] && !expired(
                        d[j].created_at,
                        window,
                        now,
                    );
                assert(s[j].key@ != s[s.len() - 1].key@);
            }
            assert(unique_keys(r));
            assert forall|i: int| 0 <= i < r.len() implies exists|j: int|
                0 <= j < s.len() && #[trigger] r[i] == s[j] && !expired(
                    s[j].created_at,
                    window,
                    now,
                ) by {
                if i < rd.len() {
                    let j = choose|j: int|
                        0 <= j < d.len() && #[trigger] rd[i] == d[j] && !expired(
                            d[j].created_at,
                            window,
                            now,
                        );
                    assert(r[i] == s[j] && !expired(s[j].created_at, window, now));
                } else {
                    assert(r[i] == s[s.len() - 1]);
                }
            }
            assert forall|k: Seq<u8>| has_key_in(r, k) implies exists|j: int|
                0 <= j < s.len() && #[trigger] s[j].key@ == k && !expired(
                    s[j].created_at,
                    window,
                    now,
                ) by {
                let i = choose|i: int| 0 <= i < r.len() && r[i].key@ == k;
                let j = choose|j: int|
                    0 <= j < s.len() && r[i] == s[j] && !expired(s[j].created_at, window, now);
                assert(s[j].key@ == k);
            }
            assert forall|k: Seq<u8>|
                (exists|j: int|
                    0 <= j < s.len() && #[trigger] s[j].key@ == k && !expired(
                        s[j].created_at,
                        window,
                        now,
                    )) implies has_key_in(r, k) by {
                let j = choose|j: int|
                    0 <= j < s.len() && #[trigger] s[j].key@ == k && !expired(
                        s[j].created_at,
                        window,
                        now,
                    );
                if j == s.len() - 1 {
                    assert(r[r.len() - 1].key@ == k);
                } else {
                    assert(d[j] == s[j]);
                    assert(d[j].key@ == k && !expired(d[j].created_at, window, now));
                    assert(has_key_in(rd, k));
                    let i = choose|i: int| 0 <= i < rd.len() && rd[i].key@ == k;
                    assert(r[i] == rd[i]);
                    assert(r[i].key@ == k);
                }
            }
        }
    }
}

/// Every hexadecimal key is a plain name: its bytes are digits or
/// lowercase letters, so none is a separator or a dot.
pub proof fn lemma_hex_key_plain(n: int)
    requires
        n >= 0,
    ensures
        is_plain_name(hex_bytes(n)),
{
    lemma_hex_bytes_are_hex_digits(n);
    assert(hex_bytes(n)[0] != DOT);
}

/// The byte-wise equality of two slices.
fn eq_bytes(a: &[u8], b: &[u8]) -> (r: bool)
    ensures
        r == (a@ == b@),
{
    if a.len() != b.len() {
        assert(a@ != b@) by {
            assert(a@.len() != b@.len());
        }
        return false;
    }
    let mut i: usize = 0;
    while i < a.len()
        invariant
            i <= a@.len(),
            a@.len() == b@.len(),
            forall|j: int| 0 <= j < i ==> a@[j] == b@[j],
        decreases a@.len() - i,
    {
        if a[i] != b[i] {
            return false;
        }
        i = i + 1;
    }
    assert(a@ =~= b@);
    true
}

proof fn lemma_final_component_at(p: Seq<u8>, j: int)
    requires
        0 <= j <= p.len(),
        j == 0 || p[j - 1] == SLASH,
        forall|k: int| j <= k < p.len() ==> p[k] != SLASH,
    ensures
        final_component(p) == p.skip(j),
    decreases p.len(),
{
    if j == p.len() {
        if j > 0 {
            assert(p.last() == SLASH);
            assert(final_component(p) =~= p.skip(j));
        } else {
            assert(p.len() == 0);
            assert(final_component(p) =~= p.skip(0));
        }
    } else {
        assert(p.last() != SLASH);
        let d = p.drop_last();
        lemma_final_component_at(d, j);
        assert(final_component(p) == final_component(d).push(p.last()));
        assert(d.skip(j).push(p.last()) =~= p.skip(j));
    }
}

/// Strips a requested path to its final component; refuses the empty
/// component and the two relative-directory names.
pub fn normalize_path(p: &[u8]) -> (r: Option<Vec<u8>>)
    ensures
        match r {
            Some(c) => normalize(p@) == Some(c@),
            None => normalize(p@) is None,
        },
{
    let mut j: usize = p.len();
    while j > 0 && p[j - 1] != SLASH
        invariant
            j <= p@.len(),
            forall|k: int| j <= k < p@.len() ==> p@[k] != SLASH,
        decreases j,
    {
        j = j - 1;
    }
    proof {
        lemma_final_component_at(p@, j as int);
    }
    let comp = vstd::slice::slice_to_vec(vstd::slice::slice_subrange(p, j, p.len()));
    assert(comp@ =~= p@.skip(j as int));
    if comp.len() == 0 {
        return None;
    }
    if comp.len() == 1 && comp[0] == DOT {
        assert(comp@ =~= seq![DOT]);
        return None;
    }
    if comp.len() == 2 && comp[0] == DOT && comp[1] == DOT {
        assert(comp@ =~= seq![DOT, DOT]);
        return None;
    }
    assert(comp@ == final_component(p@));
    let mut i: usize = 0;
    while i < comp.len()
        invariant
            i <= comp@.len(),
            comp@ == final_component(p@),
            forall|k: int| 0 <= k < i ==> comp@[k] != SLASH,
        decreases comp@.len() - i,
    {
        if comp[i] == SLASH {
            return None;
        }
        i = i + 1;
    }
    assert(comp@ != seq![DOT]) by {
        if comp@ == seq![DOT] {
            assert(comp@.len() == 1 && comp@[0] == DOT);
        }
    }
    assert(comp@ != seq![DOT, DOT]) by {
        if comp@ == seq![DOT, DOT] {
            assert(comp@.len() == 2 && comp@[0] == DOT && comp@[1] == DOT);
        }
    }
    Some(comp)
}

/// The store: a set of write-once blobs, each filed under its
/// hexadecimal digest key, with the retention window they share.
pub struct Store {
    entries: Vec<Entry>,
    window: u64,
}

impl Store {
    /// The blobs currently held, as a map from key to content and
    /// creation time.
    pub closed spec fn map(self) -> Map<Seq<u8>, Blob> {
        map_of(self.entries@)
    }

    /// The retention window the store was built with.
    pub closed spec fn spec_window(self) -> u64 {
        self.window
    }

    /// Each key files exactly one blob, and every key is a plain name
    /// that a lookup of itself resolves to.
    pub closed spec fn wf(self) -> bool {
        unique_keys(self.entries@) && plain_keys(self.entries@)
    }

    /// Every key of the map is a plain name.
    pub proof fn lemma_keys_plain(self, k: Seq<u8>)
        requires
            self.wf(),
            self.map().contains_key(k),
        ensures
            is_plain_name(k),
    {
        lemma_map_of_contains(self.entries@, k);
        let i = choose|i: int| 0 <= i < self.entries@.len() && self.entries@[i].key@ == k;
        assert(is_plain_name(self.entries@[i].key@));
    }

    /// An empty store with the given retention window.
    pub fn new(window: u64) -> (r: Store)
        ensures
            r.wf(),
            r.map() == Map::<Seq<u8>, Blob>::empty(),
            r.spec_window() == window,
    {
        Store { entries: Vec::new(), window }
    }

    /// The retention window, in seconds.
    pub fn window(&self) -> (r: u64)
        ensures
            r == self.spec_window(),
    {
        self.window
    }

    fn find(&self, k: &[u8]) -> (r: Option<usize>)
        ensures
            match r {
                Some(i) => i < self.entries@.len() && self.entries@[i as int].key@ == k@,
                None => !has_key_in(self.entries@, k@),
            },
    {
        let mut i: usize = 0;
        while i < self.entries.len()
            invariant
                i <= self.entries@.len(),
                forall|j: int| 0 <= j < i ==> self.entries@[j].key@ != k@,
            decreases self.entries@.len() - i,
        {
            if eq_bytes(self.entries[i].key.as_slice(), k) {
                return Some(i);
            }
            i = i + 1;
        }
        None
    }

    /// Files `data` under the hexadecimal digest of path, data and salt.
    /// The store is write-once: when the key is already taken, nothing
    /// changes and no key is returned; otherwise the blob is filed at
    /// `now` and the key is returned.
    pub fn put(&mut self, path: &[u8], data: &[u8], salt: u64, now: u64) -> (r: Option<Vec<u8>>)
        requires
            old(self).wf(),
        ensures
            final(self).wf(),
            final(self).spec_window() == old(self).spec_window(),
            ({
                let k = put_key(path@, data@, salt);
                if old(self).map().contains_key(k) {
                    r is None && final(self).map() == old(self).map()
                } else {
                    &&& r matches Some(key) && key@ == k
                    &&& final(self).map() == old(self).map().insert(
                        k,
                        Blob { data: data@, created_at: now },
                    )
                }
            }),
    {
        let d = digest_of(path, data, salt);
        let key = hex_of_u64(d);
        proof {
            lemma_map_of_contains(self.entries@, key@);
        }
        match self.find(key.as_slice()) {
            Some(_) => None,
            None => {
                let ghost s0 = self.entries@;
                let entry = Entry { key: hex_of_u64(d), data: vstd::slice::slice_to_vec(data), created_at: now };
                self.entries.push(entry);
                proof {
                    assert(self.entries@.drop_last() =~= s0);
                    lemma_hex_key_plain(d as int);
                    assert(unique_keys(self.entries@)) by {
                        assert(forall|i: int|
                            0 <= i < s0.len() ==> #[trigger] self.entries@[i] == s0[i]);
                    }
                    assert(plain_keys(self.entries@)) by {
                        assert(forall|i: int|
                            0 <= i < s0.len() ==> #[trigger] self.entries@[i] == s0[i]);
                    }
                }
                Some(key)
            },
        }
    }

    /// Looks the path up by its final component and returns the filed
    /// bytes, or nothing when the component is no plain name or no blob
    /// is filed under it.
    pub fn get(&self, path: &[u8]) -> (r: Option<Vec<u8>>)
        requires
            self.wf(),
        ensures
            match normalize(path@) {
                None => r is None,
                Some(k) => if self.map().contains_key(k) {
                    r matches Some(d) && d@ == self.map()[k].data
                } else {
                    r is None
                },
            },
    {
        match normalize_path(path) {
            None => None,
            Some(k) => {
                proof {
                    lemma_map_of_contains(self.entries@, k@);
                }
                match self.find(k.as_slice()) {
                    None => None,
                    Some(i) => {
                        proof {
                            lemma_map_of_index(self.entries@, i as int);
                        }
                        Some(vstd::slice::slice_to_vec(self.entries[i].data.as_slice()))
                    },
                }
            },
        }
    }

    /// Removes the blob the path resolves to; reports whether one was
    /// removed.
    pub fn delete(&mut self, path: &[u8]) -> (r: bool)
        requires
            old(self).wf(),
        ensures
            final(self).wf(),
            final(self).spec_window() == old(self).spec_window(),
            match normalize(path@) {
                None => !r && final(self).map() == old(self).map(),
                Some(k) => if old(self).map().contains_key(k) {
                    r && final(self).map() == old(self).map().remove(k)
                } else {
                    !r && final(self).map() == old(self).map()
                },
            },
    {
        match normalize_path(path) {
            None => false,
            Some(k) => {
                proof {
                    lemma_map_of_contains(self.entries@, k@);
                }
                match self.find(k.as_slice()) {
                    None => false,
                    Some(i) => {
                        let ghost s0 = self.entries@;
                        proof {
                            lemma_map_of_index(s0, i as int);
                            lemma_map_of_remove(s0, i as int);
                        }
                        self.entries.remove(i);
                        proof {
                            assert(unique_keys(self.entries@)) by {
                                assert(forall|a: int|
                                    0 <= a < self.entries@.len()
                                        ==> #[trigger] self.entries@[a] == if a < i {
                                        s0[a]
                                    } else {
                                        s0[a + 1]
                                    });
                            }
                            assert(plain_keys(self.entries@)) by {
                                assert(forall|a: int|
                                    0 <= a < self.entries@.len()
                                        ==> #[trigger] self.entries@[a] == if a < i {
                                        s0[a]
                                    } else {
                                        s0[a + 1]
                                    });
                            }
                        }
                        true
                    },
                }
            },
        }
    }

    /// Removes every blob whose age at `now` exceeds the retention
    /// window, and nothing else; the survivors keep their content and
    /// creation time.
    pub fn sweep(&mut self, now: u64)
        requires
            old(self).wf(),
        ensures
            final(self).wf(),
            final(self).spec_window() == old(self).spec_window(),
            sweep_rel(old(self).map(), final(self).map(), old(self).spec_window(), now),
    {
        let ghost s0 = self.entries@;
        let window = self.window;
        let mut kept: Vec<Entry> = Vec::new();
        let mut i: usize = 0;
        while i < self.entries.len()
            invariant
                i <= self.entries@.len(),
                self.entries@ == s0,
                window == self.window,
                sim(kept@, kept_of(s0.take(i as int), window, now)),
            decreases self.entries@.len() - i,
        {
            let keep = match self.entries[i].created_at.checked_add(window) {
                Some(t) => now <= t,
                None => true,
            };
            let ghost prev = kept_of(s0.take(i as int), window, now);
            proof {
                assert(s0.take(i + 1).drop_last() =~= s0.take(i as int));
                assert(s0.take(i + 1).last() == s0[i as int]);
            }
            if keep {
                let copy = Entry {
                    key: vstd::slice::slice_to_vec(self.entries[i].key.as_slice()),
                    data: vstd::slice::slice_to_vec(self.entries[i].data.as_slice()),
                    created_at: self.entries[i].created_at,
                };
                assert(copy.key@ == s0[i as int].key@ && copy.data@ == s0[i as int].data@);
                kept.push(copy);
                proof {
                    let next = kept_of(s0.take(i + 1), window, now);
                    assert(next == prev.push(s0[i as int]));
                    assert(kept@.drop_last() =~= kept@.take(kept@.len() - 1));
                    assert(forall|a: int|
                        0 <= a < prev.len() ==> #[trigger] kept@[a] == kept@.drop_last()[a]);
                    assert(sim(kept@, next));
                }
            } else {
                proof {
                    assert(kept_of(s0.take(i + 1), window, now) == prev);
                }
            }
            i = i + 1;
        }
        assert(s0.take(s0.len() as int) =~= s0);
        self.entries = kept;
        proof {
            lemma_kept_of(s0, window, now);
            let r = kept_of(s0, window, now);
            lemma_sim_map(self.entries@, r);
            assert(plain_keys(r)) by {
                assert forall|a: int| 0 <= a < r.len() implies is_plain_name(
                    #[trigger] r[a].key@,
                ) by {
                    let j = choose|j: int|
                        0 <= j < s0.len() && r[a] == s0[j] && !expired(
                            s0[j].created_at,
                            window,
                            now,
                        );
                    assert(is_plain_name(s0[j].key@));
                }
            }
            assert forall|k: Seq<u8>| self.map().contains_key(k) <==> (
            #[trigger] map_of(s0).contains_key(k) && !expired(
                map_of(s0)[k].created_at,
                window,
                now,
            )) by {
                lemma_map_of_contains(r, k);
                lemma_map_of_contains(s0, k);
                if map_of(s0).contains_key(k) {
                    let j = choose|j: int| 0 <= j < s0.len() && s0[j].key@ == k;
                    lemma_map_of_index(s0, j);
                    assert(map_of(s0)[k].created_at == s0[j].created_at);
                    if !expired(s0[j].created_at, window, now) {
                        assert(has_key_in(r, k));
                    } else {
                        if has_key_in(r, k) {
                            let j2 = choose|j2: int|
                                0 <= j2 < s0.len() && s0[j2].key@ == k && !expired(
                                    s0[j2].created_at,
                                    window,
                                    now,
                                );
                            assert(j == j2);
                        }
                    }
                } else {
                    if has_key_in(r, k) {
                        let j2 = choose|j2: int|
                            0 <= j2 < s0.len() && s0[j2].key@ == k && !expired(
                                s0[j2].created_at,
                                window,
                                now,
                            );
                        assert(has_key_in(s0, k));
                    }
                }
            }
            assert forall|k: Seq<u8>| self.map().contains_key(k) implies self.map()[k] == map_of(
                s0,
            )[k] by {
                lemma_map_of_contains(r, k);
                let a = choose|a: int| 0 <= a < r.len() && r[a].key@ == k;
                lemma_map_of_index(r, a);
                let j = choose|j: int|
                    0 <= j < s0.len() && r[a] == s0[j] && !expired(s0[j].created_at, window, now);
                lemma_map_of_index(s0, j);
            }
        }
    }
}

/// The key a successful put returns, requested later as a path, resolves
/// to itself and yields exactly the bytes that were uploaded: a blob
/// filed under a fresh key reads back unchanged.
pub proof fn lemma_put_get_round_trip(
    m: Map<Seq<u8>, Blob>,
    path: Seq<u8>,
    data: Seq<u8>,
    salt: u64,
    now: u64,
)
    requires
        !m.contains_key(put_key(path, data, salt)),
    ensures
        ({
            let k = put_key(path, data, salt);
            let m1 = m.insert(k, Blob { data, created_at: now });
            &&& normalize(k) == Some(k)
            &&& m1.contains_key(k)
            &&& m1[k].data == data
        }),
{
    let k = put_key(path, data, salt);
    lemma_hex_key_plain(digest(path, data, salt) as int);
    lemma_final_component_at(k, 0);
    assert(k.skip(0) =~= k);
}

/// A put whose key collides with one already filed changes nothing: the
/// first blob's bytes stay exactly as they were, and by `put`'s
/// contract the colliding call reports failure instead of overwriting.
pub proof fn lemma_write_once(
    m: Map<Seq<u8>, Blob>,
    path1: Seq<u8>,
    data1: Seq<u8>,
    salt1: u64,
    now1: u64,
    path2: Seq<u8>,
    data2: Seq<u8>,
    salt2: u64,
)
    requires
        !m.contains_key(put_key(path1, data1, salt1)),
        put_key(path2, data2, salt2) == put_key(path1, data1, salt1),
    ensures
        ({
            let k = put_key(path1, data1, salt1);
            let m1 = m.insert(k, Blob { data: data1, created_at: now1 });
            &&& m1.contains_key(put_key(path2, data2, salt2))
            &&& m1[put_key(path2, data2, salt2)].data == data1
        }),
{
}

/// A lookup only sees the final path component: any directories in
/// front of it, directory traversal included, leave the target
/// unchanged, so no request escapes the store.
pub proof fn lemma_normalize_ignores_directories(dirs: Seq<u8>, name: Seq<u8>)
    ensures
        normalize(dirs.push(SLASH) + name) == normalize(name),
{
    lemma_final_component_after_separator(dirs.push(SLASH), name);
}

proof fn lemma_final_component_after_separator(a: Seq<u8>, b: Seq<u8>)
    requires
        a.len() > 0,
        a.last() == SLASH,
    ensures
        final_component(a + b) == final_component(b),
    decreases b.len(),
{
    if b.len() == 0 {
        assert(a + b =~= a);
    } else {
        assert((a + b).last() == b.last());
        if b.last() != SLASH {
            assert((a + b).drop_last() =~= a + b.drop_last());
            lemma_final_component_after_separator(a, b.drop_last());
        }
    }
}

/// A blob still within its retention window survives a sweep with its
/// bytes intact; one past the window is gone. Together with `get`'s
/// contract: the blob is retrievable before expiry and absent after.
pub proof fn lemma_expiry(
    m: Map<Seq<u8>, Blob>,
    m_live: Map<Seq<u8>, Blob>,
    m_late: Map<Seq<u8>, Blob>,
    k: Seq<u8>,
    window: u64,
    t_live: u64,
    t_late: u64,
)
    requires
        m.contains_key(k),
        sweep_rel(m, m_live, window, t_live),
        t_live <= m[k].created_at + window,
        sweep_rel(m, m_late, window, t_late),
        t_late > m[k].created_at + window,
    ensures
        m_live.contains_key(k),
        m_live[k].data == m[k].data,
        !m_late.contains_key(k),
{
}

} // verus!
