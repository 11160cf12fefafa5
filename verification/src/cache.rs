//! A local, content-addressed cache of web locators, the equivalent of a
//! browser's cache. Entries are keyed by a digest of the locator text and
//! never expire on their own; an entry disappears only through explicit
//! invalidation. Fetching is delegated to a [`Fetcher`] so that the cache
//! decides, and can be shown to decide, when the network is touched.
//! Retrieval takes the cache exclusively, so two callers can never race a
//! first retrieval of the same digest into duplicate fetches or partial
//! writes.
use sha2::Digest;
use vstd::prelude::*;

verus! {

// ---------------------------------------------------------------------------
// Digests
// ---------------------------------------------------------------------------

/// The SHA-256 digest of a byte sequence; it depends on the bytes alone.
pub uninterp spec fn sha256_of(data: Seq<u8>) -> Seq<u8>;

/// Relies on sha2::Sha256 through digest::Digest::digest: the digest is a
/// pure function of the input bytes, 32 bytes long.
#[verifier::external_body]
fn sha256_bytes(data: &[u8]) -> (r: Vec<u8>)
    ensures
        r@ == sha256_of(data@),
        r@.len() == 32,
{
    sha2::Sha256::digest(data).to_vec()
}

/// The lowercase hexadecimal character for one value below sixteen.
pub open spec fn hex_digit(n: u8) -> char
    recommends
        n < 16,
{
    if n < 10 {
        ((n + 48) as char)
    } else {
        ((n + 87) as char)
    }
}

/// The lowercase hexadecimal rendering of a byte sequence, two characters per
/// byte, high nibble first.
pub open spec fn hex_of(bytes: Seq<u8>) -> Seq<char>
    decreases bytes.len(),
{
    if bytes.len() == 0 {
        Seq::empty()
    } else {
        hex_of(bytes.drop_last()) + seq![
            hex_digit(bytes.last() / 16),
            hex_digit(bytes.last() % 16),
        ]
    }
}

fn hex_digit_str(n: u8) -> (r: &'static str)
    requires
        n < 16,
    ensures
        r@ == seq![hex_digit(n)],
{
    proof {
        reveal_strlit("0");
        reveal_strlit("1");
        reveal_strlit("2");
        reveal_strlit("3");
        reveal_strlit("4");
        reveal_strlit("5");
        reveal_strlit("6");
        reveal_strlit("7");
        reveal_strlit("8");
        reveal_strlit("9");
        reveal_strlit("a");
        reveal_strlit("b");
        reveal_strlit("c");
        reveal_strlit("d");
        reveal_strlit("e");
        reveal_strlit("f");
    }
    match n {
        0 => "0",
        1 => "1",
        2 => "2",
        3 => "3",
        4 => "4",
        5 => "5",
        6 => "6",
        7 => "7",
        8 => "8",
        9 => "9",
        10 => "a",
        11 => "b",
        12 => "c",
        13 => "d",
        14 => "e",
        _ => "f",
    }
}

/// Renders bytes as lowercase hexadecimal, two digits per byte, high
/// nibble first.
fn hex_encode(data: &Vec<u8>) -> (r: String)
    ensures
        r@ == hex_of(data@),
{
    let mut r = String::new();
    let n = data.len();
    let mut i: usize = 0;
    proof {
        assert(data@.take(0) =~= Seq::<u8>::empty());
        assert(r@ =~= hex_of(data@.take(0)));
    }
    while i < n
        invariant
            0 <= i <= n,
            n == data@.len(),
            r@ == hex_of(data@.take(i as int)),
        decreases n - i,
    {
        let b = data[i];
        r.append(hex_digit_str(b / 16));
        r.append(hex_digit_str(b % 16));
        proof {
            assert(data@.take(i + 1).drop_last() =~= data@.take(i as int));
            assert(data@.take(i + 1).last() == data@[i as int]);
            assert(r@ =~= hex_of(data@.take(i + 1)));
        }
        i = i + 1;
    }
    proof {
        assert(data@.take(n as int) =~= data@);
    }
    r
}

/// The cache identity of a locator: the hexadecimal SHA-256 digest of its
/// text. Identical locators always map to the identical identity.
pub open spec fn digest_of(locator: Seq<char>) -> Seq<char> {
    hex_of(sha256_of(vstd::utf8::encode_utf8(locator)))
}

/// Computes the cache identity of a locator.
pub fn locator_digest(locator: &str) -> (r: String)
    ensures
        r@ == digest_of(locator@),
{
    let digest = sha256_bytes(locator.as_bytes());
    hex_encode(&digest)
}

// ---------------------------------------------------------------------------
// Errors and the fetching capability
// ---------------------------------------------------------------------------

/// A fetch over the network failed; carries the locator that failed.
#[derive(Debug)]
pub struct TransportError {
    pub locator: String,
}

/// What `Cache::retrieve` can fail with.
#[derive(Debug)]
pub enum CacheError {
    Transport { locator: String },
}

/// The network capability: a locator in, bytes or a transport error out.
/// The cache counts calls through `fetches` so that its contracts can state
/// when the network is, and is not, touched.
pub trait Fetcher {
    /// How many fetches this fetcher has performed; a fetcher that does not
    /// count reports none.
    open spec fn fetches(&self) -> nat {
        0
    }

    /// Fetches the bytes behind one locator.
    fn fetch(&mut self, locator: &str) -> (r: Result<Vec<u8>, TransportError>)
        ensures
            final(self).fetches() == old(self).fetches() + 1,
            r matches Err(e) ==> e.locator@ == locator@,
    ;
}

/// Index of the first scripted response under the locator `loc`, or `-1`.
pub open spec fn first_response(s: Seq<(String, Vec<u8>)>, loc: Seq<char>) -> int
    decreases s.len(),
{
    if s.len() == 0 {
        -1
    } else if s[0].0@ == loc {
        0
    } else if first_response(s.drop_first(), loc) == -1 {
        -1
    } else {
        first_response(s.drop_first(), loc) + 1
    }
}

proof fn lemma_first_response_props(s: Seq<(String, Vec<u8>)>, loc: Seq<char>)
    ensures
        -1 <= first_response(s, loc) < s.len(),
        first_response(s, loc) >= 0 ==> s[first_response(s, loc)].0@ == loc,
        first_response(s, loc) == -1 ==> forall|j: int|
            0 <= j < s.len() ==> (#[trigger] s[j]).0@ != loc,
    decreases s.len(),
{
    if s.len() > 0 && s[0].0@ != loc {
        lemma_first_response_props(s.drop_first(), loc);
        assert(forall|j: int| 1 <= j < s.len() ==> s[j] == s.drop_first()[j - 1]);
    }
}

/// When every response before `i` misses `loc` and `i` itself bears it,
/// `i` is the first index.
proof fn lemma_first_response_at(s: Seq<(String, Vec<u8>)>, loc: Seq<char>, i: int)
    requires
        0 <= i < s.len(),
        forall|j: int| 0 <= j < i ==> (#[trigger] s[j]).0@ != loc,
        s[i].0@ == loc,
    ensures
        first_response(s, loc) == i,
    decreases s.len(),
{
    if i > 0 {
        assert(forall|j: int| 1 <= j < s.len() ==> s[j] == s.drop_first()[j - 1]);
        assert(forall|j: int| 0 <= j < i - 1 ==> (#[trigger] s.drop_first()[j]).0@ != loc) by {
            assert(forall|j: int| 0 <= j < i - 1 ==> s.drop_first()[j] == s[j + 1]);
        }
        lemma_first_response_at(s.drop_first(), loc, i - 1);
    }
}

/// A fetcher answering from a fixed table of responses: a fetch serves, and
/// consumes, the first response scripted under the locator. Used wherever
/// the real network is unwanted.
pub struct ScriptedFetcher {
    responses: Vec<(String, Vec<u8>)>,
    enabled: bool,
    count: Ghost<nat>,
}

impl ScriptedFetcher {
    pub fn new() -> (r: ScriptedFetcher)
        ensures
            r.fetches() == 0,
            r.script_view() == Seq::<(String, Vec<u8>)>::empty(),
            r.enabled_spec(),
    {
        ScriptedFetcher { responses: Vec::new(), enabled: true, count: Ghost(0) }
    }

    /// The responses still unserved, in script order.
    pub closed spec fn script_view(&self) -> Seq<(String, Vec<u8>)> {
        self.responses@
    }

    /// Whether fetches can still succeed.
    pub closed spec fn enabled_spec(&self) -> bool {
        self.enabled
    }

    pub open spec fn remaining_spec(&self) -> nat {
        self.script_view().len()
    }

    /// Adds one response to the script.
    pub fn push_response(&mut self, locator: String, bytes: Vec<u8>)
        ensures
            final(self).script_view() == old(self).script_view().push((locator, bytes)),
            final(self).fetches() == old(self).fetches(),
            final(self).enabled_spec() == old(self).enabled_spec(),
    {
        self.responses.push((locator, bytes));
    }

    /// After this every fetch fails.
    pub fn disable(&mut self)
        ensures
            final(self).fetches() == old(self).fetches(),
            final(self).script_view() == old(self).script_view(),
            !final(self).enabled_spec(),
    {
        self.enabled = false;
    }

    /// How many scripted responses are still unserved.
    pub fn remaining(&self) -> (r: usize)
        ensures
            r == self.remaining_spec(),
    {
        self.responses.len()
    }
}

impl Fetcher for ScriptedFetcher {
    closed spec fn fetches(&self) -> nat {
        self.count@
    }

    fn fetch(&mut self, locator: &str) -> (r: Result<Vec<u8>, TransportError>)
        ensures
            final(self).enabled_spec() == old(self).enabled_spec(),
            r is Ok <==> (old(self).enabled_spec() && first_response(
                old(self).script_view(),
                locator@,
            ) >= 0),
            r matches Ok(b) ==> b == old(self).script_view()[first_response(
                old(self).script_view(),
                locator@,
            )].1 && final(self).script_view() == old(self).script_view().remove(
                first_response(old(self).script_view(), locator@),
            ),
            r is Err ==> final(self).script_view() == old(self).script_view(),
    {
        proof {
            self.count@ = self.count@ + 1;
            lemma_first_response_props(self.responses@, locator@);
        }
        if !self.enabled {
            return Err(TransportError { locator: locator.to_owned() });
        }
        let n = self.responses.len();
        let mut i: usize = 0;
        while i < n
            invariant
                0 <= i <= n,
                n == self.responses@.len(),
                self.responses@ == old(self).script_view(),
                self.enabled,
                self.enabled == old(self).enabled_spec(),
                self.fetches() == old(self).fetches() + 1,
                forall|j: int| 0 <= j < i ==> (#[trigger] self.responses@[j]).0@ != locator@,
            decreases n - i,
        {
            if crate::util::str_eq(self.responses[i].0.as_str(), locator) {
                proof {
                    lemma_first_response_at(self.responses@, locator@, i as int);
                }
                let (_, bytes) = self.responses.remove(i);
                return Ok(bytes);
            }
            i = i + 1;
        }
        proof {
            lemma_first_response_props(self.responses@, locator@);
        }
        Err(TransportError { locator: locator.to_owned() })
    }
}

// ---------------------------------------------------------------------------
// The cache itself
// ---------------------------------------------------------------------------

/// One cached blob: the digest that identifies it, the locator it came from
/// (the sidecar record, kept for inspection), and the payload.
#[derive(Debug)]
pub struct CacheEntry {
    pub digest: String,
    pub locator: String,
    pub bytes: Vec<u8>,
}

/// The cache: a root directory name and the stored entries, at most one per
/// digest. Its view is the map from digest to payload.
#[derive(Debug)]
pub struct Cache {
    root: String,
    entries: Vec<CacheEntry>,
}

/// The map that a sequence of entries denotes, later entries winning; with
/// unique digests there is nothing to win over.
pub open spec fn entries_map(s: Seq<CacheEntry>) -> Map<Seq<char>, Seq<u8>>
    decreases s.len(),
{
    if s.len() == 0 {
        Map::empty()
    } else {
        entries_map(s.drop_last()).insert(s.last().digest@, s.last().bytes@)
    }
}

impl View for Cache {
    type V = Map<Seq<char>, Seq<u8>>;

    closed spec fn view(&self) -> Map<Seq<char>, Seq<u8>> {
        entries_map(self.entries@)
    }
}

proof fn lemma_entries_map_contains(s: Seq<CacheEntry>, d: Seq<char>)
    ensures
        entries_map(s).contains_key(d) <==> exists|i: int|
            0 <= i < s.len() && s[i].digest@ == d,
    decreases s.len(),
{
    if s.len() > 0 {
        lemma_entries_map_contains(s.drop_last(), d);
        if entries_map(s).contains_key(d) {
            if s.last().digest@ == d {
                assert(s[s.len() - 1].digest@ == d);
            } else {
                let i = choose|i: int| 0 <= i < s.drop_last().len() && s.drop_last()[i].digest@ == d;
                assert(s[i].digest@ == d);
            }
        }
        if exists|i: int| 0 <= i < s.len() && s[i].digest@ == d {
            let i = choose|i: int| 0 <= i < s.len() && s[i].digest@ == d;
            if i < s.len() - 1 {
                assert(s.drop_last()[i].digest@ == d);
            }
        }
    }
}

/// No two entries share a digest.
pub open spec fn unique_digests(s: Seq<CacheEntry>) -> bool {
    forall|i: int, j: int|
        0 <= i < j < s.len() ==> s[i].digest@ != s[j].digest@
}

proof fn lemma_entries_map_get(s: Seq<CacheEntry>, i: int)
    requires
        unique_digests(s),
        0 <= i < s.len(),
    ensures
        entries_map(s).contains_key(s[i].digest@),
        entries_map(s)[s[i].digest@] == s[i].bytes@,
    decreases s.len(),
{
    if i == s.len() - 1 {
    } else {
        lemma_entries_map_get(s.drop_last(), i);
        assert(s.drop_last()[i] == s[i]);
    }
}

proof fn lemma_entries_map_remove(s: Seq<CacheEntry>, i: int)
    requires
        unique_digests(s),
        0 <= i < s.len(),
    ensures
        entries_map(s.remove(i)) == entries_map(s).remove(s[i].digest@),
    decreases s.len(),
{
    if i == s.len() - 1 {
        assert(s.remove(i) =~= s.drop_last());
        lemma_entries_map_contains(s.drop_last(), s[i].digest@);
        assert(entries_map(s.drop_last()) =~= entries_map(s).remove(s[i].digest@));
    } else {
        lemma_entries_map_remove(s.drop_last(), i);
        assert(s.remove(i).drop_last() =~= s.drop_last().remove(i));
        assert(s.remove(i).last() == s.last());
        assert(entries_map(s.remove(i)) == entries_map(s.drop_last().remove(i)).insert(
            s.last().digest@,
            s.last().bytes@,
        ));
        assert(s.drop_last()[i] == s[i]);
        assert(entries_map(s.remove(i)) == entries_map(s.drop_last()).remove(s[i].digest@).insert(
            s.last().digest@,
            s.last().bytes@,
        ));
        assert(s[i].digest@ != s.last().digest@);
        assert(entries_map(s.drop_last()).remove(s[i].digest@).insert(
            s.last().digest@,
            s.last().bytes@,
        ) =~= entries_map(s).remove(s[i].digest@));
    }
}

/// Copies a byte vector.
pub fn clone_bytes(v: &Vec<u8>) -> (r: Vec<u8>)
    ensures
        r@ == v@,
{
    let mut r: Vec<u8> = Vec::new();
    let n = v.len();
    let mut i: usize = 0;
    while i < n
        invariant
            0 <= i <= n,
            n == v@.len(),
            r@ == v@.take(i as int),
        decreases n - i,
    {
        r.push(v[i]);
        proof {
            assert(r@ =~= v@.take(i + 1));
        }
        i = i + 1;
    }
    proof {
        assert(v@.take(n as int) =~= v@);
    }
    r
}

impl Cache {
    /// Entries are keyed correctly and at most one entry exists per digest.
    pub closed spec fn wf(&self) -> bool {
        &&& unique_digests(self.entries@)
        &&& forall|i: int|
            0 <= i < self.entries@.len() ==> (#[trigger] self.entries@[i]).digest@ == digest_of(
                self.entries@[i].locator@,
            )
    }

    pub closed spec fn root_view(&self) -> Seq<char> {
        self.root@
    }

    /// A new, empty cache over the given root directory name. The directory
    /// itself is the caller's concern.
    pub fn new(root: String) -> (r: Cache)
        ensures
            r@ == Map::<Seq<char>, Seq<u8>>::empty(),
            r.wf(),
            r.root_view() == root@,
    {
        Cache { root, entries: Vec::new() }
    }

    /// The root directory name this cache was created over.
    pub fn root(&self) -> (r: &String)
        ensures
            r@ == self.root_view(),
    {
        &self.root
    }

    /// The stored entries, for persistence by the caller.
    pub fn entries(&self) -> (r: &Vec<CacheEntry>)
        requires
            self.wf(),
        ensures
            entries_map(r@) == self@,
            unique_digests(r@),
    {
        &self.entries
    }

    /// The index of the entry holding the given digest, if any.
    fn find_entry(&self, digest: &str) -> (r: Option<usize>)
        ensures
            match r {
                Some(i) => i < self.entries@.len() && self.entries@[i as int].digest@ == digest@,
                None => forall|i: int|
                    0 <= i < self.entries@.len() ==> (#[trigger] self.entries@[i]).digest@
                        != digest@,
            },
    {
        let n = self.entries.len();
        let mut i: usize = 0;
        while i < n
            invariant
                0 <= i <= n,
                n == self.entries@.len(),
                forall|j: int| 0 <= j < i ==> (#[trigger] self.entries@[j]).digest@ != digest@,
            decreases n - i,
        {
            if crate::util::str_eq(self.entries[i].digest.as_str(), digest) {
                return Some(i);
            }
            i = i + 1;
        }
        None
    }

    /// Whether an entry for this locator is present.
    pub fn contains(&self, locator: &str) -> (r: bool)
        requires
            self.wf(),
        ensures
            r == self@.contains_key(digest_of(locator@)),
    {
        let digest = locator_digest(locator);
        let found = self.find_entry(digest.as_str());
        proof {
            lemma_entries_map_contains(self.entries@, digest_of(locator@));
        }
        match found {
            Some(_) => true,
            None => false,
        }
    }

    /// Stores bytes for a locator unless an entry already exists; returns
    /// whether the bytes were stored.
    pub fn store(&mut self, locator: &str, bytes: Vec<u8>) -> (stored: bool)
        requires
            old(self).wf(),
        ensures
            final(self).wf(),
            final(self).root_view() == old(self).root_view(),
            stored == !old(self)@.contains_key(digest_of(locator@)),
            stored ==> final(self)@ == old(self)@.insert(digest_of(locator@), bytes@),
            !stored ==> final(self)@ == old(self)@,
    {
        let digest = locator_digest(locator);
        proof {
            lemma_entries_map_contains(self.entries@, digest_of(locator@));
        }
        match self.find_entry(digest.as_str()) {
            Some(_) => false,
            None => {
                let ghost old_entries = self.entries@;
                self.entries.push(CacheEntry { digest, locator: locator.to_owned(), bytes });
                proof {
                    assert(self.entries@.drop_last() =~= old_entries);
                    assert(forall|i: int|
                        0 <= i < old_entries.len() ==> self.entries@[i] == old_entries[i]);
                }
                true
            },
        }
    }

    /// Returns the cached bytes for a locator, fetching and storing them
    /// first when no entry exists. A cached locator is answered without any
    /// fetch; an uncached one costs exactly one fetch, whose failure leaves
    /// the cache unchanged.
    pub fn retrieve<F: Fetcher>(&mut self, fetcher: &mut F, locator: &str) -> (r: Result<
        Vec<u8>,
        CacheError,
    >)
        requires
            old(self).wf(),
        ensures
            final(self).wf(),
            final(self).root_view() == old(self).root_view(),
            old(self)@.contains_key(digest_of(locator@)) ==> {
                &&& final(self)@ == old(self)@
                &&& final(fetcher).fetches() == old(fetcher).fetches()
                &&& r matches Ok(b) && b@ == old(self)@[digest_of(locator@)]
            },
            !old(self)@.contains_key(digest_of(locator@)) ==> {
                &&& final(fetcher).fetches() == old(fetcher).fetches() + 1
                &&& (r matches Ok(b) ==> final(self)@ == old(self)@.insert(
                    digest_of(locator@),
                    b@,
                ))
                &&& (r matches Err(e) ==> final(self)@ == old(self)@ && (e matches
                    CacheError::Transport { locator: l } && l@ == locator@))
            },
    {
        let digest = locator_digest(locator);
        proof {
            lemma_entries_map_contains(self.entries@, digest_of(locator@));
        }
        match self.find_entry(digest.as_str()) {
            Some(i) => {
                proof {
                    lemma_entries_map_get(self.entries@, i as int);
                }
                Ok(clone_bytes(&self.entries[i].bytes))
            },
            None => {
                match fetcher.fetch(locator) {
                    Ok(bytes) => {
                        let copy = clone_bytes(&bytes);
                        self.store(locator, copy);
                        Ok(bytes)
                    },
                    Err(e) => Err(CacheError::Transport { locator: e.locator }),
                }
            },
        }
    }

    /// Removes the entry for a locator if present; removing an absent entry
    /// is a no-op.
    pub fn invalidate(&mut self, locator: &str)
        requires
            old(self).wf(),
        ensures
            final(self).wf(),
            final(self).root_view() == old(self).root_view(),
            final(self)@ == old(self)@.remove(digest_of(locator@)),
            !final(self)@.contains_key(digest_of(locator@)),
    {
        let digest = locator_digest(locator);
        proof {
            lemma_entries_map_contains(self.entries@, digest_of(locator@));
        }
        match self.find_entry(digest.as_str()) {
            Some(i) => {
                proof {
                    lemma_entries_map_remove(self.entries@, i as int);
                }
                let ghost old_entries = self.entries@;
                self.entries.remove(i);
                proof {
                    assert(forall|a: int, b: int|
                        0 <= a < b < self.entries@.len() ==> self.entries@[a].digest@
                            != self.entries@[b].digest@) by {
                        assert(forall|a: int|
                            0 <= a < self.entries@.len() ==> exists|c: int|
                                0 <= c < old_entries.len() && #[trigger] self.entries@[a]
                                    == old_entries[c]);
                    }
                }
            },
            None => {
                proof {
                    assert(self@ =~= self@.remove(digest_of(locator@)));
                }
            },
        }
    }

    /// Invalidates, then retrieves: always performs exactly one fresh fetch.
    pub fn force_retrieve<F: Fetcher>(&mut self, fetcher: &mut F, locator: &str) -> (r: Result<
        Vec<u8>,
        CacheError,
    >)
        requires
            old(self).wf(),
        ensures
            final(self).wf(),
            final(self).root_view() == old(self).root_view(),
            final(fetcher).fetches() == old(fetcher).fetches() + 1,
            r matches Ok(b) ==> final(self)@ == old(self)@.remove(digest_of(locator@)).insert(
                digest_of(locator@),
                b@,
            ),
            r matches Err(e) ==> final(self)@ == old(self)@.remove(digest_of(locator@)) && (e
                matches CacheError::Transport { locator: l } && l@ == locator@),
    {
        self.invalidate(locator);
        self.retrieve(fetcher, locator)
    }
}


/// Inserting a fresh key leaves every present entry in place.
pub proof fn lemma_submap_insert(m: Map<Seq<char>, Seq<u8>>, k: Seq<char>, v: Seq<u8>)
    requires
        !m.contains_key(k),
    ensures
        m.submap_of(m.insert(k, v)),
{
}

/// Removing a key leaves a submap.
pub proof fn lemma_submap_remove(m: Map<Seq<char>, Seq<u8>>, k: Seq<char>)
    ensures
        m.remove(k).submap_of(m),
{
}

/// Submap inclusion is transitive.
pub proof fn lemma_submap_trans(
    a: Map<Seq<char>, Seq<u8>>,
    b: Map<Seq<char>, Seq<u8>>,
    c: Map<Seq<char>, Seq<u8>>,
)
    requires
        a.submap_of(b),
        b.submap_of(c),
    ensures
        a.submap_of(c),
{
    assert forall|k: Seq<char>| #![trigger a.dom().contains(k)]
        a.dom().contains(k) implies c.dom().contains(k) && a[k] == c[k] by {
        assert(b.dom().contains(k));
        assert(a[k] == b[k]);
        assert(c.dom().contains(k));
        assert(b[k] == c[k]);
    }
}

} // verus!
