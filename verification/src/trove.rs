//! The game library: persistent records derived from catalog products,
//! merged idempotently by machine name, with download-state reconciliation
//! against what the filesystem currently shows, and a session protocol for
//! relocating stray downloads that never deletes a source before its copy
//! succeeded and never overwrites an existing destination.
use crate::trove_feed::Product;
use crate::trove_feed::TroveFeed;
use crate::trove_feed::Download;
use crate::trove_feed::has_name;
use crate::trove_feed::unique_names;
use crate::util::digits_of;
use crate::util::find_last;
use crate::util::lemma_find_last_props;
use crate::util::str_eq;
use crate::util::u64_to_string;
use vstd::prelude::*;

verus! {

// ---------------------------------------------------------------------------
// Errors
// ---------------------------------------------------------------------------

/// What the library can fail with.
#[derive(Debug)]
pub enum LibraryError {
    /// A required directory is missing; carries its path.
    Filesystem { path: String },
    /// No platform of the declared order offers a download for this product.
    MissingPlatform { machine_name: String },
}

// ---------------------------------------------------------------------------
// The game record
// ---------------------------------------------------------------------------

/// One persistent record: created once per machine name on first merge and
/// never deleted. `downloaded` is re-derivable from the filesystem;
/// `installed` is externally set and never auto-transitioned here.
#[derive(Debug)]
pub struct TroveGame {
    pub machine_name: String,
    pub human_name: String,
    pub description: String,
    pub date_added: u32,
    pub downloaded: bool,
    pub installed: bool,
    pub executable: String,
    pub download_urls: Vec<(String, String)>,
    pub downloads: Vec<(String, String)>,
    pub logo: Option<String>,
    pub image: String,
    pub screenshots: Vec<String>,
    pub thumbnails: Vec<String>,
    pub trailer: Option<String>,
    pub last_seen_on: String,
    pub removed_from_trove: bool,
}

// ---------------------------------------------------------------------------
// Platform selection and expected file names
// ---------------------------------------------------------------------------

/// Index of the first download entry under the platform key `key`, or `-1`.
/// The list stands for a map keyed by platform: the first entry under a key
/// is authoritative, and any later duplicate of the key is ignored.
pub open spec fn entry_index(downloads: Seq<(String, Download)>, key: Seq<char>) -> int
    decreases downloads.len(),
{
    if downloads.len() == 0 {
        -1
    } else if downloads[0].0@ == key {
        0
    } else if entry_index(downloads.drop_first(), key) == -1 {
        -1
    } else {
        entry_index(downloads.drop_first(), key) + 1
    }
}

proof fn lemma_entry_index_props(downloads: Seq<(String, Download)>, key: Seq<char>)
    ensures
        -1 <= entry_index(downloads, key) < downloads.len(),
        entry_index(downloads, key) >= 0 ==> downloads[entry_index(downloads, key)].0@ == key,
        entry_index(downloads, key) == -1 ==> forall|j: int|
            0 <= j < downloads.len() ==> (#[trigger] downloads[j]).0@ != key,
    decreases downloads.len(),
{
    if downloads.len() > 0 && downloads[0].0@ != key {
        lemma_entry_index_props(downloads.drop_first(), key);
        assert(forall|j: int|
            1 <= j < downloads.len() ==> downloads[j] == downloads.drop_first()[j - 1]);
    }
}

/// Index into `order` of the first platform key that `downloads` offers, or
/// `-1` when none of the declared platforms matches.
pub open spec fn chosen_platform(order: Seq<String>, downloads: Seq<(String, Download)>) -> int
    decreases order.len(),
{
    if order.len() == 0 {
        -1
    } else if entry_index(downloads, order[0]@) >= 0 {
        0
    } else if chosen_platform(order.drop_first(), downloads) == -1 {
        -1
    } else {
        chosen_platform(order.drop_first(), downloads) + 1
    }
}

proof fn lemma_chosen_platform_props(order: Seq<String>, downloads: Seq<(String, Download)>)
    ensures
        -1 <= chosen_platform(order, downloads) < order.len(),
        chosen_platform(order, downloads) >= 0 ==> entry_index(
            downloads,
            order[chosen_platform(order, downloads)]@,
        ) >= 0,
        chosen_platform(order, downloads) == -1 ==> forall|j: int|
            0 <= j < order.len() ==> entry_index(downloads, (#[trigger] order[j])@) == -1,
    decreases order.len(),
{
    if order.len() > 0 && entry_index(downloads, order[0]@) < 0 {
        lemma_entry_index_props(downloads, order[0]@);
        lemma_chosen_platform_props(order.drop_first(), downloads);
        assert(forall|j: int| 1 <= j < order.len() ==> order[j] == order.drop_first()[j - 1]);
    }
}

/// The expected local file name of a download locator: the segment after the
/// last slash, or the whole locator when it has none.
pub open spec fn file_name_of(u: Seq<char>) -> Seq<char> {
    u.skip(find_last(u, '/') + 1)
}

/// Computes `file_name_of`.
pub fn file_name(url: &str) -> (r: String)
    ensures
        r@ == file_name_of(url@),
{
    let len = url.unicode_len();
    proof {
        lemma_find_last_props(url@, '/');
    }
    let mut start: usize = len;
    loop
        invariant
            0 <= start <= len,
            len == url@.len(),
            find_last(url@, '/') < start,
            forall|j: int| start <= j < len ==> url@[j] != '/',
        ensures
            0 <= start <= len,
            find_last(url@, '/') == start - 1,
        decreases start,
    {
        proof {
            lemma_find_last_props(url@, '/');
        }
        if start == 0 {
            break;
        }
        if url.get_char(start - 1) == '/' {
            break;
        }
        start = start - 1;
    }
    let sub = url.substring_char(start, len);
    String::from_str(sub)
}

/// The platform key and download entry that the declared order selects for
/// this product, with the record fields that follow from them.
pub open spec fn game_matches_product(g: TroveGame, p: Product, order: Seq<String>) -> bool {
    let j = chosen_platform(order, p.downloads@);
    let e = p.downloads@[entry_index(p.downloads@, order[j]@)];
    &&& j >= 0
    &&& g.machine_name@ == p.machine_name@
    &&& g.human_name@ == p.human_name@
    &&& g.description@ == p.description_text@
    &&& g.date_added == p.date_added
    &&& !g.downloaded
    &&& !g.installed
    &&& g.executable@ == Seq::<char>::empty()
    &&& g.download_urls@.len() == 1
    &&& g.download_urls@[0].0@ == order[j]@
    &&& g.download_urls@[0].1@ == e.1.url.web@
    &&& g.downloads@.len() == 1
    &&& g.downloads@[0].0@ == order[j]@
    &&& g.downloads@[0].1@ == file_name_of(e.1.url.web@)
    &&& g.logo.deep_view() == p.logo.deep_view()
    &&& g.image@ == p.image@
    &&& g.screenshots.deep_view() == p.carousel_content.screenshot.deep_view()
    &&& g.thumbnails.deep_view() == p.carousel_content.thumbnail.deep_view()
    &&& g.trailer.deep_view() == p.youtube_link.deep_view()
    &&& g.last_seen_on@ == Seq::<char>::empty()
    &&& !g.removed_from_trove
}

fn clone_string_vec(v: &Vec<String>) -> (r: Vec<String>)
    ensures
        r@ == v@,
{
    let mut r: Vec<String> = Vec::new();
    let n = v.len();
    let mut i: usize = 0;
    while i < n
        invariant
            0 <= i <= n,
            n == v@.len(),
            r@ == v@.take(i as int),
        decreases n - i,
    {
        r.push(v[i].clone());
        proof {
            assert(r@ =~= v@.take(i + 1));
        }
        i = i + 1;
    }
    proof {
        assert(v@.take(n as int) =~= v@);
    }
    r
}

fn clone_opt_string(v: &Option<String>) -> (r: Option<String>)
    ensures
        r == *v,
{
    match v {
        Some(s) => Some(s.clone()),
        None => None,
    }
}

impl TroveGame {
    /// Builds the record for one product, selecting the first platform of
    /// the declared order that the product offers a download for; a product
    /// offering none of them is a fatal construction error carrying its
    /// machine name.
    pub fn from_product(p: &Product, order: &Vec<String>) -> (r: Result<TroveGame, LibraryError>)
        ensures
            r is Ok <==> chosen_platform(order@, p.downloads@) >= 0,
            r matches Ok(g) ==> game_matches_product(g, *p, order@),
            r matches Err(e) ==> (e matches LibraryError::MissingPlatform { machine_name } &&
            machine_name@ == p.machine_name@),
    {
        let n = order.len();
        let mut j: usize = 0;
        proof {
            lemma_chosen_platform_props(order@, p.downloads@);
        }
        loop
            invariant
                0 <= j <= n,
                n == order@.len(),
                forall|x: int|
                    0 <= x < j ==> entry_index(p.downloads@, (#[trigger] order@[x])@) == -1,
                chosen_platform(order@, p.downloads@) == -1 || chosen_platform(
                    order@,
                    p.downloads@,
                ) >= j,
            ensures
                j < n ==> chosen_platform(order@, p.downloads@) == j,
                j == n ==> chosen_platform(order@, p.downloads@) == -1,
            decreases n - j,
        {
            proof {
                lemma_chosen_platform_props(order@, p.downloads@);
                lemma_chosen_first(order@, p.downloads@, j as int);
            }
            if j == n {
                break;
            }
            let found = find_platform_entry(&p.downloads, order[j].as_str());
            if found.is_some() {
                break;
            }
            j = j + 1;
        }
        if j == order.len() {
            return Err(LibraryError::MissingPlatform { machine_name: p.machine_name.clone() });
        }
        let key = &order[j];
        let found = find_platform_entry(&p.downloads, key.as_str());
        let i = match found {
            Some(i) => i,
            None => {
                proof {
                    lemma_chosen_platform_props(order@, p.downloads@);
                }
                return Err(
                    LibraryError::MissingPlatform { machine_name: p.machine_name.clone() },
                );
            },
        };
        let web = p.downloads[i].1.url.web.clone();
        let installer = file_name(web.as_str());
        Ok(
            TroveGame {
                machine_name: p.machine_name.clone(),
                human_name: p.human_name.clone(),
                description: p.description_text.clone(),
                date_added: p.date_added,
                downloaded: false,
                installed: false,
                executable: String::new(),
                download_urls: vec![(key.clone(), web.clone())],
                downloads: vec![(key.clone(), installer)],
                logo: clone_opt_string(&p.logo),
                image: p.image.clone(),
                screenshots: clone_string_vec(&p.carousel_content.screenshot),
                thumbnails: clone_string_vec(&p.carousel_content.thumbnail),
                trailer: clone_opt_string(&p.youtube_link),
                last_seen_on: String::new(),
                removed_from_trove: false,
            },
        )
    }
}

/// When every platform before `j` failed and `j` itself matches, `j` is the
/// chosen index.
proof fn lemma_chosen_first(order: Seq<String>, downloads: Seq<(String, Download)>, j: int)
    requires
        0 <= j <= order.len(),
        forall|x: int| 0 <= x < j ==> entry_index(downloads, (#[trigger] order[x])@) == -1,
    ensures
        j < order.len() && entry_index(downloads, order[j]@) >= 0 ==> chosen_platform(
            order,
            downloads,
        ) == j,
        (forall|x: int| 0 <= x < order.len() ==> entry_index(downloads, (#[trigger] order[x])@)
            == -1) ==> chosen_platform(order, downloads) == -1,
    decreases order.len(),
{
    if order.len() > 0 {
        if j > 0 {
            assert(forall|x: int| 1 <= x < order.len() ==> order[x] == order.drop_first()[x - 1]);
            assert(forall|x: int|
                0 <= x < j - 1 ==> entry_index(downloads, (#[trigger] order.drop_first()[x])@)
                    == -1) by {
                assert(forall|x: int|
                    0 <= x < j - 1 ==> order.drop_first()[x] == order[x + 1]);
            }
            lemma_chosen_first(order.drop_first(), downloads, j - 1);
        } else {
            lemma_chosen_first(order.drop_first(), downloads, 0);
            assert(forall|x: int| 1 <= x < order.len() ==> order[x] == order.drop_first()[x - 1]);
        }
    }
}

/// The index of the first download entry under `key`.
fn find_platform_entry(downloads: &Vec<(String, Download)>, key: &str) -> (r: Option<usize>)
    ensures
        r matches Some(i) ==> 0 <= i < downloads@.len() && entry_index(downloads@, key@)
            == i as int,
        r is None ==> entry_index(downloads@, key@) == -1,
{
    proof {
        lemma_entry_index_props(downloads@, key@);
    }
    let n = downloads.len();
    let mut i: usize = 0;
    while i < n
        invariant
            0 <= i <= n,
            n == downloads@.len(),
            forall|j: int| 0 <= j < i ==> (#[trigger] downloads@[j]).0@ != key@,
        decreases n - i,
    {
        if str_eq(downloads[i].0.as_str(), key) {
            proof {
                lemma_entry_first(downloads@, key@, i as int);
            }
            return Some(i);
        }
        i = i + 1;
    }
    proof {
        lemma_entry_index_props(downloads@, key@);
    }
    None
}

/// When every entry before `i` misses `key` and `i` itself bears it, `i` is
/// the first index.
proof fn lemma_entry_first(downloads: Seq<(String, Download)>, key: Seq<char>, i: int)
    requires
        0 <= i < downloads.len(),
        forall|j: int| 0 <= j < i ==> (#[trigger] downloads[j]).0@ != key,
        downloads[i].0@ == key,
    ensures
        entry_index(downloads, key) == i,
    decreases downloads.len(),
{
    if i > 0 {
        assert(forall|j: int|
            1 <= j < downloads.len() ==> downloads[j] == downloads.drop_first()[j - 1]);
        assert(forall|j: int|
            0 <= j < i - 1 ==> (#[trigger] downloads.drop_first()[j]).0@ != key) by {
            assert(forall|j: int| 0 <= j < i - 1 ==> downloads.drop_first()[j] == downloads[j + 1]);
        }
        lemma_entry_first(downloads.drop_first(), key, i - 1);
    }
}


// ---------------------------------------------------------------------------
// The library
// ---------------------------------------------------------------------------

/// Whether some record in `games` bears the machine name `n`.
pub open spec fn spec_has_game(games: Seq<TroveGame>, n: Seq<char>) -> bool {
    exists|i: int| 0 <= i < games.len() && games[i].machine_name@ == n
}

/// No two records share a machine name.
pub open spec fn unique_game_names(games: Seq<TroveGame>) -> bool {
    forall|i: int, j: int|
        0 <= i < j < games.len() ==> games[i].machine_name@ != games[j].machine_name@
}

/// The products of a snapshot whose machine name has no record yet: exactly
/// those a merge creates records for, in snapshot order.
pub open spec fn eligible_products(games: Seq<TroveGame>, products: Seq<Product>) -> Seq<
    Product,
>
    decreases products.len(),
{
    if products.len() == 0 {
        Seq::empty()
    } else if spec_has_game(games, products.last().machine_name@) {
        eligible_products(games, products.drop_last())
    } else {
        eligible_products(games, products.drop_last()).push(products.last())
    }
}

/// Every product offers a download under some platform of the order.
pub open spec fn all_have_platform(products: Seq<Product>, order: Seq<String>) -> bool {
    forall|k: int|
        0 <= k < products.len() ==> chosen_platform(order, (#[trigger] products[k]).downloads@)
            >= 0
}

/// The records from `offset` on match `products` pairwise.
pub open spec fn games_match(
    games: Seq<TroveGame>,
    offset: int,
    products: Seq<Product>,
    order: Seq<String>,
) -> bool {
    forall|k: int|
        0 <= k < products.len() ==> game_matches_product(
            games[offset + k],
            #[trigger] products[k],
            order,
        )
}

/// Index of the first product bearing the machine name `n`, or `-1`.
pub open spec fn product_index(products: Seq<Product>, n: Seq<char>) -> int
    decreases products.len(),
{
    if products.len() == 0 {
        -1
    } else if products[0].machine_name@ == n {
        0
    } else if product_index(products.drop_first(), n) == -1 {
        -1
    } else {
        product_index(products.drop_first(), n) + 1
    }
}

proof fn lemma_product_index_props(products: Seq<Product>, n: Seq<char>)
    ensures
        -1 <= product_index(products, n) < products.len(),
        product_index(products, n) >= 0 ==> products[product_index(products, n)].machine_name@
            == n,
        product_index(products, n) == -1 <==> !has_name(products, n),
    decreases products.len(),
{
    if products.len() > 0 && products[0].machine_name@ != n {
        lemma_product_index_props(products.drop_first(), n);
        assert(forall|j: int|
            1 <= j < products.len() ==> products[j] == products.drop_first()[j - 1]);
        assert(forall|j: int| #![auto]
            0 <= j < products.len() - 1 ==> products.drop_first()[j] == products[j + 1]);
    }
}

/// What one merge makes of an existing record `g`, giving `g2`: identity,
/// download selection and local state are untouched; when the snapshot
/// still bears the record's machine name, the descriptive fields are
/// refreshed from its first product and the removed mark is cleared;
/// otherwise the record is marked removed from the catalog. The record
/// itself persists either way.
pub open spec fn record_merged(g2: TroveGame, g: TroveGame, products: Seq<Product>) -> bool {
    let pi = product_index(products, g.machine_name@);
    let p = products[pi];
    &&& g2.machine_name == g.machine_name
    &&& g2.downloaded == g.downloaded
    &&& g2.installed == g.installed
    &&& g2.executable == g.executable
    &&& g2.download_urls == g.download_urls
    &&& g2.downloads == g.downloads
    &&& g2.last_seen_on == g.last_seen_on
    &&& if pi >= 0 {
        &&& g2.human_name == p.human_name
        &&& g2.description == p.description_text
        &&& g2.date_added == p.date_added
        &&& g2.image == p.image
        &&& g2.logo == p.logo
        &&& g2.screenshots@ == p.carousel_content.screenshot@
        &&& g2.thumbnails@ == p.carousel_content.thumbnail@
        &&& g2.trailer == p.youtube_link
        &&& !g2.removed_from_trove
    } else {
        g2 == (TroveGame { removed_from_trove: true, ..g })
    }
}

/// Two records with the same content: equal in every field, the image
/// lists compared element by element.
pub open spec fn same_record_content(a: TroveGame, b: TroveGame) -> bool {
    &&& a.machine_name == b.machine_name
    &&& a.human_name == b.human_name
    &&& a.description == b.description
    &&& a.date_added == b.date_added
    &&& a.downloaded == b.downloaded
    &&& a.installed == b.installed
    &&& a.executable == b.executable
    &&& a.download_urls == b.download_urls
    &&& a.downloads == b.downloads
    &&& a.logo == b.logo
    &&& a.image == b.image
    &&& a.screenshots@ == b.screenshots@
    &&& a.thumbnails@ == b.thumbnails@
    &&& a.trailer == b.trailer
    &&& a.last_seen_on == b.last_seen_on
    &&& a.removed_from_trove == b.removed_from_trove
}

/// Merging twice with the same snapshot refreshes a record to the same
/// content: with the merge's other clauses, applying the same snapshot
/// again leaves the record collection unchanged in size and content.
pub proof fn lemma_merge_content_idempotent(
    g: TroveGame,
    g2: TroveGame,
    g3: TroveGame,
    products: Seq<Product>,
)
    requires
        record_merged(g2, g, products),
        record_merged(g3, g2, products),
    ensures
        same_record_content(g3, g2),
{
}

/// Index of the first product bearing the machine name `name`.
fn find_product_by_name(products: &Vec<Product>, name: &str) -> (r: Option<usize>)
    ensures
        r matches Some(i) ==> 0 <= i < products@.len() && product_index(products@, name@)
            == i as int,
        r is None ==> product_index(products@, name@) == -1,
{
    proof {
        lemma_product_index_props(products@, name@);
    }
    let n = products.len();
    let mut i: usize = 0;
    while i < n
        invariant
            0 <= i <= n,
            n == products@.len(),
            forall|j: int| 0 <= j < i ==> (#[trigger] products@[j]).machine_name@ != name@,
        decreases n - i,
    {
        if str_eq(products[i].machine_name.as_str(), name) {
            proof {
                lemma_product_first(products@, name@, i as int);
            }
            return Some(i);
        }
        i = i + 1;
    }
    proof {
        lemma_product_index_props(products@, name@);
    }
    None
}

/// When every product before `i` misses `n` and `i` itself bears it, `i`
/// is the first index.
proof fn lemma_product_first(products: Seq<Product>, n: Seq<char>, i: int)
    requires
        0 <= i < products.len(),
        forall|j: int| 0 <= j < i ==> (#[trigger] products[j]).machine_name@ != n,
        products[i].machine_name@ == n,
    ensures
        product_index(products, n) == i,
    decreases products.len(),
{
    if i > 0 {
        assert(forall|j: int|
            1 <= j < products.len() ==> products[j] == products.drop_first()[j - 1]);
        assert(forall|j: int|
            0 <= j < i - 1 ==> (#[trigger] products.drop_first()[j]).machine_name@ != n) by {
            assert(forall|j: int|
                0 <= j < i - 1 ==> products.drop_first()[j] == products[j + 1]);
        }
        lemma_product_first(products.drop_first(), n, i - 1);
    }
}

/// How many records of `s` are marked downloaded.
pub open spec fn count_downloaded(s: Seq<TroveGame>) -> nat
    decreases s.len(),
{
    if s.len() == 0 {
        0
    } else {
        count_downloaded(s.drop_last()) + if s.last().downloaded {
            1nat
        } else {
            0nat
        }
    }
}

/// The machine names borne by records of `s`.
pub open spec fn game_names_set(s: Seq<TroveGame>) -> Set<Seq<char>> {
    Set::new(|n: Seq<char>| spec_has_game(s, n))
}

/// What restoring persisted records keeps, carrying the names already
/// kept: the first record per machine name, and only records carrying
/// exactly one chosen download.
pub open spec fn restore_from(s: Seq<TroveGame>, seen: Set<Seq<char>>) -> Seq<TroveGame>
    decreases s.len(),
{
    if s.len() == 0 {
        Seq::empty()
    } else if s[0].downloads@.len() == 1 && !seen.contains(s[0].machine_name@) {
        seq![s[0]] + restore_from(s.drop_first(), seen.insert(s[0].machine_name@))
    } else {
        restore_from(s.drop_first(), seen)
    }
}

/// What restoring persisted records keeps.
pub open spec fn restored_records(s: Seq<TroveGame>) -> Seq<TroveGame> {
    restore_from(s, Set::empty())
}

proof fn lemma_restore_from_props(s: Seq<TroveGame>, seen: Set<Seq<char>>)
    ensures
        unique_game_names(restore_from(s, seen)),
        restore_from(s, seen).len() <= s.len(),
        forall|i: int|
            0 <= i < restore_from(s, seen).len() ==> (#[trigger] restore_from(s, seen)[i])
                .downloads@.len() == 1 && !seen.contains(restore_from(s, seen)[i].machine_name@),
    decreases s.len(),
{
    if s.len() > 0 {
        let first = s[0];
        let rest = s.drop_first();
        if first.downloads@.len() == 1 && !seen.contains(first.machine_name@) {
            let seen2 = seen.insert(first.machine_name@);
            lemma_restore_from_props(rest, seen2);
            let tail = restore_from(rest, seen2);
            let out = restore_from(s, seen);
            assert(out == seq![first] + tail);
            assert(out[0] == first);
            assert(forall|j: int| 1 <= j < out.len() ==> out[j] == tail[j - 1]);
            assert(unique_game_names(out)) by {
                assert(forall|j: int| #![auto]
                    1 <= j < out.len() ==> out[j].machine_name@ != first.machine_name@) by {
                    assert(forall|j: int| #![auto]
                        0 <= j < tail.len() ==> !seen2.contains(tail[j].machine_name@));
                }
                assert(forall|i: int, j: int|
                    1 <= i < j < out.len() ==> out[i].machine_name@ != out[j].machine_name@);
            }
        } else {
            lemma_restore_from_props(rest, seen);
        }
    }
}

proof fn lemma_game_names_set_push(s: Seq<TroveGame>, g: TroveGame)
    ensures
        game_names_set(s.push(g)) =~= game_names_set(s).insert(g.machine_name@),
{
    let t = s.push(g);
    assert(forall|j: int| 0 <= j < s.len() ==> t[j] == s[j]);
    assert(t[s.len() as int] == g);
    assert(forall|n: Seq<char>| #![auto] spec_has_game(s, n) ==> spec_has_game(t, n));
    assert(forall|n: Seq<char>| #![auto]
        spec_has_game(t, n) ==> (spec_has_game(s, n) || n == g.machine_name@));
}

/// How many entries of `s` are set.
pub open spec fn count_true(s: Seq<bool>) -> nat
    decreases s.len(),
{
    if s.len() == 0 {
        0
    } else {
        count_true(s.drop_last()) + if s.last() {
            1nat
        } else {
            0nat
        }
    }
}

/// Whether some string of `files` reads `s`.
pub open spec fn seq_contains_str(files: Seq<String>, s: Seq<char>) -> bool {
    exists|i: int| 0 <= i < files.len() && files[i]@ == s
}

/// The expected local file name of a record's chosen download.
pub open spec fn installer_of(g: TroveGame) -> Seq<char> {
    g.downloads@[0].1@
}

/// The expected file names, among `files`, of records not yet relocated:
/// what `stray_downloads` returns.
pub open spec fn spec_strays(games: Seq<TroveGame>, files: Seq<String>) -> Seq<Seq<char>> {
    games.filter(|g: TroveGame| seq_contains_str(files, installer_of(g))).map_values(
        |g: TroveGame| installer_of(g),
    )
}

/// The game library: its storage root, its scratch downloads directory, the
/// records unique by machine name, and the aggregate counts.
#[derive(Debug)]
pub struct Trove {
    downloads: String,
    root: String,
    number_downloaded: u32,
    total: u32,
    games: Vec<TroveGame>,
}

impl Trove {
    /// Records are unique by machine name, each carries exactly one chosen
    /// download, and the collection fits the counters.
    pub closed spec fn wf(&self) -> bool {
        &&& unique_game_names(self.games@)
        &&& self.games@.len() <= u32::MAX
        &&& forall|i: int|
            0 <= i < self.games@.len() ==> (#[trigger] self.games@[i]).downloads@.len() == 1
    }

    pub closed spec fn games_view(&self) -> Seq<TroveGame> {
        self.games@
    }

    pub closed spec fn root_view(&self) -> Seq<char> {
        self.root@
    }

    pub closed spec fn downloads_view(&self) -> Seq<char> {
        self.downloads@
    }

    pub closed spec fn total_spec(&self) -> u32 {
        self.total
    }

    pub closed spec fn number_downloaded_spec(&self) -> u32 {
        self.number_downloaded
    }

    /// An empty library over the two directories. Each must exist — the
    /// caller passes what the filesystem shows — and a missing one is a
    /// fatal error carrying its path.
    pub fn new(root: String, downloads: String, root_exists: bool, downloads_exists: bool) -> (r:
        Result<Trove, LibraryError>)
        ensures
            r is Ok <==> (root_exists && downloads_exists),
            r matches Ok(t) ==> t.wf() && t.games_view() =~= Seq::<TroveGame>::empty()
                && t.root_view() == root@ && t.downloads_view() == downloads@ && t.total_spec()
                == 0 && t.number_downloaded_spec() == 0,
            !root_exists ==> (r matches Err(LibraryError::Filesystem { path }) && path@ == root@),
            root_exists && !downloads_exists ==> (r matches Err(LibraryError::Filesystem {
                path,
            }) && path@ == downloads@),
    {
        if !root_exists {
            return Err(LibraryError::Filesystem { path: root });
        }
        if !downloads_exists {
            return Err(LibraryError::Filesystem { path: downloads });
        }
        Ok(Trove { downloads, root, number_downloaded: 0, total: 0, games: Vec::new() })
    }

    /// A well-formed library holds at most one record per machine name:
    /// merged snapshots never duplicate a record.
    pub proof fn lemma_wf_unique_names(&self)
        requires
            self.wf(),
        ensures
            unique_game_names(self.games_view()),
    {
    }

    /// The records.
    pub fn games(&self) -> (r: &Vec<TroveGame>)
        ensures
            r@ == self.games_view(),
    {
        &self.games
    }

    /// The storage root directory.
    pub fn root(&self) -> (r: &String)
        ensures
            r@ == self.root_view(),
    {
        &self.root
    }

    /// The scratch downloads directory.
    pub fn downloads(&self) -> (r: &String)
        ensures
            r@ == self.downloads_view(),
    {
        &self.downloads
    }

    /// The aggregate counts as of the last reconciliation: total records,
    /// and how many are downloaded.
    pub fn counts(&self) -> (r: (u32, u32))
        ensures
            r.0 == self.total_spec(),
            r.1 == self.number_downloaded_spec(),
    {
        (self.total, self.number_downloaded)
    }

    /// Merges a snapshot: every product whose machine name has no record yet
    /// gets one, in snapshot order. Existing records persist — never
    /// deleted, never duplicated; their descriptive fields are refreshed
    /// from the snapshot, and `removed_from_trove` is cleared or set by
    /// whether the snapshot still bears their name — so merging the same
    /// snapshot again changes nothing. A product offering none of the
    /// declared platforms aborts the merge with its machine name, leaving
    /// the library unchanged.
    pub fn add_games(&mut self, feed: TroveFeed) -> (r: Result<(), LibraryError>)
        requires
            old(self).wf(),
            feed.wf(),
            old(self).games_view().len() + feed.products_view().len() <= u32::MAX,
        ensures
            final(self).wf(),
            final(self).root_view() == old(self).root_view(),
            final(self).downloads_view() == old(self).downloads_view(),
            final(self).total_spec() == old(self).total_spec(),
            final(self).number_downloaded_spec() == old(self).number_downloaded_spec(),
            r is Ok <==> all_have_platform(
                eligible_products(old(self).games_view(), feed.products_view()),
                feed.platform_order_view(),
            ),
            r is Ok ==> final(self).games_view().len() == old(self).games_view().len()
                + eligible_products(old(self).games_view(), feed.products_view()).len(),
            r is Ok ==> forall|i: int|
                0 <= i < old(self).games_view().len() ==> record_merged(
                    final(self).games_view()[i],
                    old(self).games_view()[i],
                    feed.products_view(),
                ),
            r is Ok ==> games_match(
                final(self).games_view(),
                old(self).games_view().len() as int,
                eligible_products(old(self).games_view(), feed.products_view()),
                feed.platform_order_view(),
            ),
            r is Ok ==> forall|n: Seq<char>|
                spec_has_game(final(self).games_view(), n) <==> (spec_has_game(
                    old(self).games_view(),
                    n,
                ) || has_name(feed.products_view(), n)),
            r matches Err(e) ==> *final(self) == *old(self) && (e matches
            LibraryError::MissingPlatform { machine_name } && exists|k: int|
                0 <= k < eligible_products(old(self).games_view(), feed.products_view()).len()
                    && (#[trigger] eligible_products(
                    old(self).games_view(),
                    feed.products_view(),
                )[k]).machine_name@ == machine_name@ && chosen_platform(
                    feed.platform_order_view(),
                    eligible_products(old(self).games_view(), feed.products_view())[k].downloads@,
                ) == -1),
    {
        let ghost old_games = self.games@;
        let (products, order) = feed.into_parts();
        let ghost products_view = products@;
        let mut added: Vec<TroveGame> = Vec::new();
        let n = products.len();
        let mut i: usize = 0;
        while i < n
            invariant
                0 <= i <= n,
                n == products@.len(),
                products_view == products@,
                products_view == feed.products_view(),
                old_games == self.games@,
                old_games == old(self).games_view(),
                *self == *old(self),
                self.wf(),
                feed.wf(),
                added@.len() == eligible_products(old_games, products_view.take(i as int)).len(),
                games_match(
                    added@,
                    0,
                    eligible_products(old_games, products_view.take(i as int)),
                    feed.platform_order_view(),
                ),
                order@ == feed.platform_order_view(),
            decreases n - i,
        {
            let ghost pre_take = products_view.take(i as int);
            let ghost pre_added = added@;
            let eligible_here = !has_game_name(&self.games, products[i].machine_name.as_str());
            if eligible_here {
                match TroveGame::from_product(&products[i], &order) {
                    Ok(g) => {
                        added.push(g);
                    },
                    Err(e) => {
                        proof {
                            lemma_eligible_contains(old_games, products_view, i as int);
                            let full = eligible_products(old_games, products_view);
                            let k = choose|k: int|
                                0 <= k < full.len() && #[trigger] full[k] == products_view[
                                    i as int
                                ];
                            lemma_chosen_platform_props(order@, products_view[i as int].downloads@);
                            assert(full[k].machine_name@ == products_view[i as int].machine_name@);
                            assert(chosen_platform(order@, full[k].downloads@) == -1);
                            assert(full == eligible_products(
                                old(self).games_view(),
                                feed.products_view(),
                            ));
                            assert(!all_have_platform(full, feed.platform_order_view())) by {
                                assert(chosen_platform(
                                    feed.platform_order_view(),
                                    full[k].downloads@,
                                ) == -1);
                            }
                        }
                        return Err(e);
                    },
                }
            }
            proof {
                assert(products_view.take(i + 1).drop_last() =~= pre_take);
                assert(products_view.take(i + 1).last() == products_view[i as int]);
                let new_elig = eligible_products(old_games, products_view.take(i + 1));
                let old_elig = eligible_products(old_games, pre_take);
                if !spec_has_game(old_games, products_view[i as int].machine_name@) {
                    assert(new_elig == old_elig.push(products_view[i as int]));
                    assert(games_match(added@, 0, new_elig, feed.platform_order_view())) by {
                        assert(forall|k: int|
                            0 <= k < old_elig.len() ==> added@[k] == pre_added[k]);
                        assert(forall|k: int|
                            0 <= k < old_elig.len() ==> new_elig[k] == old_elig[k]);
                        assert(added@[old_elig.len() as int] == added@.last());
                    }
                } else {
                    assert(new_elig == old_elig);
                }
            }
            i = i + 1;
        }
        proof {
            assert(products_view.take(n as int) =~= products_view);
        }
        let ghost eligible = eligible_products(old_games, products_view);
        // Refresh the existing records against the snapshot.
        let mut work: Vec<TroveGame> = Vec::new();
        core::mem::swap(&mut work, &mut self.games);
        let m = work.len();
        let mut j: usize = 0;
        while j < m
            invariant
                0 <= j <= m,
                m == old_games.len(),
                products_view == products@,
                work@ == old_games.skip(j as int),
                self.games@.len() == j,
                forall|x: int|
                    0 <= x < j ==> record_merged(
                        #[trigger] self.games@[x],
                        old_games[x],
                        products_view,
                    ),
                self.root@ == old(self).root_view(),
                self.downloads@ == old(self).downloads_view(),
                self.total == old(self).total_spec(),
                self.number_downloaded == old(self).number_downloaded_spec(),
            decreases m - j,
        {
            let mut g = work.remove(0);
            proof {
                assert(old_games.skip(j as int)[0] == old_games[j as int]);
                assert(old_games.skip(j as int).drop_first() =~= old_games.skip(j + 1));
            }
            let ghost orig = g;
            match find_product_by_name(&products, g.machine_name.as_str()) {
                Some(pi) => {
                    let p = &products[pi];
                    g.human_name = p.human_name.clone();
                    g.description = p.description_text.clone();
                    g.date_added = p.date_added;
                    g.image = p.image.clone();
                    g.logo = clone_opt_string(&p.logo);
                    g.screenshots = clone_string_vec(&p.carousel_content.screenshot);
                    g.thumbnails = clone_string_vec(&p.carousel_content.thumbnail);
                    g.trailer = clone_opt_string(&p.youtube_link);
                    g.removed_from_trove = false;
                    proof {
                        assert(orig == old_games[j as int]);
                        assert(product_index(products_view, orig.machine_name@) == pi as int);
                        assert(record_merged(g, old_games[j as int], products_view));
                    }
                },
                None => {
                    g.removed_from_trove = true;
                    proof {
                        assert(orig == old_games[j as int]);
                        assert(product_index(products_view, orig.machine_name@) == -1);
                        assert(record_merged(g, old_games[j as int], products_view));
                    }
                },
            }
            self.games.push(g);
            j = j + 1;
        }
        let ghost refreshed = self.games@;
        proof {
            assert forall|x: int|
                0 <= x < old_games.len() implies (#[trigger] refreshed[x]).machine_name
                == old_games[x].machine_name && refreshed[x].downloads
                == old_games[x].downloads by {
                assert(record_merged(refreshed[x], old_games[x], products_view));
            }
            assert forall|n2: Seq<char>|
                spec_has_game(refreshed, n2) == spec_has_game(old_games, n2) by {
                assert(forall|x: int|
                    0 <= x < old_games.len() ==> (#[trigger] refreshed[x]).machine_name@
                        == old_games[x].machine_name@);
                if spec_has_game(refreshed, n2) {
                    let x = choose|x: int|
                        0 <= x < refreshed.len() && refreshed[x].machine_name@ == n2;
                    assert(old_games[x].machine_name@ == n2);
                }
                if spec_has_game(old_games, n2) {
                    let x = choose|x: int|
                        0 <= x < old_games.len() && old_games[x].machine_name@ == n2;
                    assert(refreshed[x].machine_name@ == n2);
                }
            }
        }
        let ghost added_view = added@;
        self.games.append(&mut added);
        proof {
            let order_view = feed.platform_order_view();
            assert(self.games@ == refreshed + added_view);
            assert(refreshed.len() == old_games.len());
            assert(forall|k: int|
                0 <= k < added_view.len() ==> self.games@[old_games.len() + k] == added_view[k]);
            assert(forall|j2: int|
                0 <= j2 < old_games.len() ==> (#[trigger] self.games@[j2]).machine_name@
                    == old_games[j2].machine_name@) by {
                assert(forall|j2: int|
                    0 <= j2 < old_games.len() ==> self.games@[j2] == refreshed[j2]);
            }
            assert(games_match(self.games@, old_games.len() as int, eligible, order_view)) by {
                assert(forall|k: int|
                    0 <= k < eligible.len() ==> game_matches_product(
                        added_view[k],
                        #[trigger] eligible[k],
                        order_view,
                    ));
            }
            feed.lemma_wf_unique_names();
            lemma_eligible_props(old_games, products_view);
            assert(eligible == eligible_products(old(self).games_view(), feed.products_view()));
            lemma_eligible_unique(products_view, old_games, order_view, self.games@);
            assert(forall|i2: int|
                0 <= i2 < old_games.len() ==> (#[trigger] old_games[i2]).downloads@.len() == 1);
            assert forall|i2: int|
                0 <= i2 < self.games@.len() implies (#[trigger] self.games@[i2]).downloads@.len()
                == 1 by {
                if i2 < old_games.len() {
                    assert(self.games@[i2] == refreshed[i2]);
                    assert(refreshed[i2].downloads == old_games[i2].downloads);
                } else {
                    let k = i2 - old_games.len();
                    assert(game_matches_product(
                        self.games@[old_games.len() + k],
                        eligible[k],
                        order_view,
                    ));
                }
            }
            lemma_merge_names(old_games, eligible, products_view, self.games@, order_view);
            assert(all_have_platform(eligible, order_view)) by {
                assert(forall|k: int|
                    0 <= k < eligible.len() ==> game_matches_product(
                        self.games@[old_games.len() + k],
                        #[trigger] eligible[k],
                        order_view,
                    ));
            }
        }
        Ok(())
    }
}

/// The eligible list: no longer than the source, each element a product of
/// the source whose machine name has no record, unique by machine name when
/// the source is.
proof fn lemma_eligible_props(games: Seq<TroveGame>, products: Seq<Product>)
    ensures
        eligible_products(games, products).len() <= products.len(),
        forall|k: int|
            0 <= k < eligible_products(games, products).len() ==> has_name(
                products,
                (#[trigger] eligible_products(games, products)[k]).machine_name@,
            ) && !spec_has_game(
                games,
                eligible_products(games, products)[k].machine_name@,
            ),
        unique_names(products) ==> unique_names(eligible_products(games, products)),
    decreases products.len(),
{
    if products.len() > 0 {
        lemma_eligible_props(games, products.drop_last());
        let prev = eligible_products(games, products.drop_last());
        let full = eligible_products(games, products);
        assert(forall|j: int|
            0 <= j < products.len() - 1 ==> products.drop_last()[j] == products[j]);
        assert(forall|n: Seq<char>| #![auto]
            has_name(products.drop_last(), n) ==> has_name(products, n));
        if !spec_has_game(games, products.last().machine_name@) {
            assert(full == prev.push(products.last()));
            assert(forall|k: int| 0 <= k < prev.len() ==> full[k] == prev[k]);
            assert(products[products.len() - 1] == products.last());
            if unique_names(products) {
                assert(unique_names(products.drop_last()));
                assert(forall|k: int|
                    0 <= k < prev.len() ==> (#[trigger] prev[k]).machine_name@
                        != products.last().machine_name@) by {
                    assert forall|k: int|
                        0 <= k < prev.len() implies (#[trigger] prev[k]).machine_name@
                        != products.last().machine_name@ by {
                        let n = prev[k].machine_name@;
                        let i = choose|i: int|
                            0 <= i < products.drop_last().len()
                                && products.drop_last()[i].machine_name@ == n;
                        assert(products[i].machine_name@ == n);
                    }
                }
            }
        }
    }
}

/// A product whose machine name has no record appears in the eligible list.
proof fn lemma_eligible_contains(games: Seq<TroveGame>, products: Seq<Product>, x: int)
    requires
        0 <= x < products.len(),
        !spec_has_game(games, products[x].machine_name@),
    ensures
        exists|k: int|
            0 <= k < eligible_products(games, products).len() && #[trigger] eligible_products(
                games,
                products,
            )[k] == products[x],
    decreases products.len(),
{
    let full = eligible_products(games, products);
    let prev = eligible_products(games, products.drop_last());
    if x == products.len() - 1 {
        assert(products[x] == products.last());
        assert(full == prev.push(products.last()));
        assert(full[full.len() - 1] == products[x]);
    } else {
        assert(products.drop_last()[x] == products[x]);
        lemma_eligible_contains(games, products.drop_last(), x);
        let k = choose|k: int| 0 <= k < prev.len() && #[trigger] prev[k] == products[x];
        if spec_has_game(games, products.last().machine_name@) {
            assert(full[k] == products[x]);
        } else {
            assert(full == prev.push(products.last()));
            assert(full[k] == products[x]);
        }
    }
}

/// With unique product names, the eligible records appended after a merge
/// keep the whole collection unique by machine name.
proof fn lemma_eligible_unique(
    products: Seq<Product>,
    games: Seq<TroveGame>,
    order: Seq<String>,
    merged: Seq<TroveGame>,
)
    requires
        unique_names(products),
        unique_game_names(games),
        merged.len() == games.len() + eligible_products(games, products).len(),
        forall|j: int|
            0 <= j < games.len() ==> (#[trigger] merged[j]).machine_name@
                == games[j].machine_name@,
        games_match(merged, games.len() as int, eligible_products(games, products), order),
    ensures
        unique_game_names(merged),
{
    let eligible = eligible_products(games, products);
    lemma_eligible_props(games, products);
    assert forall|i: int, j: int|
        0 <= i < j < merged.len() implies merged[i].machine_name@ != merged[j].machine_name@ by {
        if j < games.len() {
        } else if i >= games.len() {
            assert(merged[i].machine_name@ == eligible[i - games.len()].machine_name@);
            assert(merged[j].machine_name@ == eligible[j - games.len()].machine_name@);
        } else {
            assert(merged[j].machine_name@ == eligible[j - games.len()].machine_name@);
            assert(!spec_has_game(games, eligible[j - games.len()].machine_name@));
            assert(merged[i].machine_name@ == games[i].machine_name@);
        }
    }
}

/// After a merge, a machine name has a record exactly when it had one
/// before or the snapshot bears it.
proof fn lemma_merge_names(
    games: Seq<TroveGame>,
    eligible: Seq<Product>,
    products: Seq<Product>,
    merged: Seq<TroveGame>,
    order: Seq<String>,
)
    requires
        eligible == eligible_products(games, products),
        merged.len() == games.len() + eligible.len(),
        forall|j: int|
            0 <= j < games.len() ==> (#[trigger] merged[j]).machine_name@
                == games[j].machine_name@,
        games_match(merged, games.len() as int, eligible, order),
    ensures
        forall|n: Seq<char>|
            spec_has_game(merged, n) <==> (spec_has_game(games, n) || has_name(products, n)),
{
    lemma_eligible_props(games, products);
    assert forall|n: Seq<char>|
        spec_has_game(merged, n) <==> (spec_has_game(games, n) || has_name(products, n)) by {
        if spec_has_game(merged, n) {
            let i = choose|i: int| 0 <= i < merged.len() && merged[i].machine_name@ == n;
            if i < games.len() {
                assert(games[i].machine_name@ == n);
            } else {
                assert(merged[i].machine_name@ == eligible[i - games.len()].machine_name@);
                assert(has_name(products, n));
            }
        }
        if spec_has_game(games, n) {
            let i = choose|i: int| 0 <= i < games.len() && games[i].machine_name@ == n;
            assert(merged[i].machine_name@ == n);
        }
        if has_name(products, n) && !spec_has_game(games, n) {
            let i = choose|i: int| 0 <= i < products.len() && products[i].machine_name@ == n;
            lemma_eligible_contains(games, products, i);
            let k = choose|k: int|
                0 <= k < eligible.len() && #[trigger] eligible[k] == products[i];
            assert(merged[games.len() + k].machine_name@ == n);
        }
    }
}

/// Whether some record bears the machine name `name`.
pub fn has_game_name(games: &Vec<TroveGame>, name: &str) -> (r: bool)
    ensures
        r == spec_has_game(games@, name@),
{
    let n = games.len();
    let mut i: usize = 0;
    while i < n
        invariant
            0 <= i <= n,
            n == games@.len(),
            forall|j: int| 0 <= j < i ==> (#[trigger] games@[j]).machine_name@ != name@,
        decreases n - i,
    {
        if str_eq(games[i].machine_name.as_str(), name) {
            return true;
        }
        i = i + 1;
    }
    false
}

/// Merging the same snapshot twice adds nothing: once every snapshot name
/// has a record, the eligible list of a further merge is empty, so by the
/// merge's contract the record collection keeps its size and content.
pub proof fn lemma_add_games_idempotent(games: Seq<TroveGame>, products: Seq<Product>)
    requires
        forall|i: int|
            0 <= i < products.len() ==> spec_has_game(
                games,
                (#[trigger] products[i]).machine_name@,
            ),
    ensures
        eligible_products(games, products) == Seq::<Product>::empty(),
    decreases products.len(),
{
    if products.len() > 0 {
        assert(forall|j: int|
            0 <= j < products.len() - 1 ==> products.drop_last()[j] == products[j]);
        lemma_add_games_idempotent(games, products.drop_last());
        assert(spec_has_game(games, products.last().machine_name@));
    }
}


impl Trove {
    /// An empty library over the two directories, merged with one snapshot.
    pub fn from(
        root: String,
        downloads: String,
        root_exists: bool,
        downloads_exists: bool,
        feed: TroveFeed,
    ) -> (r: Result<Trove, LibraryError>)
        requires
            feed.wf(),
            feed.products_view().len() <= u32::MAX,
        ensures
            !root_exists ==> (r matches Err(LibraryError::Filesystem { path }) && path@ == root@),
            root_exists && !downloads_exists ==> (r matches Err(LibraryError::Filesystem {
                path,
            }) && path@ == downloads@),
            root_exists && downloads_exists ==> (r is Ok <==> all_have_platform(
                eligible_products(Seq::<TroveGame>::empty(), feed.products_view()),
                feed.platform_order_view(),
            )),
            r matches Ok(t) ==> t.wf() && t.root_view() == root@ && t.downloads_view()
                == downloads@ && t.total_spec() == 0 && t.number_downloaded_spec() == 0
                && t.games_view().len() == eligible_products(
                Seq::<TroveGame>::empty(),
                feed.products_view(),
            ).len() && games_match(
                t.games_view(),
                0,
                eligible_products(Seq::<TroveGame>::empty(), feed.products_view()),
                feed.platform_order_view(),
            ) && (forall|n: Seq<char>|
                spec_has_game(t.games_view(), n) <==> has_name(feed.products_view(), n)),
    {
        let mut trove = match Trove::new(root, downloads, root_exists, downloads_exists) {
            Ok(t) => t,
            Err(e) => {
                return Err(e);
            },
        };
        match trove.add_games(feed) {
            Ok(()) => Ok(trove),
            Err(e) => Err(e),
        }
    }

    /// Rebuilds a library from persisted records, re-establishing every
    /// invariant: the first record per machine name is kept, a record not
    /// carrying exactly one chosen download is dropped, and the counters
    /// are recomputed from what was kept. Each directory must exist — the
    /// caller passes what the filesystem shows.
    pub fn from_records(
        root: String,
        downloads: String,
        root_exists: bool,
        downloads_exists: bool,
        records: Vec<TroveGame>,
    ) -> (r: Result<Trove, LibraryError>)
        requires
            records@.len() <= u32::MAX,
        ensures
            r is Ok <==> (root_exists && downloads_exists),
            !root_exists ==> (r matches Err(LibraryError::Filesystem { path }) && path@ == root@),
            root_exists && !downloads_exists ==> (r matches Err(LibraryError::Filesystem {
                path,
            }) && path@ == downloads@),
            r matches Ok(t) ==> {
                &&& t.wf()
                &&& t.games_view() == restored_records(records@)
                &&& t.root_view() == root@
                &&& t.downloads_view() == downloads@
                &&& t.total_spec() == restored_records(records@).len()
                &&& t.number_downloaded_spec() == count_downloaded(restored_records(records@))
            },
    {
        if !root_exists {
            return Err(LibraryError::Filesystem { path: root });
        }
        if !downloads_exists {
            return Err(LibraryError::Filesystem { path: downloads });
        }
        let ghost all = records@;
        let mut records = records;
        let mut games: Vec<TroveGame> = Vec::new();
        let mut count: u32 = 0;
        proof {
            assert(game_names_set(games@) =~= Set::<Seq<char>>::empty()) by {
                assert(forall|n: Seq<char>| !spec_has_game(games@, n));
            }
            assert(games@ + restore_from(records@, game_names_set(games@)) =~= restore_from(
                records@,
                game_names_set(games@),
            ));
        }
        while records.len() > 0
            invariant
                restored_records(all) == games@ + restore_from(records@, game_names_set(games@)),
                games@.len() + records@.len() <= all.len(),
                all.len() <= u32::MAX,
                count == count_downloaded(games@),
                count <= games@.len(),
                unique_game_names(games@),
                forall|i: int|
                    0 <= i < games@.len() ==> (#[trigger] games@[i]).downloads@.len() == 1,
            decreases records@.len(),
        {
            let g = records.remove(0);
            let ghost pre_records = records@.insert(0, g);
            let ghost pre_games = games@;
            proof {
                assert(pre_records[0] == g);
                assert(pre_records.drop_first() =~= records@);
            }
            let keep = g.downloads.len() == 1 && !has_game_name(&games, g.machine_name.as_str());
            if keep {
                let downloaded = g.downloaded;
                games.push(g);
                if downloaded {
                    count = count + 1;
                }
                proof {
                    lemma_game_names_set_push(pre_games, games@.last());
                    assert(games@.drop_last() =~= pre_games);
                    assert(restore_from(pre_records, game_names_set(pre_games)) == seq![
                        games@.last(),
                    ] + restore_from(records@, game_names_set(games@)));
                    assert(pre_games + (seq![games@.last()] + restore_from(
                        records@,
                        game_names_set(games@),
                    )) =~= games@ + restore_from(records@, game_names_set(games@)));
                    assert(count_downloaded(games@) == count_downloaded(pre_games) + (
                    if games@.last().downloaded {
                        1nat
                    } else {
                        0nat
                    }));
                }
            } else {
                proof {
                    assert(game_names_set(pre_games).contains(g.machine_name@)
                        || g.downloads@.len() != 1);
                    assert(restore_from(pre_records, game_names_set(pre_games)) == restore_from(
                        records@,
                        game_names_set(games@),
                    ));
                }
            }
        }
        proof {
            assert(restore_from(records@, game_names_set(games@)) =~= Seq::<TroveGame>::empty());
            assert(games@ + Seq::<TroveGame>::empty() =~= games@);
            lemma_restore_from_props(all, Set::empty());
        }
        let total = games.len() as u32;
        Ok(Trove { downloads, root, number_downloaded: count, total, games })
    }

    /// Recomputes each record's `downloaded` flag from what the filesystem
    /// currently shows — `present[i]` says whether record `i`'s expected
    /// file exists under the root — and refreshes the aggregate counts.
    /// Idempotent and never authoritative beyond the given facts.
    pub fn update_download_status(&mut self, present: &Vec<bool>)
        requires
            old(self).wf(),
            present@.len() == old(self).games_view().len(),
        ensures
            final(self).wf(),
            final(self).root_view() == old(self).root_view(),
            final(self).downloads_view() == old(self).downloads_view(),
            final(self).games_view().len() == old(self).games_view().len(),
            forall|i: int|
                0 <= i < old(self).games_view().len() ==> final(self).games_view()[i]
                    == (TroveGame { downloaded: present@[i], ..old(self).games_view()[i] }),
            final(self).total_spec() == old(self).games_view().len(),
            final(self).number_downloaded_spec() == count_true(present@),
    {
        let ghost old_games = self.games@;
        let mut work: Vec<TroveGame> = Vec::new();
        core::mem::swap(&mut work, &mut self.games);
        let mut count: u32 = 0;
        let n = work.len();
        let mut i: usize = 0;
        while i < n
            invariant
                0 <= i <= n,
                n == old_games.len(),
                n == present@.len(),
                n <= u32::MAX,
                work@ == old_games.skip(i as int),
                self.games@.len() == i,
                forall|j: int|
                    0 <= j < i ==> self.games@[j] == (TroveGame {
                        downloaded: present@[j],
                        ..old_games[j]
                    }),
                count == count_true(present@.take(i as int)),
                count <= i,
                self.root@ == old(self).root_view(),
                self.downloads@ == old(self).downloads_view(),
                self.total == old(self).total_spec(),
            decreases n - i,
        {
            let mut g = work.remove(0);
            proof {
                assert(old_games.skip(i as int)[0] == old_games[i as int]);
                assert(old_games.skip(i as int).drop_first() =~= old_games.skip(i + 1));
            }
            let flag = present[i];
            g.downloaded = flag;
            if flag {
                count = count + 1;
            }
            self.games.push(g);
            proof {
                assert(present@.take(i + 1).drop_last() =~= present@.take(i as int));
                assert(present@.take(i + 1).last() == present@[i as int]);
            }
            i = i + 1;
        }
        self.number_downloaded = count;
        self.total = n as u32;
        proof {
            assert(present@.take(n as int) =~= present@);
            assert(unique_game_names(self.games@)) by {
                assert(forall|a: int, b: int|
                    0 <= a < b < self.games@.len() ==> self.games@[a].machine_name@
                        == old_games[a].machine_name@ && self.games@[b].machine_name@
                        == old_games[b].machine_name@);
            }
        }
    }

    /// The records whose expected file is currently present.
    pub fn downloaded(&self) -> (r: Vec<&TroveGame>)
        ensures
            r@.map_values(|g: &TroveGame| *g) == self.games_view().filter(
                |g: TroveGame| g.downloaded,
            ),
    {
        let ghost pred = |g: TroveGame| g.downloaded;
        let mut out: Vec<&TroveGame> = Vec::new();
        let n = self.games.len();
        let mut i: usize = 0;
        proof {
            assert(self.games@.take(0).filter(pred) =~= Seq::<TroveGame>::empty()) by {
                reveal_with_fuel(Seq::filter, 2);
                assert(self.games@.take(0) =~= Seq::<TroveGame>::empty());
            }
            assert(out@.map_values(|g: &TroveGame| *g) =~= Seq::<TroveGame>::empty());
        }
        while i < n
            invariant
                0 <= i <= n,
                n == self.games@.len(),
                pred == (|g: TroveGame| g.downloaded),
                out@.map_values(|g: &TroveGame| *g) == self.games@.take(i as int).filter(pred),
            decreases n - i,
        {
            let ghost pre_take = self.games@.take(i as int);
            let ghost pre_out = out@;
            if self.games[i].downloaded {
                out.push(&self.games[i]);
            }
            proof {
                lemma_filter_step(self.games@, pred, i as int);
                if pred(self.games@[i as int]) {
                    assert(out@.map_values(|g: &TroveGame| *g) =~= self.games@.take(i + 1).filter(
                        pred,
                    )) by {
                        assert(out@ == pre_out.push(&self.games[i as int]));
                        assert(self.games@.take(i + 1).filter(pred) == pre_take.filter(pred).push(
                            self.games@[i as int],
                        ));
                    }
                } else {
                    assert(self.games@.take(i + 1).filter(pred) == pre_take.filter(pred));
                }
            }
            i = i + 1;
        }
        proof {
            assert(self.games@.take(n as int) =~= self.games@);
        }
        out
    }

    /// The records whose expected file is currently absent.
    pub fn not_downloaded(&self) -> (r: Vec<&TroveGame>)
        ensures
            r@.map_values(|g: &TroveGame| *g) == self.games_view().filter(
                |g: TroveGame| !g.downloaded,
            ),
    {
        let ghost pred = |g: TroveGame| !g.downloaded;
        let mut out: Vec<&TroveGame> = Vec::new();
        let n = self.games.len();
        let mut i: usize = 0;
        proof {
            assert(self.games@.take(0).filter(pred) =~= Seq::<TroveGame>::empty()) by {
                reveal_with_fuel(Seq::filter, 2);
                assert(self.games@.take(0) =~= Seq::<TroveGame>::empty());
            }
            assert(out@.map_values(|g: &TroveGame| *g) =~= Seq::<TroveGame>::empty());
        }
        while i < n
            invariant
                0 <= i <= n,
                n == self.games@.len(),
                pred == (|g: TroveGame| !g.downloaded),
                out@.map_values(|g: &TroveGame| *g) == self.games@.take(i as int).filter(pred),
            decreases n - i,
        {
            let ghost pre_take = self.games@.take(i as int);
            let ghost pre_out = out@;
            if !self.games[i].downloaded {
                out.push(&self.games[i]);
            }
            proof {
                lemma_filter_step(self.games@, pred, i as int);
                if pred(self.games@[i as int]) {
                    assert(out@.map_values(|g: &TroveGame| *g) =~= self.games@.take(i + 1).filter(
                        pred,
                    )) by {
                        assert(out@ == pre_out.push(&self.games[i as int]));
                        assert(self.games@.take(i + 1).filter(pred) == pre_take.filter(pred).push(
                            self.games@[i as int],
                        ));
                    }
                } else {
                    assert(self.games@.take(i + 1).filter(pred) == pre_take.filter(pred));
                }
            }
            i = i + 1;
        }
        proof {
            assert(self.games@.take(n as int) =~= self.games@);
        }
        out
    }

    /// Caching of per-game metadata images into a local store; currently
    /// performs no work and always succeeds.
    pub fn cache_all_metadata(&self) -> (r: Result<(), LibraryError>)
        ensures
            r is Ok,
    {
        Ok(())
    }

    /// One line describing a record: date added, display name, and whether
    /// it is downloaded.
    pub fn format(&self, g: &TroveGame) -> (r: String)
        ensures
            r@ == digits_of(g.date_added as nat) + " "@ + g.human_name@ + " "@ + bool_str(
                g.downloaded,
            ),
    {
        let mut s = u64_to_string(g.date_added as u64);
        s.append(" ");
        s.append(g.human_name.as_str());
        s.append(" ");
        if g.downloaded {
            s.append("true");
        } else {
            s.append("false");
        }
        s
    }

    /// The expected file names, among what the downloads directory
    /// currently holds (`files`), of records not yet relocated to the root.
    pub fn stray_downloads(&self, files: &Vec<String>) -> (r: Vec<String>)
        requires
            self.wf(),
        ensures
            r@.map_values(|s: String| s@) == spec_strays(self.games_view(), files@),
    {
        let ghost pred = |g: TroveGame| seq_contains_str(files@, installer_of(g));
        let mut out: Vec<String> = Vec::new();
        let n = self.games.len();
        let mut i: usize = 0;
        proof {
            assert(self.games@.take(0).filter(pred) =~= Seq::<TroveGame>::empty()) by {
                reveal_with_fuel(Seq::filter, 2);
                assert(self.games@.take(0) =~= Seq::<TroveGame>::empty());
            }
            assert(out@.map_values(|s: String| s@) =~= Seq::<TroveGame>::empty().map_values(
                |g: TroveGame| installer_of(g),
            ));
        }
        while i < n
            invariant
                0 <= i <= n,
                n == self.games@.len(),
                self.wf(),
                pred == (|g: TroveGame| seq_contains_str(files@, installer_of(g))),
                out@.map_values(|s: String| s@) == self.games@.take(i as int).filter(
                    pred,
                ).map_values(|g: TroveGame| installer_of(g)),
            decreases n - i,
        {
            let ghost pre_take = self.games@.take(i as int);
            let ghost pre_out = out@;
            let g = &self.games[i];
            let name = &g.downloads[0].1;
            proof {
                assert(*g == self.games@[i as int]);
                assert(self.games@[i as int].downloads@.len() == 1);
                assert(name@ == installer_of(self.games@[i as int]));
            }
            let hit = contains_string(files, name.as_str());
            if hit {
                out.push(name.clone());
            }
            proof {
                lemma_filter_step(self.games@, pred, i as int);
                let mapper = |g: TroveGame| installer_of(g);
                if pred(self.games@[i as int]) {
                    assert(out@.map_values(|s: String| s@) =~= self.games@.take(i + 1).filter(
                        pred,
                    ).map_values(mapper)) by {
                        assert(out@ == pre_out.push(self.games@[i as int].downloads@[0].1));
                        assert(self.games@.take(i + 1).filter(pred) == pre_take.filter(pred).push(
                            self.games@[i as int],
                        ));
                        let lhs = out@.map_values(|s: String| s@);
                        let prev = pre_out.map_values(|s: String| s@);
                        let pre_filter = pre_take.filter(pred);
                        let rhs = pre_filter.push(self.games@[i as int]).map_values(mapper);
                        assert(forall|k: int| 0 <= k < prev.len() ==> lhs[k] == prev[k]);
                        assert(forall|k: int|
                            0 <= k < pre_filter.len() ==> rhs[k] == mapper(pre_filter[k]));
                        assert(lhs[lhs.len() - 1] == installer_of(self.games@[i as int]));
                        assert(rhs[rhs.len() - 1] == mapper(self.games@[i as int]));
                    }
                } else {
                    assert(self.games@.take(i + 1).filter(pred) == pre_take.filter(pred));
                    assert(out@.map_values(|s: String| s@) =~= self.games@.take(i + 1).filter(
                        pred,
                    ).map_values(mapper));
                }
            }
            i = i + 1;
        }
        proof {
            assert(self.games@.take(n as int) =~= self.games@);
        }
        out
    }

    /// A relocation session over the strays found among `files`.
    pub fn move_session(&self, files: &Vec<String>) -> (r: MoveSession)
        requires
            self.wf(),
        ensures
            r.wf(),
            r.pending_deep() == spec_strays(self.games_view(), files@),
            r.unmoved_deep() == Seq::<Seq<char>>::empty(),
            !r.done(),
            r.expects(MoveEvent::Started),
    {
        let strays = self.stray_downloads(files);
        MoveSession::new(strays)
    }
}

/// The rendering of a truth value.
pub open spec fn bool_str(b: bool) -> Seq<char> {
    if b {
        "true"@
    } else {
        "false"@
    }
}

/// Whether some string of `files` reads `s`.
pub fn contains_string(files: &Vec<String>, s: &str) -> (r: bool)
    ensures
        r == seq_contains_str(files@, s@),
{
    let n = files.len();
    let mut i: usize = 0;
    while i < n
        invariant
            0 <= i <= n,
            n == files@.len(),
            forall|j: int| 0 <= j < i ==> (#[trigger] files@[j])@ != s@,
        decreases n - i,
    {
        if str_eq(files[i].as_str(), s) {
            return true;
        }
        i = i + 1;
    }
    false
}

/// One step of `filter` along a prefix.
proof fn lemma_filter_step(s: Seq<TroveGame>, pred: spec_fn(TroveGame) -> bool, i: int)
    requires
        0 <= i < s.len(),
    ensures
        pred(s[i]) ==> s.take(i + 1).filter(pred) == s.take(i).filter(pred).push(s[i]),
        !pred(s[i]) ==> s.take(i + 1).filter(pred) == s.take(i).filter(pred),
{
    reveal(Seq::filter);
    assert(s.take(i + 1).drop_last() =~= s.take(i));
    assert(s.take(i + 1).last() == s[i]);
}

// ---------------------------------------------------------------------------
// Relocating stray downloads
// ---------------------------------------------------------------------------

/// What the driver of a relocation session must do next.
#[derive(Debug)]
pub enum MoveAction {
    /// Ask whether the root already holds a file of this name.
    CheckDest { name: String },
    /// Copy this file from the downloads directory to the root.
    CopyToRoot { name: String },
    /// Delete this file from the downloads directory; issued only right
    /// after its copy to the root succeeded.
    RemoveSource { name: String },
    /// Nothing is left to do.
    Finished,
}

/// What the driver reports back to the session.
#[derive(Debug)]
pub enum MoveEvent {
    /// The session is being started.
    Started,
    /// Whether the destination already exists.
    DestExists { exists: bool },
    /// Whether the copy succeeded.
    Copied { ok: bool },
    /// Whether deleting the source succeeded.
    Removed { ok: bool },
}

enum Awaiting {
    Start,
    Dest,
    Copy,
    Remove,
    Done,
}

/// An event that leaves the current file unmoved: an existing destination,
/// a failed copy, or a failed delete of the source.
pub open spec fn reports_unmoved(ev: MoveEvent) -> bool {
    ||| ev matches MoveEvent::DestExists { exists: true }
    ||| ev matches MoveEvent::Copied { ok: false }
    ||| ev matches MoveEvent::Removed { ok: false }
}

/// An event that finishes the current file and moves the session to the
/// next stray: an existing destination, a failed copy, or the outcome of a
/// source removal.
pub open spec fn advances(ev: MoveEvent) -> bool {
    ||| ev matches MoveEvent::DestExists { exists: true }
    ||| ev matches MoveEvent::Copied { ok: false }
    ||| ev is Removed
}

/// A relocation session: the strays still to process, how far it has come,
/// what event it awaits, and the files reported unmoved so far. The driver
/// performs each returned action against the filesystem and reports the
/// outcome; every decision — and in particular that a source is deleted
/// only after its copy succeeded, and an existing destination is never
/// overwritten — is made here.
pub struct MoveSession {
    pending: Vec<String>,
    idx: usize,
    awaiting: Awaiting,
    unmoved: Vec<String>,
}

impl MoveSession {
    /// The names still to process, in order.
    pub closed spec fn pending_deep(&self) -> Seq<Seq<char>> {
        self.pending@.map_values(|s: String| s@)
    }

    /// The names reported unmoved so far, in order.
    pub closed spec fn unmoved_deep(&self) -> Seq<Seq<char>> {
        self.unmoved@.map_values(|s: String| s@)
    }

    pub closed spec fn idx_spec(&self) -> int {
        self.idx as int
    }

    /// The name the session is currently working on.
    pub closed spec fn current(&self) -> Seq<char> {
        self.pending_deep()[self.idx_spec()]
    }

    /// Whether every stray has been processed.
    pub closed spec fn done(&self) -> bool {
        self.awaiting is Done
    }

    /// Which event the session awaits.
    pub closed spec fn expects(&self, ev: MoveEvent) -> bool {
        match self.awaiting {
            Awaiting::Start => ev is Started,
            Awaiting::Dest => ev is DestExists,
            Awaiting::Copy => ev is Copied,
            Awaiting::Remove => ev is Removed,
            Awaiting::Done => false,
        }
    }

    pub closed spec fn wf(&self) -> bool {
        &&& self.idx <= self.pending@.len()
        &&& match self.awaiting {
            Awaiting::Start => self.idx == 0,
            Awaiting::Dest => self.idx < self.pending@.len(),
            Awaiting::Copy => self.idx < self.pending@.len(),
            Awaiting::Remove => self.idx < self.pending@.len(),
            Awaiting::Done => self.idx == self.pending@.len(),
        }
    }

    /// A fresh session over these strays; the first step must carry
    /// `Started`.
    pub fn new(strays: Vec<String>) -> (r: MoveSession)
        ensures
            r.wf(),
            r.pending_deep() == strays@.map_values(|s: String| s@),
            r.unmoved_deep() == Seq::<Seq<char>>::empty(),
            !r.done(),
            r.expects(MoveEvent::Started),
    {
        let r = MoveSession { pending: strays, idx: 0, awaiting: Awaiting::Start, unmoved: Vec::new() };
        proof {
            assert(r.unmoved_deep() =~= Seq::<Seq<char>>::empty());
        }
        r
    }

    /// Whether every stray has been processed.
    pub fn is_done(&self) -> (r: bool)
        ensures
            r == self.done(),
    {
        match self.awaiting {
            Awaiting::Done => true,
            _ => false,
        }
    }

    /// The files that could not be moved, once the session is done.
    pub fn unmoved(&self) -> (r: &Vec<String>)
        ensures
            r@.map_values(|s: String| s@) == self.unmoved_deep(),
    {
        &self.unmoved
    }

    fn advance(&mut self) -> (r: MoveAction)
        requires
            old(self).wf(),
            old(self).idx_spec() < old(self).pending_deep().len(),
        ensures
            final(self).wf(),
            final(self).pending_deep() == old(self).pending_deep(),
            final(self).unmoved_deep() == old(self).unmoved_deep(),
            final(self).idx_spec() == old(self).idx_spec() + 1,
            old(self).idx_spec() + 1 < old(self).pending_deep().len() ==> (r matches
            MoveAction::CheckDest { name } && name@ == old(self).pending_deep()[old(self).idx_spec() + 1] && !final(self).done() && (forall|b: bool|
                final(self).expects((MoveEvent::DestExists { exists: b })))),
            old(self).idx_spec() + 1 >= old(self).pending_deep().len() ==> r is Finished,
            (r is Finished) <==> final(self).done(),
    {
        let n = self.pending.len();
        self.idx = self.idx + 1;
        if self.idx < n {
            self.awaiting = Awaiting::Dest;
            MoveAction::CheckDest { name: self.pending[self.idx].clone() }
        } else {
            self.awaiting = Awaiting::Done;
            MoveAction::Finished
        }
    }

    fn report_unmoved(&mut self)
        requires
            old(self).wf(),
            old(self).idx_spec() < old(self).pending_deep().len(),
        ensures
            final(self).wf(),
            final(self).pending_deep() == old(self).pending_deep(),
            final(self).idx_spec() == old(self).idx_spec(),
            final(self).awaiting == old(self).awaiting,
            final(self).unmoved_deep() == old(self).unmoved_deep().push(old(self).current()),
    {
        let name = self.pending[self.idx].clone();
        let ghost pre = self.unmoved@;
        self.unmoved.push(name);
        proof {
            assert(self.unmoved_deep() =~= pre.map_values(|s: String| s@).push(
                self.pending@[self.idx as int]@,
            ));
        }
    }

    /// Feeds the session the outcome of the last action and takes the next
    /// one. A `RemoveSource` is returned only right after this very file's
    /// copy succeeded, and a `CopyToRoot` only after the destination was
    /// reported absent: a source is never deleted before its copy, and an
    /// existing destination is never overwritten, only reported unmoved.
    pub fn step(&mut self, ev: MoveEvent) -> (r: MoveAction)
        requires
            old(self).wf(),
            old(self).expects(ev),
        ensures
            final(self).wf(),
            final(self).pending_deep() == old(self).pending_deep(),
            final(self).unmoved_deep() == (if reports_unmoved(ev) {
                old(self).unmoved_deep().push(old(self).current())
            } else {
                old(self).unmoved_deep()
            }),
            // A source is deleted only right after its own successful copy,
            // and a copy is requested only after the destination was absent.
            r matches MoveAction::RemoveSource { name } ==> ((ev matches MoveEvent::Copied {
                ok: true,
            }) && name@ == old(self).current() && final(self).idx_spec() == old(self).idx_spec()),
            r matches MoveAction::CopyToRoot { name } ==> ((ev matches MoveEvent::DestExists {
                exists: false,
            }) && name@ == old(self).current() && final(self).idx_spec() == old(self).idx_spec()),
            r matches MoveAction::CheckDest { name } ==> !final(self).done() && name@ == final(self).current(),
            (r is Finished) <==> final(self).done(),
            final(self).idx_spec() >= old(self).idx_spec(),
            // Each event demands its action: the session never stops early
            // and never skips a stray.
            ev is Started && old(self).pending_deep().len() > 0 ==> (r matches
            MoveAction::CheckDest { name } && name@ == old(self).pending_deep()[0] && final(self).idx_spec() == 0),
            ev is Started && old(self).pending_deep().len() == 0 ==> r is Finished,
            ev matches MoveEvent::DestExists { exists: false } ==> (r matches
            MoveAction::CopyToRoot { name } && name@ == old(self).current()),
            ev matches MoveEvent::Copied { ok: true } ==> (r matches MoveAction::RemoveSource {
                name,
            } && name@ == old(self).current()),
            advances(ev) ==> final(self).idx_spec() == old(self).idx_spec() + 1,
            advances(ev) && old(self).idx_spec() + 1 < old(self).pending_deep().len() ==> (r
            matches MoveAction::CheckDest { name } && name@ == old(self).pending_deep()[old(self).idx_spec() + 1]),
            advances(ev) && old(self).idx_spec() + 1 >= old(self).pending_deep().len() ==> r
                is Finished,
            // Finished is owed only once every stray was processed.
            r is Finished ==> final(self).idx_spec() == final(self).pending_deep().len(),
            // What the session awaits next, so a driver can keep stepping.
            r matches MoveAction::CheckDest { name: _ } ==> forall|b: bool|
                final(self).expects((MoveEvent::DestExists { exists: b })),
            r matches MoveAction::CopyToRoot { name: _ } ==> forall|b: bool|
                final(self).expects((MoveEvent::Copied { ok: b })),
            r matches MoveAction::RemoveSource { name: _ } ==> forall|b: bool|
                final(self).expects((MoveEvent::Removed { ok: b })),
    {
        match ev {
            MoveEvent::Started => {
                if self.pending.len() == 0 {
                    self.awaiting = Awaiting::Done;
                    MoveAction::Finished
                } else {
                    self.awaiting = Awaiting::Dest;
                    MoveAction::CheckDest { name: self.pending[0].clone() }
                }
            },
            MoveEvent::DestExists { exists } => {
                if exists {
                    self.report_unmoved();
                    self.advance()
                } else {
                    self.awaiting = Awaiting::Copy;
                    MoveAction::CopyToRoot { name: self.pending[self.idx].clone() }
                }
            },
            MoveEvent::Copied { ok } => {
                if ok {
                    self.awaiting = Awaiting::Remove;
                    MoveAction::RemoveSource { name: self.pending[self.idx].clone() }
                } else {
                    self.report_unmoved();
                    self.advance()
                }
            },
            MoveEvent::Removed { ok } => {
                if !ok {
                    self.report_unmoved();
                }
                self.advance()
            },
        }
    }
}

} // verus!\n
