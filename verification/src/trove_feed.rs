//! The catalog feed: its data model, the assembly of a complete,
//! de-duplicated snapshot from a paginated remote source, staleness
//! detection with one bounded refresh, and the pure operations over
//! snapshots (sorting, diffing, the load pipeline).
use crate::cache::Cache;
use crate::cache::CacheError;
use crate::cache::Fetcher;
use crate::cache::digest_of;
use crate::util::digits_of;
use crate::util::lemma_lex_le_antisym;
use crate::util::lemma_lex_le_total;
use crate::util::lemma_lex_le_trans;
use crate::util::lex_le;
use crate::util::str_eq;
use crate::util::str_le;
use crate::util::u64_to_string;
use crate::util::digit_char;
use vstd::prelude::*;

verus! {

broadcast use vstd::seq_lib::group_to_multiset_ensures, vstd::map::group_map_axioms;

// ---------------------------------------------------------------------------
// The data model
// ---------------------------------------------------------------------------

/// The feed's countdown timer: the capture time and the moment the next
/// addition is due, both as the feed's timestamp text.
#[derive(Debug)]
pub struct TimerOptions {
    pub current_time: String,
    pub next_addition_time: String,
}

/// Where a download can be had.
#[derive(Debug)]
pub struct Url {
    pub web: String,
    pub bittorrent: Option<String>,
}

/// One download descriptor: locator, checksum and size.
#[derive(Debug)]
pub struct Download {
    pub machine_name: String,
    pub name: String,
    pub url: Url,
    pub file_size: u64,
    pub md5: String,
    pub size: Option<String>,
}

/// The image carousel of one product.
#[derive(Debug)]
pub struct CarouselContent {
    pub youtube_link: Option<Vec<String>>,
    pub thumbnail: Vec<String>,
    pub screenshot: Vec<String>,
}

#[derive(Debug)]
pub struct Publisher {
    pub publisher_name: String,
    pub publisher_uri: Option<String>,
}

#[derive(Debug)]
pub struct Developer {
    pub developer_name: String,
    pub developer_url: Option<String>,
}

/// One catalog item. `machine_name` is the stable identity; `human_name` is
/// the display name and is not guaranteed unique. `downloads` maps platform
/// keys to download descriptors as a list of entries; the first entry under
/// a key is authoritative, as a map's single entry would be, and any later
/// duplicate of the key is ignored by platform selection.
#[derive(Debug)]
pub struct Product {
    pub all_access: bool,
    pub background_image: Option<String>,
    pub background_color: Option<String>,
    pub carousel_content: CarouselContent,
    pub date_added: u32,
    pub description_text: String,
    pub developers: Option<Vec<Developer>>,
    pub downloads: Vec<(String, Download)>,
    pub human_name: String,
    pub humble_original: Option<bool>,
    pub image: String,
    pub logo: Option<String>,
    pub machine_name: String,
    pub marketing_blurb: String,
    pub popularity: u16,
    pub publishers: Option<Vec<Publisher>>,
    pub trove_showcase_css: Option<String>,
    pub youtube_link: Option<String>,
}

/// The feed as one value: the product list plus the surrounding metadata.
#[derive(Debug)]
pub struct Feed {
    pub all_access: Vec<String>,
    pub download_platform_order: Vec<String>,
    pub newly_added: Vec<Product>,
    pub countdown_timer_options: TimerOptions,
    pub standard_products: Vec<Product>,
}

// ---------------------------------------------------------------------------
// Names, de-duplication, and the merge of the newly-added list
// ---------------------------------------------------------------------------

/// Whether some product in `s` bears the machine name `n`.
pub open spec fn has_name(s: Seq<Product>, n: Seq<char>) -> bool {
    exists|i: int| 0 <= i < s.len() && s[i].machine_name@ == n
}

/// No two products in `s` share a machine name.
pub open spec fn unique_names(s: Seq<Product>) -> bool {
    forall|i: int, j: int|
        0 <= i < j < s.len() ==> s[i].machine_name@ != s[j].machine_name@
}

/// The set of machine names borne by products of `s`.
pub open spec fn names_set(s: Seq<Product>) -> Set<Seq<char>> {
    Set::new(|n: Seq<char>| has_name(s, n))
}

/// First-seen-wins de-duplication, carrying the set of names already seen.
pub open spec fn dedupe_from(s: Seq<Product>, seen: Set<Seq<char>>) -> Seq<Product>
    decreases s.len(),
{
    if s.len() == 0 {
        Seq::empty()
    } else if seen.contains(s[0].machine_name@) {
        dedupe_from(s.drop_first(), seen)
    } else {
        seq![s[0]] + dedupe_from(s.drop_first(), seen.insert(s[0].machine_name@))
    }
}

/// First-seen-wins de-duplication by machine name.
pub open spec fn dedupe(s: Seq<Product>) -> Seq<Product> {
    dedupe_from(s, Set::empty())
}

proof fn lemma_dedupe_from_props(s: Seq<Product>, seen: Set<Seq<char>>)
    ensures
        unique_names(dedupe_from(s, seen)),
        forall|n: Seq<char>|
            has_name(dedupe_from(s, seen), n) <==> (has_name(s, n) && !seen.contains(n)),
    decreases s.len(),
{
    if s.len() > 0 {
        let first = s[0];
        let rest = s.drop_first();
        assert(forall|j: int| 1 <= j < s.len() ==> s[j] == rest[j - 1]);
        assert(forall|n: Seq<char>|
            has_name(s, n) <==> (n == first.machine_name@ || has_name(rest, n))) by {
            assert(forall|n: Seq<char>| #![auto] has_name(rest, n) ==> has_name(s, n));
        }
        if seen.contains(first.machine_name@) {
            lemma_dedupe_from_props(rest, seen);
        } else {
            let seen2 = seen.insert(first.machine_name@);
            lemma_dedupe_from_props(rest, seen2);
            let tail = dedupe_from(rest, seen2);
            let out = dedupe_from(s, seen);
            assert(out == seq![first] + tail);
            assert(out[0] == first);
            assert(forall|j: int| 1 <= j < out.len() ==> out[j] == tail[j - 1]);
            assert(forall|n: Seq<char>| #![auto]
                has_name(out, n) <==> (n == first.machine_name@ || has_name(tail, n))) by {
                assert(forall|i: int|
                    1 <= i < out.len() ==> out[i].machine_name@ == tail[i - 1].machine_name@);
                assert(forall|i: int| #![auto]
                    0 <= i < tail.len() ==> tail[i].machine_name@ == out[i + 1].machine_name@);
            }
            assert(unique_names(out)) by {
                assert(has_name(dedupe_from(rest, seen2), first.machine_name@) <==> (has_name(
                    rest,
                    first.machine_name@,
                ) && !seen2.contains(first.machine_name@)));
                assert(!has_name(tail, first.machine_name@));
                assert(forall|i: int, j: int|
                    1 <= i < j < out.len() ==> out[i].machine_name@ != out[j].machine_name@);
                assert(forall|j: int| #![auto]
                    1 <= j < out.len() ==> out[j].machine_name@ != first.machine_name@) by {
                    assert(forall|j: int| #![auto]
                        0 <= j < tail.len() ==> tail[j].machine_name@ != first.machine_name@);
                }
            }
        }
    }
}

/// Processing a concatenation is processing the first part, then the second
/// with every name of the first already seen.
proof fn lemma_dedupe_from_concat(a: Seq<Product>, b: Seq<Product>, seen: Set<Seq<char>>)
    ensures
        dedupe_from(a + b, seen) == dedupe_from(a, seen) + dedupe_from(
            b,
            seen.union(names_set(a)),
        ),
    decreases a.len(),
{
    if a.len() == 0 {
        assert(a + b =~= b);
        assert(seen.union(names_set(a)) =~= seen) by {
            assert(forall|n: Seq<char>| !has_name(a, n));
        }
        assert(dedupe_from(a, seen) + dedupe_from(b, seen) =~= dedupe_from(b, seen));
    } else {
        let first = a[0];
        let arest = a.drop_first();
        assert((a + b)[0] == first);
        assert((a + b).drop_first() =~= arest + b);
        assert(forall|j: int| 1 <= j < a.len() ==> a[j] == arest[j - 1]);
        assert(forall|n: Seq<char>|
            has_name(a, n) <==> (n == first.machine_name@ || has_name(arest, n))) by {
            assert(forall|n: Seq<char>| #![auto] has_name(arest, n) ==> has_name(a, n));
        }
        if seen.contains(first.machine_name@) {
            lemma_dedupe_from_concat(arest, b, seen);
            assert(seen.union(names_set(arest)) =~= seen.union(names_set(a)));
        } else {
            let seen2 = seen.insert(first.machine_name@);
            lemma_dedupe_from_concat(arest, b, seen2);
            assert(seen2.union(names_set(arest)) =~= seen.union(names_set(a)));
            assert(seq![first] + (dedupe_from(arest, seen2) + dedupe_from(
                b,
                seen2.union(names_set(arest)),
            )) =~= (seq![first] + dedupe_from(arest, seen2)) + dedupe_from(
                b,
                seen2.union(names_set(arest)),
            ));
        }
    }
}

/// An already-unique sequence, none of whose names were seen, is kept whole.
proof fn lemma_dedupe_from_noop(s: Seq<Product>, seen: Set<Seq<char>>)
    requires
        unique_names(s),
        forall|i: int| 0 <= i < s.len() ==> !seen.contains((#[trigger] s[i]).machine_name@),
    ensures
        dedupe_from(s, seen) == s,
    decreases s.len(),
{
    if s.len() > 0 {
        let first = s[0];
        let rest = s.drop_first();
        let seen2 = seen.insert(first.machine_name@);
        assert(forall|j: int| 1 <= j < s.len() ==> s[j] == rest[j - 1]);
        lemma_dedupe_from_noop(rest, seen2);
        assert(seq![first] + rest =~= s);
    }
}

/// A sequence all of whose names were already seen disappears entirely.
proof fn lemma_dedupe_from_all_seen(s: Seq<Product>, seen: Set<Seq<char>>)
    requires
        forall|i: int| 0 <= i < s.len() ==> seen.contains((#[trigger] s[i]).machine_name@),
    ensures
        dedupe_from(s, seen) == Seq::<Product>::empty(),
    decreases s.len(),
{
    if s.len() > 0 {
        let rest = s.drop_first();
        assert(forall|j: int| 1 <= j < s.len() ==> s[j] == rest[j - 1]);
        lemma_dedupe_from_all_seen(rest, seen);
    }
}

/// Whether some product in `v` bears the machine name `name`.
pub fn contains_machine_name(v: &Vec<Product>, name: &str) -> (r: bool)
    ensures
        r == has_name(v@, name@),
{
    let n = v.len();
    let mut i: usize = 0;
    while i < n
        invariant
            0 <= i <= n,
            n == v@.len(),
            forall|j: int| 0 <= j < i ==> (#[trigger] v@[j]).machine_name@ != name@,
        decreases n - i,
    {
        if str_eq(v[i].machine_name.as_str(), name) {
            return true;
        }
        i = i + 1;
    }
    false
}

proof fn lemma_names_set_push(s: Seq<Product>, p: Product)
    ensures
        names_set(s.push(p)) =~= names_set(s).insert(p.machine_name@),
{
    let t = s.push(p);
    assert(forall|j: int| 0 <= j < s.len() ==> t[j] == s[j]);
    assert(t[s.len() as int] == p);
    assert(forall|n: Seq<char>| #![auto] has_name(s, n) ==> has_name(t, n));
    assert(forall|n: Seq<char>| #![auto]
        has_name(t, n) ==> (has_name(s, n) || n == p.machine_name@));
}

/// Appends the products of `src`, in order, skipping every product whose
/// machine name is already present in `out` or earlier in `src`.
fn dedupe_into(out: &mut Vec<Product>, src: Vec<Product>)
    ensures
        final(out)@ == old(out)@ + dedupe_from(src@, names_set(old(out)@)),
{
    let mut src = src;
    let ghost orig_out = out@;
    let ghost goal = orig_out + dedupe_from(src@, names_set(orig_out));
    while src.len() > 0
        invariant
            goal == out@ + dedupe_from(src@, names_set(out@)),
        decreases src.len(),
    {
        let p = src.remove(0);
        let ghost pre_src = src@.insert(0, p);
        proof {
            assert(pre_src[0] == p);
            assert(pre_src.drop_first() =~= src@);
        }
        if contains_machine_name(out, p.machine_name.as_str()) {
            proof {
                assert(names_set(out@).contains(p.machine_name@));
                assert(dedupe_from(pre_src, names_set(out@)) == dedupe_from(
                    src@,
                    names_set(out@),
                ));
            }
        } else {
            let ghost pre_out = out@;
            out.push(p);
            proof {
                lemma_names_set_push(pre_out, p);
                assert(dedupe_from(pre_src, names_set(pre_out)) == seq![p] + dedupe_from(
                    src@,
                    names_set(out@),
                ));
                assert(pre_out + (seq![p] + dedupe_from(src@, names_set(out@))) =~= out@
                    + dedupe_from(src@, names_set(out@)));
            }
        }
    }
    proof {
        assert(dedupe_from(src@, names_set(out@)) =~= Seq::<Product>::empty());
        assert(out@ + Seq::<Product>::empty() =~= out@);
    }
}

/// The assembly pipeline before sorting: de-duplicate the standard list,
/// then append each newly-added product whose machine name is still unseen.
/// The result is exactly first-seen-wins de-duplication of the
/// concatenation.
pub fn dedupe_merge(standard: Vec<Product>, newly: Vec<Product>) -> (r: Vec<Product>)
    ensures
        r@ == dedupe(standard@ + newly@),
        unique_names(r@),
{
    let ghost std_view = standard@;
    let ghost new_view = newly@;
    let mut out: Vec<Product> = Vec::new();
    proof {
        assert(names_set(out@) =~= Set::<Seq<char>>::empty()) by {
            assert(forall|n: Seq<char>| !has_name(out@, n));
        }
    }
    dedupe_into(&mut out, standard);
    proof {
        assert(out@ == dedupe(std_view)) by {
            assert(Seq::<Product>::empty() + dedupe_from(std_view, names_set(
                Seq::<Product>::empty(),
            )) =~= dedupe_from(std_view, names_set(Seq::<Product>::empty())));
            assert(names_set(Seq::<Product>::empty()) =~= Set::<Seq<char>>::empty()) by {
                assert(forall|n: Seq<char>| !has_name(Seq::<Product>::empty(), n));
            }
        }
        lemma_dedupe_from_props(std_view, Set::empty());
        assert(names_set(out@) =~= names_set(std_view)) by {
            assert(forall|n: Seq<char>|
                has_name(out@, n) <==> (has_name(std_view, n) && !Set::<Seq<char>>::empty()
                    .contains(n)));
        }
    }
    let ghost deduped_std = out@;
    dedupe_into(&mut out, newly);
    proof {
        lemma_dedupe_from_concat(std_view, new_view, Set::empty());
        assert(Set::<Seq<char>>::empty().union(names_set(std_view)) =~= names_set(std_view));
        assert(out@ == dedupe(std_view + new_view));
        lemma_dedupe_from_props(std_view + new_view, Set::empty());
    }
    out
}

// ---------------------------------------------------------------------------
// Sorting
// ---------------------------------------------------------------------------

/// The lowercase folding of a string, as str::to_lowercase computes it; it
/// depends on the characters alone.
pub uninterp spec fn lower_of(s: Seq<char>) -> Seq<char>;

/// Relies on str::to_lowercase: the result is a pure function of the
/// characters.
#[verifier::external_body]
fn to_lowercase(s: &str) -> (r: String)
    ensures
        r@ == lower_of(s@),
{
    s.to_lowercase()
}

/// The two orders a snapshot is kept in.
pub enum SortMode {
    /// Case-insensitively by display name.
    Alphabetical,
    /// Newest first by the date a product was added.
    NewestFirst,
}

/// The order a mode sorts by: the mode's own key first, ties broken by
/// machine name, so the order — and with unique machine names the sorted
/// sequence — is deterministic.
pub open spec fn product_le(mode: SortMode, a: Product, b: Product) -> bool {
    match mode {
        SortMode::Alphabetical => {
            if lower_of(a.human_name@) == lower_of(b.human_name@) {
                lex_le(a.machine_name@, b.machine_name@)
            } else {
                lex_le(lower_of(a.human_name@), lower_of(b.human_name@))
            }
        },
        SortMode::NewestFirst => {
            if a.date_added == b.date_added {
                lex_le(a.machine_name@, b.machine_name@)
            } else {
                a.date_added >= b.date_added
            }
        },
    }
}

/// Sortedness under a mode.
pub open spec fn sorted_products(mode: SortMode, s: Seq<Product>) -> bool {
    forall|i: int, j: int| 0 <= i < j < s.len() ==> product_le(mode, s[i], s[j])
}

proof fn lemma_product_le_total(mode: SortMode, a: Product, b: Product)
    ensures
        product_le(mode, a, b) || product_le(mode, b, a),
{
    lemma_lex_le_total(a.machine_name@, b.machine_name@);
    if mode is Alphabetical {
        lemma_lex_le_total(lower_of(a.human_name@), lower_of(b.human_name@));
    }
}

proof fn lemma_product_le_trans(mode: SortMode, a: Product, b: Product, c: Product)
    requires
        product_le(mode, a, b),
        product_le(mode, b, c),
    ensures
        product_le(mode, a, c),
{
    match mode {
        SortMode::Alphabetical => {
            let ka = lower_of(a.human_name@);
            let kb = lower_of(b.human_name@);
            let kc = lower_of(c.human_name@);
            if ka == kb && kb == kc {
                lemma_lex_le_trans(a.machine_name@, b.machine_name@, c.machine_name@);
            } else if ka != kb && kb != kc {
                if ka == kc {
                    lemma_lex_le_antisym(ka, kb);
                } else {
                    lemma_lex_le_trans(ka, kb, kc);
                }
            }
        },
        SortMode::NewestFirst => {
            if a.date_added == b.date_added && b.date_added == c.date_added {
                lemma_lex_le_trans(a.machine_name@, b.machine_name@, c.machine_name@);
            }
        },
    }
}

/// Decides `product_le` for a mode.
fn product_le_exec(mode: &SortMode, a: &Product, b: &Product) -> (r: bool)
    ensures
        r == product_le(*mode, *a, *b),
{
    match mode {
        SortMode::Alphabetical => {
            let la = to_lowercase(a.human_name.as_str());
            let lb = to_lowercase(b.human_name.as_str());
            if str_eq(la.as_str(), lb.as_str()) {
                str_le(a.machine_name.as_str(), b.machine_name.as_str())
            } else {
                str_le(la.as_str(), lb.as_str())
            }
        },
        SortMode::NewestFirst => {
            if a.date_added == b.date_added {
                str_le(a.machine_name.as_str(), b.machine_name.as_str())
            } else {
                a.date_added >= b.date_added
            }
        },
    }
}

/// Sorts products in place under the given mode. The result is a
/// permutation: the multiset of products, hence the set of machine names, is
/// unchanged.
pub fn sort_products(mode: &SortMode, v: &mut Vec<Product>)
    ensures
        sorted_products(*mode, final(v)@),
        final(v)@.to_multiset() == old(v)@.to_multiset(),
{
    let n = v.len();
    let mut i: usize = 1;
    if n <= 1 {
        return;
    }
    while i < n
        invariant
            1 <= i <= n,
            n == v@.len(),
            sorted_products(*mode, v@.take(i as int)),
            v@.to_multiset() == old(v)@.to_multiset(),
        decreases n - i,
    {
        let e = v.remove(i);
        let ghost pre = v@.insert(i as int, e);
        let mut j: usize = 0;
        while j < i && product_le_exec(mode, &v[j], &e)
            invariant
                0 <= j <= i,
                i < n,
                n == pre.len(),
                v@ == pre.remove(i as int),
                forall|k: int| 0 <= k < j ==> product_le(*mode, v@[k], e),
            decreases i - j,
        {
            j = j + 1;
        }
        v.insert(j, e);
        proof {
            let prev = pre.remove(i as int);
            assert(pre.to_multiset() == v@.to_multiset()) by {
                assert(pre[i as int] == e);
                assert(pre.remove(i as int).to_multiset() == pre.to_multiset().remove(e));
                assert(prev.insert(j as int, e).to_multiset() == prev.to_multiset().insert(e));
                assert(pre.to_multiset().contains(e)) by {
                    assert(pre.contains(e));
                }
                assert(v@.to_multiset() =~= pre.to_multiset().remove(e).insert(e));
                assert(pre.to_multiset().remove(e).insert(e) =~= pre.to_multiset());
            }
            assert(sorted_products(*mode, v@.take(i + 1))) by {
                let taken = v@.take(i + 1);
                let old_taken = prev.take(i as int);
                assert(sorted_products(*mode, old_taken)) by {
                    assert(forall|k: int| 0 <= k < i ==> prev[k] == pre[k]);
                    assert(forall|k: int| 0 <= k < i ==> pre[k] == pre.remove(i as int)[k]);
                    assert(old_taken =~= pre.take(i as int));
                }
                assert(forall|k: int| 0 <= k < j ==> taken[k] == prev[k]);
                assert(taken[j as int] == e);
                assert(forall|k: int| j < k <= i ==> taken[k] == prev[k - 1]);
                assert(forall|k: int| 0 <= k < j ==> product_le(*mode, taken[k], e));
                if j < i {
                    assert(!product_le(*mode, prev[j as int], e));
                    lemma_product_le_total(*mode, prev[j as int], e);
                    assert(product_le(*mode, e, prev[j as int]));
                    assert(forall|k: int| j < k <= i ==> product_le(*mode, e, #[trigger] taken[k]))
                        by {
                        assert(forall|k: int|
                            j < k <= i ==> product_le(*mode, prev[j as int], #[trigger] prev[k
                                - 1]) || j == k - 1) by {
                            assert(forall|k: int|
                                j <= k - 1 < i && j != k - 1 ==> product_le(
                                    *mode,
                                    old_taken[j as int],
                                    #[trigger] old_taken[k - 1],
                                ));
                        }
                        assert forall|k: int| j < k <= i implies product_le(
                            *mode,
                            e,
                            #[trigger] taken[k],
                        ) by {
                            if j == k - 1 {
                                assert(taken[k] == prev[j as int]);
                            } else {
                                lemma_product_le_trans(*mode, e, prev[j as int], prev[k - 1]);
                            }
                        }
                    }
                }
                assert forall|x: int, y: int| 0 <= x < y < taken.len() implies product_le(
                    *mode,
                    taken[x],
                    taken[y],
                ) by {
                    if y < j {
                        assert(product_le(*mode, old_taken[x], old_taken[y]));
                    } else if y == j {
                        assert(product_le(*mode, taken[x], e));
                    } else {
                        if x < j {
                            assert(product_le(*mode, taken[x], e));
                            assert(product_le(*mode, e, taken[y]));
                            lemma_product_le_trans(*mode, taken[x], e, taken[y]);
                        } else if x == j {
                            assert(product_le(*mode, e, taken[y]));
                        } else {
                            assert(product_le(*mode, old_taken[x - 1], old_taken[y - 1]));
                        }
                    }
                }
            }
        }
        i = i + 1;
    }
    proof {
        assert(v@.take(n as int) =~= v@);
    }
}

/// A permutation bears the same machine names, and is name-unique exactly
/// when the original is.
proof fn lemma_permutation_preserves_names(a: Seq<Product>, b: Seq<Product>)
    requires
        a.to_multiset() == b.to_multiset(),
    ensures
        names_set(a) == names_set(b),
        unique_names(a) ==> unique_names(b),
{
    broadcast use vstd::seq_lib::group_to_multiset_ensures;

    assert forall|p: Product| a.contains(p) <==> b.contains(p) by {
        vstd::seq_lib::to_multiset_contains(a, p);
        vstd::seq_lib::to_multiset_contains(b, p);
        assert(a.to_multiset().count(p) == b.to_multiset().count(p));
    }
    assert(names_set(a) =~= names_set(b)) by {
        assert forall|n: Seq<char>| has_name(a, n) implies has_name(b, n) by {
            let i = choose|i: int| 0 <= i < a.len() && a[i].machine_name@ == n;
            assert(a.contains(a[i]));
            let j = choose|j: int| 0 <= j < b.len() && b[j] == a[i];
            assert(b[j].machine_name@ == n);
        }
        assert forall|n: Seq<char>| has_name(b, n) implies has_name(a, n) by {
            let i = choose|i: int| 0 <= i < b.len() && b[i].machine_name@ == n;
            assert(b.contains(b[i]));
            let j = choose|j: int| 0 <= j < a.len() && a[j] == b[i];
            assert(a[j].machine_name@ == n);
        }
    }
    if unique_names(a) {
        assert forall|i: int, j: int|
            0 <= i < j < b.len() implies b[i].machine_name@ != b[j].machine_name@ by {
            if b[i].machine_name@ == b[j].machine_name@ {
                if b[i] == b[j] {
                    let p = b[i];
                    assert(b.remove(i).to_multiset() == b.to_multiset().remove(p));
                    assert(b.remove(i)[j - 1] == p);
                    assert(b.remove(i).contains(p));
                    assert(b.to_multiset().remove(p).count(p) > 0);
                    assert(b.to_multiset().count(p) >= 2);
                    assert(a.to_multiset().count(p) >= 2);
                    let x = choose|x: int| 0 <= x < a.len() && a[x] == p;
                    assert(a.remove(x).to_multiset() == a.to_multiset().remove(p));
                    assert(a.remove(x).to_multiset().count(p) > 0);
                    assert(a.remove(x).contains(p));
                    let y = choose|y: int| 0 <= y < a.remove(x).len() && a.remove(x)[y] == p;
                    if y < x {
                        assert(a[y] == p);
                    } else {
                        assert(a[y + 1] == p);
                    }
                } else {
                    assert(b.contains(b[i]));
                    assert(b.contains(b[j]));
                    let x = choose|x: int| 0 <= x < a.len() && a[x] == b[i];
                    let y = choose|y: int| 0 <= y < a.len() && a[y] == b[j];
                    assert(a[x].machine_name@ == a[y].machine_name@ && a[x] != a[y]);
                }
            }
        }
    }
}

// ---------------------------------------------------------------------------
// Time
// ---------------------------------------------------------------------------

/// The moment the feed's next addition is due, as the epoch second that
/// parsing the feed's timestamp text yields, or nothing when the text is
/// malformed; it depends on the text alone.
pub uninterp spec fn feed_epoch_of(s: Seq<char>) -> Option<i64>;

/// Relies on chrono::NaiveDateTime::parse_from_str with the feed's timestamp
/// format, and on chrono::DateTime::timestamp reached through
/// NaiveDateTime::and_utc: parsing and the epoch second are pure functions
/// of the text.
#[verifier::external_body]
fn parse_feed_timestamp(s: &str) -> (r: Option<i64>)
    ensures
        r == feed_epoch_of(s@),
{
    match chrono::NaiveDateTime::parse_from_str(s, "%Y-%m-%dT%H:%M:%S%.f") {
        Ok(t) => Some(t.and_utc().timestamp()),
        Err(_) => None,
    }
}

/// Relies on std::time::SystemTime::now, read through duration_since as
/// whole seconds since the Unix epoch; a clock before the epoch, or beyond
/// the signed range, yields nothing rather than a failure. Nothing is
/// promised of the value.
#[verifier::external_body]
fn now_epoch() -> Option<i64> {
    match std::time::SystemTime::now().duration_since(std::time::UNIX_EPOCH) {
        Ok(d) => i64::try_from(d.as_secs()).ok(),
        Err(_) => None,
    }
}

/// Whether a snapshot whose next addition was due at `expiration` is stale
/// at the moment `now`.
pub open spec fn spec_expired(expiration: i64, now: i64) -> bool {
    now > expiration
}

// ---------------------------------------------------------------------------
// Errors and the extraction capability
// ---------------------------------------------------------------------------

/// A payload was malformed or missed an expected structure.
#[derive(Debug)]
pub struct ParseError {
    pub detail: String,
}

/// What assembly and loading can fail with.
#[derive(Debug)]
pub enum FeedError {
    /// A fetch failed; carries the locator.
    Transport { locator: String },
    /// A payload was malformed; carries what was being parsed.
    Parse { detail: String },
    /// The snapshot was still stale after the one bounded refresh.
    StaleFeedRace { expiration: i64, now: i64 },
}

/// The embedded payload of the root document: how many chunks the catalog
/// spans, and the feed metadata (timer, platform order, newly-added list).
#[derive(Debug)]
pub struct RootDoc {
    pub chunks: usize,
    pub feed: Feed,
}

/// The extraction capability: locating the embedded payload in the root
/// document, decoding one chunk, and reading or rendering a persisted feed.
/// It is opaque and swappable; nothing is assumed of it.
pub trait Extractor {
    /// The embedded payload of the root document.
    fn extract_root(&self, bytes: &Vec<u8>) -> Result<RootDoc, ParseError>;

    /// The product array of one chunk.
    fn parse_chunk(&self, bytes: &Vec<u8>) -> Result<Vec<Product>, ParseError>;

    /// A feed read back from persisted text.
    fn parse_feed(&self, text: &str) -> Result<Feed, ParseError>;

    /// The text that persists a feed captured over `chunks` chunks.
    fn render_feed(&self, feed: &Feed, chunks: usize) -> String;
}

// ---------------------------------------------------------------------------
// Locators of the feed
// ---------------------------------------------------------------------------

/// The locator of the root document.
pub open spec fn trove_url_spec() -> Seq<char> {
    "https://www.humblebundle.com/subscription/trove"@
}

/// The locator of the root document.
pub fn trove_url() -> (r: &'static str)
    ensures
        r@ == trove_url_spec(),
{
    "https://www.humblebundle.com/subscription/trove"
}

/// The locator of chunk `i`.
pub open spec fn chunk_url_spec(i: nat) -> Seq<char> {
    "https://www.humblebundle.com/api/v1/trove/chunk?property=start&direction=desc&index="@
        + digits_of(i)
}

/// The locator of chunk `i`.
pub fn chunk_url(i: usize) -> (r: String)
    ensures
        r@ == chunk_url_spec(i as nat),
{
    let mut s = String::from_str(
        "https://www.humblebundle.com/api/v1/trove/chunk?property=start&direction=desc&index=",
    );
    let num = u64_to_string(i as u64);
    s.append(num.as_str());
    s
}

// ---------------------------------------------------------------------------
// Assembly
// ---------------------------------------------------------------------------

/// The concatenation of chunk product arrays, in index order.
pub open spec fn concat_products(chunks: Seq<Seq<Product>>) -> Seq<Product>
    decreases chunks.len(),
{
    if chunks.len() == 0 {
        Seq::empty()
    } else {
        chunks[0] + concat_products(chunks.drop_first())
    }
}

/// Concatenates the product arrays of the fetched chunks into one standard
/// list, chunk by chunk in index order: the step between decoding the
/// chunks and merging the newly-added list.
pub fn concat_chunks(chunks: Vec<Vec<Product>>) -> (r: Vec<Product>)
    ensures
        r@ == concat_products(chunks@.map_values(|c: Vec<Product>| c@)),
{
    let ghost all = chunks@.map_values(|c: Vec<Product>| c@);
    let mut chunks = chunks;
    let mut out: Vec<Product> = Vec::new();
    proof {
        assert(out@ + concat_products(all) =~= concat_products(all));
    }
    while chunks.len() > 0
        invariant
            concat_products(all) == out@ + concat_products(
                chunks@.map_values(|c: Vec<Product>| c@),
            ),
        decreases chunks@.len(),
    {
        let ghost pre_all = chunks@.map_values(|c: Vec<Product>| c@);
        let ghost pre_out = out@;
        let mut c = chunks.remove(0);
        let ghost c_view = c@;
        out.append(&mut c);
        proof {
            let post_all = chunks@.map_values(|c: Vec<Product>| c@);
            assert(pre_all[0] == c_view);
            assert(pre_all.drop_first() =~= post_all);
            assert(concat_products(pre_all) == pre_all[0] + concat_products(
                pre_all.drop_first(),
            ));
            assert(pre_out + (c_view + concat_products(post_all)) =~= (pre_out + c_view)
                + concat_products(post_all));
        }
    }
    proof {
        assert(concat_products(chunks@.map_values(|c: Vec<Product>| c@)) =~= Seq::<
            Product,
        >::empty());
        assert(out@ + Seq::<Product>::empty() =~= out@);
    }
    out
}

/// One assembly attempt: the root document through the cache, the payload
/// through the extractor, then every chunk; the decoded chunk arrays are
/// concatenated in index order through `concat_chunks` into the standard
/// list. The cache only grows.
fn fetch_feed_once<F: Fetcher, E: Extractor>(
    cache: &mut Cache,
    fetcher: &mut F,
    extractor: &E,
) -> (r: Result<(Feed, usize), FeedError>)
    requires
        old(cache).wf(),
    ensures
        final(cache).wf(),
        final(cache).root_view() == old(cache).root_view(),
        old(cache)@.submap_of(final(cache)@),
        r matches Err(e) ==> e is Transport || e is Parse,
{
    let ghost m0 = cache@;
    let bytes = match cache.retrieve(fetcher, trove_url()) {
        Ok(b) => b,
        Err(CacheError::Transport { locator }) => {
            return Err(FeedError::Transport { locator });
        },
    };
    let root = match extractor.extract_root(&bytes) {
        Ok(r) => r,
        Err(e) => {
            return Err(FeedError::Parse { detail: e.detail });
        },
    };
    proof {
        if !m0.contains_key(digest_of(trove_url_spec())) && cache@ != m0 {
            crate::cache::lemma_submap_insert(
                m0,
                digest_of(trove_url_spec()),
                cache@[digest_of(trove_url_spec())],
            );
        }
    }
    let chunks = root.chunks;
    let mut feed = root.feed;
    let mut arrays: Vec<Vec<Product>> = Vec::new();
    let mut i: usize = 0;
    while i < chunks
        invariant
            0 <= i <= chunks,
            cache.wf(),
            cache.root_view() == old(cache).root_view(),
            m0 == old(cache)@,
            m0.submap_of(cache@),
        decreases chunks - i,
    {
        let url = chunk_url(i);
        let ghost prev = cache@;
        let b = match cache.retrieve(fetcher, url.as_str()) {
            Ok(b) => b,
            Err(CacheError::Transport { locator }) => {
                return Err(FeedError::Transport { locator });
            },
        };
        proof {
            let k = digest_of(url@);
            if !prev.contains_key(k) && cache@ != prev {
                crate::cache::lemma_submap_insert(prev, k, cache@[k]);
                crate::cache::lemma_submap_trans(m0, prev, cache@);
            }
        }
        let ps = match extractor.parse_chunk(&b) {
            Ok(p) => p,
            Err(e) => {
                return Err(FeedError::Parse { detail: e.detail });
            },
        };
        arrays.push(ps);
        i = i + 1;
    }
    feed.standard_products = concat_chunks(arrays);
    Ok((feed, chunks))
}

/// Invalidates every locator an assembly over `chunks` chunks touches: the
/// root document and each chunk. Nothing else leaves the cache.
fn invalidate_feed_locators(cache: &mut Cache, chunks: usize)
    requires
        old(cache).wf(),
    ensures
        final(cache).wf(),
        final(cache).root_view() == old(cache).root_view(),
        !final(cache)@.contains_key(digest_of(trove_url_spec())),
        forall|k: nat| k < chunks ==> !final(cache)@.contains_key(digest_of(chunk_url_spec(k))),
        final(cache)@.submap_of(old(cache)@),
{
    let ghost m0 = cache@;
    cache.invalidate(trove_url());
    proof {
        crate::cache::lemma_submap_remove(m0, digest_of(trove_url_spec()));
    }
    let mut i: usize = 0;
    while i < chunks
        invariant
            0 <= i <= chunks,
            cache.wf(),
            cache.root_view() == old(cache).root_view(),
            m0 == old(cache)@,
            !cache@.contains_key(digest_of(trove_url_spec())),
            forall|k: nat| k < i ==> !cache@.contains_key(digest_of(chunk_url_spec(k))),
            cache@.submap_of(m0),
        decreases chunks - i,
    {
        let url = chunk_url(i);
        let ghost prev = cache@;
        cache.invalidate(url.as_str());
        proof {
            let k = digest_of(url@);
            crate::cache::lemma_submap_remove(prev, k);
            crate::cache::lemma_submap_trans(cache@, prev, m0);
            assert(!cache@.contains_key(digest_of(trove_url_spec())));
            assert forall|c: nat| c < i + 1 implies !cache@.contains_key(
                digest_of(chunk_url_spec(c)),
            ) by {
                if c < i {
                    assert(!prev.contains_key(digest_of(chunk_url_spec(c))));
                }
            }
        }
        i = i + 1;
    }
}

/// One attempt at a full snapshot: fetch and decode everything, then read
/// the expiration timestamp out of the timer.
fn assemble_attempt<F: Fetcher, E: Extractor>(
    cache: &mut Cache,
    fetcher: &mut F,
    extractor: &E,
) -> (r: Result<(Feed, usize, i64), FeedError>)
    requires
        old(cache).wf(),
    ensures
        final(cache).wf(),
        final(cache).root_view() == old(cache).root_view(),
        r matches Ok(t) ==> feed_epoch_of(t.0.countdown_timer_options.next_addition_time@)
            == Some(t.2),
        r matches Err(e) ==> e is Transport || e is Parse,
{
    let (feed, chunks) = match fetch_feed_once(cache, fetcher, extractor) {
        Ok(x) => x,
        Err(e) => {
            return Err(e);
        },
    };
    match parse_feed_timestamp(feed.countdown_timer_options.next_addition_time.as_str()) {
        Some(epoch) => Ok((feed, chunks, epoch)),
        None => Err(
            FeedError::Parse { detail: feed.countdown_timer_options.next_addition_time },
        ),
    }
}

// ---------------------------------------------------------------------------
// The snapshot
// ---------------------------------------------------------------------------

/// One point-in-time, fully assembled and de-duplicated catalog snapshot:
/// the cache it was assembled through, the exact text that persists it, the
/// feed, and the parsed expiration epoch.
#[derive(Debug)]
pub struct TroveFeed {
    cache: Cache,
    json: String,
    feed: Feed,
    expiration_epoch: i64,
}

impl TroveFeed {
    /// The assembled product list.
    pub closed spec fn products_view(&self) -> Seq<Product> {
        self.feed.standard_products@
    }

    /// The epoch second at which the snapshot expires.
    pub closed spec fn expiration(&self) -> i64 {
        self.expiration_epoch
    }

    /// The timer text the expiration was parsed from.
    pub closed spec fn expiration_text_view(&self) -> Seq<char> {
        self.feed.countdown_timer_options.next_addition_time@
    }

    /// What the cache holds.
    pub closed spec fn cache_view(&self) -> Map<Seq<char>, Seq<u8>> {
        self.cache@
    }

    /// The exact text that persists this snapshot.
    pub closed spec fn json_view(&self) -> Seq<char> {
        self.json@
    }

    /// No two products share a machine name, and the cache is well formed.
    pub closed spec fn wf(&self) -> bool {
        &&& unique_names(self.feed.standard_products@)
        &&& self.cache.wf()
    }

    /// Assembles a complete snapshot: root document, every chunk, the merge
    /// of the newly-added list, first-seen-wins de-duplication, and the
    /// alphabetical sort. A snapshot found expired against `now` is retried
    /// exactly once after invalidating every touched locator; a second
    /// expired snapshot is a `StaleFeedRace`, never a further retry.
    pub fn new<F: Fetcher, E: Extractor>(
        cache: Cache,
        fetcher: &mut F,
        extractor: &E,
        now: i64,
    ) -> (r: Result<TroveFeed, FeedError>)
        requires
            cache.wf(),
        ensures
            r matches Ok(tf) ==> {
                &&& tf.wf()
                &&& unique_names(tf.products_view())
                &&& sorted_products(SortMode::Alphabetical, tf.products_view())
                &&& !spec_expired(tf.expiration(), now)
                &&& feed_epoch_of(tf.expiration_text_view()) == Some(tf.expiration())
            },
            r matches Err(FeedError::StaleFeedRace { expiration, now: n }) ==> n == now
                && spec_expired(expiration, now),
    {
        let mut cache = cache;
        let first = match assemble_attempt(&mut cache, fetcher, extractor) {
            Ok(x) => x,
            Err(e) => {
                return Err(e);
            },
        };
        let (feed, chunks, epoch) = if now > first.2 {
            invalidate_feed_locators(&mut cache, first.1);
            let second = match assemble_attempt(&mut cache, fetcher, extractor) {
                Ok(x) => x,
                Err(e) => {
                    return Err(e);
                },
            };
            if now > second.2 {
                return Err(FeedError::StaleFeedRace { expiration: second.2, now });
            }
            second
        } else {
            first
        };
        let json = extractor.render_feed(&feed, chunks);
        let Feed {
            all_access,
            download_platform_order,
            newly_added,
            countdown_timer_options,
            standard_products,
        } = feed;
        let mut merged = dedupe_merge(standard_products, newly_added);
        let ghost pre_sort = merged@;
        sort_products(&SortMode::Alphabetical, &mut merged);
        proof {
            lemma_permutation_preserves_names(pre_sort, merged@);
        }
        let feed = Feed {
            all_access,
            download_platform_order,
            newly_added: Vec::new(),
            countdown_timer_options,
            standard_products: merged,
        };
        Ok(TroveFeed { cache, json, feed, expiration_epoch: epoch })
    }

    /// Reads a snapshot back from its persisted text, re-applying the same
    /// de-duplication, merge and sort as assembly — defensive against files
    /// that predate the rule.
    pub fn load<E: Extractor>(cache: Cache, json: String, extractor: &E) -> (r: Result<
        TroveFeed,
        FeedError,
    >)
        requires
            cache.wf(),
        ensures
            r matches Ok(tf) ==> {
                &&& tf.wf()
                &&& unique_names(tf.products_view())
                &&& sorted_products(SortMode::Alphabetical, tf.products_view())
                &&& tf.json_view() == json@
                &&& feed_epoch_of(tf.expiration_text_view()) == Some(tf.expiration())
            },
            r matches Err(e) ==> e is Parse,
    {
        let feed = match extractor.parse_feed(json.as_str()) {
            Ok(f) => f,
            Err(e) => {
                return Err(FeedError::Parse { detail: e.detail });
            },
        };
        let epoch = match parse_feed_timestamp(
            feed.countdown_timer_options.next_addition_time.as_str(),
        ) {
            Some(t) => t,
            None => {
                return Err(
                    FeedError::Parse { detail: feed.countdown_timer_options.next_addition_time },
                );
            },
        };
        let Feed {
            all_access,
            download_platform_order,
            newly_added,
            countdown_timer_options,
            standard_products,
        } = feed;
        let mut merged = dedupe_merge(standard_products, newly_added);
        let ghost pre_sort = merged@;
        sort_products(&SortMode::Alphabetical, &mut merged);
        proof {
            lemma_permutation_preserves_names(pre_sort, merged@);
        }
        let feed = Feed {
            all_access,
            download_platform_order,
            newly_added: Vec::new(),
            countdown_timer_options,
            standard_products: merged,
        };
        Ok(TroveFeed { cache, json, feed, expiration_epoch: epoch })
    }

    /// Whether the snapshot is stale at the moment `now`: the pure staleness
    /// predicate, free of side effects.
    pub fn expired_at(&self, now: i64) -> (r: bool)
        ensures
            r == spec_expired(self.expiration(), now),
    {
        now > self.expiration_epoch
    }

    /// Whether the snapshot is stale now, against the wall clock. A clock
    /// that cannot be read as an epoch second reports the snapshot
    /// unexpired rather than failing.
    pub fn expired(&self) -> bool {
        match now_epoch() {
            Some(now) => self.expired_at(now),
            None => false,
        }
    }

    /// The assembled product list.
    pub fn products(&self) -> (r: &Vec<Product>)
        ensures
            r@ == self.products_view(),
    {
        &self.feed.standard_products
    }

    /// The exact text that persists this snapshot; saving writes it
    /// verbatim.
    pub fn json(&self) -> (r: &String)
        ensures
            r@ == self.json_view(),
    {
        &self.json
    }

    /// A well-formed snapshot's product list is unique by machine name.
    pub proof fn lemma_wf_unique_names(&self)
        requires
            self.wf(),
        ensures
            unique_names(self.products_view()),
    {
    }

    /// Dissolves the snapshot into its product list and platform order,
    /// for merging into a library.
    pub fn into_parts(self) -> (r: (Vec<Product>, Vec<String>))
        ensures
            r.0@ == self.products_view(),
            r.1@ == self.platform_order_view(),
    {
        let TroveFeed { cache: _, json: _, feed, expiration_epoch: _ } = self;
        let Feed {
            all_access: _,
            download_platform_order,
            newly_added: _,
            countdown_timer_options: _,
            standard_products,
        } = feed;
        (standard_products, download_platform_order)
    }

    /// The cache the snapshot was assembled through, for persistence by
    /// the caller.
    pub fn cache(&self) -> (r: &Cache)
        ensures
            r@ == self.cache_view(),
    {
        &self.cache
    }

    /// The platform keys of the feed, in preference order.
    pub fn platform_order(&self) -> (r: &Vec<String>)
        ensures
            r@ == self.platform_order_view(),
    {
        &self.feed.download_platform_order
    }

    pub closed spec fn platform_order_view(&self) -> Seq<String> {
        self.feed.download_platform_order@
    }

    /// Re-sorts the product list newest first.
    pub fn sort_newest_to_oldest(&mut self)
        requires
            old(self).wf(),
        ensures
            final(self).wf(),
            sorted_products(SortMode::NewestFirst, final(self).products_view()),
            final(self).products_view().to_multiset() == old(self).products_view().to_multiset(),
            final(self).expiration() == old(self).expiration(),
            final(self).json_view() == old(self).json_view(),
            final(self).cache_view() == old(self).cache_view(),
            final(self).platform_order_view() == old(self).platform_order_view(),
            final(self).expiration_text_view() == old(self).expiration_text_view(),
    {
        let ghost pre = self.feed.standard_products@;
        sort_products(&SortMode::NewestFirst, &mut self.feed.standard_products);
        proof {
            lemma_permutation_preserves_names(pre, self.feed.standard_products@);
        }
    }

    /// Re-sorts the product list alphabetically by display name.
    pub fn sort_alphabetically(&mut self)
        requires
            old(self).wf(),
        ensures
            final(self).wf(),
            sorted_products(SortMode::Alphabetical, final(self).products_view()),
            final(self).products_view().to_multiset() == old(self).products_view().to_multiset(),
            final(self).expiration() == old(self).expiration(),
            final(self).json_view() == old(self).json_view(),
            final(self).cache_view() == old(self).cache_view(),
            final(self).platform_order_view() == old(self).platform_order_view(),
            final(self).expiration_text_view() == old(self).expiration_text_view(),
    {
        let ghost pre = self.feed.standard_products@;
        sort_products(&SortMode::Alphabetical, &mut self.feed.standard_products);
        proof {
            lemma_permutation_preserves_names(pre, self.feed.standard_products@);
        }
    }
}

// ---------------------------------------------------------------------------
// Diff
// ---------------------------------------------------------------------------

/// The machine names of the products of `source` that bear a name absent
/// from `other`, in `source`'s own order.
pub open spec fn names_not_in(source: Seq<Product>, other: Seq<Product>) -> Seq<Seq<char>> {
    source.filter(|p: Product| !has_name(other, p.machine_name@)).map_values(
        |p: Product| p.machine_name@,
    )
}

/// What `diff` reports as Added: names of the current snapshot absent from
/// the older one.
pub open spec fn diff_added(cur: Seq<Product>, older: Seq<Product>) -> Seq<Seq<char>> {
    names_not_in(cur, older)
}

/// What `diff` reports as Removed: names of the older snapshot absent from
/// the current one.
pub open spec fn diff_removed(cur: Seq<Product>, older: Seq<Product>) -> Seq<Seq<char>> {
    names_not_in(older, cur)
}

/// The diff is anti-symmetric: the names Added between A and B are exactly
/// the names Removed between B and A, in the same order.
pub proof fn lemma_diff_antisymmetric(a: Seq<Product>, b: Seq<Product>)
    ensures
        diff_added(a, b) == diff_removed(b, a),
        diff_removed(a, b) == diff_added(b, a),
{
}

fn diff_names(cur: &Vec<Product>, older: &Vec<Product>) -> (r: Vec<String>)
    ensures
        r@.map_values(|s: String| s@) == names_not_in(cur@, older@),
{
    let ghost pred = |p: Product| !has_name(older@, p.machine_name@);
    let mut out: Vec<String> = Vec::new();
    let n = cur.len();
    let mut i: usize = 0;
    proof {
        assert(cur@.take(0).filter(pred) =~= Seq::<Product>::empty()) by {
            reveal_with_fuel(Seq::filter, 2);
            assert(cur@.take(0) =~= Seq::<Product>::empty());
        }
        assert(out@.map_values(|s: String| s@) =~= names_not_in(cur@.take(0), older@));
    }
    while i < n
        invariant
            0 <= i <= n,
            n == cur@.len(),
            pred == (|p: Product| !has_name(older@, p.machine_name@)),
            out@.map_values(|s: String| s@) == names_not_in(cur@.take(i as int), older@),
        decreases n - i,
    {
        let ghost pre_take = cur@.take(i as int);
        let ghost pre_out = out@;
        if !contains_machine_name(older, cur[i].machine_name.as_str()) {
            out.push(cur[i].machine_name.clone());
        }
        proof {
            assert(cur@.take(i + 1) =~= pre_take + seq![cur@[i as int]]);
            Seq::filter_distributes_over_add(pre_take, seq![cur@[i as int]], pred);
            assert(seq![cur@[i as int]].filter(pred) =~= if pred(cur@[i as int]) {
                seq![cur@[i as int]]
            } else {
                Seq::<Product>::empty()
            }) by {
                reveal_with_fuel(Seq::filter, 2);
                assert(seq![cur@[i as int]].drop_last() =~= Seq::<Product>::empty());
            }
            assert(out@.map_values(|s: String| s@) =~= names_not_in(cur@.take(i + 1), older@)) by {
                let lhs = out@.map_values(|s: String| s@);
                let rhs = names_not_in(cur@.take(i + 1), older@);
                let prev = names_not_in(pre_take, older@);
                if pred(cur@[i as int]) {
                    assert(cur@.take(i + 1).filter(pred) == pre_take.filter(pred) + seq![
                        cur@[i as int],
                    ]);
                    assert(rhs =~= prev.push(cur@[i as int].machine_name@));
                    assert(out@ == pre_out.push(cur@[i as int].machine_name));
                } else {
                    assert(cur@.take(i + 1).filter(pred) == pre_take.filter(pred));
                    assert(rhs =~= prev);
                }
            }
        }
        i = i + 1;
    }
    proof {
        assert(cur@.take(n as int) =~= cur@);
    }
    out
}

impl TroveFeed {
    /// The catalog diff against an older snapshot: first the Added names
    /// (here and not in the older), then the Removed names (there and not
    /// here), each in its own snapshot's order, keyed by machine name.
    pub fn diff(&self, older: &TroveFeed) -> (r: (Vec<String>, Vec<String>))
        ensures
            r.0@.map_values(|s: String| s@) == diff_added(
                self.products_view(),
                older.products_view(),
            ),
            r.1@.map_values(|s: String| s@) == diff_removed(
                self.products_view(),
                older.products_view(),
            ),
    {
        let added = diff_names(&self.feed.standard_products, &older.feed.standard_products);
        let removed = diff_names(&older.feed.standard_products, &self.feed.standard_products);
        (added, removed)
    }
}

// ---------------------------------------------------------------------------
// Warming the cache with images
// ---------------------------------------------------------------------------

/// How many locators of the list have no entry in the cache, counted with
/// multiplicity.
pub open spec fn absent_count(m: Map<Seq<char>, Seq<u8>>, urls: Seq<String>) -> nat
    decreases urls.len(),
{
    if urls.len() == 0 {
        0
    } else {
        absent_count(m, urls.drop_last()) + if m.contains_key(digest_of(urls.last()@)) {
            0nat
        } else {
            1nat
        }
    }
}

/// How many products' main images have no entry in the cache.
pub open spec fn absent_images(m: Map<Seq<char>, Seq<u8>>, products: Seq<Product>) -> nat
    decreases products.len(),
{
    if products.len() == 0 {
        0
    } else {
        absent_images(m, products.drop_last()) + if m.contains_key(
            digest_of(products.last().image@),
        ) {
            0nat
        } else {
            1nat
        }
    }
}

/// How many screenshot locators over all products have no entry in the
/// cache.
pub open spec fn absent_screenshots(m: Map<Seq<char>, Seq<u8>>, products: Seq<Product>) -> nat
    decreases products.len(),
{
    if products.len() == 0 {
        0
    } else {
        absent_screenshots(m, products.drop_last()) + absent_count(
            m,
            products.last().carousel_content.screenshot@,
        )
    }
}

/// How many thumbnail locators over all products have no entry in the
/// cache.
pub open spec fn absent_thumbnails(m: Map<Seq<char>, Seq<u8>>, products: Seq<Product>) -> nat
    decreases products.len(),
{
    if products.len() == 0 {
        0
    } else {
        absent_thumbnails(m, products.drop_last()) + absent_count(
            m,
            products.last().carousel_content.thumbnail@,
        )
    }
}

/// A larger cache misses no more locators.
proof fn lemma_absent_count_monotone(
    m1: Map<Seq<char>, Seq<u8>>,
    m2: Map<Seq<char>, Seq<u8>>,
    urls: Seq<String>,
)
    requires
        m1.submap_of(m2),
    ensures
        absent_count(m2, urls) <= absent_count(m1, urls),
    decreases urls.len(),
{
    if urls.len() > 0 {
        lemma_absent_count_monotone(m1, m2, urls.drop_last());
        let k = digest_of(urls.last()@);
        if m1.contains_key(k) {
            assert(m1.dom().contains(k));
            assert(m2.contains_key(k));
        }
    }
}

proof fn lemma_absent_images_monotone(
    m1: Map<Seq<char>, Seq<u8>>,
    m2: Map<Seq<char>, Seq<u8>>,
    products: Seq<Product>,
)
    requires
        m1.submap_of(m2),
    ensures
        absent_images(m2, products) <= absent_images(m1, products),
    decreases products.len(),
{
    if products.len() > 0 {
        lemma_absent_images_monotone(m1, m2, products.drop_last());
        let k = digest_of(products.last().image@);
        if m1.contains_key(k) {
            assert(m1.dom().contains(k));
            assert(m2.contains_key(k));
        }
    }
}

proof fn lemma_absent_screenshots_monotone(
    m1: Map<Seq<char>, Seq<u8>>,
    m2: Map<Seq<char>, Seq<u8>>,
    products: Seq<Product>,
)
    requires
        m1.submap_of(m2),
    ensures
        absent_screenshots(m2, products) <= absent_screenshots(m1, products),
    decreases products.len(),
{
    if products.len() > 0 {
        lemma_absent_screenshots_monotone(m1, m2, products.drop_last());
        lemma_absent_count_monotone(m1, m2, products.last().carousel_content.screenshot@);
    }
}

proof fn lemma_absent_thumbnails_monotone(
    m1: Map<Seq<char>, Seq<u8>>,
    m2: Map<Seq<char>, Seq<u8>>,
    products: Seq<Product>,
)
    requires
        m1.submap_of(m2),
    ensures
        absent_thumbnails(m2, products) <= absent_thumbnails(m1, products),
    decreases products.len(),
{
    if products.len() > 0 {
        lemma_absent_thumbnails_monotone(m1, m2, products.drop_last());
        lemma_absent_count_monotone(m1, m2, products.last().carousel_content.thumbnail@);
    }
}

/// Retrieves each locator of the list into the cache; failures are skipped,
/// and nothing ever leaves the cache. Every locator is attempted: the
/// fetcher performs at least one fetch per locator still missing from the
/// final cache, and at most one per locator missing at entry.
fn cache_locator_list<F: Fetcher>(cache: &mut Cache, fetcher: &mut F, urls: &Vec<String>)
    requires
        old(cache).wf(),
    ensures
        final(cache).wf(),
        final(cache).root_view() == old(cache).root_view(),
        old(cache)@.submap_of(final(cache)@),
        old(fetcher).fetches() + absent_count(final(cache)@, urls@) <= final(fetcher).fetches(),
        final(fetcher).fetches() <= old(fetcher).fetches() + absent_count(old(cache)@, urls@),
{
    let ghost m0 = cache@;
    let ghost f0 = fetcher.fetches();
    let n = urls.len();
    let mut i: usize = 0;
    proof {
        assert(urls@.take(0) =~= Seq::<String>::empty());
    }
    while i < n
        invariant
            0 <= i <= n,
            n == urls@.len(),
            cache.wf(),
            cache.root_view() == old(cache).root_view(),
            m0 == old(cache)@,
            m0.submap_of(cache@),
            f0 + absent_count(cache@, urls@.take(i as int)) <= fetcher.fetches(),
            fetcher.fetches() <= f0 + absent_count(m0, urls@.take(i as int)),
        decreases n - i,
    {
        let ghost prev = cache@;
        let ghost fprev = fetcher.fetches();
        let ghost k = digest_of(urls@[i as int]@);
        let _ = cache.retrieve(fetcher, urls[i].as_str());
        proof {
            if !prev.contains_key(k) && cache@ != prev {
                crate::cache::lemma_submap_insert(prev, k, cache@[k]);
                crate::cache::lemma_submap_trans(m0, prev, cache@);
            }
            assert(urls@.take(i + 1).drop_last() =~= urls@.take(i as int));
            assert(urls@.take(i + 1).last() == urls@[i as int]);
            lemma_absent_count_monotone(prev, cache@, urls@.take(i as int));
            if m0.contains_key(k) {
                assert(m0.dom().contains(k));
                assert(prev.contains_key(k));
            }
        }
        i = i + 1;
    }
    proof {
        assert(urls@.take(n as int) =~= urls@);
    }
}

impl TroveFeed {
    /// Retrieves every product's main image into the cache, then the
    /// screenshots and the thumbnails. Failures are skipped; the snapshot is
    /// untouched and the cache only grows. Every listed locator is
    /// attempted: the fetcher performs at least one fetch per image,
    /// screenshot and thumbnail still missing from the final cache, and at
    /// most one per locator missing at entry.
    pub fn cache_images<F: Fetcher>(&mut self, fetcher: &mut F)
        requires
            old(self).wf(),
        ensures
            final(self).wf(),
            final(self).products_view() == old(self).products_view(),
            final(self).expiration() == old(self).expiration(),
            final(self).json_view() == old(self).json_view(),
            old(self).cache_view().submap_of(final(self).cache_view()),
            old(fetcher).fetches() + absent_images(
                final(self).cache_view(),
                old(self).products_view(),
            ) + absent_screenshots(final(self).cache_view(), old(self).products_view())
                + absent_thumbnails(final(self).cache_view(), old(self).products_view())
                <= final(fetcher).fetches(),
            final(fetcher).fetches() <= old(fetcher).fetches() + absent_images(
                old(self).cache_view(),
                old(self).products_view(),
            ) + absent_screenshots(old(self).cache_view(), old(self).products_view())
                + absent_thumbnails(old(self).cache_view(), old(self).products_view()),
    {
        let ghost m0 = self.cache_view();
        let ghost f0 = fetcher.fetches();
        let ghost prods = self.feed.standard_products@;
        let n = self.feed.standard_products.len();
        let mut i: usize = 0;
        proof {
            assert(prods.take(0) =~= Seq::<Product>::empty());
        }
        while i < n
            invariant
                0 <= i <= n,
                n == self.feed.standard_products@.len(),
                self.wf(),
                self.feed == old(self).feed,
                self.json == old(self).json,
                self.expiration_epoch == old(self).expiration_epoch,
                prods == self.feed.standard_products@,
                m0 == old(self).cache_view(),
                m0.submap_of(self.cache_view()),
                f0 + absent_images(self.cache_view(), prods.take(i as int)) <= fetcher.fetches(),
                fetcher.fetches() <= f0 + absent_images(m0, prods.take(i as int)),
            decreases n - i,
        {
            let ghost prev = self.cache_view();
            let ghost k = digest_of(self.feed.standard_products@[i as int].image@);
            let _ = self.cache.retrieve(fetcher, self.feed.standard_products[i].image.as_str());
            proof {
                if !prev.contains_key(k) && self.cache_view() != prev {
                    crate::cache::lemma_submap_insert(prev, k, self.cache_view()[k]);
                    crate::cache::lemma_submap_trans(m0, prev, self.cache_view());
                }
                assert(prods.take(i + 1).drop_last() =~= prods.take(i as int));
                assert(prods.take(i + 1).last() == prods[i as int]);
                lemma_absent_images_monotone(prev, self.cache_view(), prods.take(i as int));
                if m0.contains_key(k) {
                    assert(m0.dom().contains(k));
                    assert(prev.contains_key(k));
                }
            }
            i = i + 1;
        }
        proof {
            assert(prods.take(n as int) =~= prods);
        }
        let ghost a = self.cache_view();
        let ghost fa = fetcher.fetches();
        self.cache_screenshots(fetcher);
        let ghost b = self.cache_view();
        let ghost fb = fetcher.fetches();
        self.cache_thumbnails(fetcher);
        proof {
            let c = self.cache_view();
            crate::cache::lemma_submap_trans(m0, a, b);
            crate::cache::lemma_submap_trans(m0, b, c);
            crate::cache::lemma_submap_trans(a, b, c);
            // The final-cache lower bounds of the earlier phases carry over.
            lemma_absent_images_monotone(a, c, prods);
            lemma_absent_screenshots_monotone(b, c, prods);
            // The entry-cache upper bounds of the later phases carry over.
            lemma_absent_screenshots_monotone(m0, a, prods);
            lemma_absent_thumbnails_monotone(m0, b, prods);
        }
    }

    /// Retrieves every product's thumbnails into the cache; failures are
    /// skipped and the cache only grows. Every listed locator is attempted:
    /// at least one fetch per thumbnail still missing from the final cache,
    /// at most one per thumbnail missing at entry.
    pub fn cache_thumbnails<F: Fetcher>(&mut self, fetcher: &mut F)
        requires
            old(self).wf(),
        ensures
            final(self).wf(),
            final(self).products_view() == old(self).products_view(),
            final(self).expiration() == old(self).expiration(),
            final(self).json_view() == old(self).json_view(),
            old(self).cache_view().submap_of(final(self).cache_view()),
            old(fetcher).fetches() + absent_thumbnails(
                final(self).cache_view(),
                old(self).products_view(),
            ) <= final(fetcher).fetches(),
            final(fetcher).fetches() <= old(fetcher).fetches() + absent_thumbnails(
                old(self).cache_view(),
                old(self).products_view(),
            ),
    {
        let ghost m0 = self.cache_view();
        let ghost f0 = fetcher.fetches();
        let ghost prods = self.feed.standard_products@;
        let n = self.feed.standard_products.len();
        let mut i: usize = 0;
        proof {
            assert(prods.take(0) =~= Seq::<Product>::empty());
        }
        while i < n
            invariant
                0 <= i <= n,
                n == self.feed.standard_products@.len(),
                self.wf(),
                self.feed == old(self).feed,
                self.json == old(self).json,
                self.expiration_epoch == old(self).expiration_epoch,
                prods == self.feed.standard_products@,
                m0 == old(self).cache_view(),
                m0.submap_of(self.cache_view()),
                f0 + absent_thumbnails(self.cache_view(), prods.take(i as int)) <= fetcher.fetches(),
                fetcher.fetches() <= f0 + absent_thumbnails(m0, prods.take(i as int)),
            decreases n - i,
        {
            let ghost prev = self.cache_view();
            let ghost fprev = fetcher.fetches();
            let ghost urls = prods[i as int].carousel_content.thumbnail@;
            cache_locator_list(
                &mut self.cache,
                fetcher,
                &self.feed.standard_products[i].carousel_content.thumbnail,
            );
            proof {
                crate::cache::lemma_submap_trans(m0, prev, self.cache_view());
                assert(prods.take(i + 1).drop_last() =~= prods.take(i as int));
                assert(prods.take(i + 1).last() == prods[i as int]);
                lemma_absent_thumbnails_monotone(prev, self.cache_view(), prods.take(i as int));
                lemma_absent_count_monotone(m0, prev, urls);
            }
            i = i + 1;
        }
        proof {
            assert(prods.take(n as int) =~= prods);
        }
    }

    /// Retrieves every product's screenshots into the cache; failures are
    /// skipped and the cache only grows. Every listed locator is attempted:
    /// at least one fetch per screenshot still missing from the final
    /// cache, at most one per screenshot missing at entry.
    pub fn cache_screenshots<F: Fetcher>(&mut self, fetcher: &mut F)
        requires
            old(self).wf(),
        ensures
            final(self).wf(),
            final(self).products_view() == old(self).products_view(),
            final(self).expiration() == old(self).expiration(),
            final(self).json_view() == old(self).json_view(),
            old(self).cache_view().submap_of(final(self).cache_view()),
            old(fetcher).fetches() + absent_screenshots(
                final(self).cache_view(),
                old(self).products_view(),
            ) <= final(fetcher).fetches(),
            final(fetcher).fetches() <= old(fetcher).fetches() + absent_screenshots(
                old(self).cache_view(),
                old(self).products_view(),
            ),
    {
        let ghost m0 = self.cache_view();
        let ghost f0 = fetcher.fetches();
        let ghost prods = self.feed.standard_products@;
        let n = self.feed.standard_products.len();
        let mut i: usize = 0;
        proof {
            assert(prods.take(0) =~= Seq::<Product>::empty());
        }
        while i < n
            invariant
                0 <= i <= n,
                n == self.feed.standard_products@.len(),
                self.wf(),
                self.feed == old(self).feed,
                self.json == old(self).json,
                self.expiration_epoch == old(self).expiration_epoch,
                prods == self.feed.standard_products@,
                m0 == old(self).cache_view(),
                m0.submap_of(self.cache_view()),
                f0 + absent_screenshots(self.cache_view(), prods.take(i as int))
                    <= fetcher.fetches(),
                fetcher.fetches() <= f0 + absent_screenshots(m0, prods.take(i as int)),
            decreases n - i,
        {
            let ghost prev = self.cache_view();
            let ghost urls = prods[i as int].carousel_content.screenshot@;
            cache_locator_list(
                &mut self.cache,
                fetcher,
                &self.feed.standard_products[i].carousel_content.screenshot,
            );
            proof {
                crate::cache::lemma_submap_trans(m0, prev, self.cache_view());
                assert(prods.take(i + 1).drop_last() =~= prods.take(i as int));
                assert(prods.take(i + 1).last() == prods[i as int]);
                lemma_absent_screenshots_monotone(prev, self.cache_view(), prods.take(i as int));
                lemma_absent_count_monotone(m0, prev, urls);
            }
            i = i + 1;
        }
        proof {
            assert(prods.take(n as int) =~= prods);
        }
    }
}

// ---------------------------------------------------------------------------
// Persistence helpers
// ---------------------------------------------------------------------------

/// Two decimal digits: a single-digit value is zero-padded.
pub open spec fn two_digits_of(n: nat) -> Seq<char> {
    if n < 10 {
        seq![digit_char(0)] + digits_of(n)
    } else {
        digits_of(n)
    }
}

/// The date-stamped name of one day's backup file.
pub open spec fn backup_filename_spec(year: nat, month: nat, day: nat) -> Seq<char> {
    "catalog-"@ + digits_of(year) + "-"@ + two_digits_of(month) + "-"@ + two_digits_of(day)
        + ".json"@
}

/// The date-stamped name under which one day's backup is written, beside
/// the current file: chronologically sortable, one per day.
pub fn backup_filename(year: u64, month: u64, day: u64) -> (r: String)
    ensures
        r@ == backup_filename_spec(year as nat, month as nat, day as nat),
{
    proof {
        reveal_strlit("0");
    }
    let mut s = String::from_str("catalog-");
    let y = u64_to_string(year);
    s.append(y.as_str());
    s.append("-");
    if month < 10 {
        s.append("0");
    }
    let m = u64_to_string(month);
    s.append(m.as_str());
    s.append("-");
    if day < 10 {
        s.append("0");
    }
    let d = u64_to_string(day);
    s.append(d.as_str());
    s.append(".json");
    proof {
        assert("0"@ =~= seq![digit_char(0)]);
        assert(s@ =~= backup_filename_spec(year as nat, month as nat, day as nat));
    }
    s
}

/// Saving writes the snapshot text verbatim and loading re-applies the
/// assembly pipeline. For an assembled snapshot — machine names unique, and
/// every newly-added name already present — re-running first-seen-wins
/// de-duplication with the merge of the newly-added list returns the product
/// list unchanged, so a load that parses back the saved lists yields the
/// same set of machine names, reordered at most by the documented sort.
pub proof fn lemma_save_load_round_trip(products: Seq<Product>, newly: Seq<Product>)
    requires
        unique_names(products),
        forall|i: int|
            0 <= i < newly.len() ==> has_name(products, (#[trigger] newly[i]).machine_name@),
    ensures
        dedupe(products + newly) == products,
        names_set(dedupe(products + newly)) == names_set(products),
{
    lemma_dedupe_from_concat(products, newly, Set::empty());
    lemma_dedupe_from_noop(products, Set::empty());
    let seen = Set::<Seq<char>>::empty().union(names_set(products));
    assert(forall|i: int|
        0 <= i < newly.len() ==> seen.contains((#[trigger] newly[i]).machine_name@));
    lemma_dedupe_from_all_seen(newly, seen);
    assert(dedupe(products + newly) =~= products);
}

} // verus!

