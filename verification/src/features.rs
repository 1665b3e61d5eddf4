//! Feature names gathered from Cargo manifests.
//!
//! The build hands in the manifest text of every crate of the project;
//! [`features`] lists every feature name any of them declares, each name
//! once. Parsing the manifest text is the work of an outside crate and is
//! relied upon; collecting and deduplicating the names is verified.

use vstd::prelude::*;
use vstd::string::StrSliceExecFns;

verus! {

/// Failure to gather the feature names.
#[derive(Clone, Copy, Debug, PartialEq, Eq, Structural)]
pub enum ManifestError {
    Parse,
}

/// The feature names a manifest text declares, in the order the parse
/// reports them, or nothing when the text is not a well-formed manifest.
/// The parse depends on the text alone.
pub uninterp spec fn manifest_features(s: Seq<char>) -> Option<Seq<Seq<char>>>;

/// The views of a list of strings.
pub open spec fn string_views(s: Seq<String>) -> Seq<Seq<char>> {
    s.map_values(|x: String| x@)
}

/// The feature names of one manifest, empty when it does not parse.
pub open spec fn parsed_features(s: Seq<char>) -> Seq<Seq<char>> {
    match manifest_features(s) {
        Option::Some(fs) => fs,
        Option::None => Seq::empty(),
    }
}

/// Every manifest text parses.
pub open spec fn all_parse(ms: Seq<Seq<char>>) -> bool {
    forall|i: int| 0 <= i < ms.len() ==> manifest_features(#[trigger] ms[i]) is Some
}

/// Some manifest of `ms` declares the feature `f`.
pub open spec fn feature_in(ms: Seq<Seq<char>>, f: Seq<char>) -> bool {
    exists|i: int| 0 <= i < ms.len() && parsed_features(#[trigger] ms[i]).contains(f)
}

/// Relies on `cargo_toml::Manifest::from_str`: it parses a Cargo manifest
/// from TOML text, and `manifest.features` holds the `[features]` table as
/// an ordered map, so its keys come out without repetition.
#[verifier::external_body]
fn parse_manifest_features(manifest: &str) -> (r: Option<Vec<String>>)
    ensures
        match r {
            Some(v) => manifest_features(manifest@) == Some(string_views(v@)) && string_views(
                v@,
            ).no_duplicates(),
            None => manifest_features(manifest@) is None,
        },
{
    match cargo_toml::Manifest::from_str(manifest) {
        Ok(m) => Some(m.features.keys().cloned().collect()),
        Err(_) => None,
    }
}

/// Membership in a pushed list, element by element.
proof fn lemma_contains_push(s: Seq<Seq<char>>, x: Seq<char>, f: Seq<char>)
    ensures
        s.push(x).contains(f) == (s.contains(f) || f == x),
{
    if s.contains(f) {
        let w: int = choose|w: int| 0 <= w < s.len() && #[trigger] s[w] == f;
        assert(s.push(x)[w] == f);
    }
    if f == x {
        assert(s.push(x)[s.len() as int] == f);
    }
    if s.push(x).contains(f) {
        let w: int = choose|w: int| 0 <= w < s.push(x).len() && #[trigger] s.push(x)[w] == f;
        if w < s.len() {
            assert(s[w] == f);
        }
    }
}

/// Membership in a one-longer prefix, element by element.
proof fn lemma_contains_take_succ(s: Seq<Seq<char>>, j: int, f: Seq<char>)
    requires
        0 <= j < s.len(),
    ensures
        s.take(j + 1).contains(f) == (s.take(j).contains(f) || f == s[j]),
{
    assert(s.take(j + 1) =~= s.take(j).push(s[j]));
    lemma_contains_push(s.take(j), s[j], f);
}

/// Strict lexicographic order on character sequences, by code point.
pub open spec fn lex_lt(a: Seq<char>, b: Seq<char>) -> bool
    decreases a.len(),
{
    if b.len() == 0 {
        false
    } else if a.len() == 0 {
        true
    } else if a[0] != b[0] {
        (a[0] as u32) < (b[0] as u32)
    } else {
        lex_lt(a.drop_first(), b.drop_first())
    }
}

/// The order is irreflexive.
proof fn lemma_lex_irrefl(a: Seq<char>)
    ensures
        !lex_lt(a, a),
    decreases a.len(),
{
    if a.len() > 0 {
        lemma_lex_irrefl(a.drop_first());
    }
}

/// Any two distinct sequences are ordered one way or the other.
proof fn lemma_lex_connex(a: Seq<char>, b: Seq<char>)
    ensures
        lex_lt(a, b) || lex_lt(b, a) || a == b,
    decreases a.len(),
{
    if a.len() == 0 && b.len() == 0 {
        assert(a =~= b);
    } else if a.len() > 0 && b.len() > 0 && a[0] != b[0] {
        vstd::utf8::char_u32_cast(a[0], a[0] as u32);
        vstd::utf8::char_u32_cast(b[0], b[0] as u32);
        if a[0] as u32 == b[0] as u32 {
            assert((a[0] as u32) as char == a[0]);
            assert((b[0] as u32) as char == b[0]);
            assert(false);
        }
    } else if a.len() > 0 && b.len() > 0 && a[0] == b[0] {
        lemma_lex_connex(a.drop_first(), b.drop_first());
        if a.drop_first() == b.drop_first() {
            assert(a.drop_first().len() == b.drop_first().len());
            assert(a.len() == b.len());
            assert forall|j: int| 0 <= j < a.len() implies a[j] == b[j] by {
                if j > 0 {
                    assert(a.drop_first()[j - 1] == b.drop_first()[j - 1]);
                }
            }
            assert(a =~= b);
        }
    }
}

/// The order is transitive.
proof fn lemma_lex_trans(a: Seq<char>, b: Seq<char>, c: Seq<char>)
    requires
        lex_lt(a, b),
        lex_lt(b, c),
    ensures
        lex_lt(a, c),
    decreases a.len(),
{
    if a.len() > 0 && b.len() > 0 && c.len() > 0 && a[0] == b[0] && b[0] == c[0] {
        lemma_lex_trans(a.drop_first(), b.drop_first(), c.drop_first());
    }
}

/// Equal prefixes do not decide the order: it is settled past them.
proof fn lemma_lex_skip(a: Seq<char>, b: Seq<char>, i: int)
    requires
        0 <= i <= a.len(),
        i <= b.len(),
        forall|j: int| 0 <= j < i ==> a[j] == b[j],
    ensures
        lex_lt(a, b) == lex_lt(a.skip(i), b.skip(i)),
    decreases i,
{
    if i > 0 {
        assert(a[0] == b[0]);
        assert forall|j: int| 0 <= j < i - 1 implies a.drop_first()[j] == b.drop_first()[j] by {
            assert(a[j + 1] == b[j + 1]);
        }
        lemma_lex_skip(a.drop_first(), b.drop_first(), i - 1);
        assert(a.drop_first().skip(i - 1) =~= a.skip(i));
        assert(b.drop_first().skip(i - 1) =~= b.skip(i));
    } else {
        assert(a.skip(0) =~= a);
        assert(b.skip(0) =~= b);
    }
}

/// Decides `lex_lt` on two strings, character by character.
fn string_lt(a: &String, b: &String) -> (r: bool)
    ensures
        r == lex_lt(a@, b@),
{
    let an: usize = a.as_str().unicode_len();
    let bn: usize = b.as_str().unicode_len();
    let mut i: usize = 0;
    while i < an && i < bn
        invariant
            an == a@.len(),
            bn == b@.len(),
            i <= an,
            i <= bn,
            forall|j: int| 0 <= j < i as int ==> a@[j] == b@[j],
        decreases an - i,
    {
        let ca: char = a.as_str().get_char(i);
        let cb: char = b.as_str().get_char(i);
        if ca != cb {
            proof {
                lemma_lex_skip(a@, b@, i as int);
                assert(a@.skip(i as int)[0] == a@[i as int]);
                assert(b@.skip(i as int)[0] == b@[i as int]);
            }
            return (ca as u32) < (cb as u32);
        }
        i = i + 1;
    }
    proof {
        lemma_lex_skip(a@, b@, i as int);
    }
    an < bn
}


/// `s` is strictly sorted: names increase and so never repeat.
pub open spec fn sorted_strict(s: Seq<Seq<char>>) -> bool {
    forall|i: int, j: int| 0 <= i < j < s.len() ==> lex_lt(#[trigger] s[i], #[trigger] s[j])
}

/// A strictly sorted list is duplicate-free.
proof fn lemma_sorted_unique(s: Seq<Seq<char>>)
    requires
        sorted_strict(s),
    ensures
        s.no_duplicates(),
{
    assert forall|i: int, j: int|
        0 <= i < s.len() && 0 <= j < s.len() && i != j implies s[i] != s[j] by {
        if i < j {
            assert(lex_lt(s[i], s[j]));
            if s[i] == s[j] {
                lemma_lex_irrefl(s[i]);
            }
        } else {
            assert(lex_lt(s[j], s[i]));
            if s[i] == s[j] {
                lemma_lex_irrefl(s[i]);
            }
        }
    }
}

/// Membership in a list with one element inserted, element by element.
proof fn lemma_contains_insert(s: Seq<Seq<char>>, p: int, x: Seq<char>, f: Seq<char>)
    requires
        0 <= p <= s.len(),
    ensures
        s.insert(p, x).contains(f) == (s.contains(f) || f == x),
{
    let t = s.insert(p, x);
    if s.contains(f) {
        let w: int = choose|w: int| 0 <= w < s.len() && #[trigger] s[w] == f;
        if w < p {
            assert(t[w] == f);
        } else {
            assert(t[w + 1] == f);
        }
    }
    if f == x {
        assert(t[p] == f);
    }
    if t.contains(f) {
        let w: int = choose|w: int| 0 <= w < t.len() && #[trigger] t[w] == f;
        if w < p {
            assert(s[w] == f);
        } else if w > p {
            assert(s[w - 1] == f);
        }
    }
}

/// Inserting at the ordered position keeps the list strictly sorted.
proof fn lemma_sorted_insert(s: Seq<Seq<char>>, p: int, x: Seq<char>)
    requires
        0 <= p <= s.len(),
        sorted_strict(s),
        forall|k: int| 0 <= k < p ==> lex_lt(#[trigger] s[k], x),
        forall|k: int| p <= k < s.len() ==> lex_lt(x, #[trigger] s[k]),
    ensures
        sorted_strict(s.insert(p, x)),
{
    let t = s.insert(p, x);
    assert forall|a: int, b: int| 0 <= a < b < t.len() implies lex_lt(
        #[trigger] t[a],
        #[trigger] t[b],
    ) by {
        if a < p && b < p {
            assert(t[a] == s[a] && t[b] == s[b]);
        } else if a < p && b == p {
            assert(t[a] == s[a] && t[b] == x);
        } else if a < p && b > p {
            assert(t[a] == s[a] && t[b] == s[b - 1]);
        } else if a == p && b > p {
            assert(t[a] == x && t[b] == s[b - 1]);
        } else if a > p && b > p {
            assert(t[a] == s[a - 1] && t[b] == s[b - 1]);
        }
    }
}

/// The position where `x` belongs in the sorted list `v`, and whether it is
/// already there.
fn insert_pos(v: &Vec<String>, x: &String) -> (r: (usize, bool))
    requires
        sorted_strict(string_views(v@)),
    ensures
        r.1 == string_views(v@).contains(x@),
        r.0 <= v@.len(),
        !r.1 ==> (forall|k: int| 0 <= k < r.0 as int ==> lex_lt(
            #[trigger] string_views(v@)[k],
            x@,
        )) && (forall|k: int| r.0 as int <= k < v@.len() ==> lex_lt(
            x@,
            #[trigger] string_views(v@)[k],
        )),
{
    let n: usize = v.len();
    let mut p: usize = 0;
    while p < n
        invariant
            n == v.len(),
            p <= n,
            sorted_strict(string_views(v@)),
            forall|k: int| 0 <= k < p as int ==> lex_lt(#[trigger] string_views(v@)[k], x@),
        decreases n - p,
    {
        if string_lt(&v[p], x) {
            assert(lex_lt(string_views(v@)[p as int], x@));
            p = p + 1;
        } else {
            if v[p] == *x {
                assert(string_views(v@)[p as int] == x@);
                return (p, true);
            }
            proof {
                let sv = string_views(v@);
                lemma_lex_connex(sv[p as int], x@);
                assert(lex_lt(x@, sv[p as int]));
                assert forall|k: int| p as int <= k < sv.len() implies lex_lt(
                    x@,
                    #[trigger] sv[k],
                ) by {
                    if k > p as int {
                        lemma_lex_trans(x@, sv[p as int], sv[k]);
                    }
                }
                if sv.contains(x@) {
                    let w: int = choose|w: int| 0 <= w < sv.len() && #[trigger] sv[w] == x@;
                    lemma_lex_irrefl(x@);
                }
            }
            return (p, false);
        }
    }
    proof {
        let sv = string_views(v@);
        if sv.contains(x@) {
            let w: int = choose|w: int| 0 <= w < sv.len() && #[trigger] sv[w] == x@;
            lemma_lex_irrefl(x@);
        }
    }
    (n, false)
}

/// Collects every feature name the manifest texts declare, each name once,/// in order of first appearance. Fails with `Parse` when some text is not
/// a well-formed manifest.
pub fn init_features(manifests: &Vec<String>) -> (r: Result<Vec<String>, ManifestError>)
    ensures
        match r {
            Ok(v) => all_parse(string_views(manifests@)) && sorted_strict(string_views(v@))
                && string_views(v@).no_duplicates() && forall|f: Seq<char>|
                #[trigger] string_views(v@).contains(f) == feature_in(
                    string_views(manifests@),
                    f,
                ),
            Err(e) => e == ManifestError::Parse && !all_parse(string_views(manifests@)),
        },
{
    let ghost ms = string_views(manifests@);
    let n: usize = manifests.len();
    let mut out: Vec<String> = Vec::new();
    let mut i: usize = 0;
    while i < n
        invariant
            n == manifests.len(),
            ms == string_views(manifests@),
            i <= n,
            forall|j: int| 0 <= j < i as int ==> manifest_features(#[trigger] ms[j]) is Some,
            sorted_strict(string_views(out@)),
            string_views(out@).no_duplicates(),
            forall|f: Seq<char>|
                #[trigger] string_views(out@).contains(f) == feature_in(ms.take(i as int), f),
        decreases n - i,
    {
        let list = match parse_manifest_features(manifests[i].as_str()) {
            None => {
                return Err(ManifestError::Parse);
            },
            Some(list) => list,
        };
        let ghost fl = string_views(list@);
        let m: usize = list.len();
        let mut j: usize = 0;
        while j < m
            invariant
                m == list.len(),
                fl == string_views(list@),
                j <= m,
                i < n,
                n == manifests.len(),
                ms == string_views(manifests@),
                manifest_features(ms[i as int]) == Some(fl),
                sorted_strict(string_views(out@)),
                string_views(out@).no_duplicates(),
                forall|f: Seq<char>|
                    #[trigger] string_views(out@).contains(f) == (feature_in(ms.take(i as int), f)
                        || fl.take(j as int).contains(f)),
            decreases m - j,
        {
            let ghost before = string_views(out@);
            let r = insert_pos(&out, &list[j]);
            let p: usize = r.0;
            let present: bool = r.1;
            if !present {
                out.insert(p, list[j].clone());
                proof {
                    assert(string_views(out@) =~= before.insert(p as int, fl[j as int]));
                    lemma_sorted_insert(before, p as int, fl[j as int]);
                    lemma_sorted_unique(string_views(out@));
                }
            }
            proof {
                if present {
                    assert(string_views(out@) == before);
                }
                assert forall|f: Seq<char>| #[trigger]
                    string_views(out@).contains(f) == (feature_in(ms.take(i as int), f)
                        || fl.take(j as int + 1).contains(f)) by {
                    lemma_contains_take_succ(fl, j as int, f);
                    if !present {
                        lemma_contains_insert(before, p as int, fl[j as int], f);
                    }
                }
            }
            j = j + 1;
        }
        proof {
            assert(fl.take(m as int) =~= fl);
            assert(ms.take(i as int + 1).drop_last() =~= ms.take(i as int));
            assert forall|f: Seq<char>| #[trigger]
                string_views(out@).contains(f) == feature_in(ms.take(i as int + 1), f) by {
                if string_views(out@).contains(f) {
                    if feature_in(ms.take(i as int), f) {
                        let w: int = choose|w: int|
                            0 <= w < i as int && parsed_features(
                                #[trigger] ms.take(i as int)[w],
                            ).contains(f);
                        assert(ms.take(i as int + 1)[w] == ms[w]);
                        assert(parsed_features(ms.take(i as int + 1)[w]).contains(f));
                        assert(feature_in(ms.take(i as int + 1), f));
                    } else {
                        assert(fl.contains(f));
                        assert(parsed_features(ms[i as int]) == fl);
                        assert(ms.take(i as int + 1)[i as int] == ms[i as int]);
                        assert(feature_in(ms.take(i as int + 1), f));
                    }
                }
                if feature_in(ms.take(i as int + 1), f) {
                    let w: int = choose|w: int|
                        0 <= w < i as int + 1 && parsed_features(
                            #[trigger] ms.take(i as int + 1)[w],
                        ).contains(f);
                    if w < i as int {
                        assert(ms.take(i as int)[w] == ms[w]);
                        assert(feature_in(ms.take(i as int), f));
                    } else {
                        assert(parsed_features(ms[i as int]).contains(f));
                    }
                    assert(string_views(out@).contains(f));
                }
            }
        }
        i = i + 1;
    }
    proof {
        assert(ms.take(n as int) =~= ms);
    }
    Ok(out)
}

/// Every feature name the handed-in manifest texts declare, each once, in
/// increasing lexicographic order. Fails with `Parse` when some text is
/// not a well-formed manifest.
pub fn features(manifests: &Vec<String>) -> (r: Result<Vec<String>, ManifestError>)
    ensures
        match r {
            Ok(v) => all_parse(string_views(manifests@)) && sorted_strict(string_views(v@))
                && string_views(v@).no_duplicates() && forall|f: Seq<char>|
                #[trigger] string_views(v@).contains(f) == feature_in(
                    string_views(manifests@),
                    f,
                ),
            Err(e) => e == ManifestError::Parse && !all_parse(string_views(manifests@)),
        },
{
    init_features(manifests)
}

} // verus!
