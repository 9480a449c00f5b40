//! The attribute decomposer.
//!
//! Attribute text is scanned left to right for non-overlapping matches of the
//! grammar `key = "value"` | `key = 'value'` | `key = bareword`: a key is a
//! run of word characters, whitespace around `=` is ignored, a quoted value
//! runs to the next matching quote, a bare value is a run of word characters.
//! Malformed fragments are skipped silently; when a key occurs twice, the last
//! occurrence wins.  The decomposer is total: every input yields a mapping.

use vstd::prelude::*;
use vstd::string::StrSliceExecFns;
use crate::text::{
    is_word_char, word_run_end, space_run_end, find_char,
    lemma_word_run_end, lemma_space_run_end, lemma_find_char,
    lemma_word_run_end_is, lemma_space_run_end_is, lemma_find_char_is,
    scan_word_run, scan_space_run, scan_find_char, str_eq,
};

verus! {

/// A match of one attribute fragment starting exactly at `i`:
/// `Some((key_end, val_start, val_end, match_end))`, where the key occupies
/// `[i, key_end)` and the value `[val_start, val_end)`.
pub open spec fn attr_match_at(s: Seq<char>, i: int) -> Option<(int, int, int, int)> {
    let ke = word_run_end(s, i);
    if ke == i {
        None
    } else {
        let j = space_run_end(s, ke);
        if j < s.len() && s[j] == '=' {
            let m = space_run_end(s, j + 1);
            if m < s.len() && s[m] == '"' {
                match find_char(s, m + 1, '"') {
                    Some(q) => Some((ke, m + 1, q, q + 1)),
                    None => None,
                }
            } else if m < s.len() && s[m] == '\'' {
                match find_char(s, m + 1, '\'') {
                    Some(q) => Some((ke, m + 1, q, q + 1)),
                    None => None,
                }
            } else {
                let ve = word_run_end(s, m);
                if ve == m {
                    None
                } else {
                    Some((ke, m, ve, ve))
                }
            }
        } else {
            None
        }
    }
}

/// The leftmost fragment starting at or after `i`:
/// `Some((match_start, key_end, val_start, val_end, match_end))`.
pub open spec fn attr_find_from(s: Seq<char>, i: int) -> Option<(int, int, int, int, int)>
    decreases s.len() - i,
{
    if !(0 <= i && i < s.len()) {
        None
    } else {
        match attr_match_at(s, i) {
            Some((ke, vs, ve, end)) => Some((i, ke, vs, ve, end)),
            None => attr_find_from(s, i + 1),
        }
    }
}

/// All fragments of `s` from position `i` on, leftmost first, as
/// `(key, value)` pairs of character sequences.
pub open spec fn attr_pairs_from(s: Seq<char>, i: int) -> Seq<(Seq<char>, Seq<char>)>
    decreases s.len() - i,
{
    if !(0 <= i && i < s.len()) {
        Seq::empty()
    } else {
        match attr_find_from(s, i) {
            None => Seq::empty(),
            Some((ms, ke, vs, ve, end)) => if i < end && end <= s.len() {
                seq![(s.subrange(ms, ke), s.subrange(vs, ve))] + attr_pairs_from(s, end)
            } else {
                Seq::empty()
            },
        }
    }
}

/// The mapping a pair sequence denotes: a later pair overrides an earlier
/// one with the same key.
pub open spec fn pairs_map(ps: Seq<(Seq<char>, Seq<char>)>) -> Map<Seq<char>, Seq<char>>
    decreases ps.len(),
{
    if ps.len() == 0 {
        Map::empty()
    } else {
        pairs_map(ps.drop_last()).insert(ps.last().0, ps.last().1)
    }
}

/// The attribute mapping of a whole attribute text.
pub open spec fn attr_map_of(s: Seq<char>) -> Map<Seq<char>, Seq<char>> {
    pairs_map(attr_pairs_from(s, 0))
}

/// Some pair of `ps` carries the key `k`.
pub open spec fn has_key(ps: Seq<(Seq<char>, Seq<char>)>, k: Seq<char>) -> bool {
    exists|i: int| 0 <= i < ps.len() && ps[i].0 == k
}

/// No two pairs of `ps` share a key.
pub open spec fn distinct_keys(ps: Seq<(Seq<char>, Seq<char>)>) -> bool {
    forall|i: int, j: int| 0 <= i < j < ps.len() ==> ps[i].0 != ps[j].0
}

/// The pair at `i` is the last occurrence of its key in `ps`.
pub open spec fn wins(ps: Seq<(Seq<char>, Seq<char>)>, i: int) -> bool {
    forall|j: int| i < j < ps.len() ==> ps[j].0 != ps[i].0
}

/// Where a fragment matches, its pieces sit in order inside the text and the
/// key is a non-empty run of word characters.
pub proof fn lemma_attr_match_at_bounds(s: Seq<char>, i: int)
    requires
        0 <= i <= s.len(),
    ensures
        match attr_match_at(s, i) {
            Some((ke, vs, ve, end)) => i < ke <= vs <= ve <= end <= s.len() && forall|j: int|
                i <= j < ke ==> is_word_char(s[j]),
            None => true,
        },
{
    lemma_word_run_end(s, i);
    let ke = word_run_end(s, i);
    if ke != i {
        lemma_space_run_end(s, ke);
        let j = space_run_end(s, ke);
        if j < s.len() && s[j] == '=' {
            lemma_space_run_end(s, j + 1);
            let m = space_run_end(s, j + 1);
            if m < s.len() && s[m] == '"' {
                lemma_find_char(s, m + 1, '"');
            } else if m < s.len() && s[m] == '\'' {
                lemma_find_char(s, m + 1, '\'');
            } else {
                lemma_word_run_end(s, m);
            }
        }
    }
}

/// Bounds for the leftmost fragment at or after `i`.
pub proof fn lemma_attr_find_from_bounds(s: Seq<char>, i: int)
    requires
        0 <= i,
    ensures
        match attr_find_from(s, i) {
            Some((ms, ke, vs, ve, end)) => i <= ms && ms < ke <= vs <= ve <= end <= s.len()
                && attr_match_at(s, ms) == Some((ke, vs, ve, end)) && forall|j: int|
                ms <= j < ke ==> is_word_char(s[j]),
            None => true,
        },
    decreases s.len() - i,
{
    if 0 <= i && i < s.len() {
        lemma_attr_match_at_bounds(s, i);
        if attr_match_at(s, i) is None {
            lemma_attr_find_from_bounds(s, i + 1);
        }
    }
}

/// Every extracted key is non-empty and made of word characters.
pub proof fn lemma_attr_pairs_keys_wordy(s: Seq<char>, i: int)
    requires
        0 <= i,
    ensures
        forall|p: int| 0 <= p < attr_pairs_from(s, i).len() ==> {
            let key = (#[trigger] attr_pairs_from(s, i)[p]).0;
            key.len() > 0 && forall|j: int| 0 <= j < key.len() ==> is_word_char(key[j])
        },
    decreases s.len() - i,
{
    if 0 <= i && i < s.len() {
        lemma_attr_find_from_bounds(s, i);
        match attr_find_from(s, i) {
            None => {},
            Some((ms, ke, vs, ve, end)) => {
                lemma_attr_pairs_keys_wordy(s, end);
                let key = s.subrange(ms, ke);
                assert(key.len() > 0);
                assert(forall|j: int| 0 <= j < key.len() ==> is_word_char(key[j]));
                assert(attr_pairs_from(s, i)[0].0 == key);
                assert(forall|p: int| 1 <= p < attr_pairs_from(s, i).len() ==>
                    attr_pairs_from(s, i)[p] == attr_pairs_from(s, end)[p - 1]);
            },
        }
    }
}

/// The domain of the mapping is finite and holds exactly the keys of `ps`.
pub proof fn lemma_pairs_map_dom(ps: Seq<(Seq<char>, Seq<char>)>)
    ensures
        pairs_map(ps).dom().finite(),
        forall|k: Seq<char>| #[trigger] pairs_map(ps).contains_key(k) <==> has_key(ps, k),
    decreases ps.len(),
{
    if ps.len() == 0 {
        assert(forall|k: Seq<char>| !has_key(ps, k));
    } else {
        lemma_pairs_map_dom(ps.drop_last());
        assert forall|k: Seq<char>| #[trigger] pairs_map(ps).contains_key(k) implies has_key(ps, k) by {
            if k == ps.last().0 {
                assert(ps[ps.len() - 1].0 == k);
            } else {
                let i = choose|i: int| 0 <= i < ps.drop_last().len() && ps.drop_last()[i].0 == k;
                assert(ps[i].0 == k);
            }
        }
        assert forall|k: Seq<char>| has_key(ps, k) implies #[trigger] pairs_map(ps).contains_key(k) by {
            let i = choose|i: int| 0 <= i < ps.len() && ps[i].0 == k;
            if i < ps.len() - 1 {
                assert(ps.drop_last()[i].0 == k);
            }
        }
    }
}

/// With pairwise-distinct keys, the mapping has exactly one entry per pair.
pub proof fn lemma_pairs_map_distinct_len(ps: Seq<(Seq<char>, Seq<char>)>)
    requires
        distinct_keys(ps),
    ensures
        pairs_map(ps).dom().finite(),
        pairs_map(ps).dom().len() == ps.len(),
    decreases ps.len(),
{
    lemma_pairs_map_dom(ps);
    if ps.len() > 0 {
        let front = ps.drop_last();
        assert(distinct_keys(front)) by {
            assert(forall|i: int, j: int| 0 <= i < j < front.len() ==> front[i] == ps[i]
                && front[j] == ps[j]);
        }
        lemma_pairs_map_distinct_len(front);
        lemma_pairs_map_dom(front);
        assert(!has_key(front, ps.last().0)) by {
            if has_key(front, ps.last().0) {
                let i = choose|i: int| 0 <= i < front.len() && front[i].0 == ps.last().0;
                assert(ps[i].0 == ps[ps.len() - 1].0);
            }
        }
        assert(pairs_map(ps).dom() =~= pairs_map(front).dom().insert(ps.last().0));
        vstd::set::axiom_set_insert_len(pairs_map(front).dom(), ps.last().0);
    }
}

/// The pair at a winning index supplies the mapping's value for its key.
pub proof fn lemma_pairs_map_wins_lookup(ps: Seq<(Seq<char>, Seq<char>)>, i: int)
    requires
        0 <= i < ps.len(),
        wins(ps, i),
    ensures
        pairs_map(ps).contains_key(ps[i].0),
        pairs_map(ps)[ps[i].0] == ps[i].1,
    decreases ps.len(),
{
    if i == ps.len() - 1 {
    } else {
        assert(ps.last().0 != ps[i].0);
        assert(ps.drop_last()[i] == ps[i]);
        assert(wins(ps.drop_last(), i)) by {
            assert(forall|j: int| i < j < ps.drop_last().len() ==> ps.drop_last()[j] == ps[j]);
        }
        lemma_pairs_map_wins_lookup(ps.drop_last(), i);
    }
}

/// With pairwise-distinct keys every index wins, so every pair is looked up
/// at its own value.
pub proof fn lemma_pairs_map_lookup(ps: Seq<(Seq<char>, Seq<char>)>, i: int)
    requires
        distinct_keys(ps),
        0 <= i < ps.len(),
    ensures
        pairs_map(ps).contains_key(ps[i].0),
        pairs_map(ps)[ps[i].0] == ps[i].1,
{
    assert(wins(ps, i));
    lemma_pairs_map_wins_lookup(ps, i);
}

/// Every key present in `ps` has a last occurrence.
pub proof fn lemma_exists_winner(ps: Seq<(Seq<char>, Seq<char>)>, k: Seq<char>)
    requires
        has_key(ps, k),
    ensures
        exists|i: int| 0 <= i < ps.len() && ps[i].0 == k && wins(ps, i),
    decreases ps.len(),
{
    if ps.last().0 == k {
        let w = ps.len() - 1;
        assert(0 <= w < ps.len() && ps[w].0 == k && wins(ps, w));
    } else {
        assert(has_key(ps.drop_last(), k)) by {
            let i = choose|i: int| 0 <= i < ps.len() && ps[i].0 == k;
            assert(ps.drop_last()[i] == ps[i]);
        }
        lemma_exists_winner(ps.drop_last(), k);
        let i = choose|i: int|
            0 <= i < ps.drop_last().len() && ps.drop_last()[i].0 == k && wins(ps.drop_last(), i);
        assert(ps[i].0 == k);
        assert(wins(ps, i)) by {
            assert(forall|j: int| i < j < ps.len() - 1 ==> ps[j] == ps.drop_last()[j]);
        }
    }
}

/// A quoted fragment `key={q}value{q}` written at position `i` matches
/// exactly there, whatever follows it.
pub proof fn lemma_match_quoted(s: Seq<char>, i: int, k: Seq<char>, v: Seq<char>, q: char)
    requires
        0 <= i,
        i + k.len() + 3 + v.len() <= s.len(),
        q == '"' || q == '\'',
        k.len() > 0,
        forall|j: int| 0 <= j < k.len() ==> is_word_char(k[j]),
        forall|j: int| 0 <= j < v.len() ==> v[j] != q,
        s.subrange(i, i + k.len() + 3 + v.len()) == k + seq!['=', q] + v + seq![q],
    ensures
        attr_match_at(s, i) == Some(
            (i + k.len(), i + k.len() + 2, i + k.len() + 2 + v.len(), i + k.len() + 3 + v.len()),
        ),
{
    let kl = k.len() as int;
    let vl = v.len() as int;
    let frag = k + seq!['=', q] + v + seq![q];
    assert forall|j: int| i <= j < i + kl + 3 + vl implies s[j] == frag[j - i] by {
        assert(s.subrange(i, i + kl + 3 + vl)[j - i] == s[j]);
    }
    assert forall|j: int| i <= j < i + kl implies is_word_char(s[j]) by {
        assert(s[j] == frag[j - i]);
        assert(frag[j - i] == k[j - i]);
    }
    assert(s[i + kl] == '=');
    lemma_word_run_end_is(s, i, i + kl);
    lemma_space_run_end_is(s, i + kl, i + kl);
    assert(s[i + kl + 1] == q);
    lemma_space_run_end_is(s, i + kl + 1, i + kl + 1);
    assert(s[i + kl + 2 + vl] == q);
    assert forall|j: int| i + kl + 2 <= j < i + kl + 2 + vl implies s[j] != q by {
        assert(s[j] == frag[j - i]);
        assert(frag[j - i] == v[j - i - kl - 2]);
    }
    lemma_find_char_is(s, i + kl + 2, q, i + kl + 2 + vl);
}

/// A bare fragment `key=value` written at position `i`, with no word
/// character right after it, matches exactly there.
pub proof fn lemma_match_bare(s: Seq<char>, i: int, k: Seq<char>, v: Seq<char>)
    requires
        0 <= i,
        i + k.len() + 1 + v.len() <= s.len(),
        k.len() > 0,
        v.len() > 0,
        forall|j: int| 0 <= j < k.len() ==> is_word_char(k[j]),
        forall|j: int| 0 <= j < v.len() ==> is_word_char(v[j]),
        s.subrange(i, i + k.len() + 1 + v.len()) == k + seq!['='] + v,
        i + k.len() + 1 + v.len() == s.len() || !is_word_char(s[i + k.len() + 1 + v.len()]),
    ensures
        attr_match_at(s, i) == Some(
            (i + k.len(), i + k.len() + 1, i + k.len() + 1 + v.len(), i + k.len() + 1 + v.len()),
        ),
{
    let kl = k.len() as int;
    let vl = v.len() as int;
    let frag = k + seq!['='] + v;
    assert forall|j: int| i <= j < i + kl + 1 + vl implies s[j] == frag[j - i] by {
        assert(s.subrange(i, i + kl + 1 + vl)[j - i] == s[j]);
    }
    assert forall|j: int| i <= j < i + kl implies is_word_char(s[j]) by {
        assert(s[j] == frag[j - i]);
        assert(frag[j - i] == k[j - i]);
    }
    assert(s[i + kl] == '=');
    lemma_word_run_end_is(s, i, i + kl);
    lemma_space_run_end_is(s, i + kl, i + kl);
    assert(s[i + kl + 1] == v[0]);
    assert(is_word_char(s[i + kl + 1]));
    assert(s[i + kl + 1] != '"' && s[i + kl + 1] != '\'');
    lemma_space_run_end_is(s, i + kl + 1, i + kl + 1);
    assert forall|j: int| i + kl + 1 <= j < i + kl + 1 + vl implies is_word_char(s[j]) by {
        assert(s[j] == frag[j - i]);
        assert(frag[j - i] == v[j - i - kl - 1]);
    }
    lemma_word_run_end_is(s, i + kl + 1, i + kl + 1 + vl);
}

/// Law: attribute text whose fragments carry pairwise-distinct keys yields a
/// mapping with exactly one entry per fragment — nothing is dropped, nothing
/// is counted twice.
pub proof fn lemma_attr_map_entry_count(s: Seq<char>)
    requires
        distinct_keys(attr_pairs_from(s, 0)),
    ensures
        attr_map_of(s).dom().finite(),
        attr_map_of(s).dom().len() == attr_pairs_from(s, 0).len(),
{
    lemma_pairs_map_distinct_len(attr_pairs_from(s, 0));
}

/// The pair sequence a vector of owned strings stands for.
pub open spec fn pair_views(ps: Seq<(String, String)>) -> Seq<(Seq<char>, Seq<char>)> {
    ps.map_values(|p: (String, String)| (p.0@, p.1@))
}

/// A key survives the filter unless it equals the excluded key.
pub open spec fn key_ok(k: Seq<char>, excl: Option<Seq<char>>) -> bool {
    match excl {
        Some(nm) => k != nm,
        None => true,
    }
}

/// A kept entry is a winning, non-excluded entry of the raw sequence below `k`.
pub open spec fn kept_entry_ok(
    rv: Seq<(Seq<char>, Seq<char>)>,
    entry: (Seq<char>, Seq<char>),
    k: int,
    excl: Option<Seq<char>>,
) -> bool {
    key_ok(entry.0, excl) && exists|i: int| 0 <= i < k && rv[i] == entry && wins(rv, i)
}

/// Looks for one attribute fragment starting exactly at `i`.
fn attr_match_exec(s: &str, n: usize, i: usize) -> (r: Option<(usize, usize, usize, usize)>)
    requires
        n == s@.len(),
        i <= n,
    ensures
        match r {
            Some((ke, vs, ve, end)) => attr_match_at(s@, i as int) == Some(
                (ke as int, vs as int, ve as int, end as int),
            ) && i < ke <= vs <= ve <= end <= n,
            None => attr_match_at(s@, i as int) is None,
        },
{
    proof {
        lemma_attr_match_at_bounds(s@, i as int);
    }
    let ke = scan_word_run(s, n, i);
    if ke == i {
        return None;
    }
    let j = scan_space_run(s, n, ke);
    if j < n && s.get_char(j) == '=' {
        let m = scan_space_run(s, n, j + 1);
        if m < n && s.get_char(m) == '"' {
            match scan_find_char(s, n, m + 1, '"') {
                Some(q) => Some((ke, m + 1, q, q + 1)),
                None => None,
            }
        } else if m < n && s.get_char(m) == '\'' {
            match scan_find_char(s, n, m + 1, '\'') {
                Some(q) => Some((ke, m + 1, q, q + 1)),
                None => None,
            }
        } else {
            let ve = scan_word_run(s, n, m);
            if ve == m {
                None
            } else {
                Some((ke, m, ve, ve))
            }
        }
    } else {
        None
    }
}

/// Collects every fragment of `s`, leftmost first, as owned strings.
fn collect_pairs(s: &str) -> (raw: Vec<(String, String)>)
    ensures
        pair_views(raw@) == attr_pairs_from(s@, 0),
{
    let n = s.unicode_len();
    let mut raw: Vec<(String, String)> = Vec::new();
    let mut i: usize = 0;
    while i < n
        invariant
            i <= n,
            n == s@.len(),
            attr_pairs_from(s@, 0) == pair_views(raw@) + attr_pairs_from(s@, i as int),
        decreases n - i,
    {
        match attr_match_exec(s, n, i) {
            None => {
                proof {
                    lemma_attr_find_from_bounds(s@, i + 1);
                    assert(attr_find_from(s@, i as int) == attr_find_from(s@, i + 1));
                    assert(attr_pairs_from(s@, i as int) == attr_pairs_from(s@, i + 1));
                }
                i = i + 1;
            },
            Some((ke, vs, ve, end)) => {
                let key = s.substring_char(i, ke).to_owned();
                let val = s.substring_char(vs, ve).to_owned();
                proof {
                    assert(attr_find_from(s@, i as int) == Some(
                        (i as int, ke as int, vs as int, ve as int, end as int),
                    ));
                    assert(attr_pairs_from(s@, i as int) == seq![
                        (s@.subrange(i as int, ke as int), s@.subrange(vs as int, ve as int)),
                    ] + attr_pairs_from(s@, end as int));
                    assert(pair_views(raw@.push((key, val))) =~= pair_views(raw@).push(
                        (key@, val@),
                    ));
                    assert(pair_views(raw@).push((key@, val@)) + attr_pairs_from(s@, end as int)
                        =~= pair_views(raw@) + attr_pairs_from(s@, i as int));
                }
                raw.push((key, val));
                i = end;
            },
        }
    }
    proof {
        assert(attr_pairs_from(s@, i as int) =~= Seq::empty());
        assert(pair_views(raw@) =~= pair_views(raw@) + attr_pairs_from(s@, i as int));
    }
    raw
}

/// Keeps, of each key, its last occurrence, and drops the excluded key.
fn dedup_filter(raw: &Vec<(String, String)>, excl: Option<&str>) -> (kept: Vec<(String, String)>)
    ensures
        distinct_keys(pair_views(kept@)),
        pairs_map(pair_views(kept@)) == (match excl {
            Some(nm) => pairs_map(pair_views(raw@)).remove(nm@),
            None => pairs_map(pair_views(raw@)),
        }),
{
    let ghost rv = pair_views(raw@);
    let ghost exv: Option<Seq<char>> = match excl {
        Some(nm) => Some(nm@),
        None => None,
    };
    let mut kept: Vec<(String, String)> = Vec::new();
    let mut k: usize = 0;
    while k < raw.len()
        invariant
            k <= raw.len(),
            rv == pair_views(raw@),
            (match excl {
                Some(nm) => exv == Some(nm@),
                None => exv is None,
            }),
            distinct_keys(pair_views(kept@)),
            forall|a: int| 0 <= a < kept@.len() ==> kept_entry_ok(
                rv,
                #[trigger] pair_views(kept@)[a],
                k as int,
                exv,
            ),
            forall|i: int|
                0 <= i < k && wins(rv, i) && key_ok(#[trigger] rv[i].0, exv) ==> has_key(
                    pair_views(kept@),
                    rv[i].0,
                ),
        decreases raw.len() - k,
    {
        let mut later: usize = k + 1;
        let mut dup = false;
        while later < raw.len()
            invariant
                k < raw.len(),
                k + 1 <= later <= raw.len(),
                rv == pair_views(raw@),
                dup <==> exists|j: int| k < j < later && #[trigger] rv[j].0 == rv[k as int].0,
            decreases raw.len() - later,
        {
            if str_eq(raw[later].0.as_str(), raw[k].0.as_str()) {
                dup = true;
                proof {
                    assert(rv[later as int].0 == rv[k as int].0);
                }
            }
            later = later + 1;
        }
        let keep_excl = match excl {
            None => true,
            Some(nm) => !str_eq(raw[k].0.as_str(), nm),
        };
        if !dup && keep_excl {
            let entry = (raw[k].0.clone(), raw[k].1.clone());
            proof {
                assert(wins(rv, k as int));
                assert((entry.0@, entry.1@) == rv[k as int]);
                let kv2 = pair_views(kept@.push(entry));
                assert(kv2 =~= pair_views(kept@).push(rv[k as int]));
                assert forall|a: int, b: int| 0 <= a < b < kv2.len() implies kv2[a].0 != kv2[b].0 by {
                    if b == kv2.len() - 1 {
                        assert(kept_entry_ok(rv, pair_views(kept@)[a], k as int, exv));
                        let i = choose|i: int|
                            0 <= i < k && rv[i] == pair_views(kept@)[a] && wins(rv, i);
                        assert(rv[k as int].0 != rv[i].0 || !wins(rv, i));
                    }
                }
                assert forall|a: int| 0 <= a < kv2.len() implies kept_entry_ok(
                    rv,
                    kv2[a],
                    k + 1,
                    exv,
                ) by {
                    if a == kv2.len() - 1 {
                        assert(rv[k as int] == kv2[a] && wins(rv, k as int));
                    } else {
                        assert(kept_entry_ok(rv, pair_views(kept@)[a], k as int, exv));
                        let i = choose|i: int|
                            0 <= i < k && rv[i] == pair_views(kept@)[a] && wins(rv, i);
                        assert(0 <= i < k + 1 && rv[i] == kv2[a] && wins(rv, i));
                    }
                }
                assert forall|i: int|
                    0 <= i < k + 1 && wins(rv, i) && key_ok(#[trigger] rv[i].0, exv) implies has_key(
                    kv2,
                    rv[i].0,
                ) by {
                    if i == k {
                        assert(kv2[kv2.len() - 1].0 == rv[i].0);
                    } else {
                        assert(has_key(pair_views(kept@), rv[i].0));
                        let a = choose|a: int|
                            0 <= a < pair_views(kept@).len() && pair_views(kept@)[a].0 == rv[i].0;
                        assert(kv2[a].0 == rv[i].0);
                    }
                }
            }
            kept.push(entry);
        } else {
            proof {
                if dup {
                    assert(!wins(rv, k as int));
                }
                assert forall|i: int|
                    0 <= i < k + 1 && wins(rv, i) && key_ok(#[trigger] rv[i].0, exv) implies has_key(
                    pair_views(kept@),
                    rv[i].0,
                ) by {
                    if i == k {
                        assert(!keep_excl ==> !key_ok(rv[i].0, exv));
                    }
                }
            }
        }
        k = k + 1;
    }
    proof {
        let kv = pair_views(kept@);
        let target = match exv {
            Some(nm) => pairs_map(rv).remove(nm),
            None => pairs_map(rv),
        };
        lemma_pairs_map_dom(kv);
        lemma_pairs_map_dom(rv);
        assert forall|key: Seq<char>| #[trigger] pairs_map(kv).contains_key(key) implies
            target.contains_key(key) && pairs_map(kv)[key] == target[key] by {
            assert(has_key(kv, key));
            let a = choose|a: int| 0 <= a < kv.len() && kv[a].0 == key;
            assert(kept_entry_ok(rv, kv[a], raw@.len() as int, exv));
            let i = choose|i: int| 0 <= i < rv.len() && rv[i] == kv[a] && wins(rv, i);
            lemma_pairs_map_wins_lookup(rv, i);
            lemma_pairs_map_lookup(kv, a);
        }
        assert forall|key: Seq<char>| #[trigger] target.contains_key(key) implies pairs_map(
            kv,
        ).contains_key(key) by {
            assert(pairs_map(rv).contains_key(key));
            assert(has_key(rv, key));
            lemma_exists_winner(rv, key);
            let i = choose|i: int| 0 <= i < rv.len() && rv[i].0 == key && wins(rv, i);
            assert(key_ok(rv[i].0, exv));
            assert(has_key(kv, rv[i].0));
        }
        assert(pairs_map(kv) =~= target);
    }
    kept
}

/// One parse failure of this library.  `TagMetaDataKind` reports attribute
/// text that could not be accepted; `TagNameKind` reports an interior whose
/// leading tag name could not be extracted.
#[derive(Debug)]
pub enum TagParseError {
    TagMetaDataKind(String),
    TagNameKind(String),
}

impl TagParseError {
    /// A human-readable description of the failure.
    pub fn message(&self) -> (r: String)
        ensures
            match self {
                TagParseError::TagMetaDataKind(s) => r@ == "Failed to Parse tag metadata: "@ + s@,
                TagParseError::TagNameKind(s) => r@ == "Failed to parse tag name: "@ + s@,
            },
    {
        match self {
            TagParseError::TagMetaDataKind(s) => String::from_str(
                "Failed to Parse tag metadata: ",
            ).concat(s.as_str()),
            TagParseError::TagNameKind(s) => String::from_str("Failed to parse tag name: ").concat(
                s.as_str(),
            ),
        }
    }
}

/// An attribute mapping: key/value pairs decoded from the attribute text of
/// an opening or self-closing tag.  Keys are unique; when the text repeats a
/// key, the last occurrence has won.
#[derive(Debug)]
pub struct MetaData {
    pairs: Vec<(String, String)>,
}

impl View for MetaData {
    type V = Map<Seq<char>, Seq<char>>;

    closed spec fn view(&self) -> Map<Seq<char>, Seq<char>> {
        pairs_map(pair_views(self.pairs@))
    }
}

impl MetaData {
    #[verifier::type_invariant]
    spec fn type_inv(self) -> bool {
        distinct_keys(pair_views(self.pairs@))
    }

    /// Decodes attribute text whose tag name has already been parsed out.
    /// Empty input is the one rejected input; any other text yields the
    /// mapping of its valid fragments, an empty mapping when there are none.
    pub fn try_parse(value: &str) -> (r: Result<MetaData, TagParseError>)
        ensures
            value@.len() == 0 ==> (r matches Err(e) && e matches TagParseError::TagMetaDataKind(m)
                && m@ == "Input is empty"@),
            value@.len() > 0 ==> (r matches Ok(m) && m@ == attr_map_of(value@)),
    {
        if value.unicode_len() == 0 {
            return Err(TagParseError::TagMetaDataKind(String::from_str("Input is empty")));
        }
        Ok(parse_attributes(value))
    }

    /// How many attributes the mapping holds.
    pub fn len(&self) -> (n: usize)
        ensures
            n == self@.dom().len(),
    {
        proof {
            use_type_invariant(self);
            lemma_pairs_map_distinct_len(pair_views(self.pairs@));
        }
        self.pairs.len()
    }

    /// Looks an attribute value up by its key.
    pub fn get(&self, key: &str) -> (r: Option<&String>)
        ensures
            match r {
                Some(v) => self@.contains_key(key@) && v@ == self@[key@],
                None => !self@.contains_key(key@),
            },
    {
        proof {
            use_type_invariant(self);
        }
        let mut idx: usize = 0;
        while idx < self.pairs.len()
            invariant
                idx <= self.pairs@.len(),
                distinct_keys(pair_views(self.pairs@)),
                forall|j: int| 0 <= j < idx ==> (#[trigger] pair_views(self.pairs@)[j]).0 != key@,
            decreases self.pairs@.len() - idx,
        {
            if str_eq(key, self.pairs[idx].0.as_str()) {
                proof {
                    lemma_pairs_map_lookup(pair_views(self.pairs@), idx as int);
                }
                return Some(&self.pairs[idx].1);
            }
            idx = idx + 1;
        }
        proof {
            lemma_pairs_map_dom(pair_views(self.pairs@));
            if has_key(pair_views(self.pairs@), key@) {
                let j = choose|j: int|
                    0 <= j < pair_views(self.pairs@).len() && pair_views(self.pairs@)[j].0 == key@;
            }
        }
        None
    }

    /// Decodes attribute text and drops the pairs keyed by `name`, so that a
    /// tag's mapping never carries its own name as a key.
    pub(crate) fn from_text_excluding(text: &str, name: &str) -> (m: MetaData)
        ensures
            m@ == attr_map_of(text@).remove(name@),
    {
        let raw = collect_pairs(text);
        let kept = dedup_filter(&raw, Some(name));
        MetaData { pairs: kept }
    }
}

/// The attribute decomposer: a total function from attribute text to the
/// mapping of its valid fragments.  Malformed fragments contribute nothing;
/// when a key repeats, the last occurrence wins.
pub fn parse_attributes(text: &str) -> (m: MetaData)
    ensures
        m@ == attr_map_of(text@),
{
    let raw = collect_pairs(text);
    let kept = dedup_filter(&raw, None);
    MetaData { pairs: kept }
}

} // verus!
