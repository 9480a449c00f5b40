//! The document scanner.
//!
//! The scanner walks the whole document, takes every maximal substring
//! bounded by a `<` and the next `>` as one span, classifies and decomposes
//! each span's interior, and accumulates the outcomes into a report.  A span
//! that fails to decompose never halts the scan: it is counted, its text is
//! kept, and the scan continues at the next `<`.

use vstd::prelude::*;
use vstd::string::StrSliceExecFns;
use crate::text::{find_char, lemma_find_char, scan_find_char};
use crate::tag::{Tag, TagType, TagView, classify_spec, decompose_view, decompose};

verus! {

/// The character sequences a vector of owned strings stands for.
pub open spec fn string_views(ss: Seq<String>) -> Seq<Seq<char>> {
    ss.map_values(|t: String| t@)
}

/// The next span at or after `i`: the first `<`, and the first `>` after it.
pub open spec fn next_span(s: Seq<char>, i: int) -> Option<(int, int)> {
    match find_char(s, i, '<') {
        None => None,
        Some(l) => match find_char(s, l + 1, '>') {
            None => None,
            Some(g) => Some((l, g)),
        },
    }
}

/// The interiors of all spans of `s` from position `i` on, in document
/// order.  A `<` with no later `>` yields no span.
pub open spec fn interiors_from(s: Seq<char>, i: int) -> Seq<Seq<char>>
    decreases s.len() - i,
{
    if !(0 <= i && i < s.len()) {
        Seq::empty()
    } else {
        match next_span(s, i) {
            None => Seq::empty(),
            Some((l, g)) => if i <= l && l < g && g < s.len() {
                seq![s.subrange(l + 1, g)] + interiors_from(s, g + 1)
            } else {
                Seq::empty()
            },
        }
    }
}

/// Where a span exists, its delimiters sit in order and are the nearest ones.
pub proof fn lemma_next_span_bounds(s: Seq<char>, i: int)
    requires
        0 <= i,
    ensures
        match next_span(s, i) {
            Some(p) => i <= p.0 < p.1 < s.len() && s[p.0] == '<' && s[p.1] == '>',
            None => true,
        },
{
    lemma_find_char(s, i, '<');
    match find_char(s, i, '<') {
        None => {},
        Some(l) => {
            lemma_find_char(s, l + 1, '>');
        },
    }
}

/// What one interior comes to: classify it, then decompose it as that kind.
pub open spec fn outcome_view(t: Seq<char>) -> Option<TagView> {
    decompose_view(t, classify_spec(t))
}

/// How many interiors of `ts` decompose into a tag of kind `kind`.
pub open spec fn count_of_kind(ts: Seq<Seq<char>>, kind: TagType) -> nat
    decreases ts.len(),
{
    if ts.len() == 0 {
        0
    } else {
        count_of_kind(ts.drop_last(), kind) + (match outcome_view(ts.last()) {
            Some(tv) => if tv.kind == kind {
                1nat
            } else {
                0nat
            },
            None => 0nat,
        })
    }
}

/// How many interiors of `ts` fail to decompose.
pub open spec fn count_unparsed(ts: Seq<Seq<char>>) -> nat
    decreases ts.len(),
{
    if ts.len() == 0 {
        0
    } else {
        count_unparsed(ts.drop_last()) + (match outcome_view(ts.last()) {
            Some(tv) => 0nat,
            None => 1nat,
        })
    }
}

/// The decomposed tags of `ts`, in document order.
pub open spec fn parsed_views(ts: Seq<Seq<char>>) -> Seq<TagView>
    decreases ts.len(),
{
    if ts.len() == 0 {
        Seq::empty()
    } else {
        parsed_views(ts.drop_last()) + (match outcome_view(ts.last()) {
            Some(tv) => seq![tv],
            None => Seq::empty(),
        })
    }
}

/// The interiors of `ts` that fail to decompose, in document order.
pub open spec fn unparsed_texts(ts: Seq<Seq<char>>) -> Seq<Seq<char>>
    decreases ts.len(),
{
    if ts.len() == 0 {
        Seq::empty()
    } else {
        unparsed_texts(ts.drop_last()) + (match outcome_view(ts.last()) {
            Some(tv) => Seq::empty(),
            None => seq![ts.last()],
        })
    }
}

/// Law: every span comes to exactly one outcome — a decomposed tag of
/// exactly one kind, or a failure — never both and never neither: the three
/// kind counters and the failure counter partition the spans, and the
/// decoded tags and the failed texts together account for every span.
pub proof fn lemma_outcome_partition(ts: Seq<Seq<char>>)
    ensures
        count_of_kind(ts, TagType::Open) + count_of_kind(ts, TagType::Close) + count_of_kind(
            ts,
            TagType::SelfClose,
        ) == parsed_views(ts).len(),
        count_unparsed(ts) == unparsed_texts(ts).len(),
        parsed_views(ts).len() + unparsed_texts(ts).len() == ts.len(),
    decreases ts.len(),
{
    if ts.len() > 0 {
        lemma_outcome_partition(ts.drop_last());
        match outcome_view(ts.last()) {
            Some(tv) => {
                assert(tv.kind == TagType::Open || tv.kind == TagType::Close || tv.kind
                    == TagType::SelfClose);
            },
            None => {},
        }
    }
}

/// No counter can exceed the number of spans.
pub proof fn lemma_counts_bounded(ts: Seq<Seq<char>>, kind: TagType)
    ensures
        count_of_kind(ts, kind) <= ts.len(),
        count_unparsed(ts) <= ts.len(),
    decreases ts.len(),
{
    if ts.len() > 0 {
        lemma_counts_bounded(ts.drop_last(), kind);
    }
}

/// Detects every `<`/`>` delimited span and hands back the interiors, in
/// document order, without the delimiters.
pub fn detect_tag(input: &str) -> (r: Vec<String>)
    ensures
        string_views(r@) == interiors_from(input@, 0),
{
    let n = input.unicode_len();
    let mut out: Vec<String> = Vec::new();
    let mut i: usize = 0;
    while i < n
        invariant
            i <= n,
            n == input@.len(),
            interiors_from(input@, 0) == string_views(out@) + interiors_from(input@, i as int),
        decreases n - i,
    {
        proof {
            lemma_next_span_bounds(input@, i as int);
        }
        match scan_find_char(input, n, i, '<') {
            None => {
                i = n;
            },
            Some(l) => {
                match scan_find_char(input, n, l + 1, '>') {
                    None => {
                        i = n;
                    },
                    Some(g) => {
                        let inner = input.substring_char(l + 1, g).to_owned();
                        proof {
                            assert(next_span(input@, i as int) == Some((l as int, g as int)));
                            assert(interiors_from(input@, i as int) == seq![
                                input@.subrange(l + 1, g as int),
                            ] + interiors_from(input@, g + 1));
                            assert(string_views(out@.push(inner)) =~= string_views(out@).push(
                                inner@,
                            ));
                            assert(string_views(out@).push(inner@) + interiors_from(input@, g + 1)
                                =~= string_views(out@) + interiors_from(input@, i as int));
                        }
                        out.push(inner);
                        i = g + 1;
                    },
                }
            },
        }
    }
    proof {
        assert(string_views(out@) =~= string_views(out@) + interiors_from(input@, i as int));
    }
    out
}

/// The aggregate result of scanning one document: one counter per tag kind,
/// the count of spans that failed to decompose, the decoded tags in document
/// order, and the raw text of every failed span.
pub struct ScanReport {
    pub opening: usize,
    pub closing: usize,
    pub self_closing: usize,
    pub unparsed: usize,
    pub tags: Vec<Tag>,
    pub unparsed_spans: Vec<String>,
}

/// The document scanner.  Every span's interior is classified and
/// decomposed; each outcome lands in exactly one place of the report, and a
/// failed span never stops the scan.
pub fn scan(document: &str) -> (r: ScanReport)
    ensures
        ({
            let ts = interiors_from(document@, 0);
            r.opening == count_of_kind(ts, TagType::Open) && r.closing == count_of_kind(
                ts,
                TagType::Close,
            ) && r.self_closing == count_of_kind(ts, TagType::SelfClose) && r.unparsed
                == count_unparsed(ts) && r.tags@.map_values(|t: Tag| t@) == parsed_views(ts)
                && string_views(r.unparsed_spans@) == unparsed_texts(ts) && (forall|a: int|
                0 <= a < r.tags@.len() ==> (#[trigger] r.tags@[a]).wf())
        }),
{
    let spans = detect_tag(document);
    let ghost ts = interiors_from(document@, 0);
    let mut opening: usize = 0;
    let mut closing: usize = 0;
    let mut self_closing: usize = 0;
    let mut unparsed: usize = 0;
    let mut tags: Vec<Tag> = Vec::new();
    let mut unparsed_spans: Vec<String> = Vec::new();
    let mut idx: usize = 0;
    while idx < spans.len()
        invariant
            idx <= spans@.len(),
            string_views(spans@) == ts,
            opening == count_of_kind(ts.subrange(0, idx as int), TagType::Open),
            closing == count_of_kind(ts.subrange(0, idx as int), TagType::Close),
            self_closing == count_of_kind(ts.subrange(0, idx as int), TagType::SelfClose),
            unparsed == count_unparsed(ts.subrange(0, idx as int)),
            tags@.map_values(|t: Tag| t@) == parsed_views(ts.subrange(0, idx as int)),
            string_views(unparsed_spans@) == unparsed_texts(ts.subrange(0, idx as int)),
            forall|a: int| 0 <= a < tags@.len() ==> (#[trigger] tags@[a]).wf(),
        decreases spans@.len() - idx,
    {
        let interior = &spans[idx];
        let kind = TagType::check_tag_type(interior.as_str());
        proof {
            lemma_counts_bounded(ts.subrange(0, idx as int), kind);
            assert(ts.subrange(0, idx + 1).drop_last() =~= ts.subrange(0, idx as int));
            assert(ts.subrange(0, idx + 1).last() == ts[idx as int]);
            assert(ts[idx as int] == interior@);
        }
        match decompose(interior.as_str(), kind) {
            Ok(tag) => {
                proof {
                    assert(outcome_view(ts[idx as int]) == Some(tag@));
                    assert(tag@.kind == kind);
                    assert(tags@.push(tag).map_values(|t: Tag| t@) =~= tags@.map_values(
                        |t: Tag| t@,
                    ).push(tag@));
                    assert(parsed_views(ts.subrange(0, idx + 1)) =~= parsed_views(
                        ts.subrange(0, idx as int),
                    ).push(tag@));
                    assert(unparsed_texts(ts.subrange(0, idx + 1)) =~= unparsed_texts(
                        ts.subrange(0, idx as int),
                    ));
                }
                match tag.kind {
                    TagType::Open => {
                        opening = opening + 1;
                    },
                    TagType::Close => {
                        closing = closing + 1;
                    },
                    TagType::SelfClose => {
                        self_closing = self_closing + 1;
                    },
                }
                tags.push(tag);
            },
            Err(_) => {
                let span_copy = interior.clone();
                proof {
                    assert(outcome_view(ts[idx as int]) is None);
                    assert(string_views(unparsed_spans@.push(span_copy)) =~= string_views(
                        unparsed_spans@,
                    ).push(interior@));
                    assert(unparsed_texts(ts.subrange(0, idx + 1)) =~= unparsed_texts(
                        ts.subrange(0, idx as int),
                    ).push(interior@));
                    assert(parsed_views(ts.subrange(0, idx + 1)) =~= parsed_views(
                        ts.subrange(0, idx as int),
                    ));
                }
                unparsed = unparsed + 1;
                unparsed_spans.push(span_copy);
            },
        }
        idx = idx + 1;
    }
    proof {
        assert(ts.subrange(0, idx as int) =~= ts);
    }
    ScanReport { opening, closing, self_closing, unparsed, tags, unparsed_spans }
}

/// Law: a document with no `<` followed by a later `>` holds no span at all,
/// so a scan of it reports every counter at zero.
pub proof fn lemma_no_pairs_no_spans(s: Seq<char>)
    requires
        forall|l: int, g: int| 0 <= l < g < s.len() ==> !(s[l] == '<' && s[g] == '>'),
    ensures
        interiors_from(s, 0) == Seq::<Seq<char>>::empty(),
        count_of_kind(interiors_from(s, 0), TagType::Open) == 0,
        count_of_kind(interiors_from(s, 0), TagType::Close) == 0,
        count_of_kind(interiors_from(s, 0), TagType::SelfClose) == 0,
        count_unparsed(interiors_from(s, 0)) == 0,
{
    lemma_find_char(s, 0, '<');
    match find_char(s, 0, '<') {
        None => {},
        Some(l) => {
            lemma_find_char(s, l + 1, '>');
            match find_char(s, l + 1, '>') {
                None => {},
                Some(g) => {
                    assert(0 <= l < g < s.len() && s[l] == '<' && s[g] == '>');
                    assert(false);
                },
            }
        },
    }
}

} // verus!
