//! Tag classification and decomposition.
//!
//! The classifier decides, from a span's interior text alone, whether the tag
//! is opening, closing or self-closing.  The decomposer extracts the tag name
//! — a run of word characters that must not start with a digit — and hands
//! the remaining text to the attribute decomposer.  A closing tag never has
//! attributes; an interior whose name cannot be extracted is a failure.

use vstd::prelude::*;
use vstd::string::StrSliceExecFns;
use crate::text::{
    is_word_char, is_name_start_char, is_space_char, word_run_end, space_run_end,
    lemma_word_run_end, lemma_word_run_end_is, lemma_space_run_end_is,
    scan_word_run, scan_space_run, name_start_char,
};
use crate::attrs::{
    MetaData, TagParseError, attr_map_of, attr_pairs_from, attr_find_from, attr_match_at,
    pairs_map, has_key, lemma_attr_pairs_keys_wordy, lemma_pairs_map_dom,
    lemma_match_quoted, lemma_match_bare,
};

verus! {

/// The three kinds of tag this grammar recognizes.
#[derive(Debug, Clone, Copy, PartialEq, Eq, Structural)]
pub enum TagType {
    Open,
    Close,
    SelfClose,
}

/// The classification policy, in priority order: an interior that starts
/// with `/` closes, else one that ends with `/` self-closes, else it opens.
/// Total: every interior, the empty one included, gets exactly one kind.
pub open spec fn classify_spec(t: Seq<char>) -> TagType {
    if t.len() > 0 && t[0] == '/' {
        TagType::Close
    } else if t.len() > 0 && t[t.len() - 1] == '/' {
        TagType::SelfClose
    } else {
        TagType::Open
    }
}

impl TagType {
    /// The tag classifier.  `tag_str` is the interior of a span, without the
    /// `<` and `>` delimiters.
    pub fn check_tag_type(tag_str: &str) -> (t: TagType)
        ensures
            t == classify_spec(tag_str@),
    {
        let n = tag_str.unicode_len();
        if n > 0 && tag_str.get_char(0) == '/' {
            TagType::Close
        } else if n > 0 && tag_str.get_char(n - 1) == '/' {
            TagType::SelfClose
        } else {
            TagType::Open
        }
    }
}

/// Law: classification is a pure function of the interior text — two
/// classifications of the same text always agree, so classifying twice
/// yields what classifying once did.
pub proof fn lemma_classify_pure(t1: Seq<char>, t2: Seq<char>)
    requires
        t1 == t2,
    ensures
        classify_spec(t1) == classify_spec(t2),
{
}

/// The mathematical shape of one decomposed tag.
#[verifier::ext_equal]
pub ghost struct TagView {
    pub name: Seq<char>,
    pub attributes: Option<Map<Seq<char>, Seq<char>>>,
    pub kind: TagType,
}

/// Decomposition of an opening or self-closing body: the interior with the
/// trailing `/`, if any, already stripped.  The name is the leading run of
/// word characters and must not start with a digit.  The text after the name
/// and the separating whitespace is the attribute text; when there is none,
/// the attributes are absent, not empty.  A pair keyed like the tag name
/// itself is dropped, so a mapping never carries its tag's name as a key.
pub open spec fn open_body_view(body: Seq<char>, kind: TagType) -> Option<TagView> {
    if body.len() == 0 || !is_name_start_char(body[0]) {
        None
    } else {
        let ne = word_run_end(body, 0);
        let name = body.subrange(0, ne);
        let a = space_run_end(body, ne);
        if a == body.len() {
            Some(TagView { name, attributes: None, kind })
        } else {
            Some(
                TagView {
                    name,
                    attributes: Some(
                        attr_map_of(body.subrange(a, body.len() as int)).remove(name),
                    ),
                    kind,
                },
            )
        }
    }
}

/// Decomposition of a closing interior `/name…`: the name is the leading run
/// of word characters after the `/`; anything after it is noise and is
/// ignored; a closing tag never has attributes.
pub open spec fn close_view(t: Seq<char>) -> Option<TagView> {
    let rest = t.subrange(1, t.len() as int);
    if rest.len() == 0 || !is_name_start_char(rest[0]) {
        None
    } else {
        let ne = word_run_end(rest, 0);
        Some(TagView { name: rest.subrange(0, ne), attributes: None, kind: TagType::Close })
    }
}

/// What decomposing an interior of the given kind yields, or `None` when the
/// name cannot be extracted.
pub open spec fn decompose_view(t: Seq<char>, kind: TagType) -> Option<TagView> {
    match kind {
        TagType::Close => close_view(t),
        TagType::Open => open_body_view(t, TagType::Open),
        TagType::SelfClose => open_body_view(t.subrange(0, t.len() - 1), TagType::SelfClose),
    }
}

/// An optional attribute mapping: absent on closing tags and on tags without
/// attribute text.
pub type OptMetaData = Option<MetaData>;

/// One parsed tag occurrence: its name, its attributes when it has any, and
/// its kind.  Immutable once constructed.
#[derive(Debug)]
pub struct Tag {
    pub name: String,
    pub metadata: OptMetaData,
    pub kind: TagType,
}

impl View for Tag {
    type V = TagView;

    open spec fn view(&self) -> TagView {
        TagView {
            name: self.name@,
            attributes: match self.metadata {
                Some(m) => Some(m@),
                None => None,
            },
            kind: self.kind,
        }
    }
}

impl Tag {
    /// The data-model invariant: a closing tag carries no mapping, and a
    /// mapping, when present, holds no empty key and never the tag's own
    /// name.
    pub open spec fn wf(self) -> bool {
        match self.metadata {
            Some(m) => self.kind != TagType::Close && !m@.contains_key(self.name@) && forall|
                k: Seq<char>,
            |
                #[trigger] m@.contains_key(k) ==> k.len() > 0,
            None => true,
        }
    }
}

/// Extracts the leading tag name of `s`: its leading run of word characters,
/// refused when `s` is empty or starts with anything but a letter or an
/// underscore.
fn leading_name(s: &str, n: usize) -> (r: Option<(String, usize)>)
    requires
        n == s@.len(),
    ensures
        match r {
            Some(p) => s@.len() > 0 && is_name_start_char(s@[0]) && p.1 == word_run_end(s@, 0)
                && p.0@ == s@.subrange(0, p.1 as int) && 0 < p.1 <= n,
            None => s@.len() == 0 || !is_name_start_char(s@[0]),
        },
{
    if n == 0 {
        return None;
    }
    if !name_start_char(s.get_char(0)) {
        return None;
    }
    let ne = scan_word_run(s, n, 0);
    proof {
        lemma_word_run_end(s@, 0);
    }
    Some((s.substring_char(0, ne).to_owned(), ne))
}

/// Decomposes an opening or self-closing body: name first, then the
/// attribute text after the separating whitespace, if any is left.
fn parse_open_body(body: &str, kind: TagType) -> (r: Option<Tag>)
    requires
        kind != TagType::Close,
    ensures
        match r {
            Some(tag) => open_body_view(body@, kind) == Some(tag@) && tag.wf(),
            None => open_body_view(body@, kind) is None,
        },
{
    let n = body.unicode_len();
    match leading_name(body, n) {
        None => None,
        Some((name, ne)) => {
            let a = scan_space_run(body, n, ne);
            if a == n {
                let tag = Tag { name, metadata: None, kind };
                proof {
                    assert(open_body_view(body@, kind) =~= Some(tag@));
                }
                Some(tag)
            } else {
                let attr_text = body.substring_char(a, n);
                let meta = MetaData::from_text_excluding(attr_text, name.as_str());
                let tag = Tag { name, metadata: Some(meta), kind };
                proof {
                    let t2 = attr_text@;
                    lemma_attr_pairs_keys_wordy(t2, 0);
                    lemma_pairs_map_dom(attr_pairs_from(t2, 0));
                    assert forall|k: Seq<char>| #[trigger] meta@.contains_key(k) implies k.len()
                        > 0 by {
                        assert(attr_map_of(t2).contains_key(k));
                        assert(has_key(attr_pairs_from(t2, 0), k));
                        let i = choose|i: int|
                            0 <= i < attr_pairs_from(t2, 0).len() && attr_pairs_from(t2, 0)[i].0
                                == k;
                    }
                    assert(open_body_view(body@, kind) =~= Some(tag@));
                }
                Some(tag)
            }
        },
    }
}

/// The tag decomposer.  `kind` must be what the classifier said of this very
/// interior.  On success the tag matches `decompose_view` exactly and obeys
/// the data-model invariant; on failure the error carries the offending
/// interior text.
pub fn decompose(interior: &str, kind: TagType) -> (r: Result<Tag, TagParseError>)
    requires
        kind == classify_spec(interior@),
    ensures
        match r {
            Ok(tag) => decompose_view(interior@, kind) == Some(tag@) && tag.wf(),
            Err(e) => decompose_view(interior@, kind) is None && (e matches
                TagParseError::TagNameKind(t) && t@ == interior@),
        },
{
    let n = interior.unicode_len();
    match kind {
        TagType::Close => {
            let rest = interior.substring_char(1, n);
            match leading_name(rest, n - 1) {
                None => Err(TagParseError::TagNameKind(interior.to_owned())),
                Some((name, _ne)) => {
                    let tag = Tag { name, metadata: None, kind: TagType::Close };
                    proof {
                        assert(close_view(interior@) =~= Some(tag@));
                    }
                    Ok(tag)
                },
            }
        },
        TagType::Open => {
            match parse_open_body(interior, TagType::Open) {
                None => Err(TagParseError::TagNameKind(interior.to_owned())),
                Some(tag) => Ok(tag),
            }
        },
        TagType::SelfClose => {
            let body = interior.substring_char(0, n - 1);
            match parse_open_body(body, TagType::SelfClose) {
                None => Err(TagParseError::TagNameKind(interior.to_owned())),
                Some(tag) => Ok(tag),
            }
        },
    }
}

/// Law: a closing interior — `/` then a name, with or without trailing
/// noise that no word character begins — decomposes to exactly that name,
/// with absent attributes.
pub proof fn lemma_closing_decomposition(name: Seq<char>, noise: Seq<char>)
    requires
        name.len() > 0,
        is_name_start_char(name[0]),
        forall|j: int| 0 <= j < name.len() ==> is_word_char(name[j]),
        noise.len() > 0 ==> !is_word_char(noise[0]),
    ensures
        ({
            let t = seq!['/'] + name + noise;
            classify_spec(t) == TagType::Close && decompose_view(t, TagType::Close) == Some(
                (TagView { name, attributes: None, kind: TagType::Close }),
            )
        }),
{
    let t = seq!['/'] + name + noise;
    let nl = name.len() as int;
    assert(t[0] == '/');
    let rest = t.subrange(1, t.len() as int);
    assert(rest =~= name + noise);
    assert(rest[0] == name[0]);
    assert forall|j: int| 0 <= j < nl implies is_word_char(rest[j]) by {
        assert(rest[j] == name[j]);
    }
    assert(nl == rest.len() || !is_word_char(rest[nl]));
    lemma_word_run_end_is(rest, 0, nl);
    assert(rest.subrange(0, nl) =~= name);
    assert(close_view(t) =~= Some((TagView { name, attributes: None, kind: TagType::Close })));
}

/// Law: a well-formed opening interior `name k1="v1" k2='v2' k3=v3`, its
/// three keys pairwise distinct and none of them spelled like the name,
/// classifies as opening and decomposes to exactly that name and exactly
/// those three pairs, the mixed quote styles notwithstanding.
#[verifier::rlimit(100)]
#[verifier::spinoff_prover]
pub proof fn lemma_opening_decomposition(
    name: Seq<char>,
    k1: Seq<char>,
    v1: Seq<char>,
    k2: Seq<char>,
    v2: Seq<char>,
    k3: Seq<char>,
    v3: Seq<char>,
)
    requires
        name.len() > 0,
        is_name_start_char(name[0]),
        forall|j: int| 0 <= j < name.len() ==> is_word_char(name[j]),
        k1.len() > 0,
        forall|j: int| 0 <= j < k1.len() ==> is_word_char(k1[j]),
        k2.len() > 0,
        forall|j: int| 0 <= j < k2.len() ==> is_word_char(k2[j]),
        k3.len() > 0,
        forall|j: int| 0 <= j < k3.len() ==> is_word_char(k3[j]),
        forall|j: int| 0 <= j < v1.len() ==> v1[j] != '"',
        forall|j: int| 0 <= j < v2.len() ==> v2[j] != '\'',
        v3.len() > 0,
        forall|j: int| 0 <= j < v3.len() ==> is_word_char(v3[j]),
        k1 != k2,
        k1 != k3,
        k2 != k3,
        k1 != name,
        k2 != name,
        k3 != name,
    ensures
        ({
            let t = name + seq![' '] + k1 + seq!['=', '"'] + v1 + seq!['"', ' '] + k2 + seq![
                '=',
                '\'',
            ] + v2 + seq!['\'', ' '] + k3 + seq!['='] + v3;
            classify_spec(t) == TagType::Open && decompose_view(t, TagType::Open) == Some(
                (TagView {
                    name,
                    attributes: Some(
                        Map::<Seq<char>, Seq<char>>::empty().insert(k1, v1).insert(k2, v2).insert(
                            k3,
                            v3,
                        ),
                    ),
                    kind: TagType::Open,
                }),
            )
        }),
{
    let nl = name.len() as int;
    let kl1 = k1.len() as int;
    let vl1 = v1.len() as int;
    let kl2 = k2.len() as int;
    let vl2 = v2.len() as int;
    let kl3 = k3.len() as int;
    let vl3 = v3.len() as int;
    let t = name + seq![' '] + k1 + seq!['=', '"'] + v1 + seq!['"', ' '] + k2 + seq!['=', '\'']
        + v2 + seq!['\'', ' '] + k3 + seq!['='] + v3;
    let t2 = k1 + seq!['=', '"'] + v1 + seq!['"', ' '] + k2 + seq!['=', '\''] + v2 + seq![
        '\'',
        ' ',
    ] + k3 + seq!['='] + v3;
    assert(t =~= name + seq![' '] + t2);

    // Classification: the first character is a name start, the last a word
    // character of the bare value; neither is a slash.
    assert(t[0] == name[0]);
    assert(t[t.len() - 1] == v3[vl3 - 1]);
    assert(t[0] != '/' && t[t.len() - 1] != '/');
    assert(classify_spec(t) == TagType::Open);

    // The name is the leading word run, ended by the single space.
    assert forall|j: int| 0 <= j < nl implies is_word_char(t[j]) by {
        assert(t[j] == name[j]);
    }
    assert(t[nl] == ' ');
    lemma_word_run_end_is(t, 0, nl);
    assert(t.subrange(0, nl) =~= name);
    assert(t[nl + 1] == k1[0]);
    assert(is_word_char(t[nl + 1]) && !is_space_char(t[nl + 1]));
    lemma_space_run_end_is(t, nl, nl + 1);
    assert(t.subrange(nl + 1, t.len() as int) =~= t2);

    // First fragment: double-quoted, at the very start of the attribute text.
    let e1 = kl1 + 3 + vl1;
    assert(t2.subrange(0, e1) =~= k1 + seq!['=', '"'] + v1 + seq!['"']);
    lemma_match_quoted(t2, 0, k1, v1, '"');
    assert(attr_find_from(t2, 0) == Some((0int, kl1, kl1 + 2, kl1 + 2 + vl1, e1)));
    assert(t2.subrange(0, kl1) =~= k1);
    assert(t2.subrange(kl1 + 2, kl1 + 2 + vl1) =~= v1);
    assert(attr_pairs_from(t2, 0) == seq![(t2.subrange(0, kl1), t2.subrange(kl1 + 2, kl1 + 2 + vl1))]
        + attr_pairs_from(t2, e1));

    // Second fragment: single-quoted, after the separating space.
    assert(t2[e1] == ' ');
    assert(attr_match_at(t2, e1) is None);
    let s2 = e1 + 1;
    let e2 = s2 + kl2 + 3 + vl2;
    assert(t2.subrange(s2, e2) =~= k2 + seq!['=', '\''] + v2 + seq!['\'']);
    lemma_match_quoted(t2, s2, k2, v2, '\'');
    assert(attr_find_from(t2, e1) == attr_find_from(t2, s2));
    assert(attr_find_from(t2, s2) == Some((s2, s2 + kl2, s2 + kl2 + 2, s2 + kl2 + 2 + vl2, e2)));
    assert(t2.subrange(s2, s2 + kl2) =~= k2);
    assert(t2.subrange(s2 + kl2 + 2, s2 + kl2 + 2 + vl2) =~= v2);
    assert(attr_pairs_from(t2, e1) == seq![
        (t2.subrange(s2, s2 + kl2), t2.subrange(s2 + kl2 + 2, s2 + kl2 + 2 + vl2)),
    ] + attr_pairs_from(t2, e2));

    // Third fragment: a bare word running to the end of the text.
    assert(t2[e2] == ' ');
    assert(attr_match_at(t2, e2) is None);
    let s3 = e2 + 1;
    let e3 = s3 + kl3 + 1 + vl3;
    assert(e3 == t2.len());
    assert(t2.subrange(s3, e3) =~= k3 + seq!['='] + v3);
    lemma_match_bare(t2, s3, k3, v3);
    assert(attr_find_from(t2, e2) == attr_find_from(t2, s3));
    assert(attr_find_from(t2, s3) == Some((s3, s3 + kl3, s3 + kl3 + 1, e3, e3)));
    assert(t2.subrange(s3, s3 + kl3) =~= k3);
    assert(t2.subrange(s3 + kl3 + 1, e3) =~= v3);
    assert(attr_pairs_from(t2, e3) =~= Seq::<(Seq<char>, Seq<char>)>::empty());
    assert(attr_pairs_from(t2, e2) == seq![(t2.subrange(s3, s3 + kl3), t2.subrange(s3 + kl3 + 1, e3))]
        + attr_pairs_from(t2, e3));

    // The pair sequence, hence the mapping, is exactly the three pairs.
    let ps3 = seq![(k1, v1), (k2, v2), (k3, v3)];
    assert(attr_pairs_from(t2, 0) =~= ps3);
    let m3 = Map::<Seq<char>, Seq<char>>::empty().insert(k1, v1).insert(k2, v2).insert(k3, v3);
    let ps2 = seq![(k1, v1), (k2, v2)];
    let ps1 = seq![(k1, v1)];
    assert(ps3.drop_last() =~= ps2);
    assert(ps2.drop_last() =~= ps1);
    assert(ps1.drop_last() =~= Seq::<(Seq<char>, Seq<char>)>::empty());
    assert(pairs_map(Seq::<(Seq<char>, Seq<char>)>::empty()) == Map::<Seq<char>,
        Seq<char>,
    >::empty());
    assert(pairs_map(ps1) == Map::<Seq<char>, Seq<char>>::empty().insert(k1, v1));
    assert(pairs_map(ps2) == pairs_map(ps1).insert(k2, v2));
    assert(pairs_map(ps3) == pairs_map(ps2).insert(k3, v3));
    assert(attr_map_of(t2) == m3);
    assert(!m3.contains_key(name));
    assert(m3.remove(name) =~= m3);
    assert(open_body_view(t, TagType::Open) =~= Some(
        (TagView { name, attributes: Some(m3), kind: TagType::Open }),
    ));
}

/// Law: a self-closing interior — one that ends with `/` without starting
/// with one — classifies as self-closing, and its decomposition works on the
/// interior with that trailing `/` stripped, so the trailing `/` reaches
/// neither the name nor any attribute value; the name, a run of word
/// characters, holds no `/` at all.
pub proof fn lemma_self_closing(t: Seq<char>)
    requires
        t.len() > 0,
        t[t.len() - 1] == '/',
        t[0] != '/',
    ensures
        classify_spec(t) == TagType::SelfClose,
        decompose_view(t, TagType::SelfClose) == open_body_view(
            t.subrange(0, t.len() - 1),
            TagType::SelfClose,
        ),
        (match decompose_view(t, TagType::SelfClose) {
            Some(tv) => forall|j: int| 0 <= j < tv.name.len() ==> tv.name[j] != '/',
            None => true,
        }),
{
    let body = t.subrange(0, t.len() - 1);
    if body.len() > 0 && is_name_start_char(body[0]) {
        lemma_word_run_end(body, 0);
        let ne = word_run_end(body, 0);
        assert forall|j: int| 0 <= j < ne implies body.subrange(0, ne)[j] != '/' by {
            assert(is_word_char(body[j]));
        }
    }
}

} // verus!
