//! Deterministic title resolution: a fixed preference order over the title
//! records of an item, with a synthesized label when nothing matches.

use vstd::prelude::*;

use crate::data::{TitleV, VnTitle};
use crate::text::{fallback_label, str_eq, v_label};

verus! {

/// The first index matching a predicate, or `-1`.
pub open spec fn find_first(ts: Seq<TitleV>, p: spec_fn(TitleV) -> bool) -> int
    decreases ts.len(),
{
    if ts.len() == 0 {
        -1
    } else if p(ts[0]) {
        0
    } else {
        let r = find_first(ts.skip(1), p);
        if r < 0 {
            -1int
        } else {
            r + 1
        }
    }
}

pub proof fn lemma_find_first_at(ts: Seq<TitleV>, p: spec_fn(TitleV) -> bool, i: int)
    requires
        0 <= i <= ts.len(),
        forall|k: int| 0 <= k < i ==> !p(#[trigger] ts[k]),
        i < ts.len() ==> p(ts[i]),
    ensures
        find_first(ts, p) == if i < ts.len() {
            i
        } else {
            -1int
        },
    decreases i,
{
    if ts.len() > 0 {
        if i == 0 {
        } else {
            assert(!p(ts[0]));
            assert forall|k: int| 0 <= k < i - 1 implies !p(#[trigger] ts.skip(1)[k]) by {
                assert(ts.skip(1)[k] == ts[k + 1]);
            }
            if i - 1 < ts.skip(1).len() {
                assert(ts.skip(1)[i - 1] == ts[i]);
            }
            lemma_find_first_at(ts.skip(1), p, i - 1);
        }
    }
}

pub open spec fn pred_en(vn: int) -> spec_fn(TitleV) -> bool {
    |t: TitleV| t.vn_id == vn && t.language == "en"@
}

pub open spec fn pred_ja_latin(vn: int) -> spec_fn(TitleV) -> bool {
    |t: TitleV|
        t.vn_id == vn && t.language == "ja"@ && t.latin_title is Some
            && t.latin_title.unwrap() != "\\N"@
}

pub open spec fn pred_ja(vn: int) -> spec_fn(TitleV) -> bool {
    |t: TitleV| t.vn_id == vn && t.language == "ja"@
}

pub open spec fn pred_official_latin(vn: int) -> spec_fn(TitleV) -> bool {
    |t: TitleV|
        t.vn_id == vn && t.official && t.latin_title is Some && t.latin_title.unwrap()
            != "\\N"@
}

pub open spec fn pred_official(vn: int) -> spec_fn(TitleV) -> bool {
    |t: TitleV| t.vn_id == vn && t.official
}

/// The resolved title of an item: the first English record's title, else
/// the first Japanese record's usable latin title, else the first Japanese
/// record's title, else the first official record's usable latin title,
/// else the first official record's title, else the synthesized label.
pub open spec fn resolve_title_spec(ts: Seq<TitleV>, vn: int) -> Seq<char> {
    let i_en = find_first(ts, pred_en(vn));
    let i_jl = find_first(ts, pred_ja_latin(vn));
    let i_ja = find_first(ts, pred_ja(vn));
    let i_ol = find_first(ts, pred_official_latin(vn));
    let i_of = find_first(ts, pred_official(vn));
    if i_en >= 0 {
        ts[i_en].title
    } else if i_jl >= 0 {
        ts[i_jl].latin_title.unwrap()
    } else if i_ja >= 0 {
        ts[i_ja].title
    } else if i_ol >= 0 {
        ts[i_ol].latin_title.unwrap()
    } else if i_of >= 0 {
        ts[i_of].title
    } else {
        fallback_label(vn)
    }
}

/// Resolves the title of an item over a title table.
#[verifier::loop_isolation(false)]
pub fn resolve_title(titles: &Vec<VnTitle>, vn_id: i32) -> (r: String)
    ensures
        r@ == resolve_title_spec(titles.deep_view(), vn_id as int),
        (forall|k: int|
            0 <= k < titles@.len() ==> (#[trigger] titles@[k]).vn_id != vn_id) ==> r@
            == fallback_label(vn_id as int),
{
    let ghost tsv = titles.deep_view();
    let ghost vn = vn_id as int;
    proof {
        assert forall|k: int| 0 <= k < tsv.len() implies #[trigger] tsv[k] == titles@[k]@ by {}
    }
    // Step 1: English title.
    let mut i: usize = 0;
    while i < titles.len()
        invariant
            i <= tsv.len(),
            tsv == titles.deep_view(),
            forall|k: int| 0 <= k < i ==> !(pred_en(vn_id as int))(#[trigger] tsv[k]),
        decreases tsv.len() - i,
    {
        let t = &titles[i];
        if t.vn_id == vn_id && str_eq(t.language.as_str(), "en") {
            proof {
                assert(tsv[i as int] == titles@[i as int]@);
                assert(titles@[i as int]@.vn_id == vn_id as int);
                assert(titles@[i as int]@.language == "en"@);
                assert(titles@[i as int]@.title == t.title@);
                assert((pred_en(vn))(tsv[i as int]));
                lemma_find_first_at(tsv, pred_en(vn), i as int);
            }
            return t.title.clone();
        }
        i = i + 1;
    }
    proof {
        lemma_find_first_at(tsv, pred_en(vn), tsv.len() as int);
    }
    // Step 2: Japanese latin title.
    let mut i: usize = 0;
    while i < titles.len()
        invariant
            i <= tsv.len(),
            tsv == titles.deep_view(),
            find_first(tsv, pred_en(vn)) == -1,
            forall|k: int| 0 <= k < i ==> !(pred_ja_latin(vn_id as int))(#[trigger] tsv[k]),
        decreases tsv.len() - i,
    {
        let t = &titles[i];
        if t.vn_id == vn_id && str_eq(t.language.as_str(), "ja") {
            match &t.latin_title {
                Some(lt) => {
                    if !str_eq(lt.as_str(), "\\N") {
                        proof {
                            assert(tsv[i as int] == titles@[i as int]@);
                            assert(titles@[i as int]@.vn_id == vn_id as int);
                            assert(titles@[i as int]@.language == "ja"@);
                            assert(titles@[i as int]@.latin_title == Some(lt@));
                            assert((pred_ja_latin(vn))(tsv[i as int]));
                            lemma_find_first_at(tsv, pred_ja_latin(vn), i as int);
                        }
                        return lt.clone();
                    }
                },
                None => {},
            }
        }
        i = i + 1;
    }
    proof {
        lemma_find_first_at(tsv, pred_ja_latin(vn), tsv.len() as int);
    }
    // Step 3: Japanese title.
    let mut i: usize = 0;
    while i < titles.len()
        invariant
            i <= tsv.len(),
            tsv == titles.deep_view(),
            find_first(tsv, pred_en(vn)) == -1,
            find_first(tsv, pred_ja_latin(vn)) == -1,
            forall|k: int| 0 <= k < i ==> !(pred_ja(vn_id as int))(#[trigger] tsv[k]),
        decreases tsv.len() - i,
    {
        let t = &titles[i];
        if t.vn_id == vn_id && str_eq(t.language.as_str(), "ja") {
            proof {
                assert(tsv[i as int] == titles@[i as int]@);
                assert(titles@[i as int]@.vn_id == vn_id as int);
                assert(titles@[i as int]@.language == "ja"@);
                assert(titles@[i as int]@.title == t.title@);
                assert((pred_ja(vn))(tsv[i as int]));
                lemma_find_first_at(tsv, pred_ja(vn), i as int);
            }
            return t.title.clone();
        }
        i = i + 1;
    }
    proof {
        lemma_find_first_at(tsv, pred_ja(vn), tsv.len() as int);
    }
    // Step 4: official latin title.
    let mut i: usize = 0;
    while i < titles.len()
        invariant
            i <= tsv.len(),
            tsv == titles.deep_view(),
            find_first(tsv, pred_en(vn)) == -1,
            find_first(tsv, pred_ja_latin(vn)) == -1,
            find_first(tsv, pred_ja(vn)) == -1,
            forall|k: int|
                0 <= k < i ==> !(pred_official_latin(vn_id as int))(#[trigger] tsv[k]),
        decreases tsv.len() - i,
    {
        let t = &titles[i];
        if t.vn_id == vn_id && t.official {
            match &t.latin_title {
                Some(lt) => {
                    if !str_eq(lt.as_str(), "\\N") {
                        proof {
                            assert(tsv[i as int] == titles@[i as int]@);
                            assert(titles@[i as int]@.vn_id == vn_id as int);
                            assert(titles@[i as int]@.official);
                            assert(titles@[i as int]@.latin_title == Some(lt@));
                            assert((pred_official_latin(vn))(tsv[i as int]));
                            lemma_find_first_at(tsv, pred_official_latin(vn), i as int);
                        }
                        return lt.clone();
                    }
                },
                None => {},
            }
        }
        i = i + 1;
    }
    proof {
        lemma_find_first_at(tsv, pred_official_latin(vn), tsv.len() as int);
    }
    // Step 5: official title.
    let mut i: usize = 0;
    while i < titles.len()
        invariant
            i <= tsv.len(),
            tsv == titles.deep_view(),
            find_first(tsv, pred_en(vn)) == -1,
            find_first(tsv, pred_ja_latin(vn)) == -1,
            find_first(tsv, pred_ja(vn)) == -1,
            find_first(tsv, pred_official_latin(vn)) == -1,
            forall|k: int| 0 <= k < i ==> !(pred_official(vn_id as int))(#[trigger] tsv[k]),
        decreases tsv.len() - i,
    {
        let t = &titles[i];
        if t.vn_id == vn_id && t.official {
            proof {
                assert(tsv[i as int] == titles@[i as int]@);
                assert(titles@[i as int]@.vn_id == vn_id as int);
                assert(titles@[i as int]@.official);
                assert(titles@[i as int]@.title == t.title@);
                assert((pred_official(vn))(tsv[i as int]));
                lemma_find_first_at(tsv, pred_official(vn), i as int);
            }
            return t.title.clone();
        }
        i = i + 1;
    }
    proof {
        lemma_find_first_at(tsv, pred_official(vn), tsv.len() as int);
    }
    // Fallback: synthesized label.
    v_label(vn_id)
}

} // verus!
