//! Row parsing for the three ingest sources. Malformed rows are dropped
//! silently and ingest continues: a best-effort policy for noisy flat-file
//! input. Ids parse as non-negative integers; value fields parse as
//! fixed-point decimals and are power-transformed on the way in.

use vstd::prelude::*;

use crate::data::{Rating, RatingV, Tag, TagV, TitleV, VnTitle};
use crate::fixed::{pow_fixed, pow_transform};
use crate::text::{
    fields_of, parse_fixed, parse_fixed_spec, parse_uint, parse_uint_spec, split_fields,
    split_on, split_on_char, str_eq, strip_cr, strip_cr_exec, strip_leading, strip_leading_exec,
};

verus! {

/// What one title line yields: tab-separated fields
/// `[id, language, official, title, latin_title]`, at least five of them,
/// the id stripped of its leading `v` markers; the literal `\N` denotes a
/// missing latin title. A malformed line yields nothing.
pub open spec fn title_of_line(line: Seq<char>) -> Option<TitleV> {
    let parts = split_on(strip_cr(line), '\t');
    if parts.len() < 5 {
        None
    } else {
        match parse_uint_spec(strip_leading(parts[0], 'v'), i32::MAX as int) {
            None => None,
            Some(id) => Some(
                TitleV {
                    vn_id: id,
                    language: parts[1],
                    official: parts[2] == "t"@,
                    title: parts[3],
                    latin_title: if parts[4] == "\\N"@ {
                        None
                    } else {
                        Some(parts[4])
                    },
                },
            ),
        }
    }
}

pub open spec fn titles_of_lines(lines: Seq<Seq<char>>) -> Seq<TitleV>
    decreases lines.len(),
{
    if lines.len() == 0 {
        Seq::<TitleV>::empty()
    } else {
        titles_of_lines(lines.drop_last()) + match title_of_line(lines.last()) {
            Some(t) => seq![t],
            None => Seq::<TitleV>::empty(),
        }
    }
}

/// The title table a source text yields: one candidate record per line.
pub open spec fn parse_titles_spec(text: Seq<char>) -> Seq<TitleV> {
    titles_of_lines(split_on(text, '\n'))
}

/// Parses the title source.
pub fn parse_titles(data: &str) -> (r: Vec<VnTitle>)
    ensures
        r.deep_view() =~~= parse_titles_spec(data@),
        forall|k: int| 0 <= k < r@.len() ==> (#[trigger] r@[k]).vn_id >= 0,
{
    let lines = split_on_char(data, '\n');
    let mut out: Vec<VnTitle> = Vec::new();
    let mut i: usize = 0;
    while i < lines.len()
        invariant
            lines.deep_view() =~~= split_on(data@, '\n'),
            i <= lines@.len(),
            out.deep_view() =~~= titles_of_lines(lines.deep_view().take(i as int)),
            forall|k: int| 0 <= k < out@.len() ==> (#[trigger] out@[k]).vn_id >= 0,
        decreases lines@.len() - i,
    {
        proof {
            let lv = lines.deep_view();
            assert(lv.take(i as int + 1).drop_last() =~= lv.take(i as int));
            assert(lv.take(i as int + 1).last() == lv[i as int]);
            assert(lv[i as int] == lines@[i as int]@);
        }
        let ghost prev = out.deep_view();
        let stripped = strip_cr_exec(lines[i].as_str());
        let parts = split_on_char(stripped.as_str(), '\t');
        if parts.len() >= 5 {
            proof {
                assert(parts.deep_view()[0] == parts@[0]@);
                assert(parts.deep_view()[1] == parts@[1]@);
                assert(parts.deep_view()[2] == parts@[2]@);
                assert(parts.deep_view()[3] == parts@[3]@);
                assert(parts.deep_view()[4] == parts@[4]@);
            }
            let idtxt = strip_leading_exec(parts[0].as_str(), 'v');
            match parse_uint(idtxt.as_str(), 2147483647) {
                Some(v) => {
                    let t = VnTitle {
                        vn_id: v as i32,
                        language: parts[1].clone(),
                        official: str_eq(parts[2].as_str(), "t"),
                        title: parts[3].clone(),
                        latin_title: if str_eq(parts[4].as_str(), "\\N") {
                            None
                        } else {
                            Some(parts[4].clone())
                        },
                    };
                    out.push(t);
                    proof {
                        assert(out.deep_view() =~~= prev + seq![
                            title_of_line(lines.deep_view()[i as int]).unwrap(),
                        ]);
                    }
                },
                None => {},
            }
        }
        i = i + 1;
    }
    proof {
        assert(lines.deep_view().take(lines@.len() as int) =~= lines.deep_view());
    }
    out
}

/// What one rating line yields: whitespace-separated fields
/// `[item, rater, raw rating, date]`, at least four of them; the raw
/// rating is power-transformed with `vote_exp`.
pub open spec fn rating_of_line(line: Seq<char>, vote_exp: nat) -> Option<RatingV> {
    let parts = fields_of(line);
    if parts.len() < 4 {
        None
    } else {
        match (parse_uint_spec(parts[0], i32::MAX as int), parse_uint_spec(
            parts[1],
            i32::MAX as int,
        ), parse_fixed_spec(parts[2])) {
            (Some(vn), Some(uid), Some(raw)) => Some(
                RatingV {
                    vn_id: vn,
                    user_id: uid,
                    rating: pow_fixed(raw, vote_exp),
                    date: parts[3],
                },
            ),
            _ => None,
        }
    }
}

pub open spec fn ratings_of_lines(lines: Seq<Seq<char>>, vote_exp: nat) -> Seq<RatingV>
    decreases lines.len(),
{
    if lines.len() == 0 {
        Seq::<RatingV>::empty()
    } else {
        ratings_of_lines(lines.drop_last(), vote_exp) + match rating_of_line(
            lines.last(),
            vote_exp,
        ) {
            Some(t) => seq![t],
            None => Seq::<RatingV>::empty(),
        }
    }
}

/// The rating table a source text yields: one candidate record per line.
pub open spec fn parse_ratings_spec(text: Seq<char>, vote_exp: nat) -> Seq<RatingV> {
    ratings_of_lines(split_on(text, '\n'), vote_exp)
}

/// Parses the rating source, applying the vote power curve.
pub fn parse_ratings(data: &str, vote_exp: u32) -> (r: Vec<Rating>)
    ensures
        r.deep_view() =~~= parse_ratings_spec(data@, vote_exp as nat),
        forall|k: int|
            0 <= k < r@.len() ==> (#[trigger] r@[k]).vn_id >= 0 && r@[k].user_id >= 0 && -(
            crate::VMAX as int) <= r@[k].rating <= crate::VMAX as int,
{
    let lines = split_on_char(data, '\n');
    let mut out: Vec<Rating> = Vec::new();
    let mut i: usize = 0;
    while i < lines.len()
        invariant
            lines.deep_view() =~~= split_on(data@, '\n'),
            i <= lines@.len(),
            out.deep_view() =~~= ratings_of_lines(
                lines.deep_view().take(i as int),
                vote_exp as nat,
            ),
            forall|k: int|
                0 <= k < out@.len() ==> (#[trigger] out@[k]).vn_id >= 0 && out@[k].user_id >= 0
                    && -(crate::VMAX as int) <= out@[k].rating <= crate::VMAX as int,
        decreases lines@.len() - i,
    {
        proof {
            let lv = lines.deep_view();
            assert(lv.take(i as int + 1).drop_last() =~= lv.take(i as int));
            assert(lv.take(i as int + 1).last() == lv[i as int]);
            assert(lv[i as int] == lines@[i as int]@);
        }
        let ghost prev = out.deep_view();
        let parts = split_fields(lines[i].as_str());
        if parts.len() >= 4 {
            proof {
                assert(parts.deep_view()[0] == parts@[0]@);
                assert(parts.deep_view()[1] == parts@[1]@);
                assert(parts.deep_view()[2] == parts@[2]@);
                assert(parts.deep_view()[3] == parts@[3]@);
            }
            let vn = parse_uint(parts[0].as_str(), 2147483647);
            let uid = parse_uint(parts[1].as_str(), 2147483647);
            let raw = parse_fixed(parts[2].as_str());
            match (vn, uid, raw) {
                (Some(v), Some(u), Some(w)) => {
                    let t = Rating {
                        vn_id: v as i32,
                        user_id: u as i32,
                        rating: pow_transform(w, vote_exp),
                        date: parts[3].clone(),
                    };
                    out.push(t);
                    proof {
                        assert(out.deep_view() =~~= prev + seq![
                            rating_of_line(lines.deep_view()[i as int], vote_exp as nat).unwrap(),
                        ]);
                    }
                },
                _ => {},
            }
        }
        i = i + 1;
    }
    proof {
        assert(lines.deep_view().take(lines@.len() as int) =~= lines.deep_view());
    }
    out
}

/// What one tag-association record yields: fields
/// `[_, tag, item, _, raw weight]`, at least five of them; the tag and
/// item fields carry one leading marker character that is stripped before
/// parsing; records whose tag id is in the ignore set yield nothing; the
/// raw weight is power-transformed with `tag_exp`.
pub open spec fn tag_of_record(rec: Seq<Seq<char>>, tag_exp: nat, ignore: Seq<i32>) -> Option<
    TagV,
> {
    if rec.len() < 5 || rec[1].len() < 1 || rec[2].len() < 1 {
        None
    } else {
        match (parse_uint_spec(rec[1].skip(1), i32::MAX as int), parse_uint_spec(
            rec[2].skip(1),
            i32::MAX as int,
        ), parse_fixed_spec(rec[4])) {
            (Some(tid), Some(vid), Some(raw)) => if ignore.contains(tid as i32) {
                None
            } else {
                Some(TagV { tag_id: tid, vn_id: vid, rating: pow_fixed(raw, tag_exp) })
            },
            _ => None,
        }
    }
}

pub open spec fn tags_of_records(recs: Seq<Seq<Seq<char>>>, tag_exp: nat, ignore: Seq<i32>) -> Seq<
    TagV,
>
    decreases recs.len(),
{
    if recs.len() == 0 {
        Seq::<TagV>::empty()
    } else {
        tags_of_records(recs.drop_last(), tag_exp, ignore) + match tag_of_record(
            recs.last(),
            tag_exp,
            ignore,
        ) {
            Some(t) => seq![t],
            None => Seq::<TagV>::empty(),
        }
    }
}

/// Membership in the ignore set.
pub fn contains_i32(v: &Vec<i32>, x: i32) -> (r: bool)
    ensures
        r == v@.contains(x),
{
    let mut i: usize = 0;
    while i < v.len()
        invariant
            i <= v@.len(),
            forall|k: int| 0 <= k < i ==> v@[k] != x,
        decreases v@.len() - i,
    {
        if v[i] == x {
            return true;
        }
        i = i + 1;
    }
    false
}

/// Parses tag-association records, dropping ignored tags and applying the
/// tag power curve.
pub fn parse_tag_records(recs: &Vec<Vec<String>>, tag_exp: u32, ignore: &Vec<i32>) -> (r: Vec<
    Tag,
>)
    ensures
        r.deep_view() =~~= tags_of_records(recs.deep_view(), tag_exp as nat, ignore@),
        forall|k: int|
            0 <= k < r@.len() ==> (#[trigger] r@[k]).vn_id >= 0 && r@[k].tag_id >= 0 && -(
            crate::VMAX as int) <= r@[k].rating <= crate::VMAX as int,
{
    let mut out: Vec<Tag> = Vec::new();
    let mut i: usize = 0;
    while i < recs.len()
        invariant
            i <= recs@.len(),
            out.deep_view() =~~= tags_of_records(
                recs.deep_view().take(i as int),
                tag_exp as nat,
                ignore@,
            ),
            forall|k: int|
                0 <= k < out@.len() ==> (#[trigger] out@[k]).vn_id >= 0 && out@[k].tag_id >= 0
                    && -(crate::VMAX as int) <= out@[k].rating <= crate::VMAX as int,
        decreases recs@.len() - i,
    {
        proof {
            let rv = recs.deep_view();
            assert(rv.take(i as int + 1).drop_last() =~= rv.take(i as int));
            assert(rv.take(i as int + 1).last() == rv[i as int]);
            assert(rv[i as int] == recs@[i as int].deep_view());
        }
        let ghost prev = out.deep_view();
        let rec: &Vec<String> = &recs[i];
        if rec.len() >= 5 && rec[1].as_str().unicode_len() >= 1 && rec[2].as_str().unicode_len()
            >= 1 {
            proof {
                assert(rec.deep_view()[1] == rec@[1]@);
                assert(rec.deep_view()[2] == rec@[2]@);
                assert(rec.deep_view()[4] == rec@[4]@);
            }
            let f1 = rec[1].as_str();
            let tag_txt = f1.substring_char(1, f1.unicode_len());
            let f2 = rec[2].as_str();
            let vn_txt = f2.substring_char(1, f2.unicode_len());
            proof {
                assert(tag_txt@ =~= rec@[1]@.skip(1));
                assert(vn_txt@ =~= rec@[2]@.skip(1));
            }
            let tid = parse_uint(tag_txt, 2147483647);
            let vid = parse_uint(vn_txt, 2147483647);
            let raw = parse_fixed(rec[4].as_str());
            match (tid, vid, raw) {
                (Some(t), Some(v), Some(w)) => {
                    if !contains_i32(ignore, t as i32) {
                        let rec_out = Tag {
                            tag_id: t as i32,
                            vn_id: v as i32,
                            rating: pow_transform(w, tag_exp),
                        };
                        out.push(rec_out);
                        proof {
                            assert(out.deep_view() =~~= prev + seq![
                                tag_of_record(
                                    recs.deep_view()[i as int],
                                    tag_exp as nat,
                                    ignore@,
                                ).unwrap(),
                            ]);
                        }
                    }
                },
                _ => {},
            }
        }
        i = i + 1;
    }
    proof {
        assert(recs.deep_view().take(recs@.len() as int) =~= recs.deep_view());
    }
    out
}

} // verus!
