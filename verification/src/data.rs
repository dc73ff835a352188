//! Typed records of the three ingest tables, with their mathematical views.

use vstd::prelude::*;

verus! {

/// One title row: an item may have several, one per language or variant.
#[derive(Clone, Debug)]
pub struct VnTitle {
    pub vn_id: i32,
    pub language: String,
    pub official: bool,
    pub title: String,
    pub latin_title: Option<String>,
}

/// The mathematical view of a title record.
pub ghost struct TitleV {
    pub vn_id: int,
    pub language: Seq<char>,
    pub official: bool,
    pub title: Seq<char>,
    pub latin_title: Option<Seq<char>>,
}

impl View for VnTitle {
    type V = TitleV;

    open spec fn view(&self) -> TitleV {
        TitleV {
            vn_id: self.vn_id as int,
            language: self.language@,
            official: self.official,
            title: self.title@,
            latin_title: match self.latin_title {
                Some(ref t) => Some(t@),
                None => None,
            },
        }
    }
}

impl DeepView for VnTitle {
    type V = TitleV;

    open spec fn deep_view(&self) -> TitleV {
        self.view()
    }
}

/// One rating row; the value is fixed-point, already power-transformed.
#[derive(Clone, Debug)]
pub struct Rating {
    pub vn_id: i32,
    pub user_id: i32,
    pub rating: i64,
    pub date: String,
}

/// The mathematical view of a rating record.
pub ghost struct RatingV {
    pub vn_id: int,
    pub user_id: int,
    pub rating: int,
    pub date: Seq<char>,
}

impl View for Rating {
    type V = RatingV;

    open spec fn view(&self) -> RatingV {
        RatingV {
            vn_id: self.vn_id as int,
            user_id: self.user_id as int,
            rating: self.rating as int,
            date: self.date@,
        }
    }
}

impl DeepView for Rating {
    type V = RatingV;

    open spec fn deep_view(&self) -> RatingV {
        self.view()
    }
}

/// One tag-association row; the weight is fixed-point, already
/// power-transformed.
#[derive(Clone, Debug)]
pub struct Tag {
    pub tag_id: i32,
    pub vn_id: i32,
    pub rating: i64,
}

/// The mathematical view of a tag-association record.
pub ghost struct TagV {
    pub tag_id: int,
    pub vn_id: int,
    pub rating: int,
}

impl View for Tag {
    type V = TagV;

    open spec fn view(&self) -> TagV {
        TagV { tag_id: self.tag_id as int, vn_id: self.vn_id as int, rating: self.rating as int }
    }
}

impl DeepView for Tag {
    type V = TagV;

    open spec fn deep_view(&self) -> TagV {
        self.view()
    }
}

} // verus!
