//! Manufacturer parts.

use vstd::prelude::*;

use crate::config::{ManifestPart, ManifestPartView};
use crate::text::{clone_opt, clone_texts, opt_str, opt_text, texts};

verus! {

/// A manufacturer part.
pub struct PartValue {
    pub mpn: String,
    pub manufacturer: String,
    pub qualifications: Vec<String>,
    pub datasheet: Option<String>,
}

/// The contents of a part.
pub struct PartView {
    pub mpn: Seq<char>,
    pub manufacturer: Seq<char>,
    pub qualifications: Seq<Seq<char>>,
    pub datasheet: Option<Seq<char>>,
}

impl View for PartValue {
    type V = PartView;

    open spec fn view(&self) -> PartView {
        PartView {
            mpn: self.mpn@,
            manufacturer: self.manufacturer@,
            qualifications: texts(self.qualifications@),
            datasheet: opt_text(self.datasheet),
        }
    }
}

/// The contents of an optional part.
pub open spec fn opt_part(o: Option<PartValue>) -> Option<PartView> {
    match o {
        Some(p) => Some(p@),
        None => None,
    }
}

/// The contents of an optional borrowed part.
pub open spec fn opt_part_ref(o: Option<&PartValue>) -> Option<PartView> {
    match o {
        Some(p) => Some(p@),
        None => None,
    }
}

/// The contents of a list of parts.
pub open spec fn part_list(v: Seq<PartValue>) -> Seq<PartView> {
    Seq::new(v.len(), |i: int| v[i]@)
}

/// The part that a manifest declares.
pub open spec fn declared_part(p: ManifestPartView) -> PartView {
    PartView {
        mpn: p.mpn,
        manufacturer: p.manufacturer,
        qualifications: p.qualifications,
        datasheet: p.datasheet,
    }
}

impl PartValue {
    /// A part.
    pub fn new(
        mpn: String,
        manufacturer: String,
        qualifications: Vec<String>,
        datasheet: Option<String>,
    ) -> (r: PartValue)
        ensures
            r.mpn == mpn,
            r.manufacturer == manufacturer,
            r.qualifications == qualifications,
            r.datasheet == datasheet,
    {
        PartValue { mpn, manufacturer, qualifications, datasheet }
    }

    /// The part that a manifest declares.
    pub fn from_manifest(p: &ManifestPart) -> (r: PartValue)
        ensures
            r@ == declared_part(p@),
    {
        PartValue {
            mpn: p.mpn.clone(),
            manufacturer: p.manufacturer.clone(),
            qualifications: clone_texts(&p.qualifications),
            datasheet: clone_opt(&p.datasheet),
        }
    }

    /// The part number.
    pub fn mpn(&self) -> (r: &str)
        ensures
            r@ == self.mpn@,
    {
        self.mpn.as_str()
    }

    /// The manufacturer.
    pub fn manufacturer(&self) -> (r: &str)
        ensures
            r@ == self.manufacturer@,
    {
        self.manufacturer.as_str()
    }

    /// The qualifications.
    pub fn qualifications(&self) -> (r: &Vec<String>)
        ensures
            *r == self.qualifications,
    {
        &self.qualifications
    }

    /// Where the datasheet is.
    pub fn datasheet(&self) -> (r: Option<&str>)
        ensures
            opt_str(r) == opt_text(self.datasheet),
    {
        crate::text::as_opt_str(&self.datasheet)
    }

    /// Another part with the same contents.
    pub fn copy(&self) -> (r: PartValue)
        ensures
            r@ == self@,
    {
        PartValue {
            mpn: self.mpn.clone(),
            manufacturer: self.manufacturer.clone(),
            qualifications: clone_texts(&self.qualifications),
            datasheet: clone_opt(&self.datasheet),
        }
    }
}

/// Parts that a manifest declares, from a place on.
pub open spec fn declared_from(v: Seq<ManifestPartView>, from: int) -> Seq<PartView> {
    Seq::new((v.len() - from) as nat, |i: int| declared_part(v[from + i]))
}

/// The parts that a manifest declares, from a place on.
pub fn parts_from(v: &Vec<ManifestPart>, from: usize) -> (r: Vec<PartValue>)
    requires
        from <= v@.len(),
    ensures
        part_list(r@) == declared_from(crate::config::part_views(v@), from as int),
{
    let mut out: Vec<PartValue> = Vec::new();
    let mut i: usize = from;
    while i < v.len()
        invariant
            from <= i <= v@.len(),
            out@.len() == i - from,
            forall|k: int| 0 <= k < out@.len() ==> (#[trigger] out@[k])@ == declared_part(v@[from + k]@),
        decreases v@.len() - i,
    {
        out.push(PartValue::from_manifest(&v[i]));
        i += 1;
    }
    proof {
        assert(part_list(out@) =~= declared_from(crate::config::part_views(v@), from as int));
    }
    out
}

} // verus!
