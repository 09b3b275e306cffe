//! The records of a career plan: its sections, terms and subjects.
use vstd::prelude::*;

use crate::code::Code;
use crate::feed::DegreeLevel;

verus! {

/// A year and a period of a plan.
#[derive(Debug, Clone, Copy, PartialEq, Eq)]
pub struct Term {
    pub year: u8,
    pub period: u8,
}

#[derive(Debug, PartialEq, Eq)]
pub struct SubjectEntry {
    pub name: String,
    pub code: Code,
    pub credits: u8,
    pub dependencies: Vec<Code>,
}

#[derive(Debug, PartialEq, Eq)]
pub struct SectionEntry {
    pub name: String,
    pub credits: u8,
    pub dependencies: Vec<Code>,
}

#[derive(Debug, PartialEq, Eq)]
pub enum Entry {
    Subject(SubjectEntry),
    Section(SectionEntry),
}

#[derive(Debug, PartialEq, Eq)]
pub struct TermWithEntries {
    pub term: Term,
    pub entries: Vec<Entry>,
}

#[derive(Debug, PartialEq, Eq)]
pub struct Section {
    pub name: String,
    pub terms: Vec<TermWithEntries>,
    pub without_term: Vec<Entry>,
}

#[derive(Debug, PartialEq, Eq)]
pub struct CareerPlan {
    pub name: String,
    pub career: String,
    pub degree_level: DegreeLevel,
    pub since: String,
    pub sections: Vec<Section>,
}

} // verus!
