//! The schema of a cross experiment and the cell translators that it gives
//! to the readers.

use vstd::prelude::*;
use crate::dict::Dict;
use crate::records::fields_view;
use crate::text::str_eq;

verus! {

/// Per-individual cross information: the file that holds it and the code of
/// every cross label.
#[derive(Debug, PartialEq)]
pub struct CrossInfo {
    pub file: String,
    pub data: Dict<i32>,
}

/// One file or several.
#[derive(Debug)]
pub enum File {
    Single(String),
    Multi(Vec<String>),
}

/// The files of an experiment. Each of them may be absent.
#[derive(Debug)]
pub struct Files {
    pub geno: Option<String>,
    pub founder_geno: Option<String>,
    pub pheno: Option<String>,
    pub covar: Option<String>,
    pub phenocovar: Option<String>,
    pub gmap: Option<String>,
    pub pmap: Option<String>,
}

/// Where the sex of an individual comes from, with the codes that stand for
/// each sex.
#[derive(Debug)]
pub enum Sex {
    /// From a column of the covariates.
    Covar { covar: String, codes: Dict<String> },
    /// From a file of its own.
    FromFile { file: String, codes: Dict<String> },
}

/// The description of a cross experiment.
#[derive(Debug)]
pub struct Control {
    pub description: String,
    pub crosstype: String,
    pub files: Files,
    /// The field separator.
    pub sep: char,
    /// The strings that mark a missing value.
    pub na_strings: Vec<String>,
    /// The prefix of a comment line.
    pub comment_char: String,
    pub alleles: Vec<char>,
    pub x_chr: Option<String>,
    /// The code of every genotype call.
    pub genotypes: Dict<u8>,
    pub geno_transposed: Option<bool>,
    pub founder_geno_transposed: Option<bool>,
    pub cross_info: CrossInfo,
    pub sex: Option<Sex>,
}

/// The code of a genotype call that the schema does not know: missing.
pub const UNKNOWN_GENOTYPE: u8 = 0;

impl Control {
    /// The code of the genotype call `raw`: the configured one where `raw` is
    /// a key of the dictionary, and the code for a missing call otherwise.
    pub open spec fn genotype_code(&self, raw: Seq<char>) -> u8 {
        if self.genotypes@.contains_key(raw) {
            self.genotypes@[raw]
        } else {
            UNKNOWN_GENOTYPE
        }
    }

    /// The code of the cross label `label`, if the schema has one for it.
    pub open spec fn cross_info_code(&self, label: Seq<char>) -> Option<i32> {
        if self.cross_info.data@.contains_key(label) {
            Some(self.cross_info.data@[label])
        } else {
            None
        }
    }

    /// `raw` is one of the strings that mark a missing value.
    pub open spec fn marks_missing(&self, raw: Seq<char>) -> bool {
        fields_view(self.na_strings@).contains(raw)
    }

    /// Translates a genotype call. A call that the schema does not know is
    /// no error: it translates to [`UNKNOWN_GENOTYPE`].
    pub fn parse_geno(&self, geno: &str) -> (code: u8)
        ensures
            code == self.genotype_code(geno@),
            self.genotypes@.contains_key(geno@) ==> code == self.genotypes@[geno@],
            !self.genotypes@.contains_key(geno@) ==> code == 0,
    {
        match self.genotypes.get(geno) {
            Some(code) => *code,
            None => UNKNOWN_GENOTYPE,
        }
    }

    /// Whether `data` is one of the strings that mark a missing value.
    pub fn is_na(&self, data: &str) -> (missing: bool)
        ensures
            missing == self.marks_missing(data@),
    {
        let ghost marks = fields_view(self.na_strings@);
        let mut i: usize = 0;
        while i < self.na_strings.len()
            invariant
                i <= self.na_strings.len(),
                marks == fields_view(self.na_strings@),
                forall|k: int| 0 <= k < i ==> marks[k] != data@,
            decreases self.na_strings.len() - i,
        {
            if str_eq(self.na_strings[i].as_str(), data) {
                assert(marks[i as int] == data@);
                return true;
            }
            i += 1;
        }
        false
    }

    /// Translates a cross label. A label that the schema does not know has
    /// no code, which is not the same as the code 0.
    pub fn parse_cross_info(&self, x: &str) -> (code: Option<i32>)
        ensures
            code == self.cross_info_code(x@),
    {
        match self.cross_info.data.get(x) {
            Some(code) => Some(*code),
            None => None,
        }
    }
}

} // verus!
