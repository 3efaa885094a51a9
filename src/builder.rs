//! Dictionary builders for the IPADIC and CC-CEDICT source lexicons: their
//! settings and the detail records they give simple user-dictionary rows.

use vstd::prelude::*;

verus! {

/// Columns of a simple user-dictionary row: surface, part of speech, reading.
pub const SIMPLE_USERDIC_FIELDS_NUM: usize = 3;
/// Cost given to each word of a simple user dictionary.
pub const SIMPLE_WORD_COST: i16 = -10000;
/// Context id given to each word of a simple user dictionary.
pub const SIMPLE_CONTEXT_ID: u16 = 0;

pub open spec fn star() -> Seq<char> {
    seq!['*']
}

fn star_string() -> (r: String)
    ensures
        r@ == star(),
{
    proof {
        reveal_strlit("*");
    }
    String::from_str("*")
}

/// Builds IPADIC dictionaries (EUC-JP sources, thirteen columns in a detailed
/// user dictionary).
pub struct IpadicBuilder {}

impl IpadicBuilder {
    pub const DETAILED_USERDIC_FIELDS_NUM: usize = 13;
    pub const UNK_FIELDS_NUM: usize = 11;

    pub fn new() -> Self {
        IpadicBuilder {}
    }

    /// The nine details of a simple row `surface, part of speech, reading`:
    /// part of speech, four unknown levels and forms, base form, reading, and an
    /// unknown pronunciation.
    pub fn simple_userdic_details(row: &Vec<String>) -> (r: Vec<String>)
        requires
            row@.len() >= SIMPLE_USERDIC_FIELDS_NUM,
        ensures
            r@.map_values(|s: String| s@) == seq![row@[1]@, star(), star(), star(), star(), star(), row@[0]@, row@[2]@, star()],
    {
        let mut r: Vec<String> = Vec::new();
        r.push(row[1].clone());
        r.push(star_string());
        r.push(star_string());
        r.push(star_string());
        r.push(star_string());
        r.push(star_string());
        r.push(row[0].clone());
        r.push(row[2].clone());
        r.push(star_string());
        assert(r@.map_values(|s: String| s@) =~= seq![row@[1]@, star(), star(), star(), star(), star(), row@[0]@, row@[2]@, star()]);
        r
    }
}

impl Default for IpadicBuilder {
    fn default() -> Self {
        Self::new()
    }
}

/// Builds CC-CEDICT dictionaries (UTF-8 sources, twelve columns in a detailed
/// user dictionary).
pub struct CcCedictBuilder {}

impl CcCedictBuilder {
    pub const DETAILED_USERDIC_FIELDS_NUM: usize = 12;
    pub const UNK_FIELDS_NUM: usize = 10;

    pub fn new() -> Self {
        CcCedictBuilder {}
    }

    /// The eight details of a simple row `surface, part of speech, pinyin`:
    /// part of speech, three unknown levels, pinyin, and unknown traditional,
    /// simplified and definition fields.
    pub fn simple_userdic_details(row: &Vec<String>) -> (r: Vec<String>)
        requires
            row@.len() >= SIMPLE_USERDIC_FIELDS_NUM,
        ensures
            r@.map_values(|s: String| s@) == seq![row@[1]@, star(), star(), star(), row@[2]@, star(), star(), star()],
    {
        let mut r: Vec<String> = Vec::new();
        r.push(row[1].clone());
        r.push(star_string());
        r.push(star_string());
        r.push(star_string());
        r.push(row[2].clone());
        r.push(star_string());
        r.push(star_string());
        r.push(star_string());
        assert(r@.map_values(|s: String| s@) =~= seq![row@[1]@, star(), star(), star(), row@[2]@, star(), star(), star()]);
        r
    }
}

impl Default for CcCedictBuilder {
    fn default() -> Self {
        Self::new()
    }
}

} // verus!
