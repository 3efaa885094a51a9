//! Output formats of the analyser's command line.

use crate::error::{LinderaError, LinderaErrorKind};
use vstd::prelude::*;

verus! {

/// How tokens are printed.
#[derive(Debug, Clone, Copy, PartialEq, Eq, Structural)]
pub enum Format {
    Mecab,
    Wakati,
    Json,
}

/// Character-wise string equality.
pub fn str_eq(a: &str, b: &str) -> (r: bool)
    ensures
        r == (a@ == b@),
{
    let n = a.unicode_len();
    if n != b.unicode_len() {
        return false;
    }
    let mut i: usize = 0;
    while i < n
        invariant
            n == a@.len(),
            n == b@.len(),
            0 <= i <= n,
            forall|k: int| 0 <= k < i ==> a@[k] == b@[k],
        decreases n - i,
    {
        if a.get_char(i) != b.get_char(i) {
            return false;
        }
        i += 1;
    }
    assert(a@ =~= b@);
    true
}

impl Format {
    /// `mecab`, `wakati` or `json`; any other name is an `Args` error.
    pub fn parse(s: &str) -> (r: Result<Format, LinderaError>)
        ensures
            s@ == "mecab"@ <==> r matches Ok(Format::Mecab),
            s@ == "wakati"@ <==> r matches Ok(Format::Wakati),
            s@ == "json"@ <==> r matches Ok(Format::Json),
            r matches Err(e) ==> e.kind == LinderaErrorKind::Args && e.message@ == "Invalid format: "@ + s@,
    {
        proof {
            reveal_strlit("mecab");
            reveal_strlit("wakati");
            reveal_strlit("json");
            assert("mecab"@[0] != "wakati"@[0]);
            assert("mecab"@[0] != "json"@[0]);
            assert("wakati"@[0] != "json"@[0]);
        }
        if str_eq(s, "mecab") {
            Ok(Format::Mecab)
        } else if str_eq(s, "wakati") {
            Ok(Format::Wakati)
        } else if str_eq(s, "json") {
            Ok(Format::Json)
        } else {
            let mut message = String::from_str("Invalid format: ");
            message.append(s);
            Err(LinderaErrorKind::Args.with_message(message))
        }
    }
}

impl std::str::FromStr for Format {
    type Err = LinderaError;

    fn from_str(s: &str) -> Result<Format, LinderaError> {
        Format::parse(s)
    }
}

} // verus!
