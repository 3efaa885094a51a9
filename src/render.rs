//! Text renderings of a token sequence: words separated by spaces, and MeCab
//! lines of surface and details closed by an end marker.

use crate::token_filter::details_view;
use crate::tokenizer::Token;
use vstd::prelude::*;

verus! {

/// The token texts joined by single spaces.
pub open spec fn wakati_spec(ts: Seq<Token>) -> Seq<char>
    decreases ts.len(),
{
    if ts.len() == 0 {
        Seq::empty()
    } else if ts.len() == 1 {
        ts[0].text@
    } else {
        wakati_spec(ts.drop_last()) + seq![' '] + ts[ts.len() - 1].text@
    }
}

/// Fields joined by commas.
pub open spec fn comma_joined(d: Seq<Seq<char>>) -> Seq<char>
    decreases d.len(),
{
    if d.len() == 0 {
        Seq::empty()
    } else if d.len() == 1 {
        d[0]
    } else {
        comma_joined(d.drop_last()) + seq![','] + d[d.len() - 1]
    }
}

/// One line per token: its text, a tab, its details joined by commas.
pub open spec fn mecab_lines(ts: Seq<Token>) -> Seq<char>
    decreases ts.len(),
{
    if ts.len() == 0 {
        Seq::empty()
    } else {
        mecab_lines(ts.drop_last()) + ts[ts.len() - 1].text@ + seq!['\t']
            + comma_joined(details_view(ts[ts.len() - 1])) + seq!['\n']
    }
}

/// The token texts separated by single spaces.
pub fn wakati_text(tokens: &Vec<Token>) -> (r: String)
    ensures
        r@ == wakati_spec(tokens@),
{
    let mut out = String::new();
    let mut i: usize = 0;
    proof {
        reveal_strlit(" ");
        assert(wakati_spec(tokens@.subrange(0, 0)) =~= out@);
    }
    while i < tokens.len()
        invariant
            0 <= i <= tokens@.len(),
            out@ == wakati_spec(tokens@.subrange(0, i as int)),
            " "@ == seq![' '],
        decreases tokens@.len() - i,
    {
        if i > 0 {
            out.append(" ");
        }
        out.append(tokens[i].text.as_str());
        proof {
            let sub = tokens@.subrange(0, i + 1);
            assert(sub.drop_last() =~= tokens@.subrange(0, i as int));
            assert(out@ =~= wakati_spec(sub));
        }
        i += 1;
    }
    proof {
        assert(tokens@.subrange(0, tokens@.len() as int) =~= tokens@);
    }
    out
}

fn comma_join(d: &Vec<String>) -> (r: String)
    ensures
        r@ == comma_joined(d@.map_values(|s: String| s@)),
{
    let ghost dv = d@.map_values(|s: String| s@);
    let mut out = String::new();
    let mut i: usize = 0;
    proof {
        reveal_strlit(",");
        assert(comma_joined(dv.subrange(0, 0)) =~= out@);
    }
    while i < d.len()
        invariant
            dv == d@.map_values(|s: String| s@),
            0 <= i <= d@.len(),
            out@ == comma_joined(dv.subrange(0, i as int)),
            ","@ == seq![','],
        decreases d@.len() - i,
    {
        if i > 0 {
            out.append(",");
        }
        out.append(d[i].as_str());
        proof {
            let sub = dv.subrange(0, i + 1);
            assert(sub.drop_last() =~= dv.subrange(0, i as int));
            assert(sub[i as int] == d@[i as int]@);
            assert(out@ =~= comma_joined(sub));
        }
        i += 1;
    }
    proof {
        assert(dv.subrange(0, d@.len() as int) =~= dv);
    }
    out
}

/// MeCab lines for the tokens, then `EOS` and a line end.
pub fn mecab_text(tokens: &Vec<Token>) -> (r: String)
    ensures
        r@ == mecab_lines(tokens@) + seq!['E', 'O', 'S', '\n'],
{
    let mut out = String::new();
    let mut i: usize = 0;
    proof {
        reveal_strlit("\t");
        reveal_strlit("\n");
        reveal_strlit("EOS\n");
        assert(mecab_lines(tokens@.subrange(0, 0)) =~= out@);
    }
    while i < tokens.len()
        invariant
            0 <= i <= tokens@.len(),
            out@ == mecab_lines(tokens@.subrange(0, i as int)),
            "\t"@ == seq!['\t'],
            "\n"@ == seq!['\n'],
        decreases tokens@.len() - i,
    {
        out.append(tokens[i].text.as_str());
        out.append("\t");
        let details = comma_join(&tokens[i].details);
        out.append(details.as_str());
        out.append("\n");
        proof {
            let sub = tokens@.subrange(0, i + 1);
            assert(sub.drop_last() =~= tokens@.subrange(0, i as int));
            assert(sub[i as int] == tokens@[i as int]);
            assert(out@ =~= mecab_lines(sub));
        }
        i += 1;
    }
    proof {
        assert(tokens@.subrange(0, tokens@.len() as int) =~= tokens@);
    }
    out.append("EOS\n");
    out
}

} // verus!
