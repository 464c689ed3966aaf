//! Turning a definition's content into a single table cell: multi-line
//! content has each line terminated by an HTML break tag, single-line
//! content is trimmed.

use vstd::prelude::*;

use crate::strutil::{spec_lines, spec_trim, split_lines, trim};

verus! {

/// The lines, each followed by one break tag.
pub open spec fn spec_join_br(lines: Seq<Seq<char>>) -> Seq<char>
    decreases lines.len(),
{
    if lines.len() == 0 {
        Seq::empty()
    } else {
        lines[0] + seq!['<', 'b', 'r', '>'] + spec_join_br(lines.drop_first())
    }
}

/// A content string collated into one cell: fewer than two lines give the
/// trimmed content itself; otherwise every line is kept and terminated by a
/// break tag.
pub open spec fn spec_html_br(s: Seq<char>) -> Seq<char> {
    if spec_lines(s).len() < 2 {
        spec_trim(s)
    } else {
        spec_join_br(spec_lines(s))
    }
}

/// Collate content into one line for a table cell, marking its line breaks
/// with break tags.
pub fn multiline_to_html_br(value: &str) -> (r: String)
    ensures
        r@ == spec_html_br(value@),
{
    let lines = split_lines(value);
    if lines.len() < 2 {
        proof {
            assert(lines.deep_view().len() == lines@.len());
        }
        trim(value)
    } else {
        proof {
            assert(lines.deep_view().len() == lines@.len());
        }
        let ghost lsv = lines.deep_view();
        let mut r = String::new();
        let mut i: usize = 0;
        proof {
            assert(lsv.skip(0) =~= lsv);
            assert(r@ + spec_join_br(lsv) =~= spec_join_br(lsv));
        }
        while i < lines.len()
            invariant
                i <= lines.len(),
                lsv == lines.deep_view(),
                spec_join_br(lsv) == r@ + spec_join_br(lsv.skip(i as int)),
            decreases lines.len() - i,
        {
            proof {
                assert(lsv.skip(i as int)[0] == lsv[i as int]);
                assert(lsv.skip(i as int).drop_first() =~= lsv.skip(i + 1));
            }
            let ghost old_r = r@;
            r.append(lines[i].as_str());
            r.append("<br>");
            proof {
                reveal_strlit("<br>");
                assert("<br>"@ =~= seq!['<', 'b', 'r', '>']);
                assert(r@ =~= old_r + lsv[i as int] + seq!['<', 'b', 'r', '>']);
                assert(old_r + (lsv[i as int] + seq!['<', 'b', 'r', '>'] + spec_join_br(
                    lsv.skip(i + 1),
                )) =~= r@ + spec_join_br(lsv.skip(i + 1)));
            }
            i = i + 1;
        }
        proof {
            assert(lsv.skip(lines.len() as int) =~= Seq::<Seq<char>>::empty());
        }
        r
    }
}

} // verus!
