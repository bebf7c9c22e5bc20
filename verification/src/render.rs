//! A textual rendering of the edit graph of two byte strings: a header row
//! of the original's grapheme clusters, then per target cluster a row
//! marking with `\` the diagonals the graph can cross.

use vstd::prelude::*;
use vstd::string::StringExecFns;

use unicode_segmentation::UnicodeSegmentation;

use crate::graph::DiffGraph;

verus! {

/// What `String::from_utf8_lossy` decodes the bytes to.
pub uninterp spec fn lossy_chars_of(bytes: Seq<u8>) -> Seq<char>;

/// The grapheme clusters `unicode_segmentation` splits a string into.
pub uninterp spec fn graphemes_of(s: Seq<char>) -> Seq<Seq<char>>;

/// Relies on `String::from_utf8_lossy`: the decoding, with its replacement
/// character for invalid ranges, is a function of the bytes alone.
#[verifier::external_body]
fn utf8_lossy(bytes: &[u8]) -> (r: String)
    ensures
        r@ == lossy_chars_of(bytes@),
{
    String::from_utf8_lossy(bytes).into_owned()
}

/// Relies on `UnicodeSegmentation::graphemes` of the `unicode-segmentation`
/// crate (legacy boundary rules, as the `false` argument selects): the
/// clusters are a function of the string alone.
#[verifier::external_body]
fn grapheme_clusters(s: &str) -> (r: Vec<String>)
    ensures
        r.deep_view() == graphemes_of(s@),
{
    s.graphemes(false).map(|g| g.to_string()).collect()
}

/// The header: five spaces, then the cluster, for the first `n` clusters of
/// the original.
pub open spec fn header_upto(og: Seq<Seq<char>>, n: int) -> Seq<char>
    decreases n,
{
    if n <= 0 {
        Seq::empty()
    } else {
        header_upto(og, n - 1) + "     "@ + og[n - 1]
    }
}

/// The match marks of one row: a backslash cell where the original cluster
/// equals the row's target cluster, blank otherwise.
pub open spec fn match_row_upto(og: Seq<Seq<char>>, tc: Seq<char>, n: int) -> Seq<char>
    decreases n,
{
    if n <= 0 {
        Seq::empty()
    } else {
        match_row_upto(og, tc, n - 1) + (if og[n - 1] == tc {
            "\\     "@
        } else {
            "      "@
        })
    }
}

/// The grid cells of one row: one `X` cell per original cluster.
pub open spec fn x_row_upto(og: Seq<Seq<char>>, n: int) -> Seq<char>
    decreases n,
{
    if n <= 0 {
        Seq::empty()
    } else {
        x_row_upto(og, n - 1) + "X     "@
    }
}

/// The first `n` target rows: each a match-mark line, then the target
/// cluster and its grid cells.
pub open spec fn grid_rows_upto(og: Seq<Seq<char>>, tg: Seq<Seq<char>>, n: int) -> Seq<char>
    decreases n,
{
    if n <= 0 {
        Seq::empty()
    } else {
        grid_rows_upto(og, tg, n - 1) + "\n"@ + "  "@ + match_row_upto(og, tg[n - 1], og.len() as int)
            + "\n"@ + tg[n - 1] + "    "@ + x_row_upto(og, og.len() as int)
    }
}

/// The whole grid over the two cluster sequences.
pub open spec fn rendered_grid(og: Seq<Seq<char>>, tg: Seq<Seq<char>>) -> Seq<char> {
    header_upto(og, og.len() as int) + grid_rows_upto(og, tg, tg.len() as int)
}

/// The grid the two byte sequences denote, through lossy decoding and
/// grapheme segmentation.
pub open spec fn edit_grid_of(orig_bytes: Seq<u8>, target_bytes: Seq<u8>) -> Seq<char> {
    rendered_grid(
        graphemes_of(lossy_chars_of(orig_bytes)),
        graphemes_of(lossy_chars_of(target_bytes)),
    )
}

impl DiffGraph<u8> {
    /// Draws the edit graph of the two byte sequences.
    pub fn render_edit_grid(&self) -> (r: String)
        ensures
            r@ == edit_grid_of(self.orig_lines@, self.target_lines@),
    {
        let orig_string = utf8_lossy(self.orig_lines.as_slice());
        let target_string = utf8_lossy(self.target_lines.as_slice());
        let og = grapheme_clusters(orig_string.as_str());
        let tg = grapheme_clusters(target_string.as_str());
        let ghost ogd = og.deep_view();
        let ghost tgd = tg.deep_view();
        let mut out = String::new();

        let o_count = og.len();
        let t_count = tg.len();
        let mut a: usize = 0;
        while a < o_count
            invariant
                a <= ogd.len(),
                o_count == ogd.len(),
                ogd == og.deep_view(),
                out@ == header_upto(ogd, a as int),
            decreases o_count - a,
        {
            out.append("     ");
            out.append(og[a].as_str());
            proof {
                assert(og@[a as int]@ == ogd[a as int]);
                assert(out@ == header_upto(ogd, a as int) + "     "@ + ogd[a as int]);
            }
            a = a + 1;
        }

        let mut b: usize = 0;
        proof {
            assert(out@ =~= header_upto(ogd, ogd.len() as int) + grid_rows_upto(ogd, tgd, 0));
        }
        while b < t_count
            invariant
                b <= tgd.len(),
                o_count == ogd.len(),
                t_count == tgd.len(),
                ogd == og.deep_view(),
                tgd == tg.deep_view(),
                out@ == header_upto(ogd, ogd.len() as int) + grid_rows_upto(ogd, tgd, b as int),
            decreases t_count - b,
        {
            let ghost row_base = out@;
            let ghost tc = tgd[b as int];
            out.append("\n");
            out.append("  ");
            proof {
                assert(out@ =~= row_base + "\n"@ + "  "@ + match_row_upto(ogd, tc, 0));
            }
            let mut a2: usize = 0;
            while a2 < o_count
                invariant
                    a2 <= ogd.len(),
                    o_count == ogd.len(),
                    t_count == tgd.len(),
                    b < tgd.len(),
                    ogd == og.deep_view(),
                    tgd == tg.deep_view(),
                    tc == tgd[b as int],
                    out@ == row_base + "\n"@ + "  "@ + match_row_upto(ogd, tc, a2 as int),
                decreases o_count - a2,
            {
                proof {
                    assert(og@[a2 as int]@ == ogd[a2 as int]);
                    assert(tg@[b as int]@ == tgd[b as int]);
                }
                if og[a2] == tg[b] {
                    out.append("\\     ");
                } else {
                    out.append("      ");
                }
                proof {
                    assert(out@ =~= row_base + "\n"@ + "  "@ + match_row_upto(
                        ogd,
                        tc,
                        a2 as int + 1,
                    ));
                }
                a2 = a2 + 1;
            }
            out.append("\n");
            out.append(tg[b].as_str());
            out.append("    ");
            proof {
                assert(tg@[b as int]@ == tgd[b as int]);
                assert(out@ =~= row_base + "\n"@ + "  "@ + match_row_upto(
                    ogd,
                    tc,
                    ogd.len() as int,
                ) + "\n"@ + tc + "    "@ + x_row_upto(ogd, 0));
            }
            let mut a3: usize = 0;
            while a3 < o_count
                invariant
                    a3 <= ogd.len(),
                    o_count == ogd.len(),
                    t_count == tgd.len(),
                    b < tgd.len(),
                    ogd == og.deep_view(),
                    tgd == tg.deep_view(),
                    tc == tgd[b as int],
                    out@ == row_base + "\n"@ + "  "@ + match_row_upto(ogd, tc, ogd.len() as int)
                        + "\n"@ + tc + "    "@ + x_row_upto(ogd, a3 as int),
                decreases o_count - a3,
            {
                out.append("X     ");
                proof {
                    assert(out@ =~= row_base + "\n"@ + "  "@ + match_row_upto(
                        ogd,
                        tc,
                        ogd.len() as int,
                    ) + "\n"@ + tc + "    "@ + x_row_upto(ogd, a3 as int + 1));
                }
                a3 = a3 + 1;
            }
            proof {
                assert(out@ =~= header_upto(ogd, ogd.len() as int) + grid_rows_upto(
                    ogd,
                    tgd,
                    b as int + 1,
                ));
            }
            b = b + 1;
        }
        proof {
            assert(out@ == rendered_grid(ogd, tgd));
        }
        out
    }
}

} // verus!
