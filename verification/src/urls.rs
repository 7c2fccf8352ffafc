//! Path and URL derivation: the canonical URL of a page inside the
//! site tree, the output placement of the rewritten page and its AMP
//! variant, which files are eligible for AMP generation, and the
//! analytics snippet built from a tag id.

use vstd::prelude::*;
use vstd::string::StringSliceAdditionalSpecFns;
use crate::tok::bytes_eq;

verus! {

/// The largest index of `b` in `s`, or `-1` when it does not occur.
pub open spec fn last_sep(s: Seq<u8>, b: u8) -> int
    decreases s.len(),
{
    if s.len() == 0 {
        -1
    } else if s.last() == b {
        s.len() - 1
    } else {
        last_sep(s.drop_last(), b)
    }
}

pub proof fn lemma_last_sep_bounds(s: Seq<u8>, b: u8)
    ensures
        -1 <= last_sep(s, b) < s.len(),
    decreases s.len(),
{
    if s.len() > 0 && s.last() != b {
        lemma_last_sep_bounds(s.drop_last(), b);
    }
}

/// The last path segment: everything after the last `/`.
pub open spec fn basename_spec(rel: Seq<u8>) -> Seq<u8> {
    rel.skip(last_sep(rel, 47) + 1)
}

/// Everything up to and including the last `/`.
pub open spec fn dirpart_spec(rel: Seq<u8>) -> Seq<u8> {
    rel.take(last_sep(rel, 47) + 1)
}

/// The file name without its extension; a name with no dot, or with a
/// dot only in front, is its own stem.
pub open spec fn stem_spec(name: Seq<u8>) -> Seq<u8> {
    let d = last_sep(name, 46);
    if d <= 0 {
        name
    } else {
        name.take(d)
    }
}

/// The extension after the last dot, or `None` for a name whose only
/// dot is in front or that has none.
pub open spec fn ext_spec(name: Seq<u8>) -> Option<Seq<u8>> {
    let d = last_sep(name, 46);
    if d <= 0 {
        None
    } else {
        Some(name.skip(d + 1))
    }
}

/// Finds the largest index of `b`, or `None`.
pub fn rfind_byte(v: &[u8], b: u8) -> (r: Option<usize>)
    ensures
        match r {
            Some(k) => k as int == last_sep(v@, b) && k < v@.len(),
            None => last_sep(v@, b) == -1,
        },
{
    let mut i: usize = v.len();
    proof {
        assert(v@.take(i as int) =~= v@);
    }
    while i > 0
        invariant
            i <= v@.len(),
            last_sep(v@, b) == last_sep(v@.take(i as int), b),
        decreases i,
    {
        proof {
            assert(v@.take(i as int).drop_last() =~= v@.take(i as int - 1));
            assert(v@.take(i as int).last() == v@[i as int - 1]);
        }
        if v[i - 1] == b {
            return Some(i - 1);
        }
        i -= 1;
    }
    proof {
        assert(v@.take(0) =~= Seq::<u8>::empty());
    }
    None
}

/// The canonical URL of the page at `rel` under `base`: an
/// `index.html` leaf collapses to its directory, any other leaf to a
/// directory named after its stem; the result always ends with `/`.
pub open spec fn canonical_url_spec(base: Seq<u8>, rel: Seq<u8>) -> Seq<u8> {
    let bn = basename_spec(rel);
    let path = if bn == "index.html".spec_bytes() {
        dirpart_spec(rel)
    } else {
        dirpart_spec(rel) + stem_spec(bn)
    };
    let c = base + path;
    if c.len() > 0 && c.last() == 47 {
        c
    } else {
        c + seq![47u8]
    }
}

/// Derives the canonical URL of the page at `rel` under `base`.
pub fn canonical_url(base: &[u8], rel: &[u8]) -> (r: Vec<u8>)
    ensures
        r@ == canonical_url_spec(base@, rel@),
{
    let n = rel.len();
    let sep = rfind_byte(rel, 47);
    let cut: usize = match sep {
        Some(k) => k + 1,
        None => 0,
    };
    proof {
        lemma_last_sep_bounds(rel@, 47);
    }
    let bn: &[u8] = &rel[cut..rel.len()];
    proof {
        assert(bn@ =~= basename_spec(rel@));
    }
    let mut c: Vec<u8> = Vec::new();
    c.extend_from_slice(base);
    c.extend_from_slice(&rel[0..cut]);
    proof {
        assert(rel@.subrange(0, cut as int) =~= dirpart_spec(rel@));
    }
    if bytes_eq(bn, "index.html".as_bytes()) {
    } else {
        let dot = rfind_byte(bn, 46);
        let stem_end: usize = match dot {
            Some(k) => if k == 0 {
                bn.len()
            } else {
                k
            },
            None => bn.len(),
        };
        proof {
            lemma_last_sep_bounds(bn@, 46);
            assert(bn@.subrange(0, stem_end as int) =~= stem_spec(bn@));
        }
        c.extend_from_slice(&bn[0..stem_end]);
    }
    if c.len() > 0 && c[c.len() - 1] == 47 {
    } else {
        c.push(47);
    }
    proof {
        assert(c@ =~= canonical_url_spec(base@, rel@));
    }
    c
}

/// The canonical URL always ends with a slash.
pub proof fn lemma_canonical_ends_slash(base: Seq<u8>, rel: Seq<u8>)
    ensures
        canonical_url_spec(base, rel).len() > 0,
        canonical_url_spec(base, rel).last() == 47,
{
    let bn = basename_spec(rel);
    let path = if bn == "index.html".spec_bytes() {
        dirpart_spec(rel)
    } else {
        dirpart_spec(rel) + stem_spec(bn)
    };
    let c = base + path;
    if c.len() > 0 && c.last() == 47 {
    } else {
        assert((c + seq![47u8]).last() == 47);
    }
}

/// Output placement of a page at `rel`: the rewritten original and the
/// AMP variant. An `index.html` stays in place with `amp/index.html`
/// beside it; any other page moves into a directory named after its
/// stem.
pub open spec fn output_paths_spec(rel: Seq<u8>) -> (Seq<u8>, Seq<u8>) {
    let bn = basename_spec(rel);
    let dir = dirpart_spec(rel);
    if bn == "index.html".spec_bytes() {
        (rel, dir + "amp/index.html".spec_bytes())
    } else {
        (
            dir + stem_spec(bn) + "/index.html".spec_bytes(),
            dir + stem_spec(bn) + "/amp/index.html".spec_bytes(),
        )
    }
}

/// Derives where the rewritten page and its AMP variant are written.
pub fn output_paths(rel: &[u8]) -> (r: (Vec<u8>, Vec<u8>))
    ensures
        r.0@ == output_paths_spec(rel@).0,
        r.1@ == output_paths_spec(rel@).1,
{
    let n = rel.len();
    let sep = rfind_byte(rel, 47);
    let cut: usize = match sep {
        Some(k) => k + 1,
        None => 0,
    };
    proof {
        lemma_last_sep_bounds(rel@, 47);
    }
    let bn: &[u8] = &rel[cut..rel.len()];
    proof {
        assert(bn@ =~= basename_spec(rel@));
        assert(rel@.subrange(0, cut as int) =~= dirpart_spec(rel@));
    }
    if bytes_eq(bn, "index.html".as_bytes()) {
        let mut orig: Vec<u8> = Vec::new();
        orig.extend_from_slice(rel);
        let mut amp: Vec<u8> = Vec::new();
        amp.extend_from_slice(&rel[0..cut]);
        amp.extend_from_slice("amp/index.html".as_bytes());
        proof {
            assert(orig@ =~= output_paths_spec(rel@).0);
            assert(amp@ =~= output_paths_spec(rel@).1);
        }
        (orig, amp)
    } else {
        let dot = rfind_byte(bn, 46);
        let stem_end: usize = match dot {
            Some(k) => if k == 0 {
                bn.len()
            } else {
                k
            },
            None => bn.len(),
        };
        proof {
            lemma_last_sep_bounds(bn@, 46);
            assert(bn@.subrange(0, stem_end as int) =~= stem_spec(bn@));
        }
        let mut orig: Vec<u8> = Vec::new();
        orig.extend_from_slice(&rel[0..cut]);
        orig.extend_from_slice(&bn[0..stem_end]);
        let mut amp: Vec<u8> = Vec::new();
        amp.extend_from_slice(orig.as_slice());
        orig.extend_from_slice("/index.html".as_bytes());
        amp.extend_from_slice("/amp/index.html".as_bytes());
        proof {
            assert(orig@ =~= output_paths_spec(rel@).0);
            assert(amp@ =~= output_paths_spec(rel@).1);
        }
        (orig, amp)
    }
}

/// Whether the path names an HTML page: its extension is exactly
/// `html`.
pub open spec fn is_html_path_spec(rel: Seq<u8>) -> bool {
    ext_spec(basename_spec(rel)) == Some("html".spec_bytes())
}

pub fn is_html_path(rel: &[u8]) -> (r: bool)
    ensures
        r == is_html_path_spec(rel@),
{
    let n = rel.len();
    let sep = rfind_byte(rel, 47);
    let cut: usize = match sep {
        Some(k) => k + 1,
        None => 0,
    };
    proof {
        lemma_last_sep_bounds(rel@, 47);
    }
    let bn: &[u8] = &rel[cut..rel.len()];
    proof {
        assert(bn@ =~= basename_spec(rel@));
    }
    let m = bn.len();
    let dot = rfind_byte(bn, 46);
    match dot {
        Some(k) => {
            if k == 0 {
                false
            } else {
                let ext: &[u8] = &bn[k + 1..m];
                proof {
                    lemma_last_sep_bounds(bn@, 46);
                    assert(ext@ =~= bn@.skip(k as int + 1));
                }
                bytes_eq(ext, "html".as_bytes())
            }
        },
        None => false,
    }
}

/// Whether a page takes AMP generation: everything but the page whose
/// stem equals the configured exclusion name (an error page).
pub open spec fn amp_eligible_spec(rel: Seq<u8>, excluded_stem: Seq<u8>) -> bool {
    stem_spec(basename_spec(rel)) != excluded_stem
}

pub fn amp_eligible(rel: &[u8], excluded_stem: &[u8]) -> (r: bool)
    ensures
        r == amp_eligible_spec(rel@, excluded_stem@),
{
    let n = rel.len();
    let sep = rfind_byte(rel, 47);
    let cut: usize = match sep {
        Some(k) => k + 1,
        None => 0,
    };
    proof {
        lemma_last_sep_bounds(rel@, 47);
    }
    let bn: &[u8] = &rel[cut..rel.len()];
    proof {
        assert(bn@ =~= basename_spec(rel@));
    }
    let dot = rfind_byte(bn, 46);
    let stem_end: usize = match dot {
        Some(k) => if k == 0 {
            bn.len()
        } else {
            k
        },
        None => bn.len(),
    };
    proof {
        lemma_last_sep_bounds(bn@, 46);
        assert(bn@.subrange(0, stem_end as int) =~= stem_spec(bn@));
    }
    let stem: &[u8] = &bn[0..stem_end];
    !bytes_eq(stem, excluded_stem)
}

/// A base URL, given a trailing slash when it lacks one.
pub open spec fn normalize_base_spec(base: Seq<u8>) -> Seq<u8> {
    if base.len() > 0 && base.last() == 47 {
        base
    } else {
        base + seq![47u8]
    }
}

pub fn normalize_base(base: &[u8]) -> (r: Vec<u8>)
    ensures
        r@ == normalize_base_spec(base@),
{
    let mut out: Vec<u8> = Vec::new();
    out.extend_from_slice(base);
    if base.len() > 0 && base[base.len() - 1] == 47 {
    } else {
        out.push(47);
    }
    proof {
        assert(out@ =~= normalize_base_spec(base@));
    }
    out
}

/// The canonical URL used for a page left in place: the base, the
/// whole relative path, and a trailing slash when one is missing.
pub open spec fn plain_canonical_spec(base: Seq<u8>, rel: Seq<u8>) -> Seq<u8> {
    let c = base + rel;
    if c.len() > 0 && c.last() == 47 {
        c
    } else {
        c + seq![47u8]
    }
}

pub fn plain_canonical(base: &[u8], rel: &[u8]) -> (r: Vec<u8>)
    ensures
        r@ == plain_canonical_spec(base@, rel@),
{
    let mut out: Vec<u8> = Vec::new();
    out.extend_from_slice(base);
    out.extend_from_slice(rel);
    if out.len() > 0 && out[out.len() - 1] == 47 {
    } else {
        out.push(47);
    }
    proof {
        assert(out@ =~= plain_canonical_spec(base@, rel@));
    }
    out
}

pub const GTAG_PRE: &'static str =
    "\n        <script async custom-element=\"amp-analytics\" src=\"https://cdn.ampproject.org/v0/amp-analytics-0.1.js\"></script>\n        <amp-analytics type=\"gtag\" data-credentials=\"include\">\n            <script type=\"application/json\">\n            {\n              \"vars\" : {\n                \"gtag_id\": \"";

pub const GTAG_MID: &'static str = "\",\n                \"config\" : {\n                  \"";

pub const GTAG_POST: &'static str =
    "\": { \"groups\": \"default\" }\n                }\n              }\n            }\n            </script>\n        </amp-analytics>\n    ";

/// The analytics markup for a tag id: the fixed template with the id
/// spliced in at its two places.
pub open spec fn gtag_snippet_spec(id: Seq<u8>) -> Seq<u8> {
    GTAG_PRE.spec_bytes() + id + GTAG_MID.spec_bytes() + id + GTAG_POST.spec_bytes()
}

pub fn gtag_snippet(id: &[u8]) -> (r: Vec<u8>)
    ensures
        r@ == gtag_snippet_spec(id@),
{
    let mut out: Vec<u8> = Vec::new();
    out.extend_from_slice(GTAG_PRE.as_bytes());
    out.extend_from_slice(id);
    out.extend_from_slice(GTAG_MID.as_bytes());
    out.extend_from_slice(id);
    out.extend_from_slice(GTAG_POST.as_bytes());
    proof {
        assert(out@ =~= gtag_snippet_spec(id@));
    }
    out
}

} // verus!
