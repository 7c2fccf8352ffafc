//! Stylesheet resolution: a `link rel="stylesheet"` href is either
//! local to the site (its file must be inlined), an allow-listed
//! external font host (left alone), or rejected.

use vstd::prelude::*;
use vstd::string::StringSliceAdditionalSpecFns;
use crate::tok::{
    HtmlError, Tok, TokM, attr_val, bytes_eq, bytes_starts_with, copy_bytes, starts_with_spec,
    TagKind,
};
use crate::tokenizer::{tokenize, tokenize_spec};

verus! {

pub open spec fn is_valid_font_url_spec(url: Seq<u8>) -> bool {
    ||| starts_with_spec(url, "https://fast.fonts.net".spec_bytes())
    ||| starts_with_spec(url, "https://fonts.googleapis.com".spec_bytes())
    ||| starts_with_spec(url, "https://maxcdn.bootstrapcdn.com".spec_bytes())
    ||| starts_with_spec(url, "https://use.typekit.net/".spec_bytes())
}

/// Whether the URL points at one of the allow-listed font hosts.
pub fn is_valid_font_url(url: &[u8]) -> (r: bool)
    ensures
        r == is_valid_font_url_spec(url@),
{
    bytes_starts_with(url, "https://fast.fonts.net".as_bytes()) || bytes_starts_with(
        url,
        "https://fonts.googleapis.com".as_bytes(),
    ) || bytes_starts_with(url, "https://maxcdn.bootstrapcdn.com".as_bytes())
        || bytes_starts_with(url, "https://use.typekit.net/".as_bytes())
}

/// The local file path for a stripped href: the path base, a separator
/// when one is missing, and the relative path.
pub open spec fn join_path_spec(base: Seq<u8>, rel: Seq<u8>) -> Seq<u8> {
    if base.len() == 0 {
        rel
    } else if base.last() == 47 {
        base + rel
    } else {
        base + seq![47u8] + rel
    }
}

/// What becomes of a stylesheet href.
pub enum StyleTarget {
    /// The href lies under the URL base: the named local file is read
    /// and inlined.
    Local(Vec<u8>),
    /// An allow-listed font host: the element is left alone.
    AllowedExternal,
    /// Anything else: dropped on the AMP path, ignored otherwise.
    Rejected,
}

pub enum StyleTargetM {
    Local(Seq<u8>),
    AllowedExternal,
    Rejected,
}

impl View for StyleTarget {
    type V = StyleTargetM;

    open spec fn view(&self) -> StyleTargetM {
        match self {
            StyleTarget::Local(p) => StyleTargetM::Local(p@),
            StyleTarget::AllowedExternal => StyleTargetM::AllowedExternal,
            StyleTarget::Rejected => StyleTargetM::Rejected,
        }
    }
}

pub open spec fn resolve_spec(href: Seq<u8>, url_base: Seq<u8>, path_base: Seq<u8>) -> StyleTargetM {
    if starts_with_spec(href, url_base) {
        StyleTargetM::Local(join_path_spec(path_base, href.skip(url_base.len() as int)))
    } else if is_valid_font_url_spec(href) {
        StyleTargetM::AllowedExternal
    } else {
        StyleTargetM::Rejected
    }
}

/// Classifies a stylesheet href against the URL base and, for a local
/// one, derives the file path under the path base.
pub fn resolve_stylesheet_href(href: &[u8], url_base: &[u8], path_base: &[u8]) -> (r: StyleTarget)
    ensures
        r@ == resolve_spec(href@, url_base@, path_base@),
{
    if bytes_starts_with(href, url_base) {
        let rel: &[u8] = &href[url_base.len()..href.len()];
        proof {
            assert(rel@ =~= href@.skip(url_base@.len() as int));
        }
        let mut path = copy_bytes(path_base);
        if path_base.len() > 0 && path_base[path_base.len() - 1] != 47 {
            path.push(47);
        }
        path.extend_from_slice(rel);
        proof {
            assert(path@ =~= join_path_spec(path_base@, href@.skip(url_base@.len() as int)));
        }
        StyleTarget::Local(path)
    } else if is_valid_font_url(href) {
        StyleTarget::AllowedExternal
    } else {
        StyleTarget::Rejected
    }
}

/// State of the stylesheet collection: the local file paths found so
/// far, in document order, and the first error.
pub struct CSt {
    pub out: Seq<Seq<u8>>,
    pub err: Option<HtmlError>,
}

pub open spec fn c_init() -> CSt {
    CSt { out: Seq::<Seq<u8>>::empty(), err: None }
}

/// One token of the collection: a local stylesheet link contributes
/// its resolved file path; one without an href is malformed.
pub open spec fn c_step(st: CSt, t: TokM, ub: Seq<u8>, pb: Seq<u8>) -> CSt {
    if st.err is Some {
        st
    } else {
        match t {
            TokM::Start(tag) => {
                if crate::amp::is_stylesheet_link(tag) {
                    match attr_val(tag.attrs, "href".spec_bytes()) {
                        Some(Some(h)) => {
                            if starts_with_spec(h, ub) {
                                CSt {
                                    out: st.out.push(
                                        join_path_spec(pb, h.skip(ub.len() as int)),
                                    ),
                                    ..st
                                }
                            } else {
                                st
                            }
                        },
                        _ => CSt { err: Some(HtmlError::MissingHref), ..st },
                    }
                } else {
                    st
                }
            },
            _ => st,
        }
    }
}

pub open spec fn c_run(ts: Seq<TokM>, ub: Seq<u8>, pb: Seq<u8>) -> CSt
    decreases ts.len(),
{
    if ts.len() == 0 {
        c_init()
    } else {
        c_step(c_run(ts.drop_last(), ub, pb), ts.last(), ub, pb)
    }
}

pub proof fn lemma_c_run_take(ts: Seq<TokM>, i: int, ub: Seq<u8>, pb: Seq<u8>)
    requires
        0 <= i < ts.len(),
    ensures
        c_run(ts.subrange(0, i + 1), ub, pb) == c_step(
            c_run(ts.subrange(0, i), ub, pb),
            ts[i],
            ub,
            pb,
        ),
{
    assert(ts.subrange(0, i + 1).drop_last() =~= ts.subrange(0, i));
    assert(ts.subrange(0, i + 1).last() == ts[i]);
}

pub proof fn lemma_c_err_absorb(ts: Seq<TokM>, i: int, ub: Seq<u8>, pb: Seq<u8>)
    requires
        0 <= i <= ts.len(),
        c_run(ts.subrange(0, i), ub, pb).err is Some,
    ensures
        c_run(ts, ub, pb).err == c_run(ts.subrange(0, i), ub, pb).err,
    decreases ts.len() - i,
{
    if i == ts.len() {
        assert(ts.subrange(0, i) =~= ts);
    } else {
        lemma_c_run_take(ts, i, ub, pb);
        lemma_c_err_absorb(ts, i + 1, ub, pb);
    }
}

/// Collects, in document order, the resolved file path of every local
/// stylesheet link in the token stream.
pub fn collect_local_styles(toks: &Vec<Tok>, url_base: &[u8], path_base: &[u8]) -> (r: Result<
    Vec<Vec<u8>>,
    HtmlError,
>)
    ensures
        ({
            let st = c_run(toks.deep_view(), url_base@, path_base@);
            match r {
                Ok(o) => st.err is None && o.deep_view() == st.out,
                Err(e) => st.err == Some(e),
            }
        }),
{
    let ghost tm = toks.deep_view();
    let ghost ub = url_base@;
    let ghost pb = path_base@;
    let mut out: Vec<Vec<u8>> = Vec::new();
    let mut i: usize = 0;
    proof {
        assert(tm.subrange(0, 0) =~= Seq::<TokM>::empty());
        assert(out.deep_view() =~= c_init().out);
    }
    while i < toks.len()
        invariant
            i <= toks.len(),
            tm == toks.deep_view(),
            ub == url_base@,
            pb == path_base@,
            ({
                let st = c_run(tm.subrange(0, i as int), ub, pb);
                &&& st.err is None
                &&& out.deep_view() == st.out
            }),
        decreases toks.len() - i,
    {
        proof {
            lemma_c_run_take(tm, i as int, ub, pb);
        }
        let ghost st1 = c_step(c_run(tm.subrange(0, i as int), ub, pb), tm[i as int], ub, pb);
        let t = &toks[i];
        proof {
            assert(t@ == tm[i as int]);
        }
        match t {
            Tok::Start(tag) => {
                let is_sheet = if tag.kind == TagKind::Link {
                    let rel = crate::tok::find_attr(&tag.attrs, "rel".as_bytes());
                    match &rel {
                        Some(Some(v)) => bytes_eq(v.as_slice(), "stylesheet".as_bytes()),
                        _ => false,
                    }
                } else {
                    false
                };
                if is_sheet {
                    let href = crate::tok::find_attr(&tag.attrs, "href".as_bytes());
                    match href {
                        Some(Some(h)) => {
                            match resolve_stylesheet_href(h.as_slice(), url_base, path_base) {
                                StyleTarget::Local(p) => {
                                    let ghost pre = out.deep_view();
                                    let ghost prev = out@;
                                    let ghost pm = p@;
                                    out.push(p);
                                    proof {
                                        assert forall|j: int|
                                            0 <= j < out.deep_view().len() implies out.deep_view()[j]
                                            == pre.push(pm)[j] by {
                                            if j < pre.len() {
                                                assert(out@[j] == prev[j]);
                                            }
                                        }
                                        assert(out.deep_view() =~= pre.push(pm));
                                    }
                                },
                                _ => {},
                            }
                        },
                        _ => {
                            proof {
                                assert(c_run(tm.subrange(0, i as int + 1), ub, pb) == st1);
                                lemma_c_err_absorb(tm, i as int + 1, ub, pb);
                            }
                            return Err(HtmlError::MissingHref);
                        },
                    }
                }
            },
            _ => {},
        }
        proof {
            assert(out.deep_view() == st1.out);
            assert(st1.err is None);
        }
        i += 1;
    }
    proof {
        assert(tm.subrange(0, toks.len() as int) =~= tm);
    }
    Ok(out)
}

/// Lists, in document order, the local stylesheet files a document
/// asks for: the caller reads them and hands their text to the rewrite
/// passes in the same order.
pub fn local_style_paths(input: &Vec<u8>, url_base: &[u8], path_base: &[u8]) -> (r: Result<
    Vec<Vec<u8>>,
    HtmlError,
>)
    ensures
        ({
            let st = c_run(tokenize_spec(input@), url_base@, path_base@);
            match (r, st.err) {
                (Ok(o), None) => o.deep_view() == st.out,
                (Err(e1), Some(e2)) => e1 == e2,
                _ => false,
            }
        }),
{
    let toks = tokenize(input);
    collect_local_styles(&toks, url_base, path_base)
}

} // verus!
