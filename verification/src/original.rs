//! The original-page rewrite: one streaming pass that optionally
//! appends an AMP discovery link to `head` and optionally replaces
//! each local stylesheet link with an inline `style` element holding
//! the resolved file's text. With both options off the document passes
//! through byte for byte.

use vstd::prelude::*;
use vstd::string::StringSliceAdditionalSpecFns;
use crate::tok::{
    HtmlError, TagKind, TokM, Tok, attr_val, bytes_eq, bytes_starts_with, copy_bytes, dup_tok,
    serialize, starts_with_spec, toks_bytes,
};
use crate::tokenizer::{push_tok, tokenize, tokenize_spec};
use crate::amp::is_stylesheet_link;

verus! {

/// The two independent switches of the original-page rewrite.
#[derive(Default, Clone, Copy)]
pub struct Options {
    pub inline_styles: bool,
    pub amp_link: bool,
}

pub const AMP_LINK_PRE: &'static str = "<link rel=\"amphtml\" href=\"";

pub const AMP_LINK_POST: &'static str = "amp/\">";

pub const INLINE_STYLE_PRE: &'static str = "<style>";

pub const INLINE_STYLE_POST: &'static str = "</style>";

/// The AMP discovery link for a page with the given canonical URL.
pub open spec fn amp_link_spec(canonical: Seq<u8>) -> Seq<u8> {
    AMP_LINK_PRE.spec_bytes() + canonical + AMP_LINK_POST.spec_bytes()
}

/// An inline `style` element holding the resolved stylesheet text.
pub open spec fn inline_style_spec(css: Seq<u8>) -> Seq<u8> {
    INLINE_STYLE_PRE.spec_bytes() + css + INLINE_STYLE_POST.spec_bytes()
}

/// State of the original-page pass.
pub struct OSt {
    pub out: Seq<TokM>,
    pub used: int,
    pub err: Option<HtmlError>,
}

pub open spec fn o_init() -> OSt {
    OSt { out: Seq::<TokM>::empty(), used: 0, err: None }
}

/// One token of the original-page pass.
pub open spec fn o_step(
    st: OSt,
    t: TokM,
    canonical: Seq<u8>,
    ub: Seq<u8>,
    styles: Seq<Seq<u8>>,
    opts: Options,
) -> OSt {
    if st.err is Some {
        st
    } else {
        match t {
            TokM::End(e) => {
                if opts.amp_link && e.kind == TagKind::Head {
                    OSt { out: st.out.push(TokM::Text(amp_link_spec(canonical))).push(t), ..st }
                } else {
                    OSt { out: st.out.push(t), ..st }
                }
            },
            TokM::Start(tag) => {
                if opts.inline_styles && is_stylesheet_link(tag) {
                    match attr_val(tag.attrs, "href".spec_bytes()) {
                        Some(Some(h)) => {
                            if starts_with_spec(h, ub) {
                                if st.used < styles.len() {
                                    OSt {
                                        out: st.out.push(
                                            TokM::Text(inline_style_spec(styles[st.used])),
                                        ),
                                        used: st.used + 1,
                                        ..st
                                    }
                                } else {
                                    OSt { err: Some(HtmlError::StyleCount), ..st }
                                }
                            } else {
                                OSt { out: st.out.push(t), ..st }
                            }
                        },
                        _ => OSt { err: Some(HtmlError::MissingHref), ..st },
                    }
                } else {
                    OSt { out: st.out.push(t), ..st }
                }
            },
            _ => OSt { out: st.out.push(t), ..st },
        }
    }
}

/// The original-page pass over a whole token stream.
pub open spec fn o_run(
    ts: Seq<TokM>,
    canonical: Seq<u8>,
    ub: Seq<u8>,
    styles: Seq<Seq<u8>>,
    opts: Options,
) -> OSt
    decreases ts.len(),
{
    if ts.len() == 0 {
        o_init()
    } else {
        o_step(
            o_run(ts.drop_last(), canonical, ub, styles, opts),
            ts.last(),
            canonical,
            ub,
            styles,
            opts,
        )
    }
}

pub proof fn lemma_o_run_take(
    ts: Seq<TokM>,
    i: int,
    canonical: Seq<u8>,
    ub: Seq<u8>,
    styles: Seq<Seq<u8>>,
    opts: Options,
)
    requires
        0 <= i < ts.len(),
    ensures
        o_run(ts.subrange(0, i + 1), canonical, ub, styles, opts) == o_step(
            o_run(ts.subrange(0, i), canonical, ub, styles, opts),
            ts[i],
            canonical,
            ub,
            styles,
            opts,
        ),
{
    assert(ts.subrange(0, i + 1).drop_last() =~= ts.subrange(0, i));
    assert(ts.subrange(0, i + 1).last() == ts[i]);
}

pub proof fn lemma_o_err_absorb(
    ts: Seq<TokM>,
    i: int,
    canonical: Seq<u8>,
    ub: Seq<u8>,
    styles: Seq<Seq<u8>>,
    opts: Options,
)
    requires
        0 <= i <= ts.len(),
        o_run(ts.subrange(0, i), canonical, ub, styles, opts).err is Some,
    ensures
        o_run(ts, canonical, ub, styles, opts).err == o_run(
            ts.subrange(0, i),
            canonical,
            ub,
            styles,
            opts,
        ).err,
    decreases ts.len() - i,
{
    if i == ts.len() {
        assert(ts.subrange(0, i) =~= ts);
    } else {
        lemma_o_run_take(ts, i, canonical, ub, styles, opts);
        lemma_o_err_absorb(ts, i + 1, canonical, ub, styles, opts);
    }
}

/// With both options off the pass keeps every token unchanged.
pub proof fn lemma_o_run_noop(
    ts: Seq<TokM>,
    canonical: Seq<u8>,
    ub: Seq<u8>,
    styles: Seq<Seq<u8>>,
    opts: Options,
)
    requires
        !opts.inline_styles,
        !opts.amp_link,
    ensures
        o_run(ts, canonical, ub, styles, opts) == (OSt { out: ts, used: 0, err: None }),
    decreases ts.len(),
{
    if ts.len() == 0 {
        assert(ts =~= Seq::<TokM>::empty());
    } else {
        lemma_o_run_noop(ts.drop_last(), canonical, ub, styles, opts);
        assert(ts.drop_last().push(ts.last()) =~= ts);
    }
}

/// What the original-page pass hands back.
pub struct OrigOut {
    pub toks: Vec<Tok>,
    pub used: usize,
}

/// The original-page pass. `styles` holds the text of the resolved
/// local stylesheet files, in the order their links appear; it is only
/// consumed when `options.inline_styles` is set.
pub fn original_pass(
    toks: &Vec<Tok>,
    canonical: &[u8],
    url_base: &[u8],
    styles: &Vec<Vec<u8>>,
    options: &Options,
) -> (r: Result<OrigOut, HtmlError>)
    ensures
        ({
            let st = o_run(toks.deep_view(), canonical@, url_base@, styles.deep_view(), *options);
            match r {
                Ok(o) => st.err is None && o.toks.deep_view() == st.out && o.used == st.used
                    && o.used <= styles@.len(),
                Err(e) => st.err == Some(e),
            }
        }),
{
    let ghost tm = toks.deep_view();
    let ghost cv = canonical@;
    let ghost ub = url_base@;
    let ghost sv = styles.deep_view();
    let ghost opts = *options;
    let mut out: Vec<Tok> = Vec::new();
    let mut used: usize = 0;
    let mut i: usize = 0;
    proof {
        assert(tm.subrange(0, 0) =~= Seq::<TokM>::empty());
    }
    while i < toks.len()
        invariant
            i <= toks.len(),
            tm == toks.deep_view(),
            cv == canonical@,
            ub == url_base@,
            sv == styles.deep_view(),
            opts == *options,
            used <= styles.len(),
            ({
                let st = o_run(tm.subrange(0, i as int), cv, ub, sv, opts);
                &&& st.err is None
                &&& out.deep_view() == st.out
                &&& used == st.used
            }),
        decreases toks.len() - i,
    {
        proof {
            lemma_o_run_take(tm, i as int, cv, ub, sv, opts);
        }
        let ghost st1 = o_step(o_run(tm.subrange(0, i as int), cv, ub, sv, opts), tm[i as int], cv, ub, sv, opts);
        let t = &toks[i];
        proof {
            assert(t@ == tm[i as int]);
        }
        match t {
            Tok::End(e) => {
                if options.amp_link && e.kind == TagKind::Head {
                    let mut link: Vec<u8> = Vec::new();
                    link.extend_from_slice(AMP_LINK_PRE.as_bytes());
                    link.extend_from_slice(canonical);
                    link.extend_from_slice(AMP_LINK_POST.as_bytes());
                    proof {
                        assert(link@ =~= amp_link_spec(cv));
                    }
                    push_tok(&mut out, Tok::Text(link));
                    push_tok(&mut out, dup_tok(t));
                } else {
                    push_tok(&mut out, dup_tok(t));
                }
            },
            Tok::Start(tag) => {
                let is_sheet = if options.inline_styles && tag.kind == TagKind::Link {
                    let rel = crate::tok::find_attr(&tag.attrs, "rel".as_bytes());
                    match &rel {
                        Some(Some(v)) => bytes_eq(v.as_slice(), "stylesheet".as_bytes()),
                        _ => false,
                    }
                } else {
                    false
                };
                if is_sheet {
                    let href = crate::tok::find_attr(&tag.attrs, "href".as_bytes());
                    match href {
                        Some(Some(h)) => {
                            if bytes_starts_with(h.as_slice(), url_base) {
                                if used < styles.len() {
                                    let mut sty: Vec<u8> = Vec::new();
                                    sty.extend_from_slice(INLINE_STYLE_PRE.as_bytes());
                                    sty.extend_from_slice(styles[used].as_slice());
                                    sty.extend_from_slice(INLINE_STYLE_POST.as_bytes());
                                    proof {
                                        assert(sty@ =~= inline_style_spec(sv[used as int]));
                                    }
                                    push_tok(&mut out, Tok::Text(sty));
                                    used += 1;
                                } else {
                                    proof {
                                        assert(o_run(tm.subrange(0, i as int + 1), cv, ub, sv, opts)
                                            == st1);
                                        lemma_o_err_absorb(tm, i as int + 1, cv, ub, sv, opts);
                                    }
                                    return Err(HtmlError::StyleCount);
                                }
                            } else {
                                push_tok(&mut out, dup_tok(t));
                            }
                        },
                        _ => {
                            proof {
                                assert(o_run(tm.subrange(0, i as int + 1), cv, ub, sv, opts)
                                    == st1);
                                lemma_o_err_absorb(tm, i as int + 1, cv, ub, sv, opts);
                            }
                            return Err(HtmlError::MissingHref);
                        },
                    }
                } else {
                    push_tok(&mut out, dup_tok(t));
                }
            },
            _ => {
                push_tok(&mut out, dup_tok(t));
            },
        }
        proof {
            assert(out.deep_view() == st1.out);
            assert(used == st1.used);
            assert(st1.err is None);
        }
        i += 1;
    }
    proof {
        assert(tm.subrange(0, toks.len() as int) =~= tm);
    }
    Ok(OrigOut { toks: out, used })
}

/// The whole original-page rewrite at the model level.
pub open spec fn orig_pipeline(
    ts: Seq<TokM>,
    canonical: Seq<u8>,
    ub: Seq<u8>,
    styles: Seq<Seq<u8>>,
    opts: Options,
) -> Result<Seq<u8>, HtmlError> {
    let st = o_run(ts, canonical, ub, styles, opts);
    match st.err {
        Some(e) => Err(e),
        None => if st.used != styles.len() {
            Err(HtmlError::StyleCount)
        } else {
            Ok(toks_bytes(st.out))
        },
    }
}

/// Rewrites one document into its canonical (non-AMP) form. `styles`
/// must hold the text of the resolved local stylesheet files, one per
/// local stylesheet link in document order, and must be empty when
/// `options.inline_styles` is off.
///
/// With both options off and no styles supplied the output is the
/// input, byte for byte.
pub fn fixup_original_html(
    input: &Vec<u8>,
    canonical: &[u8],
    url_base: &[u8],
    styles: &Vec<Vec<u8>>,
    options: &Options,
) -> (r: Result<Vec<u8>, HtmlError>)
    ensures
        ({
            let pipe = orig_pipeline(
                tokenize_spec(input@),
                canonical@,
                url_base@,
                styles.deep_view(),
                *options,
            );
            match (r, pipe) {
                (Ok(o), Ok(s)) => o@ == s,
                (Err(e1), Err(e2)) => e1 == e2,
                _ => false,
            }
        }),
        !options.inline_styles && !options.amp_link && styles@.len() == 0 ==> (r matches Ok(o)
            && o@ == input@),
{
    let toks = tokenize(input);
    let ghost w = toks.deep_view();
    proof {
        if !options.inline_styles && !options.amp_link {
            lemma_o_run_noop(w, canonical@, url_base@, styles.deep_view(), *options);
        }
    }
    match original_pass(&toks, canonical, url_base, styles, options) {
        Err(e) => Err(e),
        Ok(o) => {
            if o.used != styles.len() {
                return Err(HtmlError::StyleCount);
            }
            let bytes = serialize(&o.toks);
            proof {
                assert(toks_bytes(w) == input@);
            }
            Ok(bytes)
        },
    }
}

} // verus!
