//! The AMP rewrite: pass 1 strips disallowed constructs (scripts,
//! canonical links, viewport and charset metas, stylesheet links),
//! rewrites images to `amp-img`, marks the root element and collects
//! all CSS (inline style text and resolved local stylesheets) in
//! document order; pass 2 removes the emptied `style` elements and
//! injects the AMP boilerplate, metas, a canonical link, the collected
//! CSS as one `style amp-custom` block, and the optional analytics
//! snippet.

use vstd::prelude::*;
use vstd::string::StringSliceAdditionalSpecFns;
use crate::tok::{
    HtmlError, Tag, TagKind, TagM, Tok, TokM, attr_val, bytes_eq, bytes_starts_with, copy_bytes,
    dup_tok, has_attr, is_end_kind, render_start, render_start_exec, serialize, set_attr,
    set_attr_spec, text_raw, toks_bytes,
};
use crate::tokenizer::{push_tok, tokenize, tokenize_spec};
use crate::resolve::is_valid_font_url_spec;
use crate::resolve::is_valid_font_url;

verus! {

/// The mandatory AMP boilerplate block, injected at the top of `head`.
pub const AMP_BOILERPLATE: &'static str =
    "<style amp-boilerplate>body{-webkit-animation:-amp-start 8s steps(1,end) 0s 1 normal both;-moz-animation:-amp-start 8s steps(1,end) 0s 1 normal both;-ms-animation:-amp-start 8s steps(1,end) 0s 1 normal both;animation:-amp-start 8s steps(1,end) 0s 1 normal both}@-webkit-keyframes -amp-start{from{visibility:hidden}to{visibility:visible}}@-moz-keyframes -amp-start{from{visibility:hidden}to{visibility:visible}}@-ms-keyframes -amp-start{from{visibility:hidden}to{visibility:visible}}@-o-keyframes -amp-start{from{visibility:hidden}to{visibility:visible}}@keyframes -amp-start{from{visibility:hidden}to{visibility:visible}}</style><noscript><style amp-boilerplate>body{-webkit-animation:none;-moz-animation:none;-ms-animation:none;animation:none}</style></noscript><script async src=\"https://cdn.ampproject.org/v0.js\"></script>";

pub const META_CHARSET: &'static str = "<meta charset=\"utf-8\">";

pub const META_VIEWPORT: &'static str = "<meta name=\"viewport\" content=\"width=device-width\">";

pub const CANONICAL_PRE: &'static str = "<link rel=\"canonical\" href=\"";

pub const CANONICAL_POST: &'static str = "\">";

pub const STYLE_PRE: &'static str = "<style amp-custom>";

pub const STYLE_POST: &'static str = "</style>";

/// The component script for the analytics element.
pub const ANALYTICS_SCRIPT: &'static str =
    "<script async custom-element=\"amp-analytics\" src=\"https://cdn.ampproject.org/v0/amp-analytics-0.1.js\"></script>";

pub open spec fn opt_bytes(g: Option<Vec<u8>>) -> Option<Seq<u8>> {
    match g {
        Some(v) => Some(v@),
        None => None,
    }
}

/// State of pass 1: tokens kept so far, CSS collected so far, how many
/// resolved stylesheets were consumed, whether a `script` element or a
/// `style` element's text is being consumed, and the first error.
pub struct P1St {
    pub out: Seq<TokM>,
    pub css: Seq<u8>,
    pub used: int,
    pub skip_script: bool,
    pub in_style: bool,
    pub err: Option<HtmlError>,
}

pub open spec fn p1_init() -> P1St {
    P1St {
        out: Seq::<TokM>::empty(),
        css: Seq::<u8>::empty(),
        used: 0,
        skip_script: false,
        in_style: false,
        err: None,
    }
}

/// The root element, marked with the `amp` attribute.
pub open spec fn amp_mark_spec(tag: TagM) -> TagM {
    let attrs = set_attr_spec(tag.attrs, "amp".spec_bytes(), Seq::<u8>::empty());
    TagM {
        kind: tag.kind,
        name: tag.name,
        attrs,
        self_closing: tag.self_closing,
        raw: render_start(tag.name, attrs, tag.self_closing),
    }
}

/// An image, renamed to `amp-img` with the required `layout="fill"`;
/// every other attribute is preserved.
pub open spec fn amp_img_spec(tag: TagM) -> TagM {
    let attrs = set_attr_spec(tag.attrs, "layout".spec_bytes(), "fill".spec_bytes());
    TagM {
        kind: TagKind::AmpImg,
        name: "amp-img".spec_bytes(),
        attrs,
        self_closing: tag.self_closing,
        raw: render_start("amp-img".spec_bytes(), attrs, tag.self_closing),
    }
}

pub open spec fn is_canonical_link(tag: TagM) -> bool {
    tag.kind == TagKind::Link && attr_val(tag.attrs, "rel".spec_bytes()) == Some(
        Some("canonical".spec_bytes()),
    )
}

pub open spec fn is_stylesheet_link(tag: TagM) -> bool {
    tag.kind == TagKind::Link && attr_val(tag.attrs, "rel".spec_bytes()) == Some(
        Some("stylesheet".spec_bytes()),
    )
}

pub open spec fn is_viewport_meta(tag: TagM) -> bool {
    tag.kind == TagKind::Meta && attr_val(tag.attrs, "name".spec_bytes()) == Some(
        Some("viewport".spec_bytes()),
    )
}

pub open spec fn is_charset_meta(tag: TagM) -> bool {
    tag.kind == TagKind::Meta && has_attr(tag.attrs, "charset".spec_bytes())
}

/// Pass 1 on one start tag outside any skipped region.
pub open spec fn p1_start(st: P1St, t: TokM, tag: TagM, ub: Seq<u8>, styles: Seq<Seq<u8>>) -> P1St {
    if tag.kind == TagKind::Script {
        if tag.self_closing {
            st
        } else {
            P1St { skip_script: true, ..st }
        }
    } else if tag.kind == TagKind::Html {
        P1St { out: st.out.push(TokM::Start(amp_mark_spec(tag))), ..st }
    } else if tag.kind == TagKind::Img {
        P1St { out: st.out.push(TokM::Start(amp_img_spec(tag))), ..st }
    } else if is_canonical_link(tag) {
        st
    } else if is_stylesheet_link(tag) {
        match attr_val(tag.attrs, "href".spec_bytes()) {
            Some(Some(h)) => {
                if crate::tok::starts_with_spec(h, ub) {
                    if st.used < styles.len() {
                        P1St { css: st.css + styles[st.used], used: st.used + 1, ..st }
                    } else {
                        P1St { err: Some(HtmlError::StyleCount), ..st }
                    }
                } else if is_valid_font_url_spec(h) {
                    P1St { out: st.out.push(t), ..st }
                } else {
                    st
                }
            },
            _ => P1St { err: Some(HtmlError::MissingHref), ..st },
        }
    } else if is_viewport_meta(tag) {
        st
    } else if is_charset_meta(tag) {
        st
    } else if tag.kind == TagKind::Style {
        if tag.self_closing {
            P1St { out: st.out.push(t), ..st }
        } else {
            P1St { out: st.out.push(t), in_style: true, ..st }
        }
    } else {
        P1St { out: st.out.push(t), ..st }
    }
}

/// Pass 1 on one token.
pub open spec fn p1_step(st: P1St, t: TokM, ub: Seq<u8>, styles: Seq<Seq<u8>>) -> P1St {
    if st.err is Some {
        st
    } else if st.skip_script {
        if is_end_kind(t, TagKind::Script) {
            P1St { skip_script: false, ..st }
        } else {
            st
        }
    } else if st.in_style && t is Text {
        P1St { css: st.css + text_raw(t), ..st }
    } else {
        let st0 = P1St { in_style: false, ..st };
        match t {
            TokM::Start(tag) => p1_start(st0, t, tag, ub, styles),
            _ => P1St { out: st0.out.push(t), ..st0 },
        }
    }
}

/// Pass 1 over a whole token stream.
pub open spec fn p1_run(ts: Seq<TokM>, ub: Seq<u8>, styles: Seq<Seq<u8>>) -> P1St
    decreases ts.len(),
{
    if ts.len() == 0 {
        p1_init()
    } else {
        p1_step(p1_run(ts.drop_last(), ub, styles), ts.last(), ub, styles)
    }
}

pub proof fn lemma_p1_run_take(ts: Seq<TokM>, i: int, ub: Seq<u8>, styles: Seq<Seq<u8>>)
    requires
        0 <= i < ts.len(),
    ensures
        p1_run(ts.subrange(0, i + 1), ub, styles) == p1_step(
            p1_run(ts.subrange(0, i), ub, styles),
            ts[i],
            ub,
            styles,
        ),
{
    assert(ts.subrange(0, i + 1).drop_last() =~= ts.subrange(0, i));
    assert(ts.subrange(0, i + 1).last() == ts[i]);
}

pub proof fn lemma_p1_err_absorb(ts: Seq<TokM>, i: int, ub: Seq<u8>, styles: Seq<Seq<u8>>)
    requires
        0 <= i <= ts.len(),
        p1_run(ts.subrange(0, i), ub, styles).err is Some,
    ensures
        p1_run(ts, ub, styles).err == p1_run(ts.subrange(0, i), ub, styles).err,
    decreases ts.len() - i,
{
    if i == ts.len() {
        assert(ts.subrange(0, i) =~= ts);
    } else {
        lemma_p1_run_take(ts, i, ub, styles);
        lemma_p1_err_absorb(ts, i + 1, ub, styles);
    }
}

/// What pass 1 hands to pass 2.
pub struct Pass1Out {
    pub toks: Vec<Tok>,
    pub css: Vec<u8>,
    pub used: usize,
}

/// Pass 1, strip and collect. `styles` holds the text of the resolved
/// local stylesheet files, in the order their links appear.
pub fn amp_pass1(toks: &Vec<Tok>, url_base: &[u8], styles: &Vec<Vec<u8>>) -> (r: Result<
    Pass1Out,
    HtmlError,
>)
    ensures
        ({
            let st = p1_run(toks.deep_view(), url_base@, styles.deep_view());
            match r {
                Ok(o) => st.err is None && o.toks.deep_view() == st.out && o.css@ == st.css
                    && o.used == st.used && o.used <= styles@.len(),
                Err(e) => st.err == Some(e),
            }
        }),
{
    let ghost tm = toks.deep_view();
    let ghost ub = url_base@;
    let ghost sv = styles.deep_view();
    let empty_val: Vec<u8> = Vec::new();
    let mut out: Vec<Tok> = Vec::new();
    let mut css: Vec<u8> = Vec::new();
    let mut used: usize = 0;
    let mut skip_script: bool = false;
    let mut in_style: bool = false;
    let mut i: usize = 0;
    proof {
        assert(tm.subrange(0, 0) =~= Seq::<TokM>::empty());
    }
    while i < toks.len()
        invariant
            i <= toks.len(),
            tm == toks.deep_view(),
            ub == url_base@,
            sv == styles.deep_view(),
            used <= styles.len(),
            empty_val@ == Seq::<u8>::empty(),
            ({
                let st = p1_run(tm.subrange(0, i as int), ub, sv);
                &&& st.err is None
                &&& out.deep_view() == st.out
                &&& css@ == st.css
                &&& used == st.used
                &&& skip_script == st.skip_script
                &&& in_style == st.in_style
            }),
        decreases toks.len() - i,
    {
        proof {
            lemma_p1_run_take(tm, i as int, ub, sv);
        }
        let ghost st1 = p1_step(p1_run(tm.subrange(0, i as int), ub, sv), tm[i as int], ub, sv);
        let t = &toks[i];
        proof {
            assert(t@ == tm[i as int]);
        }
        if skip_script {
            let ends = match t {
                Tok::End(e) => e.kind == TagKind::Script,
                _ => false,
            };
            if ends {
                skip_script = false;
            }
        } else if in_style && matches!(t, Tok::Text(_)) {
            match t {
                Tok::Text(rr) => css.extend_from_slice(rr.as_slice()),
                _ => {},
            }
        } else {
            in_style = false;
            match t {
                Tok::Start(tag) => {
                    if tag.kind == TagKind::Script {
                        if !tag.self_closing {
                            skip_script = true;
                        }
                    } else if tag.kind == TagKind::Html {
                        let na = set_attr(&tag.attrs, "amp".as_bytes(), empty_val.as_slice());
                        let raw = render_start_exec(&tag.name, &na, tag.self_closing);
                        let nm = copy_bytes(tag.name.as_slice());
                        push_tok(
                            &mut out,
                            Tok::Start(
                                Tag {
                                    kind: TagKind::Html,
                                    name: nm,
                                    attrs: na,
                                    self_closing: tag.self_closing,
                                    raw,
                                },
                            ),
                        );
                    } else if tag.kind == TagKind::Img {
                        let na = set_attr(&tag.attrs, "layout".as_bytes(), "fill".as_bytes());
                        let nm = copy_bytes("amp-img".as_bytes());
                        let raw = render_start_exec(&nm, &na, tag.self_closing);
                        push_tok(
                            &mut out,
                            Tok::Start(
                                Tag {
                                    kind: TagKind::AmpImg,
                                    name: nm,
                                    attrs: na,
                                    self_closing: tag.self_closing,
                                    raw,
                                },
                            ),
                        );
                    } else if tag.kind == TagKind::Link {
                        let rel = crate::tok::find_attr(&tag.attrs, "rel".as_bytes());
                        let is_canon = match &rel {
                            Some(Some(v)) => bytes_eq(v.as_slice(), "canonical".as_bytes()),
                            _ => false,
                        };
                        let is_sheet = match &rel {
                            Some(Some(v)) => bytes_eq(v.as_slice(), "stylesheet".as_bytes()),
                            _ => false,
                        };
                        if is_canon {
                        } else if is_sheet {
                            let href = crate::tok::find_attr(&tag.attrs, "href".as_bytes());
                            match href {
                                Some(Some(h)) => {
                                    if bytes_starts_with(h.as_slice(), url_base) {
                                        if used < styles.len() {
                                            css.extend_from_slice(styles[used].as_slice());
                                            used += 1;
                                        } else {
                                            proof {
                                                assert(p1_run(
                                                    tm.subrange(0, i as int + 1),
                                                    ub,
                                                    sv,
                                                ) == st1);
                                                lemma_p1_err_absorb(tm, i as int + 1, ub, sv);
                                            }
                                            return Err(HtmlError::StyleCount);
                                        }
                                    } else if is_valid_font_url(h.as_slice()) {
                                        push_tok(&mut out, dup_tok(t));
                                    }
                                },
                                _ => {
                                    proof {
                                        assert(p1_run(tm.subrange(0, i as int + 1), ub, sv) == st1);
                                        lemma_p1_err_absorb(tm, i as int + 1, ub, sv);
                                    }
                                    return Err(HtmlError::MissingHref);
                                },
                            }
                        } else {
                            push_tok(&mut out, dup_tok(t));
                        }
                    } else if tag.kind == TagKind::Meta {
                        let nv = crate::tok::find_attr(&tag.attrs, "name".as_bytes());
                        let is_vp = match &nv {
                            Some(Some(v)) => bytes_eq(v.as_slice(), "viewport".as_bytes()),
                            _ => false,
                        };
                        let has_cs = crate::tok::find_attr(&tag.attrs, "charset".as_bytes()).is_some();
                        if is_vp {
                        } else if has_cs {
                        } else {
                            push_tok(&mut out, dup_tok(t));
                        }
                    } else if tag.kind == TagKind::Style {
                        push_tok(&mut out, dup_tok(t));
                        if !tag.self_closing {
                            in_style = true;
                        }
                    } else {
                        push_tok(&mut out, dup_tok(t));
                    }
                },
                _ => {
                    push_tok(&mut out, dup_tok(t));
                },
            }
        }
        proof {
            assert(out.deep_view() == st1.out);
            assert(css@ == st1.css);
            assert(used == st1.used);
            assert(skip_script == st1.skip_script);
            assert(in_style == st1.in_style);
            assert(st1.err is None);
        }
        i += 1;
    }
    proof {
        assert(tm.subrange(0, toks.len() as int) =~= tm);
    }
    Ok(Pass1Out { toks: out, css, used })
}

/// State of pass 2: tokens kept so far and whether a `style` element
/// is being removed.
pub struct P2St {
    pub out: Seq<TokM>,
    pub skip_style: bool,
}

pub open spec fn p2_init() -> P2St {
    P2St { out: Seq::<TokM>::empty(), skip_style: false }
}

/// Pass 2 on one token: drops the remaining (emptied) `style`
/// elements, injects the head block before `</head>` and the optional
/// body snippet before `</body>`.
pub open spec fn p2_step(st: P2St, t: TokM, head_inj: Seq<u8>, body_inj: Option<Seq<u8>>) -> P2St {
    if st.skip_style {
        if is_end_kind(t, TagKind::Style) {
            P2St { skip_style: false, ..st }
        } else {
            st
        }
    } else {
        match t {
            TokM::Start(tag) => {
                if tag.kind == TagKind::Style {
                    if tag.self_closing {
                        st
                    } else {
                        P2St { skip_style: true, ..st }
                    }
                } else {
                    P2St { out: st.out.push(t), ..st }
                }
            },
            TokM::End(e) => {
                if e.kind == TagKind::Head {
                    P2St { out: st.out.push(TokM::Text(head_inj)).push(t), ..st }
                } else if e.kind == TagKind::Body {
                    match body_inj {
                        Some(b) => P2St { out: st.out.push(TokM::Text(b)).push(t), ..st },
                        None => P2St { out: st.out.push(t), ..st },
                    }
                } else {
                    P2St { out: st.out.push(t), ..st }
                }
            },
            _ => P2St { out: st.out.push(t), ..st },
        }
    }
}

/// Pass 2 over a whole token stream.
pub open spec fn p2_run(ts: Seq<TokM>, head_inj: Seq<u8>, body_inj: Option<Seq<u8>>) -> P2St
    decreases ts.len(),
{
    if ts.len() == 0 {
        p2_init()
    } else {
        p2_step(p2_run(ts.drop_last(), head_inj, body_inj), ts.last(), head_inj, body_inj)
    }
}

pub proof fn lemma_p2_run_take(ts: Seq<TokM>, i: int, head_inj: Seq<u8>, body_inj: Option<Seq<u8>>)
    requires
        0 <= i < ts.len(),
    ensures
        p2_run(ts.subrange(0, i + 1), head_inj, body_inj) == p2_step(
            p2_run(ts.subrange(0, i), head_inj, body_inj),
            ts[i],
            head_inj,
            body_inj,
        ),
{
    assert(ts.subrange(0, i + 1).drop_last() =~= ts.subrange(0, i));
    assert(ts.subrange(0, i + 1).last() == ts[i]);
}

/// Pass 2, rebuild and inject.
pub fn amp_pass2(toks: &Vec<Tok>, head_inj: &Vec<u8>, body_inj: &Option<Vec<u8>>) -> (r: Vec<Tok>)
    ensures
        r.deep_view() == p2_run(
            toks.deep_view(),
            head_inj@,
            match body_inj {
                Some(b) => Some(b@),
                None => None,
            },
        ).out,
{
    let ghost tm = toks.deep_view();
    let ghost hi = head_inj@;
    let ghost bi: Option<Seq<u8>> = match body_inj {
        Some(b) => Some(b@),
        None => None,
    };
    let mut out: Vec<Tok> = Vec::new();
    let mut skip_style: bool = false;
    let mut i: usize = 0;
    proof {
        assert(tm.subrange(0, 0) =~= Seq::<TokM>::empty());
    }
    while i < toks.len()
        invariant
            i <= toks.len(),
            tm == toks.deep_view(),
            hi == head_inj@,
            bi == (match body_inj {
                Some(b) => Some(b@),
                None => None,
            }),
            ({
                let st = p2_run(tm.subrange(0, i as int), hi, bi);
                &&& out.deep_view() == st.out
                &&& skip_style == st.skip_style
            }),
        decreases toks.len() - i,
    {
        proof {
            lemma_p2_run_take(tm, i as int, hi, bi);
        }
        let ghost st1 = p2_step(p2_run(tm.subrange(0, i as int), hi, bi), tm[i as int], hi, bi);
        let t = &toks[i];
        proof {
            assert(t@ == tm[i as int]);
        }
        if skip_style {
            let ends = match t {
                Tok::End(e) => e.kind == TagKind::Style,
                _ => false,
            };
            if ends {
                skip_style = false;
            }
        } else {
            match t {
                Tok::Start(tag) => {
                    if tag.kind == TagKind::Style {
                        if !tag.self_closing {
                            skip_style = true;
                        }
                    } else {
                        push_tok(&mut out, dup_tok(t));
                    }
                },
                Tok::End(e) => {
                    if e.kind == TagKind::Head {
                        push_tok(&mut out, Tok::Text(copy_bytes(head_inj.as_slice())));
                        push_tok(&mut out, dup_tok(t));
                    } else if e.kind == TagKind::Body {
                        match body_inj {
                            Some(b) => {
                                push_tok(&mut out, Tok::Text(copy_bytes(b.as_slice())));
                                push_tok(&mut out, dup_tok(t));
                            },
                            None => {
                                push_tok(&mut out, dup_tok(t));
                            },
                        }
                    } else {
                        push_tok(&mut out, dup_tok(t));
                    }
                },
                _ => {
                    push_tok(&mut out, dup_tok(t));
                },
            }
        }
        proof {
            assert(out.deep_view() == st1.out);
            assert(skip_style == st1.skip_style);
        }
        i += 1;
    }
    proof {
        assert(tm.subrange(0, toks.len() as int) =~= tm);
    }
    out
}

/// The block injected before `</head>`: boilerplate, charset meta,
/// viewport meta, the canonical link, the collected CSS as one
/// `style amp-custom` element, and the analytics component script when
/// an analytics snippet is configured.
pub open spec fn head_injection_spec(canonical: Seq<u8>, css: Seq<u8>, has_gtag: bool) -> Seq<u8> {
    AMP_BOILERPLATE.spec_bytes() + META_CHARSET.spec_bytes() + META_VIEWPORT.spec_bytes()
        + CANONICAL_PRE.spec_bytes() + canonical + CANONICAL_POST.spec_bytes()
        + STYLE_PRE.spec_bytes() + css + STYLE_POST.spec_bytes() + (if has_gtag {
        ANALYTICS_SCRIPT.spec_bytes()
    } else {
        Seq::<u8>::empty()
    })
}

pub fn head_injection(canonical: &[u8], css: &[u8], has_gtag: bool) -> (r: Vec<u8>)
    ensures
        r@ == head_injection_spec(canonical@, css@, has_gtag),
{
    let mut out: Vec<u8> = Vec::new();
    out.extend_from_slice(AMP_BOILERPLATE.as_bytes());
    out.extend_from_slice(META_CHARSET.as_bytes());
    out.extend_from_slice(META_VIEWPORT.as_bytes());
    out.extend_from_slice(CANONICAL_PRE.as_bytes());
    out.extend_from_slice(canonical);
    out.extend_from_slice(CANONICAL_POST.as_bytes());
    out.extend_from_slice(STYLE_PRE.as_bytes());
    out.extend_from_slice(css);
    out.extend_from_slice(STYLE_POST.as_bytes());
    if has_gtag {
        out.extend_from_slice(ANALYTICS_SCRIPT.as_bytes());
    }
    proof {
        assert(out@ =~= head_injection_spec(canonical@, css@, has_gtag));
    }
    out
}

/// The whole AMP rewrite at the model level: pass 1, the stylesheet
/// count check, then pass 2 and serialization.
pub open spec fn amp_pipeline(
    ts: Seq<TokM>,
    canonical: Seq<u8>,
    ub: Seq<u8>,
    styles: Seq<Seq<u8>>,
    gtag: Option<Seq<u8>>,
) -> Result<Seq<u8>, HtmlError> {
    let st = p1_run(ts, ub, styles);
    match st.err {
        Some(e) => Err(e),
        None => if st.used != styles.len() {
            Err(HtmlError::StyleCount)
        } else {
            Ok(
                toks_bytes(
                    p2_run(st.out, head_injection_spec(canonical, st.css, gtag is Some), gtag).out,
                ),
            )
        },
    }
}

/// Rewrites one document into its AMP variant. `styles` must hold the
/// text of the resolved local stylesheet files, one per local
/// stylesheet link in document order (`local_style_paths` lists them);
/// `gtag_snippet` is the optional analytics markup, injected verbatim.
///
/// The result is the AMP pipeline applied to the tokenization of the
/// input: `Err(MissingHref)` when a stylesheet link has no href,
/// `Err(StyleCount)` when `styles` does not match the local links one
/// for one, and otherwise the serialized rewritten document.
pub fn fixup_amp_html(
    input: &Vec<u8>,
    canonical: &[u8],
    url_base: &[u8],
    styles: &Vec<Vec<u8>>,
    gtag_snippet: &Option<Vec<u8>>,
) -> (r: Result<Vec<u8>, HtmlError>)
    ensures
        ({
            let pipe = amp_pipeline(
                tokenize_spec(input@),
                canonical@,
                url_base@,
                styles.deep_view(),
                (match gtag_snippet {
                    Some(g) => Some(g@),
                    None => None,
                }),
            );
            match (r, pipe) {
                (Ok(o), Ok(s)) => o@ == s,
                (Err(e1), Err(e2)) => e1 == e2,
                _ => false,
            }
        }),
{
    let toks = tokenize(input);
    let ghost w = toks.deep_view();
    let ghost gv: Option<Seq<u8>> = match gtag_snippet {
        Some(g) => Some(g@),
        None => None,
    };
    match amp_pass1(&toks, url_base, styles) {
        Err(e) => Err(e),
        Ok(o) => {
            if o.used != styles.len() {
                return Err(HtmlError::StyleCount);
            }
            let has_gtag = gtag_snippet.is_some();
            let inj = head_injection(canonical, o.css.as_slice(), has_gtag);
            let out2 = amp_pass2(&o.toks, &inj, gtag_snippet);
            let bytes = serialize(&out2);
            proof {
                assert(bytes@ == amp_pipeline(
                    w,
                    canonical@,
                    url_base@,
                    styles.deep_view(),
                    gv,
                ) .unwrap());
            }
            Ok(bytes)
        },
    }
}

} // verus!
