//! What the AMP rewrite guarantees of its output, stated over the
//! pass machines and proved by induction over the token stream.

use vstd::prelude::*;
use vstd::string::StringSliceAdditionalSpecFns;
use crate::tok::{
    TagKind, TagM, TokM, attr_val, is_end_kind, is_start_kind, lemma_set_attr_has,
};
use crate::amp::{amp_img_spec, is_canonical_link, p1_run, p1_step, p2_run, p2_step};

verus! {

/// The start tag a token carries.
pub open spec fn start_tag_of(t: TokM) -> TagM {
    match t {
        TokM::Start(tag) => tag,
        _ => arbitrary(),
    }
}

/// A `link rel="canonical"` token.
pub open spec fn is_canonical_tok(t: TokM) -> bool {
    match t {
        TokM::Start(tag) => is_canonical_link(tag),
        _ => false,
    }
}

/// A root token that carries the bare `amp` marker attribute.
pub open spec fn root_is_marked(t: TokM) -> bool {
    is_start_kind(t, TagKind::Html) ==> attr_val(
        start_tag_of(t).attrs,
        "amp".spec_bytes(),
    ) == Some(Some(Seq::<u8>::empty()))
}

/// Pass 1 emits no `script` start tag: every script element of the
/// input is removed.
pub proof fn lemma_p1_no_script(ts: Seq<TokM>, ub: Seq<u8>, styles: Seq<Seq<u8>>)
    ensures
        forall|j: int|
            0 <= j < p1_run(ts, ub, styles).out.len() ==> !is_start_kind(
                #[trigger] p1_run(ts, ub, styles).out[j],
                TagKind::Script,
            ),
    decreases ts.len(),
{
    if ts.len() > 0 {
        lemma_p1_no_script(ts.drop_last(), ub, styles);
        let st = p1_run(ts.drop_last(), ub, styles);
        let st1 = p1_step(st, ts.last(), ub, styles);
        assert forall|j: int| 0 <= j < st1.out.len() implies !is_start_kind(
            st1.out[j],
            TagKind::Script,
        ) by {
            if j < st.out.len() {
                assert(!is_start_kind(st.out[j], TagKind::Script));
            }
        }
    }
}

/// Pass 1 emits no `img` start tag: every image is rewritten.
pub proof fn lemma_p1_no_img(ts: Seq<TokM>, ub: Seq<u8>, styles: Seq<Seq<u8>>)
    ensures
        forall|j: int|
            0 <= j < p1_run(ts, ub, styles).out.len() ==> !is_start_kind(
                #[trigger] p1_run(ts, ub, styles).out[j],
                TagKind::Img,
            ),
    decreases ts.len(),
{
    if ts.len() > 0 {
        lemma_p1_no_img(ts.drop_last(), ub, styles);
        let st = p1_run(ts.drop_last(), ub, styles);
        let st1 = p1_step(st, ts.last(), ub, styles);
        assert forall|j: int| 0 <= j < st1.out.len() implies !is_start_kind(
            st1.out[j],
            TagKind::Img,
        ) by {
            if j < st.out.len() {
                assert(!is_start_kind(st.out[j], TagKind::Img));
            }
        }
    }
}

/// Pass 1 emits no `link rel="canonical"` token: the old canonical
/// link is removed (pass 2 injects the one pointing back).
pub proof fn lemma_p1_no_canonical(ts: Seq<TokM>, ub: Seq<u8>, styles: Seq<Seq<u8>>)
    ensures
        forall|j: int|
            0 <= j < p1_run(ts, ub, styles).out.len() ==> !is_canonical_tok(
                #[trigger] p1_run(ts, ub, styles).out[j],
            ),
    decreases ts.len(),
{
    if ts.len() > 0 {
        lemma_p1_no_canonical(ts.drop_last(), ub, styles);
        let st = p1_run(ts.drop_last(), ub, styles);
        let st1 = p1_step(st, ts.last(), ub, styles);
        assert forall|j: int| 0 <= j < st1.out.len() implies !is_canonical_tok(st1.out[j]) by {
            if j < st.out.len() {
                assert(!is_canonical_tok(st.out[j]));
            }
        }
    }
}

/// Every root (`html`) start tag pass 1 emits carries the bare `amp`
/// marker attribute.
pub proof fn lemma_p1_root_marked(ts: Seq<TokM>, ub: Seq<u8>, styles: Seq<Seq<u8>>)
    ensures
        forall|j: int|
            0 <= j < p1_run(ts, ub, styles).out.len() ==> root_is_marked(
                #[trigger] p1_run(ts, ub, styles).out[j],
            ),
    decreases ts.len(),
{
    if ts.len() > 0 {
        lemma_p1_root_marked(ts.drop_last(), ub, styles);
        let st = p1_run(ts.drop_last(), ub, styles);
        let st1 = p1_step(st, ts.last(), ub, styles);
        assert forall|j: int| 0 <= j < st1.out.len() implies root_is_marked(st1.out[j]) by {
            if j < st.out.len() {
                assert(root_is_marked(st.out[j]));
            } else {
                match ts.last() {
                    TokM::Start(tag) => {
                        if tag.kind == TagKind::Html {
                            lemma_set_attr_has(tag.attrs, "amp".spec_bytes(), Seq::<u8>::empty());
                        }
                    },
                    _ => {},
                }
            }
        }
    }
}

/// In a document without script elements, every image of the input
/// reappears in pass 1's output as the rewritten AMP image with
/// `layout="fill"` and every other attribute preserved, provided the
/// pass succeeds.
pub proof fn lemma_p1_imgs_transformed(ts: Seq<TokM>, ub: Seq<u8>, styles: Seq<Seq<u8>>)
    requires
        forall|j: int| 0 <= j < ts.len() ==> !is_start_kind(#[trigger] ts[j], TagKind::Script),
        p1_run(ts, ub, styles).err is None,
    ensures
        !p1_run(ts, ub, styles).skip_script,
        forall|j: int|
            0 <= j < ts.len() && is_start_kind(#[trigger] ts[j], TagKind::Img)
                ==> exists|l: int|
                0 <= l < p1_run(ts, ub, styles).out.len() && p1_run(ts, ub, styles).out[l]
                    == TokM::Start(amp_img_spec(start_tag_of(ts[j]))),
    decreases ts.len(),
{
    if ts.len() > 0 {
        let st = p1_run(ts.drop_last(), ub, styles);
        let st1 = p1_step(st, ts.last(), ub, styles);
        assert(st.err is None) by {
            if st.err is Some {
                assert(st1 == st);
            }
        }
        assert(forall|j: int|
            0 <= j < ts.drop_last().len() ==> !is_start_kind(
                #[trigger] ts.drop_last()[j],
                TagKind::Script,
            ));
        lemma_p1_imgs_transformed(ts.drop_last(), ub, styles);
        assert(!is_start_kind(ts.last(), TagKind::Script));
        assert(!st1.skip_script);
        assert forall|j: int|
            0 <= j < ts.len() && is_start_kind(#[trigger] ts[j], TagKind::Img) implies exists|
            l: int,
        |
            0 <= l < st1.out.len() && st1.out[l] == TokM::Start(
                amp_img_spec(start_tag_of(ts[j])),
            ) by {
            if j < ts.len() - 1 {
                assert(ts.drop_last()[j] == ts[j]);
                let l = choose|l: int|
                    0 <= l < st.out.len() && st.out[l] == TokM::Start(
                        amp_img_spec(start_tag_of(ts[j])),
                    );
                assert(st1.out[l] == st.out[l]);
            } else {
                let l = st.out.len() as int;
                assert(st1.out[l] == TokM::Start(amp_img_spec(start_tag_of(ts[j]))));
            }
        }
    }
}

/// Pass 2 emits no `style` start tag: the emptied style elements are
/// removed, leaving the one injected `style amp-custom` block (part of
/// the injected head markup) as the only stylesheet of the page.
pub proof fn lemma_p2_no_style(ts: Seq<TokM>, hi: Seq<u8>, bi: Option<Seq<u8>>)
    ensures
        forall|j: int|
            0 <= j < p2_run(ts, hi, bi).out.len() ==> !is_start_kind(
                #[trigger] p2_run(ts, hi, bi).out[j],
                TagKind::Style,
            ),
    decreases ts.len(),
{
    if ts.len() > 0 {
        lemma_p2_no_style(ts.drop_last(), hi, bi);
        let st = p2_run(ts.drop_last(), hi, bi);
        let st1 = p2_step(st, ts.last(), hi, bi);
        assert forall|j: int| 0 <= j < st1.out.len() implies !is_start_kind(
            st1.out[j],
            TagKind::Style,
        ) by {
            if j < st.out.len() {
                assert(!is_start_kind(st.out[j], TagKind::Style));
            }
        }
    }
}

/// Pass 2 only forwards input tokens and injects text: a token
/// property that holds of every input token and of every text token
/// holds of every output token.
pub proof fn lemma_p2_preserves(
    ts: Seq<TokM>,
    hi: Seq<u8>,
    bi: Option<Seq<u8>>,
    p: spec_fn(TokM) -> bool,
)
    requires
        forall|j: int| 0 <= j < ts.len() ==> p(#[trigger] ts[j]),
        forall|b: Seq<u8>| #[trigger] p(TokM::Text(b)),
    ensures
        forall|j: int|
            0 <= j < p2_run(ts, hi, bi).out.len() ==> p(#[trigger] p2_run(ts, hi, bi).out[j]),
    decreases ts.len(),
{
    if ts.len() > 0 {
        assert(forall|j: int|
            0 <= j < ts.drop_last().len() ==> p(#[trigger] ts.drop_last()[j]));
        lemma_p2_preserves(ts.drop_last(), hi, bi, p);
        let st = p2_run(ts.drop_last(), hi, bi);
        let st1 = p2_step(st, ts.last(), hi, bi);
        assert(p(ts.last()));
        assert forall|j: int| 0 <= j < st1.out.len() implies p(st1.out[j]) by {
            if j < st.out.len() {
                assert(p(st.out[j]));
            }
        }
    }
}

/// Every `</head>` pass 2 emits is directly preceded by the injected
/// head block (boilerplate, metas, canonical link, the aggregated
/// `style amp-custom`, and the analytics script when configured).
pub proof fn lemma_p2_head_injection(ts: Seq<TokM>, hi: Seq<u8>, bi: Option<Seq<u8>>)
    ensures
        forall|j: int|
            0 <= j < p2_run(ts, hi, bi).out.len() && is_end_kind(
                #[trigger] p2_run(ts, hi, bi).out[j],
                TagKind::Head,
            ) ==> j > 0 && p2_run(ts, hi, bi).out[j - 1] == TokM::Text(hi),
    decreases ts.len(),
{
    if ts.len() > 0 {
        lemma_p2_head_injection(ts.drop_last(), hi, bi);
        let st = p2_run(ts.drop_last(), hi, bi);
        let st1 = p2_step(st, ts.last(), hi, bi);
        assert forall|j: int|
            0 <= j < st1.out.len() && is_end_kind(st1.out[j], TagKind::Head) implies j > 0
            && st1.out[j - 1] == TokM::Text(hi) by {
            if j < st.out.len() {
                assert(is_end_kind(st.out[j], TagKind::Head));
                assert(st1.out[j - 1] == st.out[j - 1]);
            }
        }
    }
}

/// When an analytics snippet is configured, every `</body>` pass 2
/// emits is directly preceded by the snippet.
pub proof fn lemma_p2_body_injection(ts: Seq<TokM>, hi: Seq<u8>, b: Seq<u8>)
    ensures
        forall|j: int|
            0 <= j < p2_run(ts, hi, Some(b)).out.len() && is_end_kind(
                #[trigger] p2_run(ts, hi, Some(b)).out[j],
                TagKind::Body,
            ) ==> j > 0 && p2_run(ts, hi, Some(b)).out[j - 1] == TokM::Text(b),
    decreases ts.len(),
{
    if ts.len() > 0 {
        lemma_p2_body_injection(ts.drop_last(), hi, b);
        let st = p2_run(ts.drop_last(), hi, Some(b));
        let st1 = p2_step(st, ts.last(), hi, Some(b));
        assert forall|j: int|
            0 <= j < st1.out.len() && is_end_kind(st1.out[j], TagKind::Body) implies j > 0
            && st1.out[j - 1] == TokM::Text(b) by {
            if j < st.out.len() {
                assert(is_end_kind(st.out[j], TagKind::Body));
                assert(st1.out[j - 1] == st.out[j - 1]);
            }
        }
    }
}

/// The AMP output's token stream, after both passes: the root is
/// marked, no `script`, `img` or `style` start tag survives, and no
/// canonical link but the injected one.
pub proof fn lemma_amp_output(
    ts: Seq<TokM>,
    ub: Seq<u8>,
    styles: Seq<Seq<u8>>,
    hi: Seq<u8>,
    bi: Option<Seq<u8>>,
)
    ensures
        ({
            let out = p2_run(p1_run(ts, ub, styles).out, hi, bi).out;
            forall|j: int|
                0 <= j < out.len() ==> {
                    &&& !is_start_kind(#[trigger] out[j], TagKind::Script)
                    &&& !is_start_kind(out[j], TagKind::Img)
                    &&& !is_start_kind(out[j], TagKind::Style)
                    &&& !is_canonical_tok(out[j])
                    &&& root_is_marked(out[j])
                }
        }),
{
    let mid = p1_run(ts, ub, styles).out;
    lemma_p1_no_script(ts, ub, styles);
    lemma_p1_no_img(ts, ub, styles);
    lemma_p1_no_canonical(ts, ub, styles);
    lemma_p1_root_marked(ts, ub, styles);
    lemma_p2_no_style(mid, hi, bi);
    lemma_p2_preserves(mid, hi, bi, |t: TokM| !is_start_kind(t, TagKind::Script));
    lemma_p2_preserves(mid, hi, bi, |t: TokM| !is_start_kind(t, TagKind::Img));
    lemma_p2_preserves(mid, hi, bi, |t: TokM| !is_canonical_tok(t));
    lemma_p2_preserves(mid, hi, bi, |t: TokM| root_is_marked(t));
}

} // verus!
