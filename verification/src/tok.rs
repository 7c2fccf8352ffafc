//! The document model: a flat stream of tokens (tags, text, other
//! markup). Every token carries the exact bytes it stands for, so
//! serializing a token stream is concatenation and an untouched token
//! reproduces its input bytes unchanged.

use vstd::prelude::*;
use vstd::string::StringSliceAdditionalSpecFns;
use vstd::slice::slice_to_vec;

verus! {

/// What a rewrite pass can fail on: a stylesheet link without an href
/// is malformed input, and the list of resolved stylesheet contents
/// must match the document's local stylesheet links one for one.
#[derive(PartialEq, Eq, Structural, Clone, Copy, Debug)]
pub enum HtmlError {
    MissingHref,
    StyleCount,
}

/// Tag names the rewrite passes decide on; every other name is `Other`.
#[derive(PartialEq, Eq, Structural, Clone, Copy, Debug)]
pub enum TagKind {
    Html,
    Head,
    Body,
    Script,
    Style,
    Link,
    Meta,
    Img,
    AmpImg,
    Other,
}

/// One attribute of a start tag; `value` is `None` for a bare name.
pub struct Attr {
    pub name: Vec<u8>,
    pub value: Option<Vec<u8>>,
}

/// Mathematical model of an attribute.
pub struct AttrM {
    pub name: Seq<u8>,
    pub value: Option<Seq<u8>>,
}

/// A start tag with its parsed fields and its raw bytes.
pub struct Tag {
    pub kind: TagKind,
    pub name: Vec<u8>,
    pub attrs: Vec<Attr>,
    pub self_closing: bool,
    pub raw: Vec<u8>,
}

/// Mathematical model of a start tag.
pub struct TagM {
    pub kind: TagKind,
    pub name: Seq<u8>,
    pub attrs: Seq<AttrM>,
    pub self_closing: bool,
    pub raw: Seq<u8>,
}

/// An end tag.
pub struct EndTag {
    pub kind: TagKind,
    pub name: Vec<u8>,
    pub raw: Vec<u8>,
}

/// Mathematical model of an end tag.
pub struct EndTagM {
    pub kind: TagKind,
    pub name: Seq<u8>,
    pub raw: Seq<u8>,
}

/// One token of a document.
pub enum Tok {
    Start(Tag),
    End(EndTag),
    Text(Vec<u8>),
    Misc(Vec<u8>),
}

/// Mathematical model of a token.
pub enum TokM {
    Start(TagM),
    End(EndTagM),
    Text(Seq<u8>),
    Misc(Seq<u8>),
}

impl View for Attr {
    type V = AttrM;

    open spec fn view(&self) -> AttrM {
        AttrM {
            name: self.name@,
            value: match self.value {
                Some(v) => Some(v@),
                None => None,
            },
        }
    }
}

impl DeepView for Attr {
    type V = AttrM;

    open spec fn deep_view(&self) -> AttrM {
        self.view()
    }
}

impl View for Tag {
    type V = TagM;

    open spec fn view(&self) -> TagM {
        TagM {
            kind: self.kind,
            name: self.name@,
            attrs: self.attrs.deep_view(),
            self_closing: self.self_closing,
            raw: self.raw@,
        }
    }
}

impl View for EndTag {
    type V = EndTagM;

    open spec fn view(&self) -> EndTagM {
        EndTagM { kind: self.kind, name: self.name@, raw: self.raw@ }
    }
}

impl View for Tok {
    type V = TokM;

    open spec fn view(&self) -> TokM {
        match self {
            Tok::Start(t) => TokM::Start(t@),
            Tok::End(e) => TokM::End(e@),
            Tok::Text(r) => TokM::Text(r@),
            Tok::Misc(r) => TokM::Misc(r@),
        }
    }
}

impl DeepView for Tok {
    type V = TokM;

    open spec fn deep_view(&self) -> TokM {
        self.view()
    }
}

/// The bytes a token stands for.
pub open spec fn tok_bytes(t: TokM) -> Seq<u8> {
    match t {
        TokM::Start(tag) => tag.raw,
        TokM::End(e) => e.raw,
        TokM::Text(r) => r,
        TokM::Misc(r) => r,
    }
}

/// Serialization of a token stream: the concatenation of its tokens' bytes.
pub open spec fn toks_bytes(ts: Seq<TokM>) -> Seq<u8>
    decreases ts.len(),
{
    if ts.len() == 0 {
        Seq::<u8>::empty()
    } else {
        tok_bytes(ts[0]) + toks_bytes(ts.drop_first())
    }
}

pub proof fn lemma_toks_bytes_push(ts: Seq<TokM>, t: TokM)
    ensures
        toks_bytes(ts.push(t)) == toks_bytes(ts) + tok_bytes(t),
    decreases ts.len(),
{
    if ts.len() == 0 {
        assert(ts.push(t)[0] == t);
        assert(ts.push(t).drop_first() =~= Seq::<TokM>::empty());
        assert(toks_bytes(ts.push(t)) == tok_bytes(t) + toks_bytes(Seq::<TokM>::empty()));
        assert(toks_bytes(ts.push(t)) =~= toks_bytes(ts) + tok_bytes(t));
    } else {
        lemma_toks_bytes_push(ts.drop_first(), t);
        assert(ts.push(t).drop_first() =~= ts.drop_first().push(t));
        assert(ts.push(t)[0] == ts[0]);
        assert(toks_bytes(ts.push(t)) == tok_bytes(ts[0]) + toks_bytes(ts.drop_first().push(t)));
        assert(toks_bytes(ts.push(t)) == tok_bytes(ts[0]) + (toks_bytes(ts.drop_first())
            + tok_bytes(t)));
        assert(toks_bytes(ts) == tok_bytes(ts[0]) + toks_bytes(ts.drop_first()));
        assert(tok_bytes(ts[0]) + (toks_bytes(ts.drop_first()) + tok_bytes(t)) =~= (tok_bytes(
            ts[0],
        ) + toks_bytes(ts.drop_first())) + tok_bytes(t));
    }
}

pub open spec fn is_start_kind(t: TokM, k: TagKind) -> bool {
    match t {
        TokM::Start(tag) => tag.kind == k,
        _ => false,
    }
}

pub open spec fn is_end_kind(t: TokM, k: TagKind) -> bool {
    match t {
        TokM::End(e) => e.kind == k,
        _ => false,
    }
}

/// The raw bytes of a text token; empty for any other token.
pub open spec fn text_raw(t: TokM) -> Seq<u8> {
    match t {
        TokM::Text(r) => r,
        _ => Seq::<u8>::empty(),
    }
}

/// The value of the first attribute named `n`: `None` when no such
/// attribute exists, `Some(None)` for a bare attribute, `Some(Some(v))`
/// for one with a value.
pub open spec fn attr_val(attrs: Seq<AttrM>, n: Seq<u8>) -> Option<Option<Seq<u8>>>
    decreases attrs.len(),
{
    if attrs.len() == 0 {
        None
    } else if attrs[0].name == n {
        Some(attrs[0].value)
    } else {
        attr_val(attrs.drop_first(), n)
    }
}

pub open spec fn has_attr(attrs: Seq<AttrM>, n: Seq<u8>) -> bool {
    attr_val(attrs, n) is Some
}

/// One attribute after the set: renamed value when the name matches.
pub open spec fn set_one(a: AttrM, n: Seq<u8>, v: Seq<u8>) -> AttrM {
    if a.name == n {
        AttrM { name: a.name, value: Some(v) }
    } else {
        a
    }
}

/// Attributes with every attribute named `n` given value `v`, and a
/// fresh `n="v"` appended when no attribute of that name was present.
pub open spec fn set_attr_spec(attrs: Seq<AttrM>, n: Seq<u8>, v: Seq<u8>) -> Seq<AttrM> {
    let replaced = Seq::new(attrs.len(), |i: int| set_one(attrs[i], n, v));
    if has_attr(attrs, n) {
        replaced
    } else {
        replaced.push(AttrM { name: n, value: Some(v) })
    }
}

pub proof fn lemma_has_attr_exists(attrs: Seq<AttrM>, n: Seq<u8>)
    ensures
        has_attr(attrs, n) <==> exists|j: int| 0 <= j < attrs.len() && attrs[j].name == n,
    decreases attrs.len(),
{
    if attrs.len() == 0 {
    } else if attrs[0].name == n {
        assert(0 <= 0 < attrs.len() && attrs[0].name == n);
    } else {
        lemma_has_attr_exists(attrs.drop_first(), n);
        assert(attr_val(attrs, n) == attr_val(attrs.drop_first(), n));
        if has_attr(attrs, n) {
            let j = choose|j: int|
                0 <= j < attrs.drop_first().len() && attrs.drop_first()[j].name == n;
            assert(attrs[j + 1].name == n);
        }
        if exists|j: int| 0 <= j < attrs.len() && attrs[j].name == n {
            let j = choose|j: int| 0 <= j < attrs.len() && attrs[j].name == n;
            assert(j != 0);
            assert(attrs.drop_first()[j - 1].name == n);
        }
    }
}

pub proof fn lemma_set_attr_has(attrs: Seq<AttrM>, n: Seq<u8>, v: Seq<u8>)
    ensures
        attr_val(set_attr_spec(attrs, n, v), n) == Some(Some(v)),
    decreases attrs.len(),
{
    let r = set_attr_spec(attrs, n, v);
    if attrs.len() == 0 {
        assert(r =~= seq![AttrM { name: n, value: Some(v) }]);
        assert(attr_val(r, n) == Some(r[0].value));
    } else if attrs[0].name == n {
        assert(has_attr(attrs, n));
        assert(r[0] == set_one(attrs[0], n, v));
        assert(r[0].name == n && r[0].value == Some(v));
        assert(attr_val(r, n) == Some(r[0].value));
    } else {
        lemma_set_attr_has(attrs.drop_first(), n, v);
        let rr = set_attr_spec(attrs.drop_first(), n, v);
        assert(attr_val(attrs, n) == attr_val(attrs.drop_first(), n));
        assert(r.drop_first() =~= rr) by {
            if has_attr(attrs, n) {
                assert forall|j: int| 0 <= j < rr.len() implies r.drop_first()[j] == rr[j] by {
                    assert(r[j + 1] == set_one(attrs[j + 1], n, v));
                    assert(attrs.drop_first()[j] == attrs[j + 1]);
                    assert(rr[j] == set_one(attrs.drop_first()[j], n, v));
                }
            } else {
                assert forall|j: int| 0 <= j < rr.len() implies r.drop_first()[j] == rr[j] by {
                    if j < attrs.len() - 1 {
                        assert(r[j + 1] == set_one(attrs[j + 1], n, v));
                        assert(attrs.drop_first()[j] == attrs[j + 1]);
                        assert(rr[j] == set_one(attrs.drop_first()[j], n, v));
                    } else {
                        assert(r[j + 1] == AttrM { name: n, value: Some(v) });
                        assert(rr[j] == AttrM { name: n, value: Some(v) });
                    }
                }
            }
        }
        assert(r[0] == set_one(attrs[0], n, v));
        assert(r[0].name == attrs[0].name);
        assert(attr_val(r, n) == attr_val(r.drop_first(), n));
    }
}

/// Rendering of a rebuilt attribute: space, name, and `="value"` when
/// a value is present.
pub open spec fn render_attr(a: AttrM) -> Seq<u8> {
    seq![32u8] + a.name + (match a.value {
        Some(v) => seq![61u8, 34u8] + v + seq![34u8],
        None => Seq::<u8>::empty(),
    })
}

pub open spec fn render_attrs(attrs: Seq<AttrM>) -> Seq<u8>
    decreases attrs.len(),
{
    if attrs.len() == 0 {
        Seq::<u8>::empty()
    } else {
        render_attr(attrs[0]) + render_attrs(attrs.drop_first())
    }
}

pub proof fn lemma_render_attrs_push(attrs: Seq<AttrM>, a: AttrM)
    ensures
        render_attrs(attrs.push(a)) == render_attrs(attrs) + render_attr(a),
    decreases attrs.len(),
{
    if attrs.len() == 0 {
        assert(attrs.push(a)[0] == a);
        assert(attrs.push(a).drop_first() =~= Seq::<AttrM>::empty());
        assert(render_attrs(attrs.push(a)) == render_attr(a) + render_attrs(
            Seq::<AttrM>::empty(),
        ));
        assert(render_attrs(attrs.push(a)) =~= render_attrs(attrs) + render_attr(a));
    } else {
        lemma_render_attrs_push(attrs.drop_first(), a);
        assert(attrs.push(a).drop_first() =~= attrs.drop_first().push(a));
        assert(attrs.push(a)[0] == attrs[0]);
        assert(render_attrs(attrs.push(a)) == render_attr(attrs[0]) + render_attrs(
            attrs.drop_first().push(a),
        ));
        assert(render_attrs(attrs.push(a)) == render_attr(attrs[0]) + (render_attrs(
            attrs.drop_first(),
        ) + render_attr(a)));
        assert(render_attrs(attrs) == render_attr(attrs[0]) + render_attrs(attrs.drop_first()));
        assert(render_attr(attrs[0]) + (render_attrs(attrs.drop_first()) + render_attr(a)) =~= (
        render_attr(attrs[0]) + render_attrs(attrs.drop_first())) + render_attr(a));
    }
}

/// Rendering of a rebuilt start tag from its parsed fields.
pub open spec fn render_start(name: Seq<u8>, attrs: Seq<AttrM>, self_closing: bool) -> Seq<u8> {
    seq![60u8] + name + render_attrs(attrs) + (if self_closing {
        seq![47u8, 62u8]
    } else {
        seq![62u8]
    })
}

pub open spec fn starts_with_spec(s: Seq<u8>, p: Seq<u8>) -> bool {
    p.len() <= s.len() && s.subrange(0, p.len() as int) == p
}

pub fn bytes_eq(a: &[u8], b: &[u8]) -> (r: bool)
    ensures
        r == (a@ == b@),
{
    if a.len() != b.len() {
        assert(a@ != b@) by {
            assert(a@.len() != b@.len());
        }
        return false;
    }
    let mut i: usize = 0;
    while i < a.len()
        invariant
            i <= a.len(),
            a.len() == b.len(),
            forall|j: int| 0 <= j < i ==> a@[j] == b@[j],
        decreases a.len() - i,
    {
        if a[i] != b[i] {
            return false;
        }
        i += 1;
    }
    proof {
        assert(a@ =~= b@);
    }
    true
}

pub fn bytes_starts_with(s: &[u8], p: &[u8]) -> (r: bool)
    ensures
        r == starts_with_spec(s@, p@),
{
    if p.len() > s.len() {
        return false;
    }
    let mut i: usize = 0;
    while i < p.len()
        invariant
            i <= p.len(),
            p.len() <= s.len(),
            forall|j: int| 0 <= j < i ==> s@[j] == p@[j],
        decreases p.len() - i,
    {
        if s[i] != p[i] {
            proof {
                let sub = s@.subrange(0, p@.len() as int);
                assert(sub[i as int] == s@[i as int]);
            }
            return false;
        }
        i += 1;
    }
    proof {
        assert(s@.subrange(0, p@.len() as int) =~= p@);
    }
    true
}

pub fn copy_bytes(v: &[u8]) -> (r: Vec<u8>)
    ensures
        r@ == v@,
{
    slice_to_vec(v)
}

pub fn dup_attr(a: &Attr) -> (r: Attr)
    ensures
        r@ == a@,
{
    let value = match &a.value {
        Some(v) => Some(copy_bytes(v.as_slice())),
        None => None,
    };
    Attr { name: copy_bytes(a.name.as_slice()), value }
}

pub fn dup_attrs(attrs: &Vec<Attr>) -> (r: Vec<Attr>)
    ensures
        r.deep_view() == attrs.deep_view(),
{
    let mut out: Vec<Attr> = Vec::new();
    let mut i: usize = 0;
    while i < attrs.len()
        invariant
            i <= attrs.len(),
            out.len() == i,
            forall|j: int| 0 <= j < i ==> out@[j]@ == attrs@[j]@,
        decreases attrs.len() - i,
    {
        out.push(dup_attr(&attrs[i]));
        i += 1;
    }
    proof {
        assert forall|j: int| 0 <= j < attrs@.len() implies out.deep_view()[j]
            == attrs.deep_view()[j] by {
            assert(out@[j]@ == attrs@[j]@);
        }
        assert(out.deep_view() =~= attrs.deep_view());
    }
    out
}

pub fn dup_tok(t: &Tok) -> (r: Tok)
    ensures
        r@ == t@,
{
    match t {
        Tok::Start(tag) => Tok::Start(
            Tag {
                kind: tag.kind,
                name: copy_bytes(tag.name.as_slice()),
                attrs: dup_attrs(&tag.attrs),
                self_closing: tag.self_closing,
                raw: copy_bytes(tag.raw.as_slice()),
            },
        ),
        Tok::End(e) => Tok::End(
            EndTag {
                kind: e.kind,
                name: copy_bytes(e.name.as_slice()),
                raw: copy_bytes(e.raw.as_slice()),
            },
        ),
        Tok::Text(r) => Tok::Text(copy_bytes(r.as_slice())),
        Tok::Misc(r) => Tok::Misc(copy_bytes(r.as_slice())),
    }
}

/// The value of the first attribute named `n`, duplicated.
pub fn find_attr(attrs: &Vec<Attr>, n: &[u8]) -> (r: Option<Option<Vec<u8>>>)
    ensures
        match (r, attr_val(attrs.deep_view(), n@)) {
            (None, None) => true,
            (Some(None), Some(None)) => true,
            (Some(Some(v)), Some(Some(s))) => v@ == s,
            _ => false,
        },
{
    let ghost am = attrs.deep_view();
    proof {
        assert(am.skip(0) =~= am);
    }
    let mut i: usize = 0;
    while i < attrs.len()
        invariant
            i <= attrs.len(),
            am == attrs.deep_view(),
            attr_val(am, n@) == attr_val(am.skip(i as int), n@),
            forall|j: int| 0 <= j < i ==> am[j].name != n@,
        decreases attrs.len() - i,
    {
        if bytes_eq(attrs[i].name.as_slice(), n) {
            proof {
                assert(am.skip(i as int)[0] == am[i as int]);
                assert(attr_val(am.skip(i as int), n@) == Some(am[i as int].value));
            }
            return match &attrs[i].value {
                Some(v) => Some(Some(copy_bytes(v.as_slice()))),
                None => Some(None),
            };
        }
        proof {
            assert(am.skip(i as int)[0] == am[i as int]);
            assert(am.skip(i as int).drop_first() =~= am.skip(i as int + 1));
        }
        i += 1;
    }
    proof {
        assert(am.skip(i as int) =~= Seq::<AttrM>::empty());
    }
    None
}

/// Attributes with every attribute named `n` set to `v`, appending a
/// fresh one when none was present.
pub fn set_attr(attrs: &Vec<Attr>, n: &[u8], v: &[u8]) -> (r: Vec<Attr>)
    ensures
        r.deep_view() == set_attr_spec(attrs.deep_view(), n@, v@),
{
    let ghost am = attrs.deep_view();
    let mut out: Vec<Attr> = Vec::new();
    let mut found: bool = false;
    let mut i: usize = 0;
    while i < attrs.len()
        invariant
            i <= attrs.len(),
            am == attrs.deep_view(),
            out.len() == i,
            forall|j: int| 0 <= j < i ==> out@[j]@ == set_one(am[j], n@, v@),
            found == exists|j: int| 0 <= j < i && am[j].name == n@,
        decreases attrs.len() - i,
    {
        let ghost was_found = found;
        if bytes_eq(attrs[i].name.as_slice(), n) {
            out.push(
                Attr { name: copy_bytes(attrs[i].name.as_slice()), value: Some(copy_bytes(v)) },
            );
            found = true;
            proof {
                assert(am[i as int].name == n@);
                assert(out@[i as int]@ == set_one(am[i as int], n@, v@));
            }
        } else {
            out.push(dup_attr(&attrs[i]));
            proof {
                assert(am[i as int].name != n@);
                if !was_found {
                    assert(!(exists|j: int| 0 <= j < i + 1 && am[j].name == n@)) by {
                        if exists|j: int| 0 <= j < i + 1 && am[j].name == n@ {
                            let j = choose|j: int| 0 <= j < i + 1 && am[j].name == n@;
                            assert(j < i || j == i);
                        }
                    }
                }
            }
        }
        i += 1;
    }
    proof {
        lemma_has_attr_exists(am, n@);
    }
    if !found {
        out.push(Attr { name: copy_bytes(n), value: Some(copy_bytes(v)) });
    }
    proof {
        let r = set_attr_spec(am, n@, v@);
        assert forall|j: int| 0 <= j < out@.len() implies out.deep_view()[j] == r[j] by {
            if j < am.len() {
                assert(out@[j]@ == set_one(am[j], n@, v@));
            } else {
                assert(out@[j]@ == AttrM { name: n@, value: Some(v@) });
            }
        }
        assert(out.deep_view() =~= r);
    }
    out
}

/// Renders a rebuilt start tag from its parsed fields.
pub fn render_start_exec(name: &Vec<u8>, attrs: &Vec<Attr>, self_closing: bool) -> (r: Vec<u8>)
    ensures
        r@ == render_start(name@, attrs.deep_view(), self_closing),
{
    let ghost am = attrs.deep_view();
    let mut out: Vec<u8> = Vec::new();
    out.push(60);
    out.extend_from_slice(name.as_slice());
    let ghost base = seq![60u8] + name@;
    proof {
        assert(out@ =~= base);
        assert(am.subrange(0, 0) =~= Seq::<AttrM>::empty());
        assert(out@ + render_attrs(am.subrange(0, 0)) =~= out@);
    }
    let mut i: usize = 0;
    while i < attrs.len()
        invariant
            i <= attrs.len(),
            am == attrs.deep_view(),
            out@ == base + render_attrs(am.subrange(0, i as int)),
        decreases attrs.len() - i,
    {
        let ghost pre = out@;
        let a = &attrs[i];
        out.push(32);
        out.extend_from_slice(a.name.as_slice());
        match &a.value {
            Some(v) => {
                out.push(61);
                out.push(34);
                out.extend_from_slice(v.as_slice());
                out.push(34);
            },
            None => {},
        }
        proof {
            assert(am[i as int] == attrs@[i as int]@);
            assert(out@ =~= pre + render_attr(am[i as int]));
            assert(am.subrange(0, i as int + 1) =~= am.subrange(0, i as int).push(am[i as int]));
            lemma_render_attrs_push(am.subrange(0, i as int), am[i as int]);
            assert(out@ =~= base + render_attrs(am.subrange(0, i as int + 1)));
        }
        i += 1;
    }
    proof {
        assert(am.subrange(0, attrs.len() as int) =~= am);
    }
    if self_closing {
        out.push(47);
        out.push(62);
    } else {
        out.push(62);
    }
    proof {
        assert(out@ =~= render_start(name@, am, self_closing));
    }
    out
}

/// Serializes a token stream: the concatenation of its tokens' bytes.
pub fn serialize(ts: &Vec<Tok>) -> (r: Vec<u8>)
    ensures
        r@ == toks_bytes(ts.deep_view()),
{
    let ghost tm = ts.deep_view();
    let mut out: Vec<u8> = Vec::new();
    let mut i: usize = 0;
    while i < ts.len()
        invariant
            i <= ts.len(),
            tm == ts.deep_view(),
            out@ == toks_bytes(tm.subrange(0, i as int)),
        decreases ts.len() - i,
    {
        let ghost pre = tm.subrange(0, i as int);
        match &ts[i] {
            Tok::Start(tag) => out.extend_from_slice(tag.raw.as_slice()),
            Tok::End(e) => out.extend_from_slice(e.raw.as_slice()),
            Tok::Text(r) => out.extend_from_slice(r.as_slice()),
            Tok::Misc(r) => out.extend_from_slice(r.as_slice()),
        }
        proof {
            assert(tm.subrange(0, i as int + 1) =~= pre.push(tm[i as int]));
            lemma_toks_bytes_push(pre, tm[i as int]);
            assert(out@ == toks_bytes(tm.subrange(0, i as int + 1)));
        }
        i += 1;
    }
    proof {
        assert(tm.subrange(0, ts.len() as int) =~= tm);
    }
    out
}

} // verus!
