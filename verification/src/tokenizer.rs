//! Splits a document into tokens. `tokenize_spec` is the mathematical
//! tokenization; `tokenize` returns exactly it, and concatenating the
//! tokens' bytes gives back the input unchanged, so a pass that keeps
//! a token keeps its bytes.
//!
//! Tag and attribute names are parsed (lowercased) for the passes to
//! decide on; `script` and `style` content is kept as one text token,
//! as their content never holds markup.

use vstd::prelude::*;
use crate::tok::{
    Attr, AttrM, EndTag, EndTagM, Tag, TagKind, TagM, Tok, TokM, bytes_eq, copy_bytes,
    lemma_toks_bytes_push, tok_bytes, toks_bytes,
};
use vstd::string::StringSliceAdditionalSpecFns;

verus! {

pub fn subrange_vec(v: &Vec<u8>, a: usize, b: usize) -> (r: Vec<u8>)
    requires
        a <= b,
        b <= v@.len(),
    ensures
        r@ == v@.subrange(a as int, b as int),
{
    let s: &[u8] = v.as_slice();
    let sub: &[u8] = &s[a..b];
    copy_bytes(sub)
}

/// Appends a token, at the model level a `push`.
pub fn push_tok(ts: &mut Vec<Tok>, t: Tok)
    ensures
        final(ts).deep_view() == old(ts).deep_view().push(t@),
{
    let ghost pre = ts.deep_view();
    let ghost tm = t@;
    ts.push(t);
    proof {
        assert forall|j: int| 0 <= j < ts.deep_view().len() implies ts.deep_view()[j] == pre.push(
            tm,
        )[j] by {
            if j < pre.len() {
                assert(ts@[j] == old(ts)@[j]);
            }
        }
        assert(ts.deep_view() =~= pre.push(tm));
    }
}

fn push_attr(attrs: &mut Vec<Attr>, a: Attr)
    ensures
        final(attrs).deep_view() == old(attrs).deep_view().push(a@),
{
    let ghost pre = attrs.deep_view();
    let ghost am = a@;
    attrs.push(a);
    proof {
        assert forall|j: int| 0 <= j < attrs.deep_view().len() implies attrs.deep_view()[j]
            == pre.push(am)[j] by {
            if j < pre.len() {
                assert(attrs@[j] == old(attrs)@[j]);
            }
        }
        assert(attrs.deep_view() =~= pre.push(am));
    }
}

pub open spec fn is_ws_spec(b: u8) -> bool {
    b == 32 || b == 9 || b == 10 || b == 13 || b == 12
}

pub open spec fn is_alpha_spec(b: u8) -> bool {
    (65 <= b && b <= 90) || (97 <= b && b <= 122)
}

pub open spec fn is_name_byte_spec(b: u8) -> bool {
    (65 <= b && b <= 90) || (97 <= b && b <= 122) || (48 <= b && b <= 57) || b == 45 || b == 95
        || b == 58
}

pub open spec fn to_lower_spec(b: u8) -> u8 {
    if 65 <= b && b <= 90 {
        (b + 32) as u8
    } else {
        b
    }
}

/// The byte sequence, lowercased.
pub open spec fn lower_seq(s: Seq<u8>) -> Seq<u8> {
    Seq::new(s.len(), |i: int| to_lower_spec(s[i]))
}

fn is_ws(b: u8) -> (r: bool)
    ensures
        r == is_ws_spec(b),
{
    b == 32 || b == 9 || b == 10 || b == 13 || b == 12
}

fn is_alpha(b: u8) -> (r: bool)
    ensures
        r == is_alpha_spec(b),
{
    (65 <= b && b <= 90) || (97 <= b && b <= 122)
}

fn is_name_byte(b: u8) -> (r: bool)
    ensures
        r == is_name_byte_spec(b),
{
    (65 <= b && b <= 90) || (97 <= b && b <= 122) || (48 <= b && b <= 57) || b == 45 || b == 95
        || b == 58
}

fn to_lower(b: u8) -> (r: u8)
    ensures
        r == to_lower_spec(b),
{
    if 65 <= b && b <= 90 {
        b + 32
    } else {
        b
    }
}

/// Lowercased copy of `v[a..b]`.
fn lower_sub(v: &Vec<u8>, a: usize, b: usize) -> (r: Vec<u8>)
    requires
        a <= b,
        b <= v@.len(),
    ensures
        r@ == lower_seq(v@.subrange(a as int, b as int)),
{
    let ghost sub = v@.subrange(a as int, b as int);
    let mut out: Vec<u8> = Vec::new();
    let mut i: usize = a;
    while i < b
        invariant
            a <= i <= b,
            b <= v@.len(),
            sub == v@.subrange(a as int, b as int),
            out@.len() == i - a,
            forall|j: int| 0 <= j < i - a ==> out@[j] == to_lower_spec(sub[j]),
        decreases b - i,
    {
        out.push(to_lower(v[i]));
        i += 1;
    }
    proof {
        assert(out@ =~= lower_seq(sub));
    }
    out
}

/// The tag kind a lowercased name stands for.
pub open spec fn classify_spec(name: Seq<u8>) -> TagKind {
    if name == "html".spec_bytes() {
        TagKind::Html
    } else if name == "head".spec_bytes() {
        TagKind::Head
    } else if name == "body".spec_bytes() {
        TagKind::Body
    } else if name == "script".spec_bytes() {
        TagKind::Script
    } else if name == "style".spec_bytes() {
        TagKind::Style
    } else if name == "link".spec_bytes() {
        TagKind::Link
    } else if name == "meta".spec_bytes() {
        TagKind::Meta
    } else if name == "img".spec_bytes() {
        TagKind::Img
    } else if name == "amp-img".spec_bytes() {
        TagKind::AmpImg
    } else {
        TagKind::Other
    }
}

fn classify(name: &[u8]) -> (r: TagKind)
    ensures
        r == classify_spec(name@),
{
    if bytes_eq(name, "html".as_bytes()) {
        TagKind::Html
    } else if bytes_eq(name, "head".as_bytes()) {
        TagKind::Head
    } else if bytes_eq(name, "body".as_bytes()) {
        TagKind::Body
    } else if bytes_eq(name, "script".as_bytes()) {
        TagKind::Script
    } else if bytes_eq(name, "style".as_bytes()) {
        TagKind::Style
    } else if bytes_eq(name, "link".as_bytes()) {
        TagKind::Link
    } else if bytes_eq(name, "meta".as_bytes()) {
        TagKind::Meta
    } else if bytes_eq(name, "img".as_bytes()) {
        TagKind::Img
    } else if bytes_eq(name, "amp-img".as_bytes()) {
        TagKind::AmpImg
    } else {
        TagKind::Other
    }
}

/// Position of the next `<` at or after `from`, or the length.
pub open spec fn find_lt_spec(s: Seq<u8>, from: int) -> int
    decreases s.len() - from,
{
    if from >= s.len() {
        s.len() as int
    } else if s[from] == 60 {
        from
    } else {
        find_lt_spec(s, from + 1)
    }
}

fn find_lt(v: &Vec<u8>, from: usize) -> (r: usize)
    requires
        from <= v@.len(),
    ensures
        from <= r <= v@.len(),
        r as int == find_lt_spec(v@, from as int),
{
    let n = v.len();
    let mut i: usize = from;
    while i < n
        invariant
            from <= i <= n,
            n == v@.len(),
            find_lt_spec(v@, from as int) == find_lt_spec(v@, i as int),
        decreases n - i,
    {
        if v[i] == 60 {
            return i;
        }
        i += 1;
    }
    i
}

/// Position after the next `>` at or after `from`, or the length.
pub open spec fn find_gt_end_spec(s: Seq<u8>, from: int) -> int
    decreases s.len() - from,
{
    if from >= s.len() {
        s.len() as int
    } else if s[from] == 62 {
        from + 1
    } else {
        find_gt_end_spec(s, from + 1)
    }
}

fn find_gt_end(v: &Vec<u8>, from: usize) -> (r: usize)
    requires
        from <= v@.len(),
    ensures
        from <= r <= v@.len(),
        r as int == find_gt_end_spec(v@, from as int),
{
    let n = v.len();
    let mut i: usize = from;
    while i < n
        invariant
            from <= i <= n,
            n == v@.len(),
            find_gt_end_spec(v@, from as int) == find_gt_end_spec(v@, i as int),
        decreases n - i,
    {
        if v[i] == 62 {
            return i + 1;
        }
        i += 1;
    }
    i
}

/// Position after the next `-->` at or after `from`, or the length.
pub open spec fn find_comment_end_spec(s: Seq<u8>, from: int) -> int
    decreases s.len() - from,
{
    if from >= s.len() {
        s.len() as int
    } else if s[from] == 45 && from + 1 < s.len() && s[from + 1] == 45 && from + 2 < s.len() && s[
        from + 2
    ] == 62 {
        from + 3
    } else {
        find_comment_end_spec(s, from + 1)
    }
}

fn find_comment_end(v: &Vec<u8>, from: usize) -> (r: usize)
    requires
        from <= v@.len(),
    ensures
        from <= r <= v@.len(),
        r as int == find_comment_end_spec(v@, from as int),
{
    let n = v.len();
    let mut i: usize = from;
    while i < n
        invariant
            from <= i <= n,
            n == v@.len(),
            find_comment_end_spec(v@, from as int) == find_comment_end_spec(v@, i as int),
        decreases n - i,
    {
        if v[i] == 45 && i + 1 < n && v[i + 1] == 45 && i + 2 < n && v[i + 2] == 62 {
            return i + 3;
        }
        i += 1;
    }
    n
}

/// Position of the next byte `b` at or after `from`, or the length.
pub open spec fn find_byte_spec(s: Seq<u8>, from: int, b: u8) -> int
    decreases s.len() - from,
{
    if from >= s.len() {
        s.len() as int
    } else if s[from] == b {
        from
    } else {
        find_byte_spec(s, from + 1, b)
    }
}

fn find_byte(v: &Vec<u8>, from: usize, b: u8) -> (r: usize)
    requires
        from <= v@.len(),
    ensures
        from <= r <= v@.len(),
        r as int == find_byte_spec(v@, from as int, b),
{
    let n = v.len();
    let mut i: usize = from;
    while i < n
        invariant
            from <= i <= n,
            n == v@.len(),
            find_byte_spec(v@, from as int, b) == find_byte_spec(v@, i as int, b),
        decreases n - i,
    {
        if v[i] == b {
            return i;
        }
        i += 1;
    }
    i
}

/// Position of the first non-whitespace byte at or after `from`.
pub open spec fn skip_ws_spec(s: Seq<u8>, from: int) -> int
    decreases s.len() - from,
{
    if from >= s.len() {
        s.len() as int
    } else if is_ws_spec(s[from]) {
        skip_ws_spec(s, from + 1)
    } else {
        from
    }
}

fn skip_ws(v: &Vec<u8>, from: usize) -> (r: usize)
    requires
        from <= v@.len(),
    ensures
        from <= r <= v@.len(),
        r as int == skip_ws_spec(v@, from as int),
{
    let n = v.len();
    let mut i: usize = from;
    while i < n
        invariant
            from <= i <= n,
            n == v@.len(),
            skip_ws_spec(v@, from as int) == skip_ws_spec(v@, i as int),
        decreases n - i,
    {
        if !is_ws(v[i]) {
            return i;
        }
        i += 1;
    }
    i
}

/// End of a tag name: the first byte that is no name byte.
pub open spec fn scan_name_spec(s: Seq<u8>, from: int) -> int
    decreases s.len() - from,
{
    if from >= s.len() {
        s.len() as int
    } else if is_name_byte_spec(s[from]) {
        scan_name_spec(s, from + 1)
    } else {
        from
    }
}

fn scan_name_end(v: &Vec<u8>, from: usize) -> (r: usize)
    requires
        from <= v@.len(),
    ensures
        from <= r <= v@.len(),
        r as int == scan_name_spec(v@, from as int),
{
    let n = v.len();
    let mut i: usize = from;
    while i < n
        invariant
            from <= i <= n,
            n == v@.len(),
            scan_name_spec(v@, from as int) == scan_name_spec(v@, i as int),
        decreases n - i,
    {
        if !is_name_byte(v[i]) {
            return i;
        }
        i += 1;
    }
    i
}

/// End of an attribute name: everything up to whitespace, `=`, `>` or `/`.
pub open spec fn scan_attr_name_spec(s: Seq<u8>, from: int) -> int
    decreases s.len() - from,
{
    if from >= s.len() {
        s.len() as int
    } else if is_ws_spec(s[from]) || s[from] == 61 || s[from] == 62 || s[from] == 47 {
        from
    } else {
        scan_attr_name_spec(s, from + 1)
    }
}

fn scan_attr_name_end(v: &Vec<u8>, from: usize) -> (r: usize)
    requires
        from <= v@.len(),
    ensures
        from <= r <= v@.len(),
        r as int == scan_attr_name_spec(v@, from as int),
{
    let n = v.len();
    let mut i: usize = from;
    while i < n
        invariant
            from <= i <= n,
            n == v@.len(),
            scan_attr_name_spec(v@, from as int) == scan_attr_name_spec(v@, i as int),
        decreases n - i,
    {
        let b = v[i];
        if is_ws(b) || b == 61 || b == 62 || b == 47 {
            return i;
        }
        i += 1;
    }
    i
}

/// End of an unquoted attribute value: everything up to whitespace or `>`.
pub open spec fn scan_unquoted_spec(s: Seq<u8>, from: int) -> int
    decreases s.len() - from,
{
    if from >= s.len() {
        s.len() as int
    } else if is_ws_spec(s[from]) || s[from] == 62 {
        from
    } else {
        scan_unquoted_spec(s, from + 1)
    }
}

fn scan_unquoted_end(v: &Vec<u8>, from: usize) -> (r: usize)
    requires
        from <= v@.len(),
    ensures
        from <= r <= v@.len(),
        r as int == scan_unquoted_spec(v@, from as int),
{
    let n = v.len();
    let mut i: usize = from;
    while i < n
        invariant
            from <= i <= n,
            n == v@.len(),
            scan_unquoted_spec(v@, from as int) == scan_unquoted_spec(v@, i as int),
        decreases n - i,
    {
        let b = v[i];
        if is_ws(b) || b == 62 {
            return i;
        }
        i += 1;
    }
    i
}

/// The next scan position, clamped so that it advances and stays in
/// range: what the attribute loop steps by.
pub open spec fn clamp_pos(s: Seq<u8>, x: int, p: int) -> int {
    let a = if x > p + 1 {
        x
    } else {
        p + 1
    };
    if a > s.len() {
        s.len() as int
    } else {
        a
    }
}

/// Result of scanning a start tag's attribute list from a position:
/// the attributes, the self-closing flag, whether the tag ever closed
/// with `>`, and the position after it.
pub struct ALoop {
    pub attrs: Seq<AttrM>,
    pub self_closing: bool,
    pub closed: bool,
    pub end: int,
}

/// Scans a start tag's attribute list from `p`.
pub open spec fn attrs_loop(s: Seq<u8>, p: int) -> ALoop
    decreases s.len() - p,
{
    if p >= s.len() {
        ALoop { attrs: Seq::<AttrM>::empty(), self_closing: false, closed: false, end: s.len() as int }
    } else {
        let p0 = skip_ws_spec(s, p);
        if p0 >= s.len() {
            ALoop {
                attrs: Seq::<AttrM>::empty(),
                self_closing: false,
                closed: false,
                end: s.len() as int,
            }
        } else if s[p0] == 62 {
            ALoop { attrs: Seq::<AttrM>::empty(), self_closing: false, closed: true, end: p0 + 1 }
        } else if s[p0] == 47 && p0 + 1 < s.len() && s[p0 + 1] == 62 {
            ALoop { attrs: Seq::<AttrM>::empty(), self_closing: true, closed: true, end: p0 + 2 }
        } else if s[p0] == 47 {
            attrs_loop(s, clamp_pos(s, p0 + 1, p))
        } else {
            let q = scan_attr_name_spec(s, p0);
            let aname = lower_seq(s.subrange(p0, q));
            let p1 = skip_ws_spec(s, q);
            if p1 < s.len() && s[p1] == 61 {
                let p2 = skip_ws_spec(s, p1 + 1);
                if p2 < s.len() && (s[p2] == 34 || s[p2] == 39) {
                    let p3 = find_byte_spec(s, p2 + 1, s[p2]);
                    if p3 >= s.len() {
                        ALoop {
                            attrs: Seq::<AttrM>::empty(),
                            self_closing: false,
                            closed: false,
                            end: s.len() as int,
                        }
                    } else {
                        let a = AttrM { name: aname, value: Some(s.subrange(p2 + 1, p3)) };
                        let rest = attrs_loop(s, clamp_pos(s, p3 + 1, p));
                        ALoop {
                            attrs: seq![a] + rest.attrs,
                            self_closing: rest.self_closing,
                            closed: rest.closed,
                            end: rest.end,
                        }
                    }
                } else {
                    let p3 = scan_unquoted_spec(s, p2);
                    let a = AttrM { name: aname, value: Some(s.subrange(p2, p3)) };
                    let nxt = if p3 > p2 {
                        p3
                    } else {
                        p2
                    };
                    let rest = attrs_loop(s, clamp_pos(s, nxt, p));
                    ALoop {
                        attrs: seq![a] + rest.attrs,
                        self_closing: rest.self_closing,
                        closed: rest.closed,
                        end: rest.end,
                    }
                }
            } else {
                let a = AttrM { name: aname, value: None };
                let nxt = if q > p0 {
                    q
                } else {
                    p0 + 1
                };
                let rest = attrs_loop(s, clamp_pos(s, nxt, p));
                ALoop {
                    attrs: seq![a] + rest.attrs,
                    self_closing: rest.self_closing,
                    closed: rest.closed,
                    end: rest.end,
                }
            }
        }
    }
}

/// The start tag beginning at `i` (where `s[i]` is `<` and an ASCII
/// letter follows): `None` when the tag never closes.
pub open spec fn parse_start_spec(s: Seq<u8>, i: int) -> Option<(TokM, int)> {
    let k = scan_name_spec(s, i + 1);
    let name = lower_seq(s.subrange(i + 1, k));
    let al = attrs_loop(s, k);
    if al.closed {
        Some(
            (
                TokM::Start(
                    TagM {
                        kind: classify_spec(name),
                        name,
                        attrs: al.attrs,
                        self_closing: al.self_closing,
                        raw: s.subrange(i, al.end),
                    },
                ),
                al.end,
            ),
        )
    } else {
        None
    }
}

/// Parses a start tag beginning at `i`; `None` when the tag never closes.
fn parse_start_tag(v: &Vec<u8>, i: usize) -> (r: Option<(Tok, usize)>)
    requires
        i + 1 < v@.len(),
    ensures
        match r {
            Some((t, j)) => i < j && j <= v@.len() && tok_bytes(t@) == v@.subrange(
                i as int,
                j as int,
            ) && parse_start_spec(v@, i as int) == Some((t@, j as int)),
            None => parse_start_spec(v@, i as int) is None,
        },
{
    let ghost s = v@;
    let n = v.len();
    let k = scan_name_end(v, i + 1);
    let name = lower_sub(v, i + 1, k);
    let kind = classify(name.as_slice());
    let mut attrs: Vec<Attr> = Vec::new();
    let mut p: usize = k;
    let mut self_closing: bool = false;
    let mut closed: bool = false;
    while p < v.len() && !closed
        invariant
            i < p,
            p <= v@.len(),
            s == v@,
            n == v@.len(),
            i + 1 <= k <= v@.len(),
            k as int == scan_name_spec(s, i as int + 1),
            closed ==> attrs_loop(s, k as int) == (ALoop {
                attrs: attrs.deep_view(),
                self_closing,
                closed: true,
                end: p as int,
            }),
            !closed ==> {
                &&& !self_closing
                &&& attrs_loop(s, k as int) == (ALoop {
                    attrs: attrs.deep_view() + attrs_loop(s, p as int).attrs,
                    self_closing: attrs_loop(s, p as int).self_closing,
                    closed: attrs_loop(s, p as int).closed,
                    end: attrs_loop(s, p as int).end,
                })
            },
        decreases v@.len() - p,
    {
        let ghost acc = attrs.deep_view();
        let ghost rest = attrs_loop(s, p as int);
        let p0 = skip_ws(v, p);
        if p0 >= v.len() {
            proof {
                assert(attrs_loop(s, p as int) == ALoop {
                    attrs: Seq::<AttrM>::empty(),
                    self_closing: false,
                    closed: false,
                    end: s.len() as int,
                });
                assert(acc + Seq::<AttrM>::empty() =~= acc);
            }
            p = v.len();
        } else if v[p0] == 62 {
            proof {
                assert(acc + Seq::<AttrM>::empty() =~= acc);
            }
            p = p0 + 1;
            closed = true;
        } else if v[p0] == 47 {
            if p0 + 1 < v.len() && v[p0 + 1] == 62 {
                proof {
                    assert(acc + Seq::<AttrM>::empty() =~= acc);
                }
                p = p0 + 2;
                closed = true;
                self_closing = true;
            } else {
                proof {
                    assert(clamp_pos(s, p0 as int + 1, p as int) == p0 as int + 1);
                }
                p = p0 + 1;
            }
        } else {
            let q = scan_attr_name_end(v, p0);
            let aname = lower_sub(v, p0, q);
            let p1 = skip_ws(v, q);
            if p1 < v.len() && v[p1] == 61 {
                let p2 = skip_ws(v, p1 + 1);
                if p2 < v.len() && (v[p2] == 34 || v[p2] == 39) {
                    let quote = v[p2];
                    let p3 = find_byte(v, p2 + 1, quote);
                    if p3 >= v.len() {
                        proof {
                            assert(!attrs_loop(s, p as int).closed);
                            assert(!attrs_loop(s, k as int).closed);
                        }
                        return None;
                    }
                    let value = subrange_vec(v, p2 + 1, p3);
                    let ghost am = AttrM { name: aname@, value: Some(value@) };
                    push_attr(&mut attrs, Attr { name: aname, value: Some(value) });
                    proof {
                        assert(clamp_pos(s, p3 as int + 1, p as int) == p3 as int + 1);
                        let nrest = attrs_loop(s, p3 as int + 1);
                        assert(rest.attrs == seq![am] + nrest.attrs);
                        assert(acc + (seq![am] + nrest.attrs) =~= acc.push(am) + nrest.attrs);
                    }
                    p = p3 + 1;
                } else {
                    let p3 = scan_unquoted_end(v, p2);
                    let value = subrange_vec(v, p2, p3);
                    let ghost am = AttrM { name: aname@, value: Some(value@) };
                    push_attr(&mut attrs, Attr { name: aname, value: Some(value) });
                    let nxt = if p3 > p2 {
                        p3
                    } else {
                        p2
                    };
                    proof {
                        assert(clamp_pos(s, nxt as int, p as int) == nxt as int);
                        let nrest = attrs_loop(s, nxt as int);
                        assert(rest.attrs == seq![am] + nrest.attrs);
                        assert(acc + (seq![am] + nrest.attrs) =~= acc.push(am) + nrest.attrs);
                    }
                    p = nxt;
                }
            } else {
                let ghost am = AttrM { name: aname@, value: None };
                push_attr(&mut attrs, Attr { name: aname, value: None });
                let nxt = if q > p0 {
                    q
                } else {
                    p0 + 1
                };
                proof {
                    assert(clamp_pos(s, nxt as int, p as int) == nxt as int);
                    let nrest = attrs_loop(s, nxt as int);
                    assert(rest.attrs == seq![am] + nrest.attrs);
                    assert(acc + (seq![am] + nrest.attrs) =~= acc.push(am) + nrest.attrs);
                }
                p = nxt;
            }
        }
    }
    if !closed {
        proof {
            assert(attrs_loop(s, p as int) == ALoop {
                attrs: Seq::<AttrM>::empty(),
                self_closing: false,
                closed: false,
                end: s.len() as int,
            });
            assert(!attrs_loop(s, k as int).closed);
        }
        return None;
    }
    let raw = subrange_vec(v, i, p);
    let t = Tok::Start(Tag { kind, name, attrs, self_closing, raw });
    proof {
        assert(name@ == lower_seq(s.subrange(i as int + 1, k as int)));
        assert(parse_start_spec(s, i as int) == Some((t@, p as int)));
    }
    Some((t, p))
}

/// The token starting at `i`: a tag when the bytes form one, otherwise
/// a text run, and the position after it.
pub open spec fn scan_token_spec(s: Seq<u8>, i: int) -> (TokM, int) {
    if s[i] != 60 {
        let j = find_lt_spec(s, i + 1);
        (TokM::Text(s.subrange(i, j)), j)
    } else if i + 1 >= s.len() {
        (TokM::Text(s.subrange(i, s.len() as int)), s.len() as int)
    } else {
        let c = s[i + 1];
        if c == 33 {
            let end = if i + 2 < s.len() && s[i + 2] == 45 && i + 3 < s.len() && s[i + 3] == 45 {
                find_comment_end_spec(s, i + 4)
            } else {
                find_gt_end_spec(s, i + 2)
            };
            (TokM::Misc(s.subrange(i, end)), end)
        } else if c == 63 {
            let end = find_gt_end_spec(s, i + 2);
            (TokM::Misc(s.subrange(i, end)), end)
        } else if c == 47 {
            let k = scan_name_spec(s, i + 2);
            if k == i + 2 {
                let end = find_gt_end_spec(s, i + 2);
                (TokM::Misc(s.subrange(i, end)), end)
            } else {
                let end = find_gt_end_spec(s, k);
                let name = lower_seq(s.subrange(i + 2, k));
                (
                    TokM::End(
                        EndTagM { kind: classify_spec(name), name, raw: s.subrange(i, end) },
                    ),
                    end,
                )
            }
        } else if is_alpha_spec(c) {
            match parse_start_spec(s, i) {
                Some((t, j)) => (t, j),
                None => (TokM::Text(s.subrange(i, s.len() as int)), s.len() as int),
            }
        } else {
            let j = find_lt_spec(s, i + 1);
            (TokM::Text(s.subrange(i, j)), j)
        }
    }
}

/// Scans one token starting at `i`.
fn scan_token(v: &Vec<u8>, i: usize) -> (r: (Tok, usize))
    requires
        i < v@.len(),
    ensures
        i < r.1 <= v@.len(),
        tok_bytes(r.0@) == v@.subrange(i as int, r.1 as int),
        r.0@ == scan_token_spec(v@, i as int).0,
        r.1 as int == scan_token_spec(v@, i as int).1,
{
    let n = v.len();
    if v[i] != 60 {
        let j = find_lt(v, i + 1);
        return (Tok::Text(subrange_vec(v, i, j)), j);
    }
    if i + 1 >= n {
        return (Tok::Text(subrange_vec(v, i, n)), n);
    }
    let c = v[i + 1];
    if c == 33 {
        let end = if i + 2 < n && v[i + 2] == 45 && i + 3 < n && v[i + 3] == 45 {
            find_comment_end(v, i + 4)
        } else {
            find_gt_end(v, i + 2)
        };
        (Tok::Misc(subrange_vec(v, i, end)), end)
    } else if c == 63 {
        let end = find_gt_end(v, i + 2);
        (Tok::Misc(subrange_vec(v, i, end)), end)
    } else if c == 47 {
        let k = scan_name_end(v, i + 2);
        if k == i + 2 {
            let end = find_gt_end(v, i + 2);
            (Tok::Misc(subrange_vec(v, i, end)), end)
        } else {
            let end = find_gt_end(v, k);
            let name = lower_sub(v, i + 2, k);
            let kind = classify(name.as_slice());
            (Tok::End(EndTag { kind, name, raw: subrange_vec(v, i, end) }), end)
        }
    } else if is_alpha(c) {
        match parse_start_tag(v, i) {
            Some((t, j)) => (t, j),
            None => (Tok::Text(subrange_vec(v, i, n)), n),
        }
    } else {
        let j = find_lt(v, i + 1);
        (Tok::Text(subrange_vec(v, i, j)), j)
    }
}

/// Whether `</name` stands at `k` (name compared case-insensitively),
/// followed by whitespace, `/`, `>` or the end of input.
pub open spec fn is_close_spec(s: Seq<u8>, k: int, name: Seq<u8>) -> bool {
    &&& k + 1 < s.len()
    &&& s[k] == 60
    &&& s[k + 1] == 47
    &&& k + 2 + name.len() <= s.len()
    &&& (forall|j: int|
        0 <= j < name.len() ==> to_lower_spec(#[trigger] s[k + 2 + j]) == to_lower_spec(name[j]))
    &&& (k + 2 + name.len() == s.len() || is_ws_spec(s[k + 2 + name.len()]) || s[k + 2
        + name.len()] == 47 || s[k + 2 + name.len()] == 62)
}

fn is_close_tag_at(v: &Vec<u8>, k: usize, name: &Vec<u8>) -> (r: bool)
    requires
        k <= v@.len(),
    ensures
        r == is_close_spec(v@, k as int, name@),
{
    let ghost s = v@;
    let n = v.len();
    if k >= n || v[k] != 60 {
        return false;
    }
    if k + 1 >= n || v[k + 1] != 47 {
        return false;
    }
    let mut i: usize = 0;
    while i < name.len()
        invariant
            i <= name@.len(),
            s == v@,
            n == v@.len(),
            k + 2 <= n,
            s[k as int] == 60,
            s[k as int + 1] == 47,
            k as int + 1 < s.len(),
            k + 2 + i <= n,
            forall|j: int|
                0 <= j < i ==> to_lower_spec(#[trigger] s[k + 2 + j]) == to_lower_spec(name@[j]),
        decreases name@.len() - i,
    {
        if n - (k + 2) <= i {
            proof {
                assert(k as int + 2 + name@.len() > s.len());
            }
            return false;
        }
        let pos = k + 2 + i;
        if to_lower(v[pos]) != to_lower(name[i]) {
            proof {
                if is_close_spec(s, k as int, name@) {
                    assert(to_lower_spec(s[k as int + 2 + i]) == to_lower_spec(name@[i as int]));
                }
            }
            return false;
        }
        i += 1;
    }
    if n - (k + 2) <= name.len() {
        proof {
            assert(k as int + 2 + name@.len() == s.len());
        }
        true
    } else {
        let b = v[k + 2 + name.len()];
        is_ws(b) || b == 47 || b == 62
    }
}

/// Position of the closing tag for a raw-text element (`script`,
/// `style`) at or after `from`, or the length.
pub open spec fn find_rawtext_spec(s: Seq<u8>, from: int, name: Seq<u8>) -> int
    decreases s.len() - from,
{
    if from >= s.len() {
        s.len() as int
    } else if is_close_spec(s, from, name) {
        from
    } else {
        find_rawtext_spec(s, from + 1, name)
    }
}

fn find_rawtext_end(v: &Vec<u8>, from: usize, name: &Vec<u8>) -> (r: usize)
    requires
        from <= v@.len(),
    ensures
        from <= r <= v@.len(),
        r as int == find_rawtext_spec(v@, from as int, name@),
{
    let n = v.len();
    let mut i: usize = from;
    while i < n
        invariant
            from <= i <= n,
            n == v@.len(),
            find_rawtext_spec(v@, from as int, name@) == find_rawtext_spec(v@, i as int, name@),
        decreases n - i,
    {
        if is_close_tag_at(v, i, name) {
            return i;
        }
        i += 1;
    }
    i
}

/// The raw-text mode a token leaves behind: the element name, when the
/// token opens a `script` or `style` element.
pub open spec fn next_mode(t: TokM) -> Option<Seq<u8>> {
    match t {
        TokM::Start(tag) => if !tag.self_closing && (tag.kind == TagKind::Script || tag.kind
            == TagKind::Style) {
            Some(tag.name)
        } else {
            None
        },
        _ => None,
    }
}

/// The token stream from position `i` on, in the given raw-text mode.
pub open spec fn tokenize_from(s: Seq<u8>, i: int, mode: Option<Seq<u8>>) -> Seq<TokM>
    decreases
            s.len() - i,
            (match mode {
                Some(_) => 1int,
                None => 0int,
            }),
{
    if i >= s.len() {
        Seq::<TokM>::empty()
    } else {
        match mode {
            Some(name) => {
                let p = find_rawtext_spec(s, i, name);
                let p2 = if p > s.len() {
                    s.len() as int
                } else {
                    p
                };
                if p2 > i {
                    seq![TokM::Text(s.subrange(i, p2))] + tokenize_from(s, p2, None)
                } else {
                    tokenize_from(s, i, None)
                }
            },
            None => {
                let t = scan_token_spec(s, i).0;
                let j = scan_token_spec(s, i).1;
                let j2 = if j < i + 1 {
                    i + 1
                } else if j > s.len() {
                    s.len() as int
                } else {
                    j
                };
                seq![t] + tokenize_from(s, j2, next_mode(t))
            },
        }
    }
}

/// The tokenization of a document.
pub open spec fn tokenize_spec(s: Seq<u8>) -> Seq<TokM> {
    tokenize_from(s, 0, None)
}

/// Splits a document into tokens: exactly `tokenize_spec` of it.
/// Concatenating the tokens' bytes gives back the input unchanged.
pub fn tokenize(input: &Vec<u8>) -> (r: Vec<Tok>)
    ensures
        r.deep_view() == tokenize_spec(input@),
        toks_bytes(r.deep_view()) == input@,
{
    let ghost s = input@;
    let mut toks: Vec<Tok> = Vec::new();
    let mut rawtext: Option<Vec<u8>> = None;
    let mut i: usize = 0;
    proof {
        assert(input@.subrange(0, 0) =~= Seq::<u8>::empty());
        assert(Seq::<TokM>::empty() + tokenize_from(s, 0, None) =~= tokenize_from(s, 0, None));
    }
    while i < input.len()
        invariant
            i <= input@.len(),
            s == input@,
            toks_bytes(toks.deep_view()) == input@.subrange(0, i as int),
            toks.deep_view() + tokenize_from(
                s,
                i as int,
                match rawtext {
                    Some(nm) => Some(nm@),
                    None => None,
                },
            ) == tokenize_spec(s),
        decreases
                input@.len() - i,
                (if rawtext is Some {
                    1int
                } else {
                    0int
                }),
    {
        if rawtext.is_some() {
            let name = rawtext.take().unwrap();
            let ghost nm = name@;
            let p = find_rawtext_end(input, i, &name);
            proof {
                assert(tokenize_from(s, i as int, Some(nm)) == (if p as int > i as int {
                    seq![TokM::Text(s.subrange(i as int, p as int))] + tokenize_from(
                        s,
                        p as int,
                        None,
                    )
                } else {
                    tokenize_from(s, i as int, None)
                }));
            }
            if p > i {
                let ghost pre = toks.deep_view();
                let t = Tok::Text(subrange_vec(input, i, p));
                let ghost tm = t@;
                push_tok(&mut toks, t);
                proof {
                    lemma_toks_bytes_push(pre, tm);
                    assert(input@.subrange(0, i as int) + input@.subrange(i as int, p as int)
                        =~= input@.subrange(0, p as int));
                    assert(pre + (seq![tm] + tokenize_from(s, p as int, None)) =~= pre.push(tm)
                        + tokenize_from(s, p as int, None));
                }
                i = p;
            }
        } else {
            let (t, j) = scan_token(input, i);
            let ghost tm = t@;
            proof {
                assert(tokenize_from(s, i as int, None) == seq![tm] + tokenize_from(
                    s,
                    j as int,
                    next_mode(tm),
                ));
            }
            match &t {
                Tok::Start(tag) => {
                    if !tag.self_closing && (tag.kind == TagKind::Script || tag.kind
                        == TagKind::Style) {
                        rawtext = Some(copy_bytes(tag.name.as_slice()));
                    }
                },
                _ => {},
            }
            let ghost pre = toks.deep_view();
            push_tok(&mut toks, t);
            proof {
                lemma_toks_bytes_push(pre, tm);
                assert(input@.subrange(0, i as int) + input@.subrange(i as int, j as int)
                    =~= input@.subrange(0, j as int));
                assert(pre + (seq![tm] + tokenize_from(s, j as int, next_mode(tm))) =~= pre.push(
                    tm,
                ) + tokenize_from(s, j as int, next_mode(tm)));
            }
            i = j;
        }
    }
    proof {
        assert(input@.subrange(0, input@.len() as int) =~= input@);
        assert(tokenize_from(s, i as int, match rawtext {
            Some(nm) => Some(nm@),
            None => None,
        }) =~= Seq::<TokM>::empty());
        assert(toks.deep_view() + Seq::<TokM>::empty() =~= toks.deep_view());
    }
    toks
}

} // verus!
