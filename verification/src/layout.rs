//! How the runtime lays out names, levels and expressions in memory, term by term,
//! and that reading an object gives exactly the term that it is laid out as.
use vstd::arithmetic::power::pow;
use vstd::prelude::*;

use crate::bignat::le_value;
use crate::decode::decode_expr;
use crate::decode::decode_level;
use crate::decode::decode_levels;
use crate::decode::decode_literal;
use crate::decode::decode_name;
use crate::decode::decode_names;
use crate::decode::name_array;
use crate::decode::param_array;
use crate::heap::utf8_lossy;
use crate::heap::ExtractError;
use crate::heap::Heap;
use crate::heap::LeanObj;
use crate::node::BinderStyle;
use crate::tree::ExprTree;
use crate::tree::LevelTree;
use crate::tree::NameTree;

verus! {

/// The object at `o` is a constructor with this tag, at least `n` fields, and fields
/// that lie before it.
pub open spec fn built(h: &Heap, o: usize, t: u8, n: int) -> bool {
    o < h.objs@.len() && match h.objs@[o as int] {
        LeanObj::Boxed { tag, fields, .. } => tag == t && fields@.len() >= n && forall|i: int|
            0 <= i < n ==> (#[trigger] fields@[i]) < o,
        LeanObj::Scalar(_) => false,
    }
}

/// Where field `i` of an object points to.
pub open spec fn points_to(h: &Heap, o: usize, i: int) -> usize {
    h.objs@[o as int]->Boxed_fields@[i]
}

pub open spec fn is_scalar(h: &Heap, o: usize) -> bool {
    o < h.objs@.len() && h.objs@[o as int] is Scalar
}

/// A string object spells its bytes but the last.
pub open spec fn spells(h: &Heap, o: usize, s: Seq<char>) -> bool {
    o < h.objs@.len() && match h.objs@[o as int] {
        LeanObj::Boxed { data, .. } => {
            let n = if data@.len() == 0 {
                0
            } else {
                data@.len() - 1
            };
            let bytes = data@.subrange(0, n);
            if vstd::utf8::valid_utf8(bytes) {
                s == vstd::utf8::decode_utf8(bytes)
            } else {
                s == utf8_lossy(bytes)
            }
        },
        LeanObj::Scalar(_) => false,
    }
}

/// The number with these digits to the base 256, the first digit being the least.
pub open spec fn positional(digits: Seq<u8>) -> int
    decreases digits.len(),
{
    if digits.len() == 0 {
        0
    } else {
        positional(digits.drop_last()) + digits.last() * pow(256, (digits.len() - 1) as nat)
    }
}

/// A number object counts to `n`: a scalar holds the number, a big number its bytes.
pub open spec fn counts(h: &Heap, o: usize, n: int) -> bool {
    o < h.objs@.len() && match h.objs@[o as int] {
        LeanObj::Scalar(k) => n == k,
        LeanObj::Boxed { data, .. } => n == positional(data@),
    }
}

/// A number object counts to `n`, or to more where `n` is the largest `u64`.
pub open spec fn counts_u64(h: &Heap, o: usize, n: u64) -> bool {
    exists|k: int| #[trigger]
        counts(h, o, k) && (if k <= u64::MAX {
            n == k
        } else {
            n == u64::MAX
        })
}

/// The object is laid out as the name.
pub open spec fn is_name(h: &Heap, o: usize, t: NameTree) -> bool
    decreases t,
{
    match t {
        NameTree::Anon => is_scalar(h, o),
        NameTree::Str(pre, s) => built(h, o, 1, 2) && is_name(h, points_to(h, o, 0), *pre)
            && spells(h, points_to(h, o, 1), s),
        NameTree::Num(pre, n) => built(h, o, 2, 2) && is_name(h, points_to(h, o, 0), *pre)
            && counts_u64(h, points_to(h, o, 1), n),
    }
}

/// The object is laid out as the level.
pub open spec fn is_level(h: &Heap, o: usize, t: LevelTree) -> bool
    decreases t,
{
    match t {
        LevelTree::Zero => is_scalar(h, o),
        LevelTree::Succ(a) => built(h, o, 1, 1) && is_level(h, points_to(h, o, 0), *a),
        LevelTree::Max(a, b) => built(h, o, 2, 2) && is_level(h, points_to(h, o, 0), *a)
            && is_level(h, points_to(h, o, 1), *b),
        LevelTree::IMax(a, b) => built(h, o, 3, 2) && is_level(h, points_to(h, o, 0), *a)
            && is_level(h, points_to(h, o, 1), *b),
        LevelTree::Param(n) => built(h, o, 4, 1) && is_name(h, points_to(h, o, 0), n),
    }
}

/// An object that is not a scalar, with at least two fields that lie before it: a
/// cell of a list.
pub open spec fn is_cell(h: &Heap, o: usize) -> bool {
    o < h.objs@.len() && match h.objs@[o as int] {
        LeanObj::Boxed { fields, .. } => fields@.len() >= 2 && fields@[0] < o && fields@[1] < o,
        LeanObj::Scalar(_) => false,
    }
}

/// The object is a list with exactly these levels, in order.
pub open spec fn is_list(h: &Heap, o: usize, ts: Seq<LevelTree>) -> bool
    decreases ts.len(),
{
    if ts.len() == 0 {
        is_scalar(h, o)
    } else {
        is_cell(h, o) && is_level(h, points_to(h, o, 0), ts[0]) && is_list(
            h,
            points_to(h, o, 1),
            ts.skip(1),
        )
    }
}

/// The byte behind the cached word of an expression is `b`.
pub open spec fn flagged(h: &Heap, o: usize, b: u8) -> bool {
    match h.objs@[o as int] {
        LeanObj::Boxed { data, .. } => data@.len() >= 9 && data@[8] == b,
        LeanObj::Scalar(_) => false,
    }
}

/// The byte behind the cached word of a binder says this style.
pub open spec fn styled(h: &Heap, o: usize, s: BinderStyle) -> bool {
    match s {
        BinderStyle::Default => flagged(h, o, 0),
        BinderStyle::Implicit => flagged(h, o, 1),
        BinderStyle::StrictImplicit => flagged(h, o, 2),
        BinderStyle::InstanceImplicit => flagged(h, o, 3),
    }
}

/// The object is laid out as a literal with this tag, whose field the object `c` is.
pub open spec fn is_literal_of(h: &Heap, o: usize, tag: u8, c: usize) -> bool {
    &&& built(h, o, 9, 1)
    &&& built(h, points_to(h, o, 0), tag, 1)
    &&& points_to(h, points_to(h, o, 0), 0) == c
}

/// The object is laid out as the expression, which may be annotated. Number literals
/// need `nats`.
pub open spec fn is_expr(h: &Heap, nats: bool, o: usize, t: ExprTree) -> bool
    decreases t, o,
{
    if built(h, o, 10, 0) {
        let fields = h.objs@[o as int]->Boxed_fields@;
        fields.len() >= 2 && fields[1] < o && is_expr(h, nats, fields[1], t)
    } else {
        match t {
            ExprTree::Var(i) => built(h, o, 0, 1) && exists|n: u64| #[trigger]
                counts_u64(h, points_to(h, o, 0), n) && i == n % 65536,
            ExprTree::Sort(l) => built(h, o, 3, 1) && is_level(h, points_to(h, o, 0), l),
            ExprTree::Const(n, us) => built(h, o, 4, 2) && is_name(h, points_to(h, o, 0), n)
                && is_list(h, points_to(h, o, 1), us),
            ExprTree::App(f, a) => built(h, o, 5, 2) && is_expr(h, nats, points_to(h, o, 0), *f)
                && is_expr(h, nats, points_to(h, o, 1), *a),
            ExprTree::Lambda(n, s, ty, body) => built(h, o, 6, 3) && is_name(
                h,
                points_to(h, o, 0),
                n,
            ) && styled(h, o, s) && is_expr(h, nats, points_to(h, o, 1), *ty) && is_expr(
                h,
                nats,
                points_to(h, o, 2),
                *body,
            ),
            ExprTree::Pi(n, s, ty, body) => built(h, o, 7, 3) && is_name(h, points_to(h, o, 0), n)
                && styled(h, o, s) && is_expr(h, nats, points_to(h, o, 1), *ty) && is_expr(
                h,
                nats,
                points_to(h, o, 2),
                *body,
            ),
            ExprTree::Let(n, ty, val, body, nondep) => built(h, o, 8, 4) && is_name(
                h,
                points_to(h, o, 0),
                n,
            ) && is_expr(h, nats, points_to(h, o, 1), *ty) && is_expr(
                h,
                nats,
                points_to(h, o, 2),
                *val,
            ) && is_expr(h, nats, points_to(h, o, 3), *body) && exists|b: u8| #[trigger]
                flagged(h, o, b) && nondep == (b != 0),
            ExprTree::Proj(n, i, s) => built(h, o, 11, 3) && is_name(h, points_to(h, o, 0), n)
                && (exists|k: u64| #[trigger]
                counts_u64(h, points_to(h, o, 1), k) && i == k as usize) && is_expr(
                h,
                nats,
                points_to(h, o, 2),
                *s,
            ),
            ExprTree::NatLit(n) => nats && exists|c: usize| #[trigger]
                is_literal_of(h, o, 0, c) && counts(h, c, n as int),
            ExprTree::StringLit(s) => exists|c: usize| #[trigger]
                is_literal_of(h, o, 1, c) && spells(h, c, s),
        }
    }
}

/// The object is an array with exactly these names, in order.
pub open spec fn is_name_array(h: &Heap, o: usize, ts: Seq<NameTree>) -> bool {
    o < h.objs@.len() && match h.objs@[o as int] {
        LeanObj::Boxed { fields, .. } => fields@.len() == ts.len() && forall|i: int|
            0 <= i < ts.len() ==> is_name(h, fields@[i], #[trigger] ts[i]),
        LeanObj::Scalar(_) => false,
    }
}

/// The object is an array with the names of exactly these parameters, in order.
pub open spec fn is_param_array(h: &Heap, o: usize, ts: Seq<LevelTree>) -> bool {
    o < h.objs@.len() && match h.objs@[o as int] {
        LeanObj::Boxed { fields, .. } => fields@.len() == ts.len() && forall|i: int|
            0 <= i < ts.len() ==> (match #[trigger] ts[i] {
                LevelTree::Param(n) => is_name(h, fields@[i], n),
                _ => false,
            }),
        LeanObj::Scalar(_) => false,
    }
}

/// A byte more at the end counts by its place.
proof fn lemma_le_push(s: Seq<u8>)
    requires
        s.len() > 0,
    ensures
        le_value(s) == le_value(s.drop_last()) + s.last() * pow(256, (s.len() - 1) as nat),
    decreases s.len(),
{
    let n = (s.len() - 1) as nat;
    if s.len() == 1 {
        vstd::arithmetic::power::lemma_pow0(256);
        assert(s.drop_first() =~= Seq::<u8>::empty());
        assert(s.drop_last() =~= Seq::<u8>::empty());
        assert(le_value(s.drop_first()) == 0);
        assert(s.last() * pow(256, 0) == s.last()) by (nonlinear_arith)
            requires
                pow(256, 0) == 1,
        ;
    } else {
        let t = s.drop_first();
        lemma_le_push(t);
        assert(t.drop_last() =~= s.drop_last().drop_first());
        assert(s.drop_last()[0] == s[0]);
        let m = (n - 1) as nat;
        vstd::arithmetic::power::lemma_pow1(256);
        vstd::arithmetic::power::lemma_pow_adds(256, 1, m);
        let (b, p) = (s.last() as int, pow(256, m));
        assert(256 * (b * p) == b * (256 * p)) by (nonlinear_arith);
        assert(le_value(s) == s[0] + 256 * le_value(t));
        assert(le_value(s.drop_last()) == s[0] + 256 * le_value(t.drop_last()));
    }
}

/// Law: the bytes of a number are its digits to the base 256, the least first.
pub proof fn law_bytes_are_digits(s: Seq<u8>)
    ensures
        le_value(s) == positional(s),
    decreases s.len(),
{
    if s.len() > 0 {
        lemma_le_push(s);
        law_bytes_are_digits(s.drop_last());
    }
}

/// Law: reading an object as a string gives the text that it spells, and fails on an
/// object that spells none.
pub proof fn law_text_read(h: &Heap, o: usize, s: Seq<char>)
    ensures
        h.text(o) == Ok::<Seq<char>, ExtractError>(s) <==> spells(h, o, s),
{
    if o < h.objs@.len() {
        if let LeanObj::Boxed { data, .. } = h.objs@[o as int] {
            if data@.len() > 0 {
                assert(data@.subrange(0, data@.len() - 1) =~= data@.drop_last());
            } else {
                assert(data@.subrange(0, 0) =~= data@);
            }
        }
    }
}

/// Law: reading an object as a number gives the number that it counts to, and fails
/// on an object that is missing.
pub proof fn law_number_read(h: &Heap, o: usize, n: nat)
    ensures
        h.nat_value(o) == Ok::<nat, ExtractError>(n) <==> counts(h, o, n as int),
{
    if o < h.objs@.len() {
        if let LeanObj::Boxed { data, .. } = h.objs@[o as int] {
            law_bytes_are_digits(data@);
        }
    }
}

/// Law: reading an object as a machine number gives the number that it counts to, or
/// the largest one where that is larger.
pub proof fn law_u64_read(h: &Heap, o: usize, n: u64)
    ensures
        h.nat_u64(o) == Ok::<u64, ExtractError>(n) <==> counts_u64(h, o, n),
{
    if o < h.objs@.len() {
        let v = h.nat_value(o)->Ok_0;
        law_number_read(h, o, v);
        assert(counts(h, o, v as int));
    }
}

/// Law: reading an object as a name gives the name that it is laid out as, and fails
/// on an object that is laid out as none.
pub proof fn law_name_read(h: &Heap, o: usize, t: NameTree)
    ensures
        decode_name(h, o) == Ok::<NameTree, ExtractError>(t) <==> is_name(h, o, t),
    decreases t,
{
    match t {
        NameTree::Anon => {},
        NameTree::Str(pre, s) => {
            if o < h.objs@.len() && h.objs@[o as int] is Boxed {
                let (a, b) = (points_to(h, o, 0), points_to(h, o, 1));
                law_name_read(h, a, *pre);
                law_text_read(h, b, s);
            }
        },
        NameTree::Num(pre, n) => {
            if o < h.objs@.len() && h.objs@[o as int] is Boxed {
                let (a, b) = (points_to(h, o, 0), points_to(h, o, 1));
                law_name_read(h, a, *pre);
                law_u64_read(h, b, n);
            }
        },
    }
}

/// Law: reading an object as a level gives the level that it is laid out as, and
/// fails on an object that is laid out as none.
pub proof fn law_level_read(h: &Heap, o: usize, t: LevelTree)
    ensures
        decode_level(h, o) == Ok::<LevelTree, ExtractError>(t) <==> is_level(h, o, t),
    decreases t,
{
    if o < h.objs@.len() && h.objs@[o as int] is Boxed {
        let (x, y) = (points_to(h, o, 0), points_to(h, o, 1));
        match t {
            LevelTree::Zero => {},
            LevelTree::Succ(a) => law_level_read(h, x, *a),
            LevelTree::Max(a, b) => {
                law_level_read(h, x, *a);
                law_level_read(h, y, *b);
            },
            LevelTree::IMax(a, b) => {
                law_level_read(h, x, *a);
                law_level_read(h, y, *b);
            },
            LevelTree::Param(n) => law_name_read(h, x, n),
        }
    }
}

/// Law: reading an object as a list of levels gives exactly the levels of its cells,
/// one for one and in order.
pub proof fn law_list_read(h: &Heap, o: usize, ts: Seq<LevelTree>)
    ensures
        decode_levels(h, o) == Ok::<Seq<LevelTree>, ExtractError>(ts) <==> is_list(h, o, ts),
    decreases ts.len(),
{
    if ts.len() == 0 {
        assert(ts =~= Seq::<LevelTree>::empty());
    }
    if o < h.objs@.len() && h.objs@[o as int] is Boxed {
        let (x, y) = (points_to(h, o, 0), points_to(h, o, 1));
        if ts.len() > 0 {
            law_level_read(h, x, ts[0]);
            law_list_read(h, y, ts.skip(1));
            assert(seq![ts[0]] + ts.skip(1) =~= ts);
            if decode_levels(h, o) == Ok::<Seq<LevelTree>, ExtractError>(ts) {
                let rest = decode_levels(h, y)->Ok_0;
                let first = decode_level(h, x)->Ok_0;
                assert((seq![first] + rest)[0] == first);
                assert((seq![first] + rest).skip(1) =~= rest);
            }
        } else if decode_levels(h, o) is Ok {
            assert(decode_levels(h, o)->Ok_0.len() > 0);
        }
    }
}

proof fn lemma_names_read(h: &Heap, os: Seq<usize>, ts: Seq<NameTree>)
    ensures
        decode_names(h, os) == Ok::<Seq<NameTree>, ExtractError>(ts) <==> (os.len() == ts.len()
            && forall|i: int| 0 <= i < ts.len() ==> is_name(h, os[i], #[trigger] ts[i])),
    decreases os.len(),
{
    if os.len() > 0 {
        let n = os.len() - 1;
        let (os0, ts0) = (os.drop_last(), ts.drop_last());
        if ts.len() > 0 {
            lemma_names_read(h, os0, ts0);
            law_name_read(h, os.last(), ts.last());
            assert(ts0.push(ts.last()) =~= ts);
        }
        if decode_names(h, os) == Ok::<Seq<NameTree>, ExtractError>(ts) {
            let rest = decode_names(h, os0)->Ok_0;
            let last = decode_name(h, os.last())->Ok_0;
            assert(ts == rest.push(last));
            assert(ts0 =~= rest);
            assert forall|i: int| 0 <= i < ts.len() implies is_name(h, os[i], #[trigger] ts[i]) by {
                if i < n {
                    assert(ts0[i] == ts[i]);
                    assert(os0[i] == os[i]);
                }
            }
        }
        if os.len() == ts.len() && forall|i: int|
            0 <= i < ts.len() ==> is_name(h, os[i], #[trigger] ts[i]) {
            assert forall|i: int| 0 <= i < ts0.len() implies is_name(
                h,
                os0[i],
                #[trigger] ts0[i],
            ) by {
                assert(ts0[i] == ts[i]);
            }
            assert(is_name(h, os[n], ts[n]));
        }
    } else if ts.len() == 0 {
        assert(ts =~= Seq::<NameTree>::empty());
    }
}

/// Law: reading an object as an array of names gives exactly the names of its
/// elements, one for one and in order.
pub proof fn law_name_array_read(h: &Heap, o: usize, ts: Seq<NameTree>)
    ensures
        name_array(h, o) == Ok::<Seq<NameTree>, ExtractError>(ts) <==> is_name_array(h, o, ts),
{
    if o < h.objs@.len() {
        if let LeanObj::Boxed { fields, .. } = h.objs@[o as int] {
            lemma_names_read(h, fields@, ts);
        }
    }
}

/// Law: reading an object as an array of universe parameters gives exactly the
/// parameters named by its elements, one for one and in order.
pub proof fn law_param_array_read(h: &Heap, o: usize, ts: Seq<LevelTree>)
    ensures
        param_array(h, o) == Ok::<Seq<LevelTree>, ExtractError>(ts) <==> is_param_array(h, o, ts),
{
    if o < h.objs@.len() {
        if let LeanObj::Boxed { fields, .. } = h.objs@[o as int] {
            if param_array(h, o) is Ok {
                let ns = name_array(h, o)->Ok_0;
                law_name_array_read(h, o, ns);
                let ps = param_array(h, o)->Ok_0;
                assert forall|i: int| 0 <= i < ps.len() implies (match #[trigger] ps[i] {
                    LevelTree::Param(n) => is_name(h, fields@[i], n),
                    _ => false,
                }) by {
                    assert(is_name(h, fields@[i], ns[i]));
                }
                if is_param_array(h, o, ts) {
                    assert forall|i: int| 0 <= i < ts.len() implies ts[i] == ps[i] by {
                        assert(ts[i] is Param);
                        law_name_read(h, fields@[i], ts[i]->Param_0);
                        law_name_read(h, fields@[i], ns[i]);
                        assert(is_name(h, fields@[i], ns[i]));
                    }
                    assert(ts =~= ps);
                }
            } else if is_param_array(h, o, ts) {
                let ns = ts.map_values(|t: LevelTree| t->Param_0);
                assert forall|i: int| 0 <= i < ns.len() implies is_name(
                    h,
                    fields@[i],
                    #[trigger] ns[i],
                ) by {
                    assert(ts[i] is Param);
                }
                law_name_array_read(h, o, ns);
            }
        }
    }
}

proof fn lemma_literal_read(h: &Heap, nats: bool, o: usize, t: ExprTree)
    requires
        built(h, o, 9, 1),
    ensures
        decode_literal(h, nats, points_to(h, o, 0)) == Ok::<ExprTree, ExtractError>(t)
            <==> is_expr(h, nats, o, t),
{
    let l = points_to(h, o, 0);
    if l < h.objs@.len() && h.objs@[l as int] is Boxed {
        let c = points_to(h, l, 0);
        match t {
            ExprTree::NatLit(n) => {
                law_number_read(h, c, n);
                if built(h, l, 0, 1) {
                    assert(is_literal_of(h, o, 0, c));
                }
            },
            ExprTree::StringLit(s) => {
                law_text_read(h, c, s);
                if built(h, l, 1, 1) {
                    assert(is_literal_of(h, o, 1, c));
                }
            },
            _ => {},
        }
    }
}

/// Law: reading an object as an expression gives the expression that it is laid out
/// as, and fails on an object that is laid out as none.
#[verifier::rlimit(60)]
pub proof fn law_expr_read(h: &Heap, nats: bool, o: usize, t: ExprTree)
    ensures
        decode_expr(h, nats, o) == Ok::<ExprTree, ExtractError>(t) <==> is_expr(h, nats, o, t),
    decreases t, o,
{
    if o < h.objs@.len() && h.objs@[o as int] is Boxed {
        let tag = h.objs@[o as int]->Boxed_tag;
        let fields = h.objs@[o as int]->Boxed_fields@;
        let (a, b, c, d) = (
            points_to(h, o, 0),
            points_to(h, o, 1),
            points_to(h, o, 2),
            points_to(h, o, 3),
        );
        if tag == 10 {
            if fields.len() >= 2 && fields[1] < o {
                law_expr_read(h, nats, fields[1], t);
            }
        } else if tag == 9 {
            if fields.len() >= 1 && fields[0] < o {
                lemma_literal_read(h, nats, o, t);
            }
        } else {
            match t {
                ExprTree::Var(i) => {
                    if tag == 0 && fields.len() >= 1 && fields[0] < o {
                        if h.nat_u64(a) is Ok {
                            law_u64_read(h, a, h.nat_u64(a)->Ok_0);
                        }
                        if is_expr(h, nats, o, t) {
                            let n = choose|n: u64| #[trigger]
                                counts_u64(h, a, n) && i == n % 65536;
                            law_u64_read(h, a, n);
                        }
                    }
                },
                ExprTree::Sort(l) => law_level_read(h, a, l),
                ExprTree::Const(n, us) => {
                    law_name_read(h, a, n);
                    law_list_read(h, b, us);
                },
                ExprTree::App(f, x) => {
                    law_expr_read(h, nats, a, *f);
                    law_expr_read(h, nats, b, *x);
                },
                ExprTree::Lambda(n, _, ty, body) => {
                    law_name_read(h, a, n);
                    law_expr_read(h, nats, b, *ty);
                    law_expr_read(h, nats, c, *body);
                },
                ExprTree::Pi(n, _, ty, body) => {
                    law_name_read(h, a, n);
                    law_expr_read(h, nats, b, *ty);
                    law_expr_read(h, nats, c, *body);
                },
                ExprTree::Let(n, ty, val, body, nondep) => {
                    law_name_read(h, a, n);
                    law_expr_read(h, nats, b, *ty);
                    law_expr_read(h, nats, c, *val);
                    law_expr_read(h, nats, d, *body);
                    if h.byte(o) is Ok {
                        assert(flagged(h, o, h.byte(o)->Ok_0));
                    }
                },
                ExprTree::Proj(n, i, s) => {
                    law_name_read(h, a, n);
                    law_expr_read(h, nats, c, *s);
                    if h.nat_u64(b) is Ok {
                        law_u64_read(h, b, h.nat_u64(b)->Ok_0);
                    }
                    if is_expr(h, nats, o, t) {
                        let k = choose|k: u64| #[trigger]
                            counts_u64(h, b, k) && i == k as usize;
                        law_u64_read(h, b, k);
                    }
                },
                _ => {},
            }
        }
    }
}

/// Law: what is refused for its own tag, and as what. A missing object is malformed.
pub proof fn law_tags_refused(h: &Heap, nats: bool, o: usize)
    ensures
        o >= h.objs@.len() ==> {
            &&& decode_name(h, o) == Err::<NameTree, _>(ExtractError::Malformed(o))
            &&& decode_level(h, o) == Err::<LevelTree, _>(ExtractError::Malformed(o))
            &&& decode_levels(h, o) == Err::<Seq<LevelTree>, _>(ExtractError::Malformed(o))
            &&& decode_expr(h, nats, o) == Err::<ExprTree, _>(ExtractError::Malformed(o))
            &&& name_array(h, o) == Err::<Seq<NameTree>, _>(ExtractError::Malformed(o))
            &&& h.text(o) == Err::<Seq<char>, _>(ExtractError::Malformed(o))
            &&& h.nat_value(o) == Err::<nat, _>(ExtractError::Malformed(o))
        },
        o < h.objs@.len() ==> match h.objs@[o as int] {
            LeanObj::Scalar(_) => {
                &&& decode_expr(h, nats, o) == Err::<ExprTree, _>(ExtractError::Malformed(o))
                &&& decode_literal(h, nats, o) == Err::<ExprTree, _>(ExtractError::Malformed(o))
            },
            LeanObj::Boxed { tag, .. } => {
                &&& (tag < 1 || tag > 2) ==> decode_name(h, o) == Err::<NameTree, _>(
                    ExtractError::NameTag(tag),
                )
                &&& (tag < 1 || tag > 4) ==> decode_level(h, o) == Err::<LevelTree, _>(
                    ExtractError::LevelTag(tag),
                )
                &&& tag == 1 ==> decode_expr(h, nats, o) == Err::<ExprTree, _>(
                    ExtractError::FreeVariable,
                )
                &&& tag == 2 ==> decode_expr(h, nats, o) == Err::<ExprTree, _>(
                    ExtractError::MetaVariable,
                )
                &&& tag > 11 ==> decode_expr(h, nats, o) == Err::<ExprTree, _>(
                    ExtractError::ExprTag(tag),
                )
                &&& tag > 1 ==> decode_literal(h, nats, o) == Err::<ExprTree, _>(
                    ExtractError::LiteralTag(tag),
                )
            },
        },
{
}

/// Law: a binder whose parts can be read is refused for a byte that says no style.
pub proof fn law_styles_refused(h: &Heap, nats: bool, o: usize, b: u8)
    requires
        built(h, o, 6, 3) || built(h, o, 7, 3),
        decode_name(h, points_to(h, o, 0)) is Ok,
        decode_expr(h, nats, points_to(h, o, 1)) is Ok,
        decode_expr(h, nats, points_to(h, o, 2)) is Ok,
        flagged(h, o, b),
        b > 3,
    ensures
        decode_expr(h, nats, o) == Err::<ExprTree, _>(ExtractError::BinderInfo(b)),
{
}

/// Law: a number literal is refused where number literals are off.
pub proof fn law_number_literals_refused(h: &Heap, o: usize, c: usize, n: int)
    requires
        is_literal_of(h, o, 0, c),
        counts(h, c, n),
        n >= 0,
    ensures
        decode_expr(h, false, o) == Err::<ExprTree, _>(ExtractError::NatLiteral),
{
    law_number_read(h, c, n as nat);
}

/// The object at field `i` gives the error `e` as an expression.
pub open spec fn fails(h: &Heap, nats: bool, o: usize, i: int, e: ExtractError) -> bool {
    decode_expr(h, nats, points_to(h, o, i)) == Err::<ExprTree, _>(e)
}

/// The object at field `i` can be read as an expression.
pub open spec fn reads(h: &Heap, nats: bool, o: usize, i: int) -> bool {
    decode_expr(h, nats, points_to(h, o, i)) is Ok
}

/// Law: an expression with a part that cannot be read is refused for the first such
/// part.
pub proof fn law_first_part_refused(h: &Heap, nats: bool, o: usize, e: ExtractError)
    ensures
        built(h, o, 3, 1) && decode_level(h, points_to(h, o, 0)) == Err::<LevelTree, _>(e)
            ==> decode_expr(h, nats, o) == Err::<ExprTree, _>(e),
        built(h, o, 4, 2) && decode_name(h, points_to(h, o, 0)) is Ok && decode_levels(
            h,
            points_to(h, o, 1),
        ) == Err::<Seq<LevelTree>, _>(e) ==> decode_expr(h, nats, o) == Err::<ExprTree, _>(e),
        built(h, o, 5, 2) && fails(h, nats, o, 0, e) ==> decode_expr(h, nats, o) == Err::<
            ExprTree,
            _,
        >(e),
        built(h, o, 5, 2) && reads(h, nats, o, 0) && fails(h, nats, o, 1, e) ==> decode_expr(
            h,
            nats,
            o,
        ) == Err::<ExprTree, _>(e),
        (built(h, o, 4, 2) || built(h, o, 6, 3) || built(h, o, 7, 3) || built(h, o, 8, 4) || built(
            h,
            o,
            11,
            3,
        )) && decode_name(h, points_to(h, o, 0)) == Err::<NameTree, _>(e) ==> decode_expr(
            h,
            nats,
            o,
        ) == Err::<ExprTree, _>(e),
        (built(h, o, 6, 3) || built(h, o, 7, 3) || built(h, o, 8, 4)) && decode_name(
            h,
            points_to(h, o, 0),
        ) is Ok ==> {
            &&& fails(h, nats, o, 1, e) ==> decode_expr(h, nats, o) == Err::<ExprTree, _>(e)
            &&& reads(h, nats, o, 1) && fails(h, nats, o, 2, e) ==> decode_expr(h, nats, o)
                == Err::<ExprTree, _>(e)
            &&& built(h, o, 8, 4) && reads(h, nats, o, 1) && reads(h, nats, o, 2) && fails(
                h,
                nats,
                o,
                3,
                e,
            ) ==> decode_expr(h, nats, o) == Err::<ExprTree, _>(e)
        },
        built(h, o, 10, 2) && fails(h, nats, o, 1, e) ==> decode_expr(h, nats, o) == Err::<
            ExprTree,
            _,
        >(e),
        built(h, o, 11, 3) && decode_name(h, points_to(h, o, 0)) is Ok && h.nat_u64(
            points_to(h, o, 1),
        ) is Ok && fails(h, nats, o, 2, e) ==> decode_expr(h, nats, o) == Err::<ExprTree, _>(e),
{
}

} // verus!
