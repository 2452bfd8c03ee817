//! What the objects of a snapshot stand for: the names, levels and expressions
//! that they encode, or the first reason why they encode none.
use vstd::prelude::*;

use crate::heap::ExtractError;
use crate::heap::Heap;
use crate::heap::LeanObj;
use crate::node::BinderStyle;
use crate::tree::ExprTree;
use crate::tree::LevelTree;
use crate::tree::NameTree;

verus! {

/// A name: the anonymous name is a scalar, tag 1 is a name and a string, tag 2 a
/// name and a number.
pub open spec fn decode_name(h: &Heap, o: usize) -> Result<NameTree, ExtractError>
    decreases o, 1int,
{
    if !h.has(o) {
        Err(ExtractError::Malformed(o))
    } else {
        match h.objs@[o as int] {
            LeanObj::Scalar(_) => Ok(NameTree::Anon),
            LeanObj::Boxed { tag, .. } => if tag == 1 {
                match (name_field(h, o, 0), text_field(h, o, 1)) {
                    (Err(e), _) => Err(e),
                    (_, Err(e)) => Err(e),
                    (Ok(pre), Ok(s)) => Ok(NameTree::Str(Box::new(pre), s)),
                }
            } else if tag == 2 {
                match (name_field(h, o, 0), u64_field(h, o, 1)) {
                    (Err(e), _) => Err(e),
                    (_, Err(e)) => Err(e),
                    (Ok(pre), Ok(n)) => Ok(NameTree::Num(Box::new(pre), n)),
                }
            } else {
                Err(ExtractError::NameTag(tag))
            },
        }
    }
}

/// The name in field `i` of an object.
pub open spec fn name_field(h: &Heap, o: usize, i: int) -> Result<NameTree, ExtractError>
    decreases o, 0int,
{
    match h.field(o, i) {
        Err(e) => Err(e),
        Ok(c) => if c < o {
            decode_name(h, c)
        } else {
            Err(ExtractError::Malformed(o))
        },
    }
}

/// The text in field `i` of an object.
pub open spec fn text_field(h: &Heap, o: usize, i: int) -> Result<Seq<char>, ExtractError> {
    match h.field(o, i) {
        Err(e) => Err(e),
        Ok(c) => h.text(c),
    }
}

/// The number in field `i` of an object, cut off at the largest `u64`.
pub open spec fn u64_field(h: &Heap, o: usize, i: int) -> Result<u64, ExtractError> {
    match h.field(o, i) {
        Err(e) => Err(e),
        Ok(c) => h.nat_u64(c),
    }
}

/// A level: zero is a scalar; tag 1 is a successor, 2 a maximum, 3 an impredicative
/// maximum, 4 a parameter.
pub open spec fn decode_level(h: &Heap, o: usize) -> Result<LevelTree, ExtractError>
    decreases o, 1int,
{
    if !h.has(o) {
        Err(ExtractError::Malformed(o))
    } else {
        match h.objs@[o as int] {
            LeanObj::Scalar(_) => Ok(LevelTree::Zero),
            LeanObj::Boxed { tag, .. } => if tag == 1 {
                match level_field(h, o, 0) {
                    Err(e) => Err(e),
                    Ok(l) => Ok(LevelTree::Succ(Box::new(l))),
                }
            } else if tag == 2 {
                match (level_field(h, o, 0), level_field(h, o, 1)) {
                    (Err(e), _) => Err(e),
                    (_, Err(e)) => Err(e),
                    (Ok(l), Ok(r)) => Ok(LevelTree::Max(Box::new(l), Box::new(r))),
                }
            } else if tag == 3 {
                match (level_field(h, o, 0), level_field(h, o, 1)) {
                    (Err(e), _) => Err(e),
                    (_, Err(e)) => Err(e),
                    (Ok(l), Ok(r)) => Ok(LevelTree::IMax(Box::new(l), Box::new(r))),
                }
            } else if tag == 4 {
                match name_field(h, o, 0) {
                    Err(e) => Err(e),
                    Ok(n) => Ok(LevelTree::Param(n)),
                }
            } else {
                Err(ExtractError::LevelTag(tag))
            },
        }
    }
}

/// The level in field `i` of an object.
pub open spec fn level_field(h: &Heap, o: usize, i: int) -> Result<LevelTree, ExtractError>
    decreases o, 0int,
{
    match h.field(o, i) {
        Err(e) => Err(e),
        Ok(c) => if c < o {
            decode_level(h, c)
        } else {
            Err(ExtractError::Malformed(o))
        },
    }
}

/// A list of levels: the empty list is a scalar, any other a level and a list.
pub open spec fn decode_levels(h: &Heap, o: usize) -> Result<Seq<LevelTree>, ExtractError>
    decreases o,
{
    if !h.has(o) {
        Err(ExtractError::Malformed(o))
    } else {
        match h.objs@[o as int] {
            LeanObj::Scalar(_) => Ok(Seq::empty()),
            LeanObj::Boxed { .. } => match level_field(h, o, 0) {
                Err(e) => Err(e),
                Ok(l) => match h.field(o, 1) {
                    Err(e) => Err(e),
                    Ok(c) => if c < o {
                        match decode_levels(h, c) {
                            Err(e) => Err(e),
                            Ok(rest) => Ok(seq![l] + rest),
                        }
                    } else {
                        Err(ExtractError::Malformed(o))
                    },
                },
            },
        }
    }
}

/// The list of levels in field `i` of an object.
pub open spec fn levels_field(h: &Heap, o: usize, i: int) -> Result<Seq<LevelTree>, ExtractError> {
    match h.field(o, i) {
        Err(e) => Err(e),
        Ok(c) => decode_levels(h, c),
    }
}

/// The binder style that a byte encodes.
pub open spec fn style_of(b: u8) -> Result<BinderStyle, ExtractError> {
    if b == 0 {
        Ok(BinderStyle::Default)
    } else if b == 1 {
        Ok(BinderStyle::Implicit)
    } else if b == 2 {
        Ok(BinderStyle::StrictImplicit)
    } else if b == 3 {
        Ok(BinderStyle::InstanceImplicit)
    } else {
        Err(ExtractError::BinderInfo(b))
    }
}

/// The binder style of a binder.
pub open spec fn decode_style(h: &Heap, o: usize) -> Result<BinderStyle, ExtractError> {
    match h.byte(o) {
        Err(e) => Err(e),
        Ok(b) => style_of(b),
    }
}

/// A literal: tag 0 is a number, for which `nats` has to hold, tag 1 a string.
pub open spec fn decode_literal(h: &Heap, nats: bool, o: usize) -> Result<ExprTree, ExtractError> {
    if !h.has(o) {
        Err(ExtractError::Malformed(o))
    } else {
        match h.objs@[o as int] {
            LeanObj::Scalar(_) => Err(ExtractError::Malformed(o)),
            LeanObj::Boxed { tag, .. } => if tag == 0 {
                match h.field(o, 0) {
                    Err(e) => Err(e),
                    Ok(c) => match h.nat_value(c) {
                        Err(e) => Err(e),
                        Ok(n) => if nats {
                            Ok(ExprTree::NatLit(n))
                        } else {
                            Err(ExtractError::NatLiteral)
                        },
                    },
                }
            } else if tag == 1 {
                match text_field(h, o, 0) {
                    Err(e) => Err(e),
                    Ok(s) => Ok(ExprTree::StringLit(s)),
                }
            } else {
                Err(ExtractError::LiteralTag(tag))
            },
        }
    }
}

/// An expression, by its tag: 0 is a bound variable, 3 a sort, 4 a constant, 5 an
/// application, 6 a lambda, 7 a pi, 8 a let, 9 a literal, 10 an annotated
/// expression, which stands for the expression itself, 11 a projection. Free
/// variables (1) and metavariables (2) have no place in a declaration. Number
/// literals are allowed where `nats` holds.
pub open spec fn decode_expr(h: &Heap, nats: bool, o: usize) -> Result<ExprTree, ExtractError>
    decreases o, 1int,
{
    if !h.has(o) {
        Err(ExtractError::Malformed(o))
    } else {
        match h.objs@[o as int] {
            LeanObj::Scalar(_) => Err(ExtractError::Malformed(o)),
            LeanObj::Boxed { tag, .. } => if tag == 0 {
                match u64_field(h, o, 0) {
                    Err(e) => Err(e),
                    Ok(n) => Ok(ExprTree::Var((n % 0x1_0000) as u16)),
                }
            } else if tag == 1 {
                Err(ExtractError::FreeVariable)
            } else if tag == 2 {
                Err(ExtractError::MetaVariable)
            } else if tag == 3 {
                match level_field(h, o, 0) {
                    Err(e) => Err(e),
                    Ok(l) => Ok(ExprTree::Sort(l)),
                }
            } else if tag == 4 {
                match (name_field(h, o, 0), levels_field(h, o, 1)) {
                    (Err(e), _) => Err(e),
                    (_, Err(e)) => Err(e),
                    (Ok(n), Ok(us)) => Ok(ExprTree::Const(n, us)),
                }
            } else if tag == 5 {
                match (expr_field(h, nats, o, 0), expr_field(h, nats, o, 1)) {
                    (Err(e), _) => Err(e),
                    (_, Err(e)) => Err(e),
                    (Ok(f), Ok(a)) => Ok(ExprTree::App(Box::new(f), Box::new(a))),
                }
            } else if tag == 6 {
                match (
                    name_field(h, o, 0),
                    expr_field(h, nats, o, 1),
                    expr_field(h, nats, o, 2),
                    decode_style(h, o),
                ) {
                    (Err(e), _, _, _) => Err(e),
                    (_, Err(e), _, _) => Err(e),
                    (_, _, Err(e), _) => Err(e),
                    (_, _, _, Err(e)) => Err(e),
                    (Ok(n), Ok(ty), Ok(body), Ok(style)) => Ok(
                        ExprTree::Lambda(n, style, Box::new(ty), Box::new(body)),
                    ),
                }
            } else if tag == 7 {
                match (
                    name_field(h, o, 0),
                    expr_field(h, nats, o, 1),
                    expr_field(h, nats, o, 2),
                    decode_style(h, o),
                ) {
                    (Err(e), _, _, _) => Err(e),
                    (_, Err(e), _, _) => Err(e),
                    (_, _, Err(e), _) => Err(e),
                    (_, _, _, Err(e)) => Err(e),
                    (Ok(n), Ok(ty), Ok(body), Ok(style)) => Ok(
                        ExprTree::Pi(n, style, Box::new(ty), Box::new(body)),
                    ),
                }
            } else if tag == 8 {
                match (
                    name_field(h, o, 0),
                    expr_field(h, nats, o, 1),
                    expr_field(h, nats, o, 2),
                    expr_field(h, nats, o, 3),
                    h.byte(o),
                ) {
                    (Err(e), _, _, _, _) => Err(e),
                    (_, Err(e), _, _, _) => Err(e),
                    (_, _, Err(e), _, _) => Err(e),
                    (_, _, _, Err(e), _) => Err(e),
                    (_, _, _, _, Err(e)) => Err(e),
                    (Ok(n), Ok(ty), Ok(val), Ok(body), Ok(flag)) => Ok(
                        ExprTree::Let(n, Box::new(ty), Box::new(val), Box::new(body), flag != 0),
                    ),
                }
            } else if tag == 9 {
                match h.field(o, 0) {
                    Err(e) => Err(e),
                    Ok(c) => decode_literal(h, nats, c),
                }
            } else if tag == 10 {
                expr_field(h, nats, o, 1)
            } else if tag == 11 {
                match (name_field(h, o, 0), u64_field(h, o, 1), expr_field(h, nats, o, 2)) {
                    (Err(e), _, _) => Err(e),
                    (_, Err(e), _) => Err(e),
                    (_, _, Err(e)) => Err(e),
                    (Ok(n), Ok(i), Ok(s)) => Ok(ExprTree::Proj(n, i as usize, Box::new(s))),
                }
            } else {
                Err(ExtractError::ExprTag(tag))
            },
        }
    }
}

/// The expression in field `i` of an object.
pub open spec fn expr_field(h: &Heap, nats: bool, o: usize, i: int) -> Result<
    ExprTree,
    ExtractError,
>
    decreases o, 0int,
{
    match h.field(o, i) {
        Err(e) => Err(e),
        Ok(c) => if c < o {
            decode_expr(h, nats, c)
        } else {
            Err(ExtractError::Malformed(o))
        },
    }
}

/// Law: an annotated expression stands for what the expression inside stands for.
pub proof fn law_annotations_vanish(h: &Heap, nats: bool, o: usize, c: usize)
    requires
        h.has(o),
        h.objs@[o as int] matches LeanObj::Boxed { tag, .. } && tag == 10,
        h.field(o, 1) == Ok::<usize, ExtractError>(c),
    ensures
        decode_expr(h, nats, o) == decode_expr(h, nats, c),
{
    assert(expr_field(h, nats, o, 1) == decode_expr(h, nats, c));
}

/// The names that a sequence of objects stands for.
pub open spec fn decode_names(h: &Heap, os: Seq<usize>) -> Result<Seq<NameTree>, ExtractError>
    decreases os.len(),
{
    if os.len() == 0 {
        Ok(Seq::empty())
    } else {
        match decode_names(h, os.drop_last()) {
            Err(e) => Err(e),
            Ok(ns) => match decode_name(h, os.last()) {
                Err(e) => Err(e),
                Ok(n) => Ok(ns.push(n)),
            },
        }
    }
}

/// The names in an array.
pub open spec fn name_array(h: &Heap, o: usize) -> Result<Seq<NameTree>, ExtractError> {
    match h.elems(o) {
        Err(e) => Err(e),
        Ok(os) => decode_names(h, os),
    }
}

/// The universe parameters whose names are in an array.
pub open spec fn param_array(h: &Heap, o: usize) -> Result<Seq<LevelTree>, ExtractError> {
    match name_array(h, o) {
        Err(e) => Err(e),
        Ok(ns) => Ok(ns.map_values(|n: NameTree| LevelTree::Param(n))),
    }
}

} // verus!
