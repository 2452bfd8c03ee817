//! Turns objects of a snapshot into terms of a builder.
use std::collections::HashMap;
use vstd::prelude::*;

use crate::builder::Builder;
use crate::dag::level_trees;
use crate::decode::decode_expr;
use crate::decode::decode_level;
use crate::decode::decode_levels;
use crate::decode::decode_literal;
use crate::decode::decode_name;
use crate::decode::decode_names;
use crate::decode::expr_field;
use crate::decode::level_field;
use crate::decode::name_array;
use crate::decode::name_field;
use crate::decode::param_array;
use crate::decode::style_of;
use crate::env::has_names;
use crate::env::names_of;
use crate::heap::ExtractError;
use crate::heap::Heap;
use crate::heap::LeanObj;
use crate::node::BinderStyle;
use crate::node::ExprPtr;
use crate::node::LevelPtr;
use crate::node::LevelsPtr;
use crate::node::NamePtr;
use crate::parts::adds_only;
use crate::parts::expr_parts;
use crate::parts::lemma_adds_both;
use crate::parts::lemma_adds_expr;
use crate::parts::lemma_adds_level;
use crate::parts::lemma_adds_list;
use crate::parts::lemma_adds_more;
use crate::parts::lemma_adds_name;
use crate::parts::lemma_adds_nothing;
use crate::parts::lemma_levels_parts;
use crate::parts::level_parts;
use crate::parts::levels_parts;
use crate::parts::list_parts;
use crate::parts::name_parts;
use crate::parts::names_parts;
use crate::parts::Part;
use crate::tree::ExprTree;
use crate::tree::LevelTree;
use crate::tree::NameTree;

verus! {

broadcast use vstd::std_specs::hash::group_hash_axioms;

/// Walks objects of a snapshot into a [`Builder`], and remembers the expressions
/// that it has seen, since the same object recurs often.
pub struct Walker<'a> {
    pub heap: &'a Heap,
    pub b: Builder,
    /// The expressions that were seen, by the addresses of their objects.
    pub expr_memo: HashMap<usize, ExprPtr>,
}

impl<'a> Walker<'a> {
    pub open spec fn heap(&self) -> &'a Heap {
        self.heap
    }

    /// The builder as it stands.
    pub open spec fn b(&self) -> Builder {
        self.b
    }

    /// Whether number literals are allowed.
    pub open spec fn nats(&self) -> bool {
        self.b().config().nat_extension
    }

    /// The builder is well-formed, and each remembered expression is the one that
    /// its object stands for.
    pub open spec fn wf(&self) -> bool {
        &&& self.b.wf()
        &&& forall|o: usize| #[trigger]
            self.expr_memo@.contains_key(o) ==> {
                &&& self.b.dag().has_expr(self.expr_memo@[o])
                &&& decode_expr(self.heap, self.b.config().nat_extension, o) == Ok::<
                    ExprTree,
                    ExtractError,
                >(self.b.dag().expr(self.expr_memo@[o]))
            }
    }

    /// What was remembered is still remembered.
    pub open spec fn remembers(&self, before: &Walker<'a>) -> bool {
        forall|o: usize| #[trigger]
            before.expr_memo@.contains_key(o) ==> self.expr_memo@.contains_key(o)
                && self.expr_memo@[o] == before.expr_memo@[o]
    }

    /// The builder only grew, nothing was forgotten, and the snapshot is the same.
    pub open spec fn walked(&self, before: &Walker<'a>) -> bool {
        &&& self.heap() == before.heap()
        &&& self.b().only_grew(&before.b())
        &&& self.remembers(before)
    }

    /// The objects that are remembered now and were not before lie before `n`.
    pub open spec fn learned_below(&self, before: &Walker<'a>, n: int) -> bool {
        forall|o: usize| #[trigger]
            self.expr_memo@.contains_key(o) ==> before.expr_memo@.contains_key(o) || o < n
    }

    /// Nothing was put into the graph but what is among `parts`.
    pub open spec fn grew_by(&self, before: &Walker<'a>, parts: Set<Part>) -> bool {
        adds_only(before.b().dag(), self.b().dag(), parts)
    }

    /// The result is a pointer to the name, or the same error.
    pub open spec fn is_name(
        &self,
        r: Result<NamePtr, ExtractError>,
        t: Result<NameTree, ExtractError>,
    ) -> bool {
        match (r, t) {
            (Ok(p), Ok(n)) => self.b().dag().has_name(p) && self.b().dag().name(p) == n,
            (Err(e), Err(f)) => e == f,
            _ => false,
        }
    }

    /// The result is a pointer to the level, or the same error.
    pub open spec fn is_level(
        &self,
        r: Result<LevelPtr, ExtractError>,
        t: Result<LevelTree, ExtractError>,
    ) -> bool {
        match (r, t) {
            (Ok(p), Ok(l)) => self.b().dag().has_level(p) && self.b().dag().level(p) == l,
            (Err(e), Err(f)) => e == f,
            _ => false,
        }
    }

    /// The result is a pointer to the expression, or the same error.
    pub open spec fn is_expr(
        &self,
        r: Result<ExprPtr, ExtractError>,
        t: Result<ExprTree, ExtractError>,
    ) -> bool {
        match (r, t) {
            (Ok(p), Ok(x)) => self.b().dag().has_expr(p) && self.b().dag().expr(p) == x,
            (Err(e), Err(f)) => e == f,
            _ => false,
        }
    }

    pub fn new(heap: &'a Heap, b: Builder) -> (w: Walker<'a>)
        requires
            b.wf(),
        ensures
            w.wf(),
            w.heap() == heap,
            w.b() == b,
            w.expr_memo@ == Map::<usize, ExprPtr>::empty(),
    {
        Walker { heap, b, expr_memo: HashMap::new() }
    }

    /// Give the builder back.
    pub fn into_builder(self) -> (b: Builder)
        requires
            self.wf(),
        ensures
            b.wf(),
            b == self.b(),
    {
        self.b
    }

    /// A name.
    pub fn walk_name(&mut self, o: usize) -> (r: Result<NamePtr, ExtractError>)
        requires
            old(self).wf(),
        ensures
            final(self).wf(),
            final(self).walked(old(self)),
            final(self).is_name(r, decode_name(old(self).heap(), o)),
            final(self).expr_memo == old(self).expr_memo,
            r is Ok ==> final(self).grew_by(
                old(self),
                name_parts(decode_name(old(self).heap(), o)->Ok_0),
            ),
        decreases o, 1int,
    {
        let h = self.heap;
        if o >= h.objs.len() {
            return Err(ExtractError::Malformed(o));
        }
        match &h.objs[o] {
            LeanObj::Scalar(_) => {
                proof {
                    lemma_adds_nothing(self.b().dag(), name_parts(NameTree::Anon));
                }
                Ok(self.b.name_anon())
            },
            LeanObj::Boxed { tag, .. } => {
                if *tag == 1 {
                    let pre = self.name_child(o, 0)?;
                    let c: usize = h.child(o, 1)?;
                    let s = h.read_string(c)?;
                    let ghost d1 = self.b().dag();
                    let p = self.b.name_str(pre, s.as_str());
                    proof {
                        let (d0, d2) = (old(self).b().dag(), self.b().dag());
                        let all = name_parts(d2.name(p));
                        self.b().facts();
                        lemma_adds_name(d1, d2, p, Some(s@), all);
                        lemma_adds_both(d0, d1, d2, name_parts(d1.name(pre)), all, all);
                    }
                    Ok(p)
                } else if *tag == 2 {
                    let pre = self.name_child(o, 0)?;
                    let c: usize = h.child(o, 1)?;
                    let n: u64 = h.nat_to_u64(c)?;
                    let ghost d1 = self.b().dag();
                    let p = self.b.name_num(pre, n);
                    proof {
                        let (d0, d2) = (old(self).b().dag(), self.b().dag());
                        let all = name_parts(d2.name(p));
                        self.b().facts();
                        lemma_adds_name(d1, d2, p, None, all);
                        lemma_adds_both(d0, d1, d2, name_parts(d1.name(pre)), all, all);
                    }
                    Ok(p)
                } else {
                    Err(ExtractError::NameTag(*tag))
                }
            },
        }
    }

    fn name_child(&mut self, o: usize, i: usize) -> (r: Result<NamePtr, ExtractError>)
        requires
            old(self).wf(),
        ensures
            final(self).wf(),
            final(self).walked(old(self)),
            final(self).is_name(r, name_field(old(self).heap(), o, i as int)),
            final(self).expr_memo == old(self).expr_memo,
            r is Ok ==> final(self).grew_by(
                old(self),
                name_parts(name_field(old(self).heap(), o, i as int)->Ok_0),
            ),
        decreases o, 0int,
    {
        let c: usize = self.heap.child(o, i)?;
        self.walk_name(c)
    }

    /// A universe level.
    pub fn walk_level(&mut self, o: usize) -> (r: Result<LevelPtr, ExtractError>)
        requires
            old(self).wf(),
        ensures
            final(self).wf(),
            final(self).walked(old(self)),
            final(self).is_level(r, decode_level(old(self).heap(), o)),
            final(self).expr_memo == old(self).expr_memo,
            r is Ok ==> final(self).grew_by(
                old(self),
                level_parts(decode_level(old(self).heap(), o)->Ok_0),
            ),
        decreases o, 1int,
    {
        let h = self.heap;
        if o >= h.objs.len() {
            return Err(ExtractError::Malformed(o));
        }
        match &h.objs[o] {
            LeanObj::Scalar(_) => {
                proof {
                    lemma_adds_nothing(self.b().dag(), level_parts(LevelTree::Zero));
                }
                Ok(self.b.level_zero())
            },
            LeanObj::Boxed { tag, .. } => {
                if *tag == 1 {
                    let l = self.level_child(o, 0)?;
                    let ghost d1 = self.b().dag();
                    let p = self.b.level_succ(l);
                    proof {
                        let (d0, d2) = (old(self).b().dag(), self.b().dag());
                        let all = level_parts(d2.level(p));
                        self.b().facts();
                        lemma_adds_level(d1, d2, p, all);
                        lemma_adds_both(d0, d1, d2, level_parts(d1.level(l)), all, all);
                    }
                    Ok(p)
                } else if *tag == 2 {
                    let l = self.level_child(o, 0)?;
                    let ghost d1 = self.b().dag();
                    let r = self.level_child(o, 1)?;
                    let ghost d2 = self.b().dag();
                    let p = self.b.level_max(l, r);
                    proof {
                        let (d0, d3) = (old(self).b().dag(), self.b().dag());
                        let all = level_parts(d3.level(p));
                        self.b().facts();
                        lemma_adds_level(d2, d3, p, all);
                        lemma_adds_both(
                            d0,
                            d1,
                            d2,
                            level_parts(d1.level(l)),
                            level_parts(d2.level(r)),
                            all,
                        );
                        lemma_adds_both(d0, d2, d3, all, all, all);
                    }
                    Ok(p)
                } else if *tag == 3 {
                    let l = self.level_child(o, 0)?;
                    let ghost d1 = self.b().dag();
                    let r = self.level_child(o, 1)?;
                    let ghost d2 = self.b().dag();
                    let p = self.b.level_imax(l, r);
                    proof {
                        let (d0, d3) = (old(self).b().dag(), self.b().dag());
                        let all = level_parts(d3.level(p));
                        self.b().facts();
                        lemma_adds_level(d2, d3, p, all);
                        lemma_adds_both(
                            d0,
                            d1,
                            d2,
                            level_parts(d1.level(l)),
                            level_parts(d2.level(r)),
                            all,
                        );
                        lemma_adds_both(d0, d2, d3, all, all, all);
                    }
                    Ok(p)
                } else if *tag == 4 {
                    let n = self.name_child(o, 0)?;
                    let ghost d1 = self.b().dag();
                    let p = self.b.level_param(n);
                    proof {
                        let (d0, d2) = (old(self).b().dag(), self.b().dag());
                        let all = level_parts(d2.level(p));
                        self.b().facts();
                        lemma_adds_level(d1, d2, p, all);
                        lemma_adds_both(d0, d1, d2, name_parts(d1.name(n)), all, all);
                    }
                    Ok(p)
                } else {
                    Err(ExtractError::LevelTag(*tag))
                }
            },
        }
    }

    fn level_child(&mut self, o: usize, i: usize) -> (r: Result<LevelPtr, ExtractError>)
        requires
            old(self).wf(),
        ensures
            final(self).wf(),
            final(self).walked(old(self)),
            final(self).is_level(r, level_field(old(self).heap(), o, i as int)),
            final(self).expr_memo == old(self).expr_memo,
            r is Ok ==> final(self).grew_by(
                old(self),
                level_parts(level_field(old(self).heap(), o, i as int)->Ok_0),
            ),
        decreases o, 0int,
    {
        let c: usize = self.heap.child(o, i)?;
        self.walk_level(c)
    }

    /// The levels of a list.
    pub fn walk_level_list(&mut self, o: usize) -> (r: Result<Vec<LevelPtr>, ExtractError>)
        requires
            old(self).wf(),
        ensures
            final(self).wf(),
            final(self).walked(old(self)),
            final(self).are_levels(r, decode_levels(old(self).heap(), o)),
            final(self).expr_memo == old(self).expr_memo,
            r is Ok ==> final(self).grew_by(
                old(self),
                levels_parts(decode_levels(old(self).heap(), o)->Ok_0),
            ),
    {
        let h = self.heap;
        let mut out: Vec<LevelPtr> = Vec::new();
        let mut cur: usize = o;
        let ghost all = decode_levels(h, o);
        assert(prepended(level_trees(self.b().dag(), out@), all) == all) by {
            match all {
                Ok(rest) => {
                    assert(level_trees(self.b().dag(), out@) + rest =~= rest);
                },
                Err(_) => {},
            }
        }
        proof {
            lemma_adds_nothing(self.b().dag(), levels_parts(level_trees(self.b().dag(), out@)));
        }
        loop
            invariant
                self.expr_memo == old(self).expr_memo,
                self.grew_by(old(self), levels_parts(level_trees(self.b().dag(), out@))),
                self.wf(),
                self.walked(old(self)),
                h == old(self).heap(),
                forall|k: int| 0 <= k < out@.len() ==> self.b().dag().has_level(#[trigger] out@[k]),
                all == decode_levels(h, o),
                all == prepended(level_trees(self.b().dag(), out@), decode_levels(h, cur)),
            decreases cur,
        {
            if cur >= h.objs.len() {
                return Err(ExtractError::Malformed(cur));
            }
            if let LeanObj::Scalar(_) = &h.objs[cur] {
                assert(level_trees(self.b().dag(), out@) + Seq::<LevelTree>::empty() =~= level_trees(
                    self.b().dag(),
                    out@,
                ));
                return Ok(out);
            }
            let ghost d0 = self.b().dag();
            let ghost out0 = out@;
            let l = self.level_child(cur, 0)?;
            let ghost d1 = self.b().dag();
            let next: usize = h.child(cur, 1)?;
            out.push(l);
            proof {
                assert(level_trees(d1, out@) =~= level_trees(d0, out0).push(d1.level(l))) by {
                    assert forall|k: int| 0 <= k < out0.len() implies d1.level(out0[k]) == d0.level(
                        out0[k],
                    ) by {
                        assert(d0.has_level(out0[k]));
                    }
                }
                let (before, after) = (level_trees(d0, out0), level_trees(d1, out@));
                assert(after.drop_last() =~= before);
                assert(after.last() == d1.level(l));
                lemma_adds_both(
                    old(self).b().dag(),
                    d0,
                    d1,
                    levels_parts(before),
                    level_parts(d1.level(l)),
                    levels_parts(after),
                );
                match decode_levels(h, next) {
                    Ok(rest) => {
                        assert(level_trees(d0, out0) + (seq![d1.level(l)] + rest) =~= level_trees(
                            d1,
                            out@,
                        ) + rest);
                    },
                    Err(_) => {},
                }
            }
            cur = next;
        }
    }

    /// The result are pointers to the levels, or the same error.
    pub open spec fn are_levels(
        &self,
        r: Result<Vec<LevelPtr>, ExtractError>,
        t: Result<Seq<LevelTree>, ExtractError>,
    ) -> bool {
        match (r, t) {
            (Ok(ps), Ok(ls)) => {
                &&& forall|k: int| 0 <= k < ps@.len() ==> self.b().dag().has_level(#[trigger] ps@[k])
                &&& level_trees(self.b().dag(), ps@) == ls
            },
            (Err(e), Err(f)) => e == f,
            _ => false,
        }
    }
}

impl<'a> Walker<'a> {
    /// An expression, which is remembered from then on. Walking a remembered one again
    /// gives the same pointer and changes nothing.
    pub fn walk_expr(&mut self, o: usize) -> (r: Result<ExprPtr, ExtractError>)
        requires
            old(self).wf(),
        ensures
            final(self).wf(),
            final(self).walked(old(self)),
            final(self).is_expr(r, decode_expr(old(self).heap(), old(self).nats(), o)),
            r is Ok ==> final(self).expr_memo@.contains_key(o) && final(self).expr_memo@[o]
                == r->Ok_0,
            old(self).expr_memo@.contains_key(o) ==> {
                &&& r == Ok::<ExprPtr, ExtractError>(old(self).expr_memo@[o])
                &&& final(self).b() == old(self).b()
                &&& final(self).expr_memo@ == old(self).expr_memo@
            },
            final(self).learned_below(old(self), o + 1),
            r is Ok ==> final(self).grew_by(
                old(self),
                expr_parts(decode_expr(old(self).heap(), old(self).nats(), o)->Ok_0),
            ),
        decreases o, 2int,
    {
        if let Some(e) = self.expr_memo.get(&o) {
            proof {
                lemma_adds_nothing(
                    self.b().dag(),
                    expr_parts(decode_expr(self.heap(), self.nats(), o)->Ok_0),
                );
            }
            return Ok(*e);
        }
        let e = self.walk_expr_uncached(o)?;
        self.expr_memo.insert(o, e);
        Ok(e)
    }

    #[verifier::rlimit(40)]
    fn walk_expr_uncached(&mut self, o: usize) -> (r: Result<ExprPtr, ExtractError>)
        requires
            old(self).wf(),
        ensures
            final(self).wf(),
            final(self).walked(old(self)),
            final(self).is_expr(r, decode_expr(old(self).heap(), old(self).nats(), o)),
            final(self).learned_below(old(self), o as int),
            r is Ok ==> final(self).grew_by(
                old(self),
                expr_parts(decode_expr(old(self).heap(), old(self).nats(), o)->Ok_0),
            ),
        decreases o, 1int,
    {
        let h = self.heap;
        if o >= h.objs.len() {
            return Err(ExtractError::Malformed(o));
        }
        let tag: u8 = match &h.objs[o] {
            LeanObj::Scalar(_) => {
                return Err(ExtractError::Malformed(o));
            },
            LeanObj::Boxed { tag, .. } => *tag,
        };
        if tag == 0 {
            let c: usize = h.child(o, 0)?;
            let n: u64 = h.nat_to_u64(c)?;
            let idx: u16 = low16(n);
            let p = self.b.expr_var(idx);
            proof {
                self.b().facts();
                let d1 = self.b().dag();
                lemma_adds_expr(old(self).b().dag(), d1, p, None, None, expr_parts(d1.expr(p)));
            }
            Ok(p)
        } else if tag == 3 {
            let l = self.level_child(o, 0)?;
            let ghost d1 = self.b().dag();
            let p = self.b.expr_sort(l);
            proof {
                let (d0, d2) = (old(self).b().dag(), self.b().dag());
                let all = expr_parts(d2.expr(p));
                self.b().facts();
                lemma_adds_expr(d1, d2, p, None, None, all);
                lemma_adds_both(d0, d1, d2, level_parts(d1.level(l)), all, all);
            }
            Ok(p)
        } else if tag == 4 {
            let name = self.name_child(o, 0)?;
            let ghost d1 = self.b().dag();
            let c: usize = h.child(o, 1)?;
            let us = self.walk_level_list(c)?;
            let ghost d2 = self.b().dag();
            let levels = self.b.levels(us.as_slice());
            let ghost d3 = self.b().dag();
            proof {
                self.b().facts();
            }
            let p = self.b.expr_const(name, levels);
            proof {
                let (d0, d4) = (old(self).b().dag(), self.b().dag());
                let all = expr_parts(d4.expr(p));
                let trees = level_trees(d2, us@);
                self.b().facts();
                lemma_adds_both(d0, d1, d2, name_parts(d1.name(name)), levels_parts(trees), all);
                lemma_adds_list(d2, d3, levels, all);
                lemma_adds_both(d0, d2, d3, all, all, all);
                lemma_adds_expr(d3, d4, p, None, None, all);
                lemma_adds_both(d0, d3, d4, all, all, all);
            }
            Ok(p)
        } else if tag == 5 {
            let f = self.expr_child(o, 0)?;
            let ghost d1 = self.b().dag();
            let a = self.expr_child(o, 1)?;
            let ghost d2 = self.b().dag();
            let p = self.b.expr_app(f, a);
            proof {
                let (d0, d3) = (old(self).b().dag(), self.b().dag());
                let all = expr_parts(d3.expr(p));
                self.b().facts();
                lemma_adds_both(d0, d1, d2, expr_parts(d1.expr(f)), expr_parts(d2.expr(a)), all);
                lemma_adds_expr(d2, d3, p, None, None, all);
                lemma_adds_both(d0, d2, d3, all, all, all);
            }
            Ok(p)
        } else if tag == 6 {
            let name = self.name_child(o, 0)?;
            let ghost d1 = self.b().dag();
            let ty = self.expr_child(o, 1)?;
            let ghost d2 = self.b().dag();
            let body = self.expr_child(o, 2)?;
            let ghost d3 = self.b().dag();
            let byte: u8 = h.scalar_u8(o)?;
            let style = binder_style(byte)?;
            let p = self.b.expr_lambda(name, style, ty, body);
            proof {
                let (d0, d4) = (old(self).b().dag(), self.b().dag());
                let all = expr_parts(d4.expr(p));
                self.b().facts();
                lemma_adds_both(
                    d0,
                    d1,
                    d2,
                    name_parts(d1.name(name)),
                    expr_parts(d2.expr(ty)),
                    all,
                );
                lemma_adds_both(d0, d2, d3, all, expr_parts(d3.expr(body)), all);
                lemma_adds_expr(d3, d4, p, None, None, all);
                lemma_adds_both(d0, d3, d4, all, all, all);
            }
            Ok(p)
        } else if tag == 7 {
            let name = self.name_child(o, 0)?;
            let ghost d1 = self.b().dag();
            let ty = self.expr_child(o, 1)?;
            let ghost d2 = self.b().dag();
            let body = self.expr_child(o, 2)?;
            let ghost d3 = self.b().dag();
            let byte: u8 = h.scalar_u8(o)?;
            let style = binder_style(byte)?;
            let p = self.b.expr_pi(name, style, ty, body);
            proof {
                let (d0, d4) = (old(self).b().dag(), self.b().dag());
                let all = expr_parts(d4.expr(p));
                self.b().facts();
                lemma_adds_both(
                    d0,
                    d1,
                    d2,
                    name_parts(d1.name(name)),
                    expr_parts(d2.expr(ty)),
                    all,
                );
                lemma_adds_both(d0, d2, d3, all, expr_parts(d3.expr(body)), all);
                lemma_adds_expr(d3, d4, p, None, None, all);
                lemma_adds_both(d0, d3, d4, all, all, all);
            }
            Ok(p)
        } else if tag == 8 {
            let name = self.name_child(o, 0)?;
            let ghost d1 = self.b().dag();
            let ty = self.expr_child(o, 1)?;
            let ghost d2 = self.b().dag();
            let val = self.expr_child(o, 2)?;
            let ghost d3 = self.b().dag();
            let body = self.expr_child(o, 3)?;
            let ghost d4 = self.b().dag();
            let byte: u8 = h.scalar_u8(o)?;
            let p = self.b.expr_let(name, ty, val, body, byte != 0);
            proof {
                let (d0, d5) = (old(self).b().dag(), self.b().dag());
                let all = expr_parts(d5.expr(p));
                self.b().facts();
                lemma_adds_both(
                    d0,
                    d1,
                    d2,
                    name_parts(d1.name(name)),
                    expr_parts(d2.expr(ty)),
                    all,
                );
                lemma_adds_both(d0, d2, d3, all, expr_parts(d3.expr(val)), all);
                lemma_adds_both(d0, d3, d4, all, expr_parts(d4.expr(body)), all);
                lemma_adds_expr(d4, d5, p, None, None, all);
                lemma_adds_both(d0, d4, d5, all, all, all);
            }
            Ok(p)
        } else if tag == 9 {
            let c: usize = h.child(o, 0)?;
            self.walk_literal(c)
        } else if tag == 10 {
            self.expr_child(o, 1)
        } else if tag == 11 {
            let ty_name = self.name_child(o, 0)?;
            let ghost d1 = self.b().dag();
            let c: usize = h.child(o, 1)?;
            let idx: u64 = h.nat_to_u64(c)?;
            let structure = self.expr_child(o, 2)?;
            let ghost d2 = self.b().dag();
            let p = self.b.expr_proj(ty_name, idx as usize, structure);
            proof {
                let (d0, d3) = (old(self).b().dag(), self.b().dag());
                let all = expr_parts(d3.expr(p));
                self.b().facts();
                lemma_adds_both(
                    d0,
                    d1,
                    d2,
                    name_parts(d1.name(ty_name)),
                    expr_parts(d2.expr(structure)),
                    all,
                );
                lemma_adds_expr(d2, d3, p, None, None, all);
                lemma_adds_both(d0, d2, d3, all, all, all);
            }
            Ok(p)
        } else if tag == 1 {
            Err(ExtractError::FreeVariable)
        } else if tag == 2 {
            Err(ExtractError::MetaVariable)
        } else {
            Err(ExtractError::ExprTag(tag))
        }
    }

    fn expr_child(&mut self, o: usize, i: usize) -> (r: Result<ExprPtr, ExtractError>)
        requires
            old(self).wf(),
        ensures
            final(self).wf(),
            final(self).walked(old(self)),
            final(self).is_expr(r, expr_field(old(self).heap(), old(self).nats(), o, i as int)),
            final(self).learned_below(old(self), o as int),
            r is Ok ==> final(self).grew_by(
                old(self),
                expr_parts(expr_field(old(self).heap(), old(self).nats(), o, i as int)->Ok_0),
            ),
        decreases o, 0int,
    {
        let c: usize = self.heap.child(o, i)?;
        self.walk_expr(c)
    }

    /// A literal.
    pub fn walk_literal(&mut self, o: usize) -> (r: Result<ExprPtr, ExtractError>)
        requires
            old(self).wf(),
        ensures
            final(self).wf(),
            final(self).walked(old(self)),
            final(self).is_expr(r, decode_literal(old(self).heap(), old(self).nats(), o)),
            final(self).expr_memo == old(self).expr_memo,
            r is Ok ==> final(self).grew_by(
                old(self),
                expr_parts(decode_literal(old(self).heap(), old(self).nats(), o)->Ok_0),
            ),
    {
        let h = self.heap;
        if o >= h.objs.len() {
            return Err(ExtractError::Malformed(o));
        }
        match &h.objs[o] {
            LeanObj::Scalar(_) => Err(ExtractError::Malformed(o)),
            LeanObj::Boxed { tag, .. } => {
                if *tag == 0 {
                    let c: usize = h.child(o, 0)?;
                    let n = h.nat_to_biguint(c)?;
                    if self.b.has_nat_literals() {
                        let ghost bytes = n@;
                        let p = self.b.expr_nat_lit(n);
                        proof {
                            let (d0, d1) = (old(self).b().dag(), self.b().dag());
                            self.b().facts();
                            lemma_adds_expr(d0, d1, p, None, Some(bytes), expr_parts(d1.expr(p)));
                        }
                        Ok(p)
                    } else {
                        Err(ExtractError::NatLiteral)
                    }
                } else if *tag == 1 {
                    let c: usize = h.child(o, 0)?;
                    let s = h.read_string(c)?;
                    let p = self.b.expr_string_lit(s.as_str());
                    proof {
                        let (d0, d1) = (old(self).b().dag(), self.b().dag());
                        self.b().facts();
                        lemma_adds_expr(d0, d1, p, Some(s@), None, expr_parts(d1.expr(p)));
                    }
                    Ok(p)
                } else {
                    Err(ExtractError::LiteralTag(*tag))
                }
            },
        }
    }

    /// The names of an array.
    pub fn walk_name_array(&mut self, o: usize) -> (r: Result<Vec<NamePtr>, ExtractError>)
        requires
            old(self).wf(),
        ensures
            final(self).wf(),
            final(self).walked(old(self)),
            final(self).are_names(r, name_array(old(self).heap(), o)),
            final(self).expr_memo == old(self).expr_memo,
            r is Ok ==> final(self).grew_by(
                old(self),
                names_parts(name_array(old(self).heap(), o)->Ok_0),
            ),
    {
        let os = self.heap.array_elems(o)?;
        let mut out: Vec<NamePtr> = Vec::new();
        let n: usize = os.len();
        let mut i: usize = 0;
        assert(os@.take(0) =~= Seq::<usize>::empty());
        assert(names_of(self.b().dag(), out@) =~= Seq::<NameTree>::empty());
        proof {
            lemma_adds_nothing(self.b().dag(), names_parts(names_of(self.b().dag(), out@)));
        }
        while i < n
            invariant
                self.expr_memo == old(self).expr_memo,
                self.grew_by(old(self), names_parts(names_of(self.b().dag(), out@))),
                n == os@.len(),
                i <= n,
                self.wf(),
                self.walked(old(self)),
                old(self).heap().elems(o) == Ok::<Seq<usize>, ExtractError>(os@),
                has_names(self.b().dag(), out@),
                decode_names(old(self).heap(), os@.take(i as int)) == Ok::<
                    Seq<NameTree>,
                    ExtractError,
                >(names_of(self.b().dag(), out@)),
            decreases n - i,
        {
            let ghost d0 = self.b().dag();
            let ghost out0 = out@;
            assert(os@.take(i + 1).drop_last() =~= os@.take(i as int));
            let r = self.walk_name(os[i]);
            match r {
                Ok(p) => {
                    out.push(p);
                    let ghost d1 = self.b().dag();
                    assert(names_of(d1, out@) =~= names_of(d0, out0).push(d1.name(p))) by {
                        assert forall|k: int| 0 <= k < out0.len() implies d1.name(out0[k])
                            == d0.name(out0[k]) by {
                            assert(d0.has_name(out0[k]));
                        }
                    }
                    proof {
                        let (before, after) = (names_of(d0, out0), names_of(d1, out@));
                        assert(after.drop_last() =~= before);
                        assert(after.last() == d1.name(p));
                        lemma_adds_both(
                            old(self).b().dag(),
                            d0,
                            d1,
                            names_parts(before),
                            name_parts(d1.name(p)),
                            names_parts(after),
                        );
                    }
                },
                Err(e) => {
                    proof {
                        lemma_names_stop(old(self).heap(), os@, i + 1, e);
                    }
                    return Err(e);
                },
            }
            i = i + 1;
        }
        assert(os@.take(n as int) =~= os@);
        Ok(out)
    }

    /// The result are pointers to the names, or the same error.
    pub open spec fn are_names(
        &self,
        r: Result<Vec<NamePtr>, ExtractError>,
        t: Result<Seq<NameTree>, ExtractError>,
    ) -> bool {
        match (r, t) {
            (Ok(ps), Ok(ns)) => has_names(self.b().dag(), ps@) && names_of(self.b().dag(), ps@)
                == ns,
            (Err(e), Err(f)) => e == f,
            _ => false,
        }
    }

    /// The universe parameters of a declaration, from the array of their names.
    pub fn uparams(&mut self, o: usize) -> (r: Result<LevelsPtr, ExtractError>)
        requires
            old(self).wf(),
        ensures
            final(self).wf(),
            final(self).walked(old(self)),
            final(self).is_levels(r, param_array(old(self).heap(), o)),
            final(self).expr_memo == old(self).expr_memo,
            r is Ok ==> final(self).grew_by(
                old(self),
                list_parts(param_array(old(self).heap(), o)->Ok_0),
            ),
    {
        let names = self.walk_name_array(o)?;
        let mut levels: Vec<LevelPtr> = Vec::new();
        let n: usize = names.len();
        let mut i: usize = 0;
        let ghost dn = self.b().dag();
        let ghost trees = names_of(dn, names@);
        let ghost params = trees.map_values(|n: NameTree| LevelTree::Param(n));
        proof {
            lemma_param_parts(trees);
            lemma_adds_more(
                old(self).b().dag(),
                dn,
                names_parts(trees),
                list_parts(params),
            );
        }
        while i < n
            invariant
                self.expr_memo == old(self).expr_memo,
                params == trees.map_values(|n: NameTree| LevelTree::Param(n)),
                self.grew_by(old(self), list_parts(params)),
                n == names@.len(),
                i <= n,
                self.wf(),
                self.walked(old(self)),
                dn.kept_in(self.b().dag()),
                has_names(dn, names@),
                trees == names_of(dn, names@),
                levels@.len() == i,
                forall|k: int| 0 <= k < i ==> self.b().dag().has_level(#[trigger] levels@[k]),
                forall|k: int|
                    0 <= k < i ==> self.b().dag().level(#[trigger] levels@[k]) == LevelTree::Param(
                        trees[k],
                    ),
            decreases n - i,
        {
            let ghost d0 = self.b().dag();
            let ghost levels0 = levels@;
            assert(dn.has_name(names@[i as int]));
            let l = self.b.level_param(names[i]);
            levels.push(l);
            proof {
                let d1 = self.b().dag();
                self.b().facts();
                assert(params[i as int] == d1.level(l));
                lemma_levels_parts(params, i as int);
                lemma_adds_level(d0, d1, l, list_parts(params));
                lemma_adds_both(
                    old(self).b().dag(),
                    d0,
                    d1,
                    list_parts(params),
                    list_parts(params),
                    list_parts(params),
                );
            }
            assert forall|k: int| 0 <= k < i implies self.b().dag().has_level(
                #[trigger] levels@[k],
            ) && self.b().dag().level(levels@[k]) == LevelTree::Param(trees[k]) by {
                assert(d0.has_level(levels0[k]));
            }
            i = i + 1;
        }
        let ghost d0 = self.b().dag();
        assert(level_trees(d0, levels@) =~= params);
        let p = self.b.levels(levels.as_slice());
        proof {
            let d1 = self.b().dag();
            self.b().facts();
            lemma_adds_list(d0, d1, p, list_parts(params));
            lemma_adds_both(
                old(self).b().dag(),
                d0,
                d1,
                list_parts(params),
                list_parts(params),
                list_parts(params),
            );
        }
        Ok(p)
    }

    /// The result is a pointer to the list of levels, or the same error.
    pub open spec fn is_levels(
        &self,
        r: Result<LevelsPtr, ExtractError>,
        t: Result<Seq<LevelTree>, ExtractError>,
    ) -> bool {
        match (r, t) {
            (Ok(p), Ok(ls)) => self.b().dag().has_levels(p) && self.b().dag().levels_at(p) == ls,
            (Err(e), Err(f)) => e == f,
            _ => false,
        }
    }
}

/// The parts of names are among those of the parameters with these names.
proof fn lemma_param_parts(ns: Seq<NameTree>)
    ensures
        names_parts(ns).subset_of(
            levels_parts(ns.map_values(|n: NameTree| LevelTree::Param(n))),
        ),
    decreases ns.len(),
{
    if ns.len() > 0 {
        let ps = ns.map_values(|n: NameTree| LevelTree::Param(n));
        lemma_param_parts(ns.drop_last());
        assert(ps.drop_last() =~= ns.drop_last().map_values(
            |n: NameTree| LevelTree::Param(n),
        ));
        assert(ps.last() == LevelTree::Param(ns.last()));
    }
}

/// The first name that cannot be decoded decides.
proof fn lemma_names_stop(h: &Heap, os: Seq<usize>, n: int, e: ExtractError)
    requires
        0 < n <= os.len(),
        decode_names(h, os.take(n)) == Err::<Seq<NameTree>, ExtractError>(e),
    ensures
        decode_names(h, os) == Err::<Seq<NameTree>, ExtractError>(e),
    decreases os.len(),
{
    if n == os.len() {
        assert(os.take(n) =~= os);
    } else {
        assert(os.drop_last().take(n) =~= os.take(n));
        lemma_names_stop(h, os.drop_last(), n, e);
    }
}

/// The low 16 bits.
fn low16(n: u64) -> (r: u16)
    ensures
        r == (n % 0x1_0000) as u16,
{
    (n % 0x1_0000) as u16
}

/// The list with `front` put before it.
pub open spec fn prepended(
    front: Seq<LevelTree>,
    rest: Result<Seq<LevelTree>, ExtractError>,
) -> Result<Seq<LevelTree>, ExtractError> {
    match rest {
        Ok(ls) => Ok(front + ls),
        Err(e) => Err(e),
    }
}

/// The binder style that a byte encodes.
pub fn binder_style(b: u8) -> (r: Result<BinderStyle, ExtractError>)
    ensures
        r == style_of(b),
{
    match b {
        0 => Ok(BinderStyle::Default),
        1 => Ok(BinderStyle::Implicit),
        2 => Ok(BinderStyle::StrictImplicit),
        3 => Ok(BinderStyle::InstanceImplicit),
        other => Err(ExtractError::BinderInfo(other)),
    }
}

} // verus!
