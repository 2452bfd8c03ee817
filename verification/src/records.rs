//! How the record of a constant tells its declaration and its metadata, field by
//! field, and that reading a record gives exactly what it tells.
use vstd::prelude::*;

use crate::declare::decode_member;
use crate::declare::decode_members;
use crate::declare::decode_rule;
use crate::declare::decode_rules;
use crate::declare::decode_singleton;
use crate::declare::decode_value;
use crate::heap::ExtractError;
use crate::heap::Heap;
use crate::heap::LeanObj;
use crate::key::texts;
use crate::layout::is_expr;
use crate::layout::is_name;
use crate::layout::is_name_array;
use crate::layout::is_param_array;
use crate::layout::law_expr_read;
use crate::layout::law_name_array_read;
use crate::layout::law_name_read;
use crate::layout::law_param_array_read;
use crate::layout::law_text_read;
use crate::layout::spells;
use crate::node::ReducibilityHint;
use crate::snapshot::decode_metas;
use crate::snapshot::decode_texts;
use crate::snapshot::metas_of;
use crate::snapshot::ConstMeta;
use crate::snapshot::ConstantInfo;
use crate::snapshot::Meta;
use crate::snapshot::RuleInfo;
use crate::tree::BodyTree;
use crate::tree::DeclTree;
use crate::tree::ExprTree;
use crate::tree::RuleTree;

verus! {

/// The record tells this name, these universe parameters and this type.
pub open spec fn tells_head(h: &Heap, nats: bool, c: ConstantInfo, d: DeclTree) -> bool {
    &&& is_name(h, c.name, d.name)
    &&& is_param_array(h, c.level_params, d.uparams)
    &&& is_expr(h, nats, c.ty, d.ty)
}

/// The object is an expression that is there, namely this one.
pub open spec fn holds_value(h: &Heap, nats: bool, o: usize, v: ExprTree) -> bool {
    o < h.objs@.len() && match h.objs@[o as int] {
        LeanObj::Boxed { fields, .. } => fields@.len() >= 1 && fields@[0] < o && is_expr(
            h,
            nats,
            fields@[0],
            v,
        ),
        LeanObj::Scalar(_) => false,
    }
}

/// The record tells this hint.
pub open spec fn tells_hint(c: ConstantInfo, hint: ReducibilityHint) -> bool {
    match hint {
        ReducibilityHint::Opaque => c.hint_kind == 0,
        ReducibilityHint::Abbrev => c.hint_kind == 1,
        ReducibilityHint::Regular(n) => c.hint_kind >= 2 && n == c.hint_height % 65536,
    }
}

/// The record is that of the declaration `d`, outside a mutual block.
pub open spec fn tells_singleton(h: &Heap, nats: bool, c: ConstantInfo, d: DeclTree) -> bool {
    tells_head(h, nats, c, d) && match d.body {
        BodyTree::Axiom => c.kind == 0,
        BodyTree::Definition { val, hint } => c.kind == 1 && holds_value(h, nats, c.value, val)
            && tells_hint(c, hint),
        BodyTree::Theorem { val } => c.kind == 2 && holds_value(h, nats, c.value, val),
        BodyTree::Opaque { val } => c.kind == 3 && holds_value(h, nats, c.value, val),
        BodyTree::Quot => c.kind == 4,
        _ => false,
    }
}

/// The record of a rule tells this rule.
pub open spec fn tells_rule(h: &Heap, nats: bool, r: RuleInfo, t: RuleTree) -> bool {
    &&& is_name(h, r.ctor, t.ctor_name)
    &&& t.num_fields == r.num_fields % 65536
    &&& is_expr(h, nats, r.rhs, t.rhs)
}

/// The records tell these rules, one for one and in order.
pub open spec fn tells_rules(h: &Heap, nats: bool, rs: Seq<RuleInfo>, ts: Seq<RuleTree>) -> bool {
    rs.len() == ts.len() && forall|k: int|
        0 <= k < ts.len() ==> tells_rule(h, nats, rs[k], #[trigger] ts[k])
}

/// The record is that of the declaration `d`, in a mutual block.
pub open spec fn tells_member(h: &Heap, nats: bool, c: ConstantInfo, d: DeclTree) -> bool {
    tells_head(h, nats, c, d) && match d.body {
        BodyTree::Inductive {
            is_recursive,
            is_nested,
            num_params,
            num_indices,
            all_ind_names,
            all_ctor_names,
        } => {
            &&& c.kind == 5
            &&& is_recursive <==> c.induct.is_rec != 0
            &&& is_nested <==> c.induct.num_nested > 0
            &&& num_params == c.induct.num_params % 65536
            &&& num_indices == c.induct.num_indices % 65536
            &&& is_name_array(h, c.induct.all, all_ind_names)
            &&& is_name_array(h, c.induct.ctors, all_ctor_names)
        },
        BodyTree::Constructor { inductive_name, ctor_idx, num_params, num_fields } => {
            &&& c.kind == 6
            &&& is_name(h, c.ctor.induct, inductive_name)
            &&& ctor_idx == c.ctor.cidx % 65536
            &&& num_params == c.ctor.num_params % 65536
            &&& num_fields == c.ctor.num_fields % 65536
        },
        BodyTree::Recursor {
            all_inductives,
            num_params,
            num_indices,
            num_motives,
            num_minors,
            rec_rules,
            is_k,
        } => {
            &&& c.kind == 7
            &&& is_name_array(h, c.rec.all, all_inductives)
            &&& num_params == c.rec.num_params % 65536
            &&& num_indices == c.rec.num_indices % 65536
            &&& num_motives == c.rec.num_motives % 65536
            &&& num_minors == c.rec.num_minors % 65536
            &&& tells_rules(h, nats, c.rec.rules@, rec_rules)
            &&& is_k <==> c.rec.k != 0
        },
        _ => false,
    }
}

/// Law: the value of a constant is the expression in the first field of its value
/// object, and nothing else.
pub proof fn law_value_read(h: &Heap, nats: bool, c: ConstantInfo, v: ExprTree)
    ensures
        decode_value(h, nats, c) == Ok::<ExprTree, ExtractError>(v) <==> holds_value(
            h,
            nats,
            c.value,
            v,
        ),
{
    if c.value < h.objs@.len() {
        if let LeanObj::Boxed { fields, .. } = h.objs@[c.value as int] {
            law_expr_read(h, nats, fields@[0], v);
        }
    }
}

proof fn lemma_rule_read(h: &Heap, nats: bool, r: RuleInfo, t: RuleTree)
    ensures
        decode_rule(h, nats, r) == Ok::<RuleTree, ExtractError>(t) <==> tells_rule(h, nats, r, t),
{
    law_name_read(h, r.ctor, t.ctor_name);
    law_expr_read(h, nats, r.rhs, t.rhs);
}

/// Law: the rules of a recursor are those that its record lists, one for one and in
/// order, each with its own constructor, number of fields and right-hand side.
pub proof fn law_rules_read(h: &Heap, nats: bool, rs: Seq<RuleInfo>, ts: Seq<RuleTree>)
    ensures
        decode_rules(h, nats, rs) == Ok::<Seq<RuleTree>, ExtractError>(ts) <==> tells_rules(
            h,
            nats,
            rs,
            ts,
        ),
    decreases rs.len(),
{
    if rs.len() > 0 {
        let n = rs.len() - 1;
        let (rs0, ts0) = (rs.drop_last(), ts.drop_last());
        if ts.len() > 0 {
            law_rules_read(h, nats, rs0, ts0);
            lemma_rule_read(h, nats, rs.last(), ts.last());
            assert(ts0.push(ts.last()) =~= ts);
        }
        if decode_rules(h, nats, rs) == Ok::<Seq<RuleTree>, ExtractError>(ts) {
            let rest = decode_rules(h, nats, rs0)->Ok_0;
            let last = decode_rule(h, nats, rs.last())->Ok_0;
            assert(ts == rest.push(last));
            assert(ts0 =~= rest);
            assert forall|k: int| 0 <= k < ts.len() implies tells_rule(
                h,
                nats,
                rs[k],
                #[trigger] ts[k],
            ) by {
                if k < n {
                    assert(tells_rule(h, nats, rs0[k], ts0[k]));
                }
            }
        }
        if tells_rules(h, nats, rs, ts) {
            assert forall|k: int| 0 <= k < ts0.len() implies tells_rule(
                h,
                nats,
                rs0[k],
                #[trigger] ts0[k],
            ) by {
                assert(tells_rule(h, nats, rs[k], ts[k]));
            }
            assert(tells_rule(h, nats, rs[n], ts[n]));
        }
    } else if ts.len() == 0 {
        assert(ts =~= Seq::<RuleTree>::empty());
    }
}

proof fn lemma_head_read(h: &Heap, nats: bool, c: ConstantInfo, d: DeclTree)
    ensures
        tells_head(h, nats, c, d) <==> {
            &&& crate::decode::decode_name(h, c.name) == Ok::<_, ExtractError>(d.name)
            &&& crate::decode::param_array(h, c.level_params) == Ok::<_, ExtractError>(d.uparams)
            &&& crate::decode::decode_expr(h, nats, c.ty) == Ok::<_, ExtractError>(d.ty)
        },
{
    law_name_read(h, c.name, d.name);
    law_param_array_read(h, c.level_params, d.uparams);
    law_expr_read(h, nats, c.ty, d.ty);
}

/// Law: a constant outside a mutual block is declared as exactly what its record
/// tells, and cannot be declared where its record tells no declaration.
pub proof fn law_singleton_read(h: &Heap, nats: bool, i: usize, c: ConstantInfo, d: DeclTree)
    ensures
        decode_singleton(h, nats, i, c) == Ok::<DeclTree, ExtractError>(d) <==> tells_singleton(
            h,
            nats,
            c,
            d,
        ),
{
    lemma_head_read(h, nats, c, d);
    match d.body {
        BodyTree::Definition { val, .. } => law_value_read(h, nats, c, val),
        BodyTree::Theorem { val } => law_value_read(h, nats, c, val),
        BodyTree::Opaque { val } => law_value_read(h, nats, c, val),
        _ => {},
    }
}

/// Law: a constant in a mutual block is declared as exactly what its record tells,
/// and cannot be declared where its record tells no declaration.
pub proof fn law_member_read(h: &Heap, nats: bool, i: usize, c: ConstantInfo, d: DeclTree)
    ensures
        decode_member(h, nats, i, c) == Ok::<DeclTree, ExtractError>(d) <==> tells_member(
            h,
            nats,
            c,
            d,
        ),
{
    lemma_head_read(h, nats, c, d);
    match d.body {
        BodyTree::Inductive { all_ind_names, all_ctor_names, .. } => {
            law_name_array_read(h, c.induct.all, all_ind_names);
            law_name_array_read(h, c.induct.ctors, all_ctor_names);
        },
        BodyTree::Constructor { inductive_name, .. } => {
            law_name_read(h, c.ctor.induct, inductive_name);
        },
        BodyTree::Recursor { all_inductives, rec_rules, .. } => {
            law_name_array_read(h, c.rec.all, all_inductives);
            law_rules_read(h, nats, c.rec.rules@, rec_rules);
        },
        _ => {},
    }
}

/// Law: a block is declared from all of its constants, each once and in order.
pub proof fn law_members_read(
    h: &Heap,
    nats: bool,
    cs: Seq<ConstantInfo>,
    mem: Seq<usize>,
    ds: Seq<DeclTree>,
)
    ensures
        decode_members(h, nats, cs, mem) == Ok::<Seq<DeclTree>, ExtractError>(ds) <==> (mem.len()
            == ds.len() && forall|k: int|
            0 <= k < ds.len() ==> tells_member(h, nats, cs[mem[k] as int], #[trigger] ds[k])),
    decreases mem.len(),
{
    if mem.len() > 0 {
        let n = mem.len() - 1;
        let (mem0, ds0) = (mem.drop_last(), ds.drop_last());
        if ds.len() > 0 {
            law_members_read(h, nats, cs, mem0, ds0);
            law_member_read(h, nats, mem.last(), cs[mem.last() as int], ds.last());
            assert(ds0.push(ds.last()) =~= ds);
        }
        if decode_members(h, nats, cs, mem) == Ok::<Seq<DeclTree>, ExtractError>(ds) {
            let rest = decode_members(h, nats, cs, mem0)->Ok_0;
            let last = decode_member(h, nats, mem.last(), cs[mem.last() as int])->Ok_0;
            assert(ds == rest.push(last));
            assert(ds0 =~= rest);
            assert forall|k: int| 0 <= k < ds.len() implies tells_member(
                h,
                nats,
                cs[mem[k] as int],
                #[trigger] ds[k],
            ) by {
                if k < n {
                    assert(tells_member(h, nats, cs[mem0[k] as int], ds0[k]));
                }
            }
        }
        if mem.len() == ds.len() && forall|k: int|
            0 <= k < ds.len() ==> tells_member(h, nats, cs[mem[k] as int], #[trigger] ds[k]) {
            assert forall|k: int| 0 <= k < ds0.len() implies tells_member(
                h,
                nats,
                cs[mem0[k] as int],
                #[trigger] ds0[k],
            ) by {
                assert(tells_member(h, nats, cs[mem[k] as int], ds[k]));
            }
            assert(tells_member(h, nats, cs[mem[n] as int], ds[n]));
        }
    } else if ds.len() == 0 {
        assert(ds =~= Seq::<DeclTree>::empty());
    }
}

/// The string objects spell these texts, one for one and in order.
pub open spec fn spell(h: &Heap, os: Seq<usize>, ts: Seq<Seq<char>>) -> bool {
    os.len() == ts.len() && forall|i: int|
        0 <= i < ts.len() ==> spells(h, os[i], #[trigger] ts[i])
}

/// The record tells this metadata.
pub open spec fn tells_meta(h: &Heap, c: ConstantInfo, m: Meta) -> bool {
    &&& spells(h, c.name_text, m.name)
    &&& m.kind == c.kind
    &&& spell(h, c.deps@, m.deps)
    &&& spell(h, c.induct.all_texts@, m.induct_all)
    &&& spell(h, c.rec.all_texts@, m.rec_all)
    &&& if c.kind == 6 {
        spells(h, c.ctor.induct_text, m.induct)
    } else {
        m.induct.len() == 0
    }
}

/// Law: reading string objects gives the texts of all of them, one for one and in
/// order.
pub proof fn law_texts_read(h: &Heap, os: Seq<usize>, ts: Seq<Seq<char>>)
    ensures
        decode_texts(h, os) == Ok::<Seq<Seq<char>>, ExtractError>(ts) <==> spell(h, os, ts),
    decreases os.len(),
{
    if os.len() > 0 {
        let n = os.len() - 1;
        let (os0, ts0) = (os.drop_last(), ts.drop_last());
        if ts.len() > 0 {
            law_texts_read(h, os0, ts0);
            law_text_read(h, os.last(), ts.last());
            assert(ts0.push(ts.last()) =~= ts);
        }
        if decode_texts(h, os) == Ok::<Seq<Seq<char>>, ExtractError>(ts) {
            let rest = decode_texts(h, os0)->Ok_0;
            let last = h.text(os.last())->Ok_0;
            assert(ts == rest.push(last));
            assert(ts0 =~= rest);
            assert forall|i: int| 0 <= i < ts.len() implies spells(h, os[i], #[trigger] ts[i]) by {
                if i < n {
                    assert(spells(h, os0[i], ts0[i]));
                }
            }
        }
        if spell(h, os, ts) {
            assert forall|i: int| 0 <= i < ts0.len() implies spells(
                h,
                os0[i],
                #[trigger] ts0[i],
            ) by {
                assert(spells(h, os[i], ts[i]));
            }
            assert(spells(h, os[n], ts[n]));
        }
    } else if ts.len() == 0 {
        assert(ts =~= Seq::<Seq<char>>::empty());
    }
}

proof fn lemma_meta_read(h: &Heap, c: ConstantInfo, m: Meta)
    ensures
        crate::snapshot::decode_meta(h, c) == Ok::<Meta, ExtractError>(m) <==> tells_meta(h, c, m),
{
    law_text_read(h, c.name_text, m.name);
    law_texts_read(h, c.deps@, m.deps);
    law_texts_read(h, c.induct.all_texts@, m.induct_all);
    law_texts_read(h, c.rec.all_texts@, m.rec_all);
    law_text_read(h, c.ctor.induct_text, m.induct);
    if m.induct.len() == 0 {
        assert(m.induct =~= Seq::<char>::empty());
    }
}

/// Law: the metadata of the constants is what their records tell, one for one and in
/// order; every dependency that a record lists is in it.
pub proof fn law_metas_read(h: &Heap, cs: Seq<ConstantInfo>, ms: Seq<Meta>)
    ensures
        decode_metas(h, cs) == Ok::<Seq<Meta>, ExtractError>(ms) <==> (cs.len() == ms.len()
            && forall|i: int| 0 <= i < ms.len() ==> tells_meta(h, cs[i], #[trigger] ms[i])),
    decreases cs.len(),
{
    if cs.len() > 0 {
        let n = cs.len() - 1;
        let (cs0, ms0) = (cs.drop_last(), ms.drop_last());
        if ms.len() > 0 {
            law_metas_read(h, cs0, ms0);
            lemma_meta_read(h, cs.last(), ms.last());
            assert(ms0.push(ms.last()) =~= ms);
        }
        if decode_metas(h, cs) == Ok::<Seq<Meta>, ExtractError>(ms) {
            let rest = decode_metas(h, cs0)->Ok_0;
            let last = crate::snapshot::decode_meta(h, cs.last())->Ok_0;
            assert(ms == rest.push(last));
            assert(ms0 =~= rest);
            assert forall|i: int| 0 <= i < ms.len() implies tells_meta(
                h,
                cs[i],
                #[trigger] ms[i],
            ) by {
                if i < n {
                    assert(tells_meta(h, cs0[i], ms0[i]));
                }
            }
        }
        if cs.len() == ms.len() && forall|i: int|
            0 <= i < ms.len() ==> tells_meta(h, cs[i], #[trigger] ms[i]) {
            assert forall|i: int| 0 <= i < ms0.len() implies tells_meta(
                h,
                cs0[i],
                #[trigger] ms0[i],
            ) by {
                assert(tells_meta(h, cs[i], ms[i]));
            }
            assert(tells_meta(h, cs[n], ms[n]));
        }
    } else if ms.len() == 0 {
        assert(ms =~= Seq::<Meta>::empty());
    }
}

/// Law: the metadata that is held is the metadata that is spoken of, field by field.
pub proof fn law_metas_seen(ms: Seq<ConstMeta>, i: int)
    requires
        0 <= i < ms.len(),
    ensures
        metas_of(ms).len() == ms.len(),
        ({
            let m = metas_of(ms)[i];
            &&& m.name == ms[i].name@
            &&& m.kind == ms[i].kind
            &&& m.induct == ms[i].induct@
            &&& m.deps.len() == ms[i].deps@.len()
            &&& m.induct_all.len() == ms[i].induct_all@.len()
            &&& m.rec_all.len() == ms[i].rec_all@.len()
            &&& forall|k: int|
                0 <= k < m.deps.len() ==> (#[trigger] m.deps[k]) == ms[i].deps@[k]@
            &&& forall|k: int|
                0 <= k < m.induct_all.len() ==> (#[trigger] m.induct_all[k])
                    == ms[i].induct_all@[k]@
            &&& forall|k: int|
                0 <= k < m.rec_all.len() ==> (#[trigger] m.rec_all[k]) == ms[i].rec_all@[k]@
        }),
{
}

/// Law: texts are seen one for one and in order.
pub proof fn law_texts_seen(v: Seq<String>, i: int)
    requires
        0 <= i < v.len(),
    ensures
        texts(v).len() == v.len(),
        texts(v)[i] == v[i]@,
{
}

/// Law: a constant is refused for the first of its name, universe parameters and type
/// that cannot be read, whether it is in a block or not.
pub proof fn law_first_field_refused(
    h: &Heap,
    nats: bool,
    i: usize,
    c: ConstantInfo,
    e: ExtractError,
)
    ensures
        crate::decode::decode_name(h, c.name) == Err::<crate::tree::NameTree, ExtractError>(e) ==> {
            &&& decode_singleton(h, nats, i, c) == Err::<DeclTree, _>(e)
            &&& decode_member(h, nats, i, c) == Err::<DeclTree, _>(e)
        },
        crate::decode::decode_name(h, c.name) is Ok && crate::decode::param_array(
            h,
            c.level_params,
        ) == Err::<Seq<crate::tree::LevelTree>, ExtractError>(e) ==> {
            &&& decode_singleton(h, nats, i, c) == Err::<DeclTree, _>(e)
            &&& decode_member(h, nats, i, c) == Err::<DeclTree, _>(e)
        },
        crate::decode::decode_name(h, c.name) is Ok && crate::decode::param_array(
            h,
            c.level_params,
        ) is Ok && crate::decode::decode_expr(h, nats, c.ty) == Err::<ExprTree, ExtractError>(e) ==> {
            &&& decode_singleton(h, nats, i, c) == Err::<DeclTree, _>(e)
            &&& decode_member(h, nats, i, c) == Err::<DeclTree, _>(e)
        },
{
}

/// Law: a constant whose name, universe parameters and type can be read is refused
/// for a kind that has no place where it stands, or for a value that is not there.
pub proof fn law_kinds_refused(h: &Heap, nats: bool, i: usize, c: ConstantInfo, d: DeclTree)
    requires
        tells_head(h, nats, c, d),
    ensures
        c.kind > 4 ==> decode_singleton(h, nats, i, c) == Err::<DeclTree, _>(
            ExtractError::SingletonKind { constant: i, kind: c.kind },
        ),
        c.kind < 5 || c.kind > 7 ==> decode_member(h, nats, i, c) == Err::<DeclTree, _>(
            ExtractError::BlockKind { constant: i, kind: c.kind },
        ),
        1 <= c.kind <= 3 && crate::layout::is_scalar(h, c.value) ==> decode_singleton(
            h,
            nats,
            i,
            c,
        ) == Err::<DeclTree, _>(ExtractError::NoValue),
{
    lemma_head_read(h, nats, c, d);
}

} // verus!
