//! Walks the constants of a unit and submits their declarations to a builder.
use std::collections::HashSet;
use vstd::prelude::*;

use crate::builder::Builder;
use crate::builder::ConstructorInput;
use crate::builder::InductiveInput;
use crate::builder::RecRuleInput;
use crate::builder::RecursorInput;
use crate::dag::LeanDag;
use crate::declare::addable;
use crate::declare::arranged;
use crate::declare::block_added;
use crate::declare::decode_member;
use crate::declare::decode_members;
use crate::declare::decode_rules;
use crate::declare::decode_singleton;
use crate::declare::decode_value;
use crate::declare::entries_of;
use crate::declare::hint_of;
use crate::declare::low_bits;
use crate::declare::parts_from;
use crate::declare::place;
use crate::declare::taken;
use crate::declare::unit_added;
use crate::declare::units_added;
use crate::declare::with_body;
use crate::declare::with_place;
use crate::declare::Entry;
use crate::decode::decode_expr;
use crate::decode::decode_name;
use crate::decode::param_array;
use crate::env::declares;
use crate::env::has_rules;
use crate::env::names_of;
use crate::env::rank;
use crate::env::rules_of;
use crate::env::Declar;
use crate::env::DeclarInfo;
use crate::heap::ExtractError;
use crate::heap::Heap;
use crate::heap::LeanObj;
use crate::node::ExprPtr;
use crate::node::NamePtr;
use crate::node::ReducibilityHint;
use crate::parts::body_parts;
use crate::parts::decl_parts;
use crate::parts::decls_parts;
use crate::parts::expr_parts;
use crate::parts::head_parts;
use crate::parts::lemma_adds_both;
use crate::parts::lemma_adds_more;
use crate::parts::lemma_adds_nothing;
use crate::parts::list_parts;
use crate::parts::name_parts;
use crate::parts::names_parts;
use crate::parts::rule_parts;
use crate::parts::rules_parts;
use crate::parts::Part;
use crate::snapshot::ConstantInfo;
use crate::snapshot::RuleInfo;
use crate::snapshot::KIND_AXIOM;
use crate::snapshot::KIND_CTOR;
use crate::snapshot::KIND_DEF;
use crate::snapshot::KIND_INDUCT;
use crate::snapshot::KIND_OPAQUE;
use crate::snapshot::KIND_QUOT;
use crate::snapshot::KIND_REC;
use crate::snapshot::KIND_THM;
use crate::tree::BodyTree;
use crate::tree::DeclTree;
use crate::tree::ExprTree;
use crate::tree::LevelTree;
use crate::tree::NameTree;
use crate::tree::RuleTree;
use crate::units::groups_of;
use crate::units::Unit;
use crate::walk::Walker;

verus! {

broadcast use vstd::std_specs::hash::group_hash_axioms;

/// The entries of what was built so far.
pub open spec fn entries(b: Builder) -> Seq<Entry> {
    entries_of(b.dag(), b.declars(), b.blocks())
}

/// A builder that only grew stands for the same environment.
proof fn lemma_entries_kept(before: Builder, after: Builder)
    requires
        before.wf(),
        after.only_grew(&before),
    ensures
        entries(after) == entries(before),
{
    before.facts();
    assert forall|i: int| 0 <= i < before.declars().len() implies entries(after)[i] == entries(
        before,
    )[i] by {
        crate::env::lemma_declar_kept(before.declars()[i], before.dag(), after.dag());
    }
    assert(entries(after) =~= entries(before));
}

/// A name is taken if and only if it is declared.
proof fn lemma_taken(b: Builder, p: NamePtr)
    requires
        b.wf(),
        b.dag().has_name(p),
    ensures
        taken(entries(b), b.dag().name(p)) == declares(b.declars(), p),
{
    b.facts();
    let d = b.dag();
    if taken(entries(b), d.name(p)) {
        let i = choose|i: int|
            0 <= i < entries(b).len() && (#[trigger] entries(b)[i]).decl.name == d.name(p);
        assert(b.declars()[i].ok(d));
        crate::dag::law_equal_names_share(d, b.declars()[i].info_spec().name, p);
    }
    if declares(b.declars(), p) {
        let i = choose|i: int|
            0 <= i < b.declars().len() && (#[trigger] b.declars()[i]).info_spec().name == p;
        assert(entries(b)[i].decl.name == d.name(p));
    }
}

/// The number's low 16 bits.
fn low16(n: u32) -> (r: u16)
    ensures
        r == low_bits(n),
{
    (n % 0x1_0000) as u16
}

/// How eagerly the definition is unfolded.
pub fn def_hint(c: &ConstantInfo) -> (hint: ReducibilityHint)
    ensures
        hint == hint_of(*c),
{
    match c.hint_kind {
        0 => ReducibilityHint::Opaque,
        1 => ReducibilityHint::Abbrev,
        _ => ReducibilityHint::Regular(low16(c.hint_height)),
    }
}

/// The parts of what every declaration has.
pub open spec fn info_parts(d: LeanDag, i: DeclarInfo) -> Set<Part> {
    head_parts(d.name(i.name), d.levels_at(i.uparams), d.expr(i.ty))
}

impl<'a> Walker<'a> {
    /// The result is what every declaration has, or the error that comes before the
    /// body is looked at.
    pub open spec fn is_info(&self, r: Result<DeclarInfo, ExtractError>, c: ConstantInfo) -> bool {
        let h = self.heap();
        let d = self.b().dag();
        match r {
            Ok(i) => {
                &&& i.ok(d)
                &&& decode_name(h, c.name) == Ok::<NameTree, ExtractError>(d.name(i.name))
                &&& param_array(h, c.level_params) == Ok::<Seq<LevelTree>, ExtractError>(
                    d.levels_at(i.uparams),
                )
                &&& decode_expr(h, self.nats(), c.ty) == Ok::<ExprTree, ExtractError>(d.expr(i.ty))
            },
            Err(e) => forall|body: Result<BodyTree, ExtractError>| #[trigger]
                with_body(h, self.nats(), c, body) == Err::<DeclTree, ExtractError>(e),
        }
    }

    /// Name, universe parameters and type of a constant.
    fn read_info(&mut self, c: &ConstantInfo) -> (r: Result<DeclarInfo, ExtractError>)
        requires
            old(self).wf(),
        ensures
            final(self).wf(),
            final(self).walked(old(self)),
            final(self).is_info(r, *c),
            r is Ok ==> final(self).grew_by(
                old(self),
                info_parts(final(self).b().dag(), r->Ok_0),
            ),
    {
        let name = self.walk_name(c.name)?;
        let ghost d1 = self.b().dag();
        let uparams = self.uparams(c.level_params)?;
        let ghost d2 = self.b().dag();
        let ty = self.walk_expr(c.ty)?;
        let info = DeclarInfo { name, uparams, ty };
        proof {
            let (d0, d3) = (old(self).b().dag(), self.b().dag());
            let all = info_parts(d3, info);
            assert(d3.name(name) == d1.name(name));
            assert(d3.levels_at(uparams) == d2.levels_at(uparams));
            lemma_adds_both(
                d0,
                d1,
                d2,
                name_parts(d1.name(name)),
                list_parts(d2.levels_at(uparams)),
                all,
            );
            lemma_adds_both(d0, d2, d3, all, expr_parts(d3.expr(ty)), all);
        }
        Ok(info)
    }

    /// The value of a definition, theorem or opaque constant.
    pub fn value_of(&mut self, c: &ConstantInfo) -> (r: Result<ExprPtr, ExtractError>)
        requires
            old(self).wf(),
        ensures
            final(self).wf(),
            final(self).walked(old(self)),
            final(self).is_expr(r, decode_value(old(self).heap(), old(self).nats(), *c)),
            r is Ok ==> final(self).grew_by(
                old(self),
                expr_parts(decode_value(old(self).heap(), old(self).nats(), *c)->Ok_0),
            ),
    {
        let h = self.heap;
        if c.value >= h.objs.len() {
            return Err(ExtractError::Malformed(c.value));
        }
        if let LeanObj::Scalar(_) = &h.objs[c.value] {
            return Err(ExtractError::NoValue);
        }
        let o: usize = h.child(c.value, 0)?;
        self.walk_expr(o)
    }

    /// What the submission of one declaration outside a block does.
    pub open spec fn submitted_one(
        &self,
        before: &Walker<'a>,
        d: Result<DeclTree, ExtractError>,
        r: Result<(), ExtractError>,
    ) -> bool {
        let env = entries(before.b());
        match d {
            Err(e) => r == Err::<(), ExtractError>(e),
            Ok(d) => if addable(env, seq![d]) {
                r is Ok && entries(self.b()) == env.push(Entry { decl: d, block: None })
            } else {
                r == Err::<(), ExtractError>(ExtractError::Duplicate)
            },
        }
    }

    /// Walk a constant outside a mutual block and submit its declaration. `i` is the
    /// position of the constant. On an error nothing is submitted.
    #[verifier::rlimit(40)]
    pub fn emit_singleton(&mut self, i: usize, c: &ConstantInfo) -> (r: Result<(), ExtractError>)
        requires
            old(self).wf(),
        ensures
            final(self).wf(),
            final(self).heap() == old(self).heap(),
            final(self).b().config() == old(self).b().config(),
            final(self).submitted_one(
                old(self),
                decode_singleton(old(self).heap(), old(self).nats(), i, *c),
                r,
            ),
            r is Err ==> final(self).walked(old(self)),
            old(self).b().dag().kept_in(final(self).b().dag()),
            final(self).remembers(old(self)),
            r is Ok ==> final(self).grew_by(
                old(self),
                decl_parts(decode_singleton(old(self).heap(), old(self).nats(), i, *c)->Ok_0),
            ),
    {
        let info = self.read_info(c)?;
        let ghost d1 = self.b().dag();
        proof {
            lemma_adds_nothing(d1, Set::empty());
        }
        let x = if c.kind == KIND_AXIOM {
            Declar::Axiom { info }
        } else if c.kind == KIND_QUOT {
            Declar::Quot { info }
        } else if c.kind == KIND_THM {
            let val = self.value_of(c)?;
            Declar::Theorem { info, val }
        } else if c.kind == KIND_OPAQUE {
            let val = self.value_of(c)?;
            Declar::Opaque { info, val }
        } else if c.kind == KIND_DEF {
            let val = self.value_of(c)?;
            Declar::Definition { info, val, hint: def_hint(c) }
        } else {
            return Err(ExtractError::SingletonKind { constant: i, kind: c.kind });
        };
        proof {
            let d2 = self.b().dag();
            lemma_entries_kept(old(self).b(), self.b());
            assert(info_parts(d2, info) == info_parts(d1, info));
            let all = decl_parts(x.tree(d2));
            lemma_adds_both(
                old(self).b().dag(),
                d1,
                d2,
                info_parts(d1, info),
                body_parts(x.body_tree(d2)),
                all,
            );
        }
        self.submit(x)
    }

    /// Submit a declaration outside a mutual block, unless its name is taken.
    fn submit(&mut self, x: Declar) -> (r: Result<(), ExtractError>)
        requires
            old(self).wf(),
            x.ok(old(self).b().dag()),
            rank(x) == 3,
        ensures
            final(self).wf(),
            final(self).heap() == old(self).heap(),
            final(self).b().config() == old(self).b().config(),
            final(self).submitted_one(old(self), Ok(x.tree(old(self).b().dag())), r),
            r is Err ==> final(self).walked(old(self)),
            final(self).b().dag() == old(self).b().dag(),
            final(self).expr_memo == old(self).expr_memo,
    {
        let name = x.info().name;
        let ghost env = entries(self.b());
        let ghost d = x.tree(self.b().dag());
        proof {
            lemma_taken(self.b(), name);
            assert(seq![d][0] == d);
            assert(addable(env, seq![d]) == !taken(env, d.name));
        }
        if self.b.is_declared(name) {
            return Err(ExtractError::Duplicate);
        }
        match x {
            Declar::Axiom { info } => self.b.add_axiom(info.name, info.uparams, info.ty),
            Declar::Quot { info } => self.b.add_quot(info.name, info.uparams, info.ty),
            Declar::Theorem { info, val } => self.b.add_theorem(
                info.name,
                info.uparams,
                info.ty,
                val,
            ),
            Declar::Definition { info, val, hint } => self.b.add_definition(
                info.name,
                info.uparams,
                info.ty,
                val,
                hint,
            ),
            Declar::Opaque { info, val } => self.b.add_opaque(
                info.name,
                info.uparams,
                info.ty,
                val,
            ),
            _ => {},
        }
        assert(entries(self.b()) =~= env.push(Entry { decl: d, block: None }));
        Ok(())
    }
}

/// A constant of a mutual block, ready to be submitted.
pub enum MemberInput {
    Inductive(InductiveInput),
    Constructor(ConstructorInput),
    Recursor(RecursorInput),
}

/// The declaration that the input of a recursor stands for.
pub open spec fn recursor_tree(x: RecursorInput, d: LeanDag) -> DeclTree {
    DeclTree {
        name: d.name(x.name),
        uparams: d.levels_at(x.uparams),
        ty: d.expr(x.ty),
        body: BodyTree::Recursor {
            all_inductives: names_of(d, x.all_inductives@),
            num_params: x.num_params,
            num_indices: x.num_indices,
            num_motives: x.num_motives,
            num_minors: x.num_minors,
            rec_rules: rules_of(d, x.rules()),
            is_k: x.is_k,
        },
    }
}

impl MemberInput {
    pub open spec fn ok(self, d: LeanDag) -> bool {
        match self {
            MemberInput::Inductive(x) => x.ok(d),
            MemberInput::Constructor(x) => x.ok(d),
            MemberInput::Recursor(x) => x.ok(d),
        }
    }

    /// The declaration that the input stands for.
    pub open spec fn tree(self, d: LeanDag) -> DeclTree {
        match self {
            MemberInput::Inductive(x) => x.declar().tree(d),
            MemberInput::Constructor(x) => x.declar().tree(d),
            MemberInput::Recursor(x) => recursor_tree(x, d),
        }
    }
}

proof fn lemma_recursor_kept(x: RecursorInput, d: LeanDag, e: LeanDag)
    requires
        x.ok(d),
        d.kept_in(e),
    ensures
        x.ok(e),
        recursor_tree(x, e) == recursor_tree(x, d),
{
    assert(e.has_name(x.name) && e.has_levels(x.uparams) && e.has_expr(x.ty));
    assert(names_of(e, x.all_inductives@) =~= names_of(d, x.all_inductives@));
    assert(rules_of(e, x.rules()) =~= rules_of(d, x.rules()));
}

impl<'a> Walker<'a> {
    /// The result are the rules, or the same error.
    pub open spec fn are_rules(
        &self,
        r: Result<Vec<RecRuleInput>, ExtractError>,
        t: Result<Seq<RuleTree>, ExtractError>,
    ) -> bool {
        match (r, t) {
            (Ok(v), Ok(ts)) => {
                let rs = v@.map_values(|x: RecRuleInput| x.rule());
                has_rules(self.b().dag(), rs) && rules_of(self.b().dag(), rs) == ts
            },
            (Err(e), Err(f)) => e == f,
            _ => false,
        }
    }

    /// The computation rules of a recursor.
    fn read_rules(&mut self, rules: &Vec<RuleInfo>) -> (r: Result<Vec<RecRuleInput>, ExtractError>)
        requires
            old(self).wf(),
        ensures
            final(self).wf(),
            final(self).walked(old(self)),
            final(self).are_rules(r, decode_rules(old(self).heap(), old(self).nats(), rules@)),
            r is Ok ==> final(self).grew_by(
                old(self),
                rules_parts(decode_rules(old(self).heap(), old(self).nats(), rules@)->Ok_0),
            ),
    {
        let mut out: Vec<RecRuleInput> = Vec::new();
        let n: usize = rules.len();
        let mut i: usize = 0;
        let ghost h = self.heap();
        let ghost nats = self.nats();
        proof {
            assert(rules@.take(0) =~= Seq::<RuleInfo>::empty());
            assert(rules_of(
                self.b().dag(),
                out@.map_values(|x: RecRuleInput| x.rule()),
            ) =~= Seq::<RuleTree>::empty());
            lemma_adds_nothing(
                self.b().dag(),
                rules_parts(rules_of(self.b().dag(), out@.map_values(|x: RecRuleInput| x.rule()))),
            );
        }
        while i < n
            invariant
                self.grew_by(
                    old(self),
                    rules_parts(
                        rules_of(self.b().dag(), out@.map_values(|x: RecRuleInput| x.rule())),
                    ),
                ),
                n == rules@.len(),
                i <= n,
                h == old(self).heap(),
                nats == old(self).nats(),
                self.wf(),
                self.walked(old(self)),
                has_rules(self.b().dag(), out@.map_values(|x: RecRuleInput| x.rule())),
                decode_rules(h, nats, rules@.take(i as int)) == Ok::<Seq<RuleTree>, ExtractError>(
                    rules_of(self.b().dag(), out@.map_values(|x: RecRuleInput| x.rule())),
                ),
            decreases n - i,
        {
            let ghost d0 = self.b().dag();
            let ghost rs0 = out@.map_values(|x: RecRuleInput| x.rule());
            proof {
                assert(rules@.take(i + 1).drop_last() =~= rules@.take(i as int));
            }
            match self.read_rule(&rules[i]) {
                Ok(rule) => {
                    out.push(rule);
                    proof {
                        let d1 = self.b().dag();
                        let rs1 = out@.map_values(|x: RecRuleInput| x.rule());
                        assert(rs1 =~= rs0.push(rule.rule()));
                        assert(rules_of(d1, rs0) =~= rules_of(d0, rs0));
                        assert(rules_of(d1, rs1) =~= rules_of(d1, rs0).push(
                            rule_tree(d1, rule),
                        ));
                        assert(rules_of(d1, rs1).drop_last() =~= rules_of(d0, rs0));
                        lemma_adds_both(
                            old(self).b().dag(),
                            d0,
                            d1,
                            rules_parts(rules_of(d0, rs0)),
                            rule_parts(rule_tree(d1, rule)),
                            rules_parts(rules_of(d1, rs1)),
                        );
                    }
                },
                Err(e) => {
                    proof {
                        lemma_rules_stop(h, nats, rules@, i + 1, e);
                    }
                    return Err(e);
                },
            }
            i = i + 1;
        }
        assert(rules@.take(n as int) =~= rules@);
        Ok(out)
    }

    fn read_rule(&mut self, rule: &RuleInfo) -> (r: Result<RecRuleInput, ExtractError>)
        requires
            old(self).wf(),
        ensures
            final(self).wf(),
            final(self).walked(old(self)),
            match (r, crate::declare::decode_rule(old(self).heap(), old(self).nats(), *rule)) {
                (Ok(x), Ok(t)) => {
                    let d = final(self).b().dag();
                    &&& d.has_name(x.ctor_name) && d.has_expr(x.rhs) && rule_tree(d, x) == t
                    &&& final(self).grew_by(old(self), rule_parts(t))
                },
                (Err(e), Err(f)) => e == f,
                _ => false,
            },
    {
        let ctor_name = self.walk_name(rule.ctor)?;
        let ghost d1 = self.b().dag();
        let rhs = self.walk_expr(rule.rhs)?;
        let x = RecRuleInput { ctor_name, num_fields: low16(rule.num_fields), rhs };
        proof {
            let (d0, d2) = (old(self).b().dag(), self.b().dag());
            assert(d2.name(ctor_name) == d1.name(ctor_name));
            lemma_adds_both(
                d0,
                d1,
                d2,
                name_parts(d1.name(ctor_name)),
                expr_parts(d2.expr(rhs)),
                rule_parts(rule_tree(d2, x)),
            );
        }
        Ok(x)
    }

    /// The result is the member, or the same error.
    pub open spec fn is_member(
        &self,
        r: Result<MemberInput, ExtractError>,
        t: Result<DeclTree, ExtractError>,
    ) -> bool {
        match (r, t) {
            (Ok(m), Ok(d)) => m.ok(self.b().dag()) && m.tree(self.b().dag()) == d,
            (Err(e), Err(f)) => e == f,
            _ => false,
        }
    }

    /// Walk a constant of a mutual block. `i` is the position of the constant.
    #[verifier::rlimit(40)]
    fn read_member(&mut self, i: usize, c: &ConstantInfo) -> (r: Result<MemberInput, ExtractError>)
        requires
            old(self).wf(),
        ensures
            final(self).wf(),
            final(self).walked(old(self)),
            final(self).is_member(r, decode_member(old(self).heap(), old(self).nats(), i, *c)),
            r is Ok ==> final(self).grew_by(
                old(self),
                decl_parts(decode_member(old(self).heap(), old(self).nats(), i, *c)->Ok_0),
            ),
    {
        let info = self.read_info(c)?;
        let ghost d0 = self.b().dag();
        let (name, uparams, ty) = (info.name, info.uparams, info.ty);
        if c.kind == KIND_INDUCT {
            let all_ind_names = self.walk_name_array(c.induct.all)?;
            let ghost d1 = self.b().dag();
            let all_ctor_names = self.walk_name_array(c.induct.ctors)?;
            proof {
                let d2 = self.b().dag();
                assert(names_of(d2, all_ind_names@) =~= names_of(d1, all_ind_names@));
            }
            let x = InductiveInput {
                name,
                uparams,
                ty,
                is_recursive: c.induct.is_rec != 0,
                is_nested: c.induct.num_nested > 0,
                num_params: low16(c.induct.num_params),
                num_indices: low16(c.induct.num_indices),
                all_ind_names,
                all_ctor_names,
            };
            proof {
                let d2 = self.b().dag();
                let all = decl_parts(x.declar().tree(d2));
                assert(info_parts(d2, info) == info_parts(d0, info));
                lemma_adds_both(
                    old(self).b().dag(),
                    d0,
                    d1,
                    info_parts(d0, info),
                    names_parts(names_of(d1, all_ind_names@)),
                    all,
                );
                lemma_adds_both(
                    old(self).b().dag(),
                    d1,
                    d2,
                    all,
                    names_parts(names_of(d2, all_ctor_names@)),
                    all,
                );
            }
            Ok(MemberInput::Inductive(x))
        } else if c.kind == KIND_CTOR {
            let inductive_name = self.walk_name(c.ctor.induct)?;
            let x = ConstructorInput {
                name,
                uparams,
                ty,
                inductive_name,
                ctor_idx: low16(c.ctor.cidx),
                num_params: low16(c.ctor.num_params),
                num_fields: low16(c.ctor.num_fields),
            };
            proof {
                let d1 = self.b().dag();
                assert(info_parts(d1, info) == info_parts(d0, info));
                lemma_adds_both(
                    old(self).b().dag(),
                    d0,
                    d1,
                    info_parts(d0, info),
                    name_parts(d1.name(inductive_name)),
                    decl_parts(x.declar().tree(d1)),
                );
            }
            Ok(MemberInput::Constructor(x))
        } else if c.kind == KIND_REC {
            let all_inductives = self.walk_name_array(c.rec.all)?;
            let ghost d1 = self.b().dag();
            let rec_rules = self.read_rules(&c.rec.rules)?;
            proof {
                let d2 = self.b().dag();
                assert(names_of(d2, all_inductives@) =~= names_of(d1, all_inductives@));
            }
            let x = RecursorInput {
                name,
                uparams,
                ty,
                all_inductives,
                num_params: low16(c.rec.num_params),
                num_indices: low16(c.rec.num_indices),
                num_motives: low16(c.rec.num_motives),
                num_minors: low16(c.rec.num_minors),
                rec_rules,
                is_k: c.rec.k != 0,
            };
            proof {
                let d2 = self.b().dag();
                let all = decl_parts(recursor_tree(x, d2));
                assert(info_parts(d2, info) == info_parts(d0, info));
                lemma_adds_both(
                    old(self).b().dag(),
                    d0,
                    d1,
                    info_parts(d0, info),
                    names_parts(names_of(d1, all_inductives@)),
                    all,
                );
                lemma_adds_both(
                    old(self).b().dag(),
                    d1,
                    d2,
                    all,
                    rules_parts(rules_of(d2, x.rules())),
                    all,
                );
            }
            Ok(MemberInput::Recursor(x))
        } else {
            Err(ExtractError::BlockKind { constant: i, kind: c.kind })
        }
    }
}

/// The rule that an input stands for.
pub open spec fn rule_tree(d: LeanDag, x: RecRuleInput) -> RuleTree {
    RuleTree { ctor_name: d.name(x.ctor_name), num_fields: x.num_fields, rhs: d.expr(x.rhs) }
}

/// The first rule that cannot be decoded decides.
proof fn lemma_rules_stop(h: &Heap, nats: bool, rs: Seq<RuleInfo>, n: int, e: ExtractError)
    requires
        0 < n <= rs.len(),
        decode_rules(h, nats, rs.take(n)) == Err::<Seq<RuleTree>, ExtractError>(e),
    ensures
        decode_rules(h, nats, rs) == Err::<Seq<RuleTree>, ExtractError>(e),
    decreases rs.len(),
{
    if n == rs.len() {
        assert(rs.take(n) =~= rs);
    } else {
        assert(rs.drop_last().take(n) =~= rs.take(n));
        lemma_rules_stop(h, nats, rs.drop_last(), n, e);
    }
}

/// The members of a block, sorted by kind.
pub struct BlockInput {
    pub inds: Vec<InductiveInput>,
    pub ctors: Vec<ConstructorInput>,
    pub recs: Vec<RecursorInput>,
}

impl BlockInput {
    pub open spec fn ok(self, d: LeanDag) -> bool {
        &&& forall|k: int| 0 <= k < self.inds@.len() ==> (#[trigger] self.inds@[k]).ok(d)
        &&& forall|k: int| 0 <= k < self.ctors@.len() ==> (#[trigger] self.ctors@[k]).ok(d)
        &&& forall|k: int| 0 <= k < self.recs@.len() ==> (#[trigger] self.recs@[k]).ok(d)
    }

    pub open spec fn ind_trees(self, d: LeanDag) -> Seq<DeclTree> {
        self.inds@.map_values(|x: InductiveInput| x.declar().tree(d))
    }

    pub open spec fn ctor_trees(self, d: LeanDag) -> Seq<DeclTree> {
        self.ctors@.map_values(|x: ConstructorInput| x.declar().tree(d))
    }

    pub open spec fn rec_trees(self, d: LeanDag) -> Seq<DeclTree> {
        self.recs@.map_values(|x: RecursorInput| recursor_tree(x, d))
    }

    /// The declarations that the input stands for, in the order in which they are
    /// submitted.
    pub open spec fn trees(self, d: LeanDag) -> Seq<DeclTree> {
        self.ind_trees(d) + self.ctor_trees(d) + self.rec_trees(d)
    }

    /// The names of the declarations, in the same order.
    pub open spec fn names(self) -> Seq<NamePtr> {
        crate::builder::block_names(self.inds@, self.ctors@, self.recs@)
    }

    /// The input holds the declarations `ds`, sorted by kind.
    pub open spec fn holds(self, d: LeanDag, ds: Seq<DeclTree>) -> bool {
        &&& self.ok(d)
        &&& self.ind_trees(d) == with_place(ds, 0)
        &&& self.ctor_trees(d) == with_place(ds, 1)
        &&& self.rec_trees(d) == with_place(ds, 2)
    }

    /// Add a member.
    fn push(&mut self, m: MemberInput)
        ensures
            match m {
                MemberInput::Inductive(x) => {
                    &&& final(self).inds@ == old(self).inds@.push(x)
                    &&& final(self).ctors == old(self).ctors
                    &&& final(self).recs == old(self).recs
                },
                MemberInput::Constructor(x) => {
                    &&& final(self).inds == old(self).inds
                    &&& final(self).ctors@ == old(self).ctors@.push(x)
                    &&& final(self).recs == old(self).recs
                },
                MemberInput::Recursor(x) => {
                    &&& final(self).inds == old(self).inds
                    &&& final(self).ctors == old(self).ctors
                    &&& final(self).recs@ == old(self).recs@.push(x)
                },
            },
    {
        match m {
            MemberInput::Inductive(x) => self.inds.push(x),
            MemberInput::Constructor(x) => self.ctors.push(x),
            MemberInput::Recursor(x) => self.recs.push(x),
        }
    }

    /// The names of the declarations, in the order in which they are submitted.
    fn list_names(&self) -> (names: Vec<NamePtr>)
        ensures
            names@ == self.names(),
    {
        let mut names: Vec<NamePtr> = Vec::new();
        let ghost (a, b, c) = (
            self.inds@.map_values(|x: InductiveInput| x.name),
            self.ctors@.map_values(|x: ConstructorInput| x.name),
            self.recs@.map_values(|x: RecursorInput| x.name),
        );
        let n: usize = self.inds.len();
        let mut i: usize = 0;
        while i < n
            invariant
                n == self.inds@.len(),
                i <= n,
                a == self.inds@.map_values(|x: InductiveInput| x.name),
                names@ == a.take(i as int),
            decreases n - i,
        {
            names.push(self.inds[i].name);
            assert(a.take(i + 1) =~= a.take(i as int).push(a[i as int]));
            i = i + 1;
        }
        let n: usize = self.ctors.len();
        let mut i: usize = 0;
        assert(names@ =~= a + b.take(0));
        while i < n
            invariant
                n == self.ctors@.len(),
                i <= n,
                b == self.ctors@.map_values(|x: ConstructorInput| x.name),
                names@ == a + b.take(i as int),
            decreases n - i,
        {
            names.push(self.ctors[i].name);
            assert(a + b.take(i + 1) =~= (a + b.take(i as int)).push(b[i as int]));
            i = i + 1;
        }
        let n: usize = self.recs.len();
        let mut i: usize = 0;
        assert(names@ =~= a + b + c.take(0));
        while i < n
            invariant
                n == self.recs@.len(),
                i <= n,
                c == self.recs@.map_values(|x: RecursorInput| x.name),
                names@ == a + b + c.take(i as int),
            decreases n - i,
        {
            names.push(self.recs[i].name);
            assert(a + b + c.take(i + 1) =~= (a + b + c.take(i as int)).push(c[i as int]));
            i = i + 1;
        }
        assert(c.take(n as int) =~= c);
        names
    }
}

proof fn lemma_block_input_kept(x: BlockInput, d: LeanDag, e: LeanDag, ds: Seq<DeclTree>)
    requires
        x.holds(d, ds),
        d.kept_in(e),
    ensures
        x.holds(e, ds),
{
    assert forall|k: int| 0 <= k < x.inds@.len() implies (#[trigger] x.inds@[k]).ok(e)
        && x.ind_trees(e)[k] == x.ind_trees(d)[k] by {
        crate::env::lemma_declar_kept(x.inds@[k].declar(), d, e);
    }
    assert forall|k: int| 0 <= k < x.ctors@.len() implies (#[trigger] x.ctors@[k]).ok(e)
        && x.ctor_trees(e)[k] == x.ctor_trees(d)[k] by {
        crate::env::lemma_declar_kept(x.ctors@[k].declar(), d, e);
    }
    assert forall|k: int| 0 <= k < x.recs@.len() implies (#[trigger] x.recs@[k]).ok(e)
        && x.rec_trees(e)[k] == x.rec_trees(d)[k] by {
        lemma_recursor_kept(x.recs@[k], d, e);
    }
    assert(x.ind_trees(e) =~= x.ind_trees(d));
    assert(x.ctor_trees(e) =~= x.ctor_trees(d));
    assert(x.rec_trees(e) =~= x.rec_trees(d));
}

proof fn lemma_member_pushed(
    x: BlockInput,
    y: BlockInput,
    m: MemberInput,
    d: LeanDag,
    ds: Seq<DeclTree>,
)
    requires
        x.holds(d, ds),
        m.ok(d),
        match m {
            MemberInput::Inductive(z) => y.inds@ == x.inds@.push(z) && y.ctors == x.ctors && y.recs
                == x.recs,
            MemberInput::Constructor(z) => y.inds == x.inds && y.ctors@ == x.ctors@.push(z)
                && y.recs == x.recs,
            MemberInput::Recursor(z) => y.inds == x.inds && y.ctors == x.ctors && y.recs@
                == x.recs@.push(z),
        },
    ensures
        y.holds(d, ds.push(m.tree(d))),
{
    let t = m.tree(d);
    let es = ds.push(t);
    assert(es.drop_last() =~= ds);
    assert(es.last() == t);
    match m {
        MemberInput::Inductive(z) => {
            assert(y.ind_trees(d) =~= x.ind_trees(d).push(t));
        },
        MemberInput::Constructor(z) => {
            assert(y.ctor_trees(d) =~= x.ctor_trees(d).push(t));
        },
        MemberInput::Recursor(z) => {
            assert(y.rec_trees(d) =~= x.rec_trees(d).push(t));
        },
    }
}

proof fn lemma_members_stop(
    h: &Heap,
    nats: bool,
    cs: Seq<ConstantInfo>,
    mem: Seq<usize>,
    n: int,
    e: ExtractError,
)
    requires
        0 < n <= mem.len(),
        decode_members(h, nats, cs, mem.take(n)) == Err::<Seq<DeclTree>, ExtractError>(e),
    ensures
        decode_members(h, nats, cs, mem) == Err::<Seq<DeclTree>, ExtractError>(e),
    decreases mem.len(),
{
    if n == mem.len() {
        assert(mem.take(n) =~= mem);
    } else {
        assert(mem.drop_last().take(n) =~= mem.take(n));
        lemma_members_stop(h, nats, cs, mem.drop_last(), n, e);
    }
}

/// The names of a block are free and differ if and only if its declarations can be
/// added.
proof fn lemma_block_addable(b: Builder, x: BlockInput)
    requires
        b.wf(),
        x.ok(b.dag()),
    ensures
        addable(entries(b), x.trees(b.dag())) <==> (x.names().no_duplicates() && forall|k: int|
            0 <= k < x.names().len() ==> !declares(b.declars(), #[trigger] x.names()[k])),
{
    let d = b.dag();
    let env = entries(b);
    let ts = x.trees(d);
    let ns = x.names();
    b.facts();
    assert(ts.len() == ns.len());
    assert forall|k: int| 0 <= k < ns.len() implies d.has_name(#[trigger] ns[k]) && ts[k].name
        == d.name(ns[k]) && (taken(env, ts[k].name) == declares(b.declars(), ns[k])) by {
        let (i, j) = (x.inds@.len() as int, x.ctors@.len() as int);
        if k < i {
            assert(x.inds@[k].ok(d));
            assert(ts[k] == x.inds@[k].declar().tree(d));
        } else if k < i + j {
            assert(x.ctors@[k - i].ok(d));
            assert(ts[k] == x.ctors@[k - i].declar().tree(d));
        } else {
            assert(x.recs@[k - i - j].ok(d));
            assert(ts[k] == recursor_tree(x.recs@[k - i - j], d));
        }
        lemma_taken(b, ns[k]);
    }
    if addable(env, ts) {
        assert forall|i: int, j: int| 0 <= i < ns.len() && 0 <= j < ns.len() && i
            != j implies ns[i] != ns[j] by {
            assert(ts[i].name != ts[j].name);
        }
        assert forall|k: int| 0 <= k < ns.len() implies !declares(
            b.declars(),
            #[trigger] ns[k],
        ) by {
            assert(!taken(env, ts[k].name));
        }
    }
    if ns.no_duplicates() && forall|k: int|
        0 <= k < ns.len() ==> !declares(b.declars(), #[trigger] ns[k]) {
        assert forall|i: int| 0 <= i < ts.len() implies !taken(env, (#[trigger] ts[i]).name) by {
            assert(!declares(b.declars(), ns[i]));
        }
        assert forall|i: int, j: int| 0 <= i < ts.len() && 0 <= j < ts.len() && i != j implies (
        #[trigger] ts[i]).name != (#[trigger] ts[j]).name by {
            if ts[i].name == ts[j].name {
                assert(d.has_name(ns[i]) && d.has_name(ns[j]));
                crate::dag::law_equal_names_share(d, ns[i], ns[j]);
            }
        }
    }
}

/// What the environment is after a block was submitted.
proof fn lemma_block_entries(before: Builder, after: Builder, x: BlockInput)
    requires
        before.wf(),
        x.ok(before.dag()),
        after.dag() == before.dag(),
        forall|k: int|
            0 <= k < x.names().len() ==> !declares(before.declars(), #[trigger] x.names()[k]),
        before.declars().is_prefix_of(after.declars()),
        crate::builder::block_declars(
            x.inds@,
            x.ctors@,
            x.recs@,
            after.declars().skip(before.declars().len() as int),
        ),
        x.inds@.len() + x.ctors@.len() + x.recs@.len() <= usize::MAX,
        before.declars().len() <= usize::MAX,
        after.blocks() == crate::builder::recorded(
            before.blocks(),
            x.inds@,
            (
                before.declars().len() as usize,
                (x.inds@.len() + x.ctors@.len() + x.recs@.len()) as usize,
            ),
        ),
    ensures
        entries(after) == block_added(entries(before), x.trees(before.dag())),
{
    let d = before.dag();
    let s = before.declars().len() as int;
    let v = (s as usize, (x.inds@.len() + x.ctors@.len() + x.recs@.len()) as usize);
    let new = after.declars().skip(s);
    let ts = x.trees(d);
    let want = block_added(entries(before), ts);
    assert(after.declars().len() == s + new.len());
    assert(want.len() == s + ts.len());
    assert forall|i: int| 0 <= i < after.declars().len() implies entries(after)[i] == want[i] by {
        let key = after.declars()[i].info_spec().name.idx;
        crate::builder::lemma_recorded(before.blocks(), x.inds@, v, key);
        if i < s {
            assert(after.declars()[i] == before.declars()[i]);
            if exists|j: int| 0 <= j < x.inds@.len() && (#[trigger] x.inds@[j]).name.idx == key {
                let j = choose|j: int|
                    0 <= j < x.inds@.len() && (#[trigger] x.inds@[j]).name.idx == key;
                assert(x.names()[j] == x.inds@[j].name);
                assert(before.declars()[i].info_spec().name == x.names()[j]);
                assert(declares(before.declars(), x.names()[j]));
            }
        } else {
            let k = i - s;
            let (a, b) = (x.inds@.len() as int, x.ctors@.len() as int);
            assert(after.declars()[i] == new[k]);
            if k < a {
                assert(new[k] == x.inds@[k].declar());
                assert(ts[k] == x.inds@[k].declar().tree(d));
                assert(x.inds@[k].name.idx == key);
            } else if k < a + b {
                assert(new[a + (k - a)] == x.ctors@[k - a].declar());
                assert(ts[k] == x.ctors@[k - a].declar().tree(d));
            } else {
                assert(x.recs@[k - a - b].becomes(new[a + b + (k - a - b)]));
                assert(ts[k] == recursor_tree(x.recs@[k - a - b], d));
            }
        }
    }
    assert(entries(after) =~= want);
}

impl<'a> Walker<'a> {
    /// What the submission of a unit does.
    pub open spec fn submitted(
        &self,
        env: Result<Seq<Entry>, ExtractError>,
        r: Result<(), ExtractError>,
    ) -> bool {
        match env {
            Err(e) => r == Err::<(), ExtractError>(e),
            Ok(env) => r is Ok && entries(self.b()) == env,
        }
    }

    /// Whether no name of the list is declared, and none occurs twice.
    fn names_free(&self, names: &Vec<NamePtr>) -> (free: bool)
        requires
            self.wf(),
        ensures
            free == (names@.no_duplicates() && forall|k: int|
                0 <= k < names@.len() ==> !declares(self.b().declars(), #[trigger] names@[k])),
    {
        let mut seen: HashSet<usize> = HashSet::new();
        let n: usize = names.len();
        let mut i: usize = 0;
        while i < n
            invariant
                self.wf(),
                n == names@.len(),
                i <= n,
                forall|k: int| 0 <= k < i ==> seen@.contains((#[trigger] names@[k]).idx),
                forall|v: usize| #[trigger]
                    seen@.contains(v) ==> exists|k: int|
                        0 <= k < i && (#[trigger] names@[k]).idx == v,
                forall|k: int, l: int| 0 <= k < l < i ==> names@[k] != names@[l],
                forall|k: int|
                    0 <= k < i ==> !declares(self.b().declars(), #[trigger] names@[k]),
            decreases n - i,
        {
            let ghost seen0 = seen@;
            let p = names[i];
            if self.b.is_declared(p) {
                assert(declares(self.b().declars(), names@[i as int]));
                return false;
            }
            if !seen.insert(p.idx) {
                proof {
                    let k = choose|k: int| 0 <= k < i && (#[trigger] names@[k]).idx == p.idx;
                    assert(names@[k] == names@[i as int]);
                }
                return false;
            }
            proof {
                assert forall|v: usize| #[trigger] seen@.contains(v) implies exists|k: int|
                    0 <= k < i + 1 && (#[trigger] names@[k]).idx == v by {
                    if v == p.idx {
                        assert(names@[i as int].idx == v);
                    } else {
                        let k = choose|k: int| 0 <= k < i && (#[trigger] names@[k]).idx == v;
                        assert(names@[k].idx == v);
                    }
                }
                assert forall|k: int, l: int| 0 <= k < l < i + 1 implies names@[k] != names@[l] by {
                    if l == i {
                        assert(seen0.contains(names@[k].idx));
                    }
                }
            }
            i = i + 1;
        }
        true
    }

    /// Walk the constants of a mutual block and submit their declarations together. On
    /// an error nothing is submitted.
    #[verifier::rlimit(40)]
    pub fn emit_block(&mut self, cs: &Vec<ConstantInfo>, unit: &Unit) -> (r: Result<
        (),
        ExtractError,
    >)
        requires
            old(self).wf(),
            unit.is_block,
            forall|k: int| 0 <= k < unit.members@.len() ==> #[trigger] unit.members@[k] < cs@.len(),
        ensures
            final(self).wf(),
            final(self).heap() == old(self).heap(),
            final(self).b().config() == old(self).b().config(),
            final(self).submitted(
                unit_added(
                    old(self).heap(),
                    old(self).nats(),
                    cs@,
                    unit@,
                    entries(old(self).b()),
                ),
                r,
            ),
            r is Err ==> final(self).walked(old(self)),
            old(self).b().dag().kept_in(final(self).b().dag()),
            final(self).remembers(old(self)),
            r is Ok ==> final(self).grew_by(
                old(self),
                parts_from(entries(final(self).b()), entries(old(self).b()).len() as int),
            ),
    {
        let mut input = BlockInput { inds: Vec::new(), ctors: Vec::new(), recs: Vec::new() };
        let mem = &unit.members;
        let n: usize = mem.len();
        let mut i: usize = 0;
        let ghost h = self.heap();
        let ghost nats = self.nats();
        let ghost mut ds = Seq::<DeclTree>::empty();
        proof {
            reveal(unit_added);
            assert(mem@.take(0) =~= Seq::<usize>::empty());
            assert(input.ind_trees(self.b().dag()) =~= Seq::<DeclTree>::empty());
            assert(input.ctor_trees(self.b().dag()) =~= Seq::<DeclTree>::empty());
            assert(input.rec_trees(self.b().dag()) =~= Seq::<DeclTree>::empty());
            lemma_adds_nothing(self.b().dag(), decls_parts(ds));
        }
        while i < n
            invariant
                self.grew_by(old(self), decls_parts(ds)),
                n == mem@.len(),
                mem@ == unit.members@,
                unit.is_block,
                i <= n,
                h == old(self).heap(),
                nats == old(self).nats(),
                forall|k: int| 0 <= k < mem@.len() ==> #[trigger] mem@[k] < cs@.len(),
                self.wf(),
                self.walked(old(self)),
                decode_members(h, nats, cs@, mem@.take(i as int)) == Ok::<
                    Seq<DeclTree>,
                    ExtractError,
                >(ds),
                input.holds(self.b().dag(), ds),
                input.inds@.len() + input.ctors@.len() + input.recs@.len() == i,
            decreases n - i,
        {
            let mi: usize = mem[i];
            let ghost d0 = self.b().dag();
            assert(mem@.take(i + 1).drop_last() =~= mem@.take(i as int));
            match self.read_member(mi, &cs[mi]) {
                Ok(m) => {
                    let ghost x = input;
                    let ghost d1 = self.b().dag();
                    proof {
                        lemma_block_input_kept(input, d0, d1, ds);
                    }
                    input.push(m);
                    proof {
                        lemma_member_pushed(x, input, m, d1, ds);
                        lemma_decl_pushed(ds, m.tree(d1));
                        lemma_adds_both(
                            old(self).b().dag(),
                            d0,
                            d1,
                            decls_parts(ds),
                            decl_parts(m.tree(d1)),
                            decls_parts(ds.push(m.tree(d1))),
                        );
                        ds = ds.push(m.tree(d1));
                    }
                },
                Err(e) => {
                    proof {
                        reveal(unit_added);
                        lemma_members_stop(h, nats, cs@, mem@, i + 1, e);
                    }
                    return Err(e);
                },
            }
            i = i + 1;
        }
        assert(mem@.take(n as int) =~= mem@);
        let names = input.list_names();
        let free = self.names_free(&names);
        let ghost before = self.b();
        proof {
            lemma_entries_kept(old(self).b(), self.b());
            lemma_block_addable(self.b(), input);
            assert(input.trees(self.b().dag()) == arranged(ds));
        }
        if !free {
            return Err(ExtractError::Duplicate);
        }
        let ghost x = input;
        proof {
            before.facts();
        }
        self.b.add_inductive_block(input.inds, input.ctors, input.recs);
        proof {
            lemma_block_entries(before, self.b(), x);
            crate::declare::lemma_members_decoded(h, nats, cs@, mem@);
            lemma_block_parts(entries(before), ds);
            lemma_adds_more(
                old(self).b().dag(),
                self.b().dag(),
                decls_parts(ds),
                parts_from(entries(self.b()), entries(old(self).b()).len() as int),
            );
        }
        Ok(())
    }

    /// Walk the constants of a unit and submit their declarations.
    fn emit_unit(&mut self, cs: &Vec<ConstantInfo>, unit: &Unit) -> (r: Result<(), ExtractError>)
        requires
            old(self).wf(),
            forall|k: int| 0 <= k < unit.members@.len() ==> #[trigger] unit.members@[k] < cs@.len(),
            unit.members@.len() > 0,
        ensures
            final(self).wf(),
            final(self).heap() == old(self).heap(),
            final(self).b().config() == old(self).b().config(),
            final(self).submitted(
                unit_added(
                    old(self).heap(),
                    old(self).nats(),
                    cs@,
                    unit@,
                    entries(old(self).b()),
                ),
                r,
            ),
            r is Err ==> final(self).walked(old(self)),
            old(self).b().dag().kept_in(final(self).b().dag()),
            final(self).remembers(old(self)),
            r is Ok ==> final(self).grew_by(
                old(self),
                parts_from(entries(final(self).b()), entries(old(self).b()).len() as int),
            ),
    {
        proof {
            reveal(unit_added);
        }
        if unit.is_block {
            self.emit_block(cs, unit)
        } else {
            let mi: usize = unit.members[0];
            let r = self.emit_singleton(mi, &cs[mi]);
            proof {
                if r is Ok {
                    let d = decode_singleton(
                        old(self).heap(),
                        old(self).nats(),
                        mi,
                        cs@[mi as int],
                    )->Ok_0;
                    let (before, after) = (entries(old(self).b()), entries(self.b()));
                    assert(after[before.len() as int].decl == d);
                    lemma_adds_more(
                        old(self).b().dag(),
                        self.b().dag(),
                        decl_parts(d),
                        parts_from(after, before.len() as int),
                    );
                }
            }
            r
        }
    }

    /// Walk the constants of the units, in the given order, and submit their
    /// declarations. On an error the units before the failing one stay submitted.
    #[verifier::rlimit(40)]
    pub fn emit_units(
        &mut self,
        cs: &Vec<ConstantInfo>,
        units: &Vec<Unit>,
        order: &Vec<usize>,
    ) -> (r: Result<(), ExtractError>)
        requires
            old(self).wf(),
            forall|k: int| 0 <= k < order@.len() ==> #[trigger] order@[k] < units@.len(),
            forall|u: int, k: int|
                0 <= u < units@.len() && 0 <= k < units@[u].members@.len()
                    ==> #[trigger] units@[u].members@[k] < cs@.len(),
            forall|u: int| 0 <= u < units@.len() ==> (#[trigger] units@[u]).members@.len() > 0,
        ensures
            final(self).wf(),
            final(self).heap() == old(self).heap(),
            final(self).b().config() == old(self).b().config(),
            final(self).submitted(
                units_added(
                    old(self).heap(),
                    old(self).nats(),
                    cs@,
                    groups_of(units@),
                    order@,
                    entries(old(self).b()),
                ),
                r,
            ),
            r is Err ==> exists|k: int|
                0 <= k < order@.len() && #[trigger] units_added(
                    old(self).heap(),
                    old(self).nats(),
                    cs@,
                    groups_of(units@),
                    order@.take(k),
                    entries(old(self).b()),
                ) == Ok::<Seq<Entry>, ExtractError>(entries(final(self).b())),
            old(self).b().dag().kept_in(final(self).b().dag()),
            final(self).remembers(old(self)),
            r is Ok ==> final(self).grew_by(
                old(self),
                parts_from(entries(final(self).b()), entries(old(self).b()).len() as int),
            ),
    {
        let ghost h = self.heap();
        let ghost nats = self.nats();
        let ghost env0 = entries(self.b());
        let ghost gs = groups_of(units@);
        let n: usize = order.len();
        let mut i: usize = 0;
        assert(order@.take(0) =~= Seq::<usize>::empty());
        proof {
            lemma_adds_nothing(self.b().dag(), parts_from(env0, env0.len() as int));
        }
        while i < n
            invariant
                old(self).b().dag().kept_in(self.b().dag()),
                self.remembers(old(self)),
                env0.len() <= entries(self.b()).len(),
                self.grew_by(old(self), parts_from(entries(self.b()), env0.len() as int)),
                n == order@.len(),
                i <= n,
                self.wf(),
                self.heap() == h,
                h == old(self).heap(),
                nats == old(self).nats(),
                gs == groups_of(units@),
                env0 == entries(old(self).b()),
                self.b().config() == old(self).b().config(),
                forall|k: int| 0 <= k < order@.len() ==> #[trigger] order@[k] < units@.len(),
                forall|u: int, k: int|
                    0 <= u < units@.len() && 0 <= k < units@[u].members@.len()
                        ==> #[trigger] units@[u].members@[k] < cs@.len(),
                forall|u: int| 0 <= u < units@.len() ==> (#[trigger] units@[u]).members@.len() > 0,
                units_added(h, nats, cs@, gs, order@.take(i as int), env0) == Ok::<
                    Seq<Entry>,
                    ExtractError,
                >(entries(self.b())),
            decreases n - i,
        {
            let u: usize = order[i];
            let unit = &units[u];
            proof {
                assert(order@.take(i + 1).drop_last() =~= order@.take(i as int));
                assert(order@.take(i + 1).last() == u);
                assert(gs[u as int] == unit@);
                assert(units_added(h, nats, cs@, gs, order@.take(i + 1), env0) == unit_added(
                    h,
                    nats,
                    cs@,
                    unit@,
                    entries(self.b()),
                ));
                assert forall|k: int| 0 <= k < unit.members@.len() implies #[trigger] unit.members@[k]
                    < cs@.len() by {
                    assert(units@[u as int].members@[k] < cs@.len());
                }
            }
            let ghost before = self.b();
            if let Err(e) = self.emit_unit(cs, unit) {
                proof {
                    lemma_entries_kept(before, self.b());
                    lemma_units_stop(h, nats, cs@, gs, order@, env0, i + 1, e);
                }
                return Err(e);
            }
            proof {
                lemma_unit_prefix(h, nats, cs@, unit@, entries(before));
                let (env1, env2) = (entries(before), entries(self.b()));
                let n0 = env0.len() as int;
                lemma_parts_grow(env1, env2, n0);
                lemma_adds_both(
                    old(self).b().dag(),
                    before.dag(),
                    self.b().dag(),
                    parts_from(env1, n0),
                    parts_from(env2, env1.len() as int),
                    parts_from(env2, n0),
                );
            }
            i = i + 1;
        }
        assert(order@.take(n as int) =~= order@);
        Ok(())
    }
}

proof fn lemma_decl_pushed(ds: Seq<DeclTree>, d: DeclTree)
    ensures
        decls_parts(ds).subset_of(decls_parts(ds.push(d))),
        decl_parts(d).subset_of(decls_parts(ds.push(d))),
{
    let all = ds.push(d);
    assert forall|p: Part| decls_parts(ds).contains(p) implies decls_parts(all).contains(p) by {
        let i = choose|i: int| 0 <= i < ds.len() && (#[trigger] decl_parts(ds[i])).contains(p);
        assert(all[i] == ds[i]);
        assert(decl_parts(all[i]).contains(p));
    }
    assert forall|p: Part| decl_parts(d).contains(p) implies decls_parts(all).contains(p) by {
        assert(decl_parts(all[ds.len() as int]).contains(p));
    }
}

/// The parts of a block are among those of what it adds.
proof fn lemma_block_parts(env: Seq<Entry>, ds: Seq<DeclTree>)
    requires
        forall|k: int| 0 <= k < ds.len() ==> 0 <= place(#[trigger] ds[k]) <= 2,
    ensures
        decls_parts(ds).subset_of(
            parts_from(block_added(env, arranged(ds)), env.len() as int),
        ),
{
    crate::declare::lemma_arranged(ds);
    let (all, after) = (arranged(ds), block_added(env, arranged(ds)));
    assert forall|p: Part| decls_parts(ds).contains(p) implies parts_from(
        after,
        env.len() as int,
    ).contains(p) by {
        let i = choose|i: int| 0 <= i < ds.len() && (#[trigger] decl_parts(ds[i])).contains(p);
        assert(all.contains(ds[i]));
        let j = choose|j: int| 0 <= j < all.len() && all[j] == ds[i];
        assert(after[env.len() + j].decl == ds[i]);
    }
}

proof fn lemma_parts_grow(env: Seq<Entry>, after: Seq<Entry>, n: int)
    requires
        env.is_prefix_of(after),
        0 <= n <= env.len(),
    ensures
        parts_from(env, n).subset_of(parts_from(after, n)),
        parts_from(after, env.len() as int).subset_of(parts_from(after, n)),
{
    assert forall|p: Part| parts_from(env, n).contains(p) implies parts_from(after, n).contains(
        p,
    ) by {
        let i = choose|i: int|
            n <= i < env.len() && decl_parts((#[trigger] env[i]).decl).contains(p);
        assert(after[i] == env[i]);
    }
}

proof fn lemma_unit_prefix(
    h: &Heap,
    nats: bool,
    cs: Seq<ConstantInfo>,
    unit: crate::units::Group,
    env: Seq<Entry>,
)
    ensures
        unit_added(h, nats, cs, unit, env) matches Ok(after) ==> env.is_prefix_of(after),
{
    reveal(unit_added);
}

proof fn lemma_units_stop(
    h: &Heap,
    nats: bool,
    cs: Seq<ConstantInfo>,
    gs: Seq<crate::units::Group>,
    order: Seq<usize>,
    env: Seq<Entry>,
    n: int,
    e: ExtractError,
)
    requires
        0 < n <= order.len(),
        units_added(h, nats, cs, gs, order.take(n), env) == Err::<Seq<Entry>, ExtractError>(e),
    ensures
        units_added(h, nats, cs, gs, order, env) == Err::<Seq<Entry>, ExtractError>(e),
    decreases order.len(),
{
    if n == order.len() {
        assert(order.take(n) =~= order);
    } else {
        assert(order.drop_last().take(n) =~= order.take(n));
        lemma_units_stop(h, nats, cs, gs, order.drop_last(), env, n, e);
    }
}

} // verus!
