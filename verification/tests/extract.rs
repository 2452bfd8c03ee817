use lean_checker::bignat::BigNat;
use lean_checker::builder::Builder;
use lean_checker::check::build_environment;
use lean_checker::emit::def_hint;
use lean_checker::env::Config;
use lean_checker::env::Declar;
use lean_checker::env::ExportFile;
use lean_checker::heap::string_of;
use lean_checker::heap::ExtractError;
use lean_checker::heap::Heap;
use lean_checker::heap::LeanObj;
use lean_checker::node::BinderStyle;
use lean_checker::node::Expr;
use lean_checker::node::Name;
use lean_checker::node::NamePtr;
use lean_checker::node::ReducibilityHint;
use lean_checker::report::error_message;
use lean_checker::snapshot::gather_consts;
use lean_checker::snapshot::ConstantInfo;
use lean_checker::snapshot::ConstructorInfo;
use lean_checker::snapshot::InductiveInfo;
use lean_checker::snapshot::RecursorInfo;
use lean_checker::snapshot::RuleInfo;
use lean_checker::snapshot::KIND_AXIOM;
use lean_checker::snapshot::KIND_CTOR;
use lean_checker::snapshot::KIND_DEF;
use lean_checker::snapshot::KIND_INDUCT;
use lean_checker::snapshot::KIND_OPAQUE;
use lean_checker::snapshot::KIND_QUOT;
use lean_checker::snapshot::KIND_REC;
use lean_checker::snapshot::KIND_THM;
use lean_checker::units::Unit;
use lean_checker::walk::binder_style;
use lean_checker::walk::Walker;

/// Puts objects into a heap.
struct Objects {
    heap: Heap,
}

impl Objects {
    fn new() -> Self {
        Objects { heap: Heap { objs: Vec::new() } }
    }

    fn put(&mut self, o: LeanObj) -> usize {
        self.heap.objs.push(o);
        self.heap.objs.len() - 1
    }

    fn scalar(&mut self, n: usize) -> usize {
        self.put(LeanObj::Scalar(n))
    }

    fn ctor(&mut self, tag: u8, fields: &[usize]) -> usize {
        self.put(LeanObj::Boxed { tag, fields: fields.to_vec(), data: Vec::new() })
    }

    /// An expression with the byte `b` behind its cached word.
    fn flagged(&mut self, tag: u8, fields: &[usize], b: u8) -> usize {
        let mut data = vec![0xAA; 8];
        data.push(b);
        self.put(LeanObj::Boxed { tag, fields: fields.to_vec(), data })
    }

    fn string(&mut self, s: &str) -> usize {
        let mut data = s.as_bytes().to_vec();
        data.push(0);
        self.put(LeanObj::Boxed { tag: 249, fields: Vec::new(), data })
    }

    fn big(&mut self, bytes: &[u8]) -> usize {
        self.put(LeanObj::Boxed { tag: 250, fields: Vec::new(), data: bytes.to_vec() })
    }

    fn array(&mut self, elems: &[usize]) -> usize {
        self.ctor(246, elems)
    }

    /// A name with string components.
    fn name(&mut self, dotted: &str) -> usize {
        let mut n = self.scalar(0);
        for part in dotted.split('.') {
            let s = self.string(part);
            n = self.ctor(1, &[n, s]);
        }
        n
    }

    fn names(&mut self, all: &[&str]) -> usize {
        let elems: Vec<usize> = all.iter().map(|s| self.name(s)).collect();
        self.array(&elems)
    }

    fn texts(&mut self, all: &[&str]) -> Vec<usize> {
        all.iter().map(|s| self.string(s)).collect()
    }

    fn prop(&mut self) -> usize {
        let zero = self.scalar(0);
        self.ctor(3, &[zero])
    }

    fn some(&mut self, o: usize) -> usize {
        self.ctor(1, &[o])
    }

    /// A constant of type `Prop` without universe parameters.
    fn constant(&mut self, kind: u8, name: &str, deps: &[&str]) -> ConstantInfo {
        let ty = self.prop();
        let value = self.some(ty);
        ConstantInfo {
            name: self.name(name),
            name_text: self.string(name),
            kind,
            deps: self.texts(deps),
            level_params: self.array(&[]),
            ty,
            value,
            ..ConstantInfo::default()
        }
    }

    fn inductive(&mut self, name: &str, all: &[&str], ctors: &[&str], deps: &[&str]) -> ConstantInfo {
        let c = self.constant(KIND_INDUCT, name, deps);
        ConstantInfo {
            induct: InductiveInfo {
                num_params: 65537,
                num_indices: 2,
                is_rec: 1,
                num_nested: 0,
                all: self.names(all),
                all_texts: self.texts(all),
                ctors: self.names(ctors),
            },
            ..c
        }
    }

    fn constructor(&mut self, name: &str, induct: &str, cidx: u32) -> ConstantInfo {
        let c = self.constant(KIND_CTOR, name, &[induct]);
        ConstantInfo {
            ctor: ConstructorInfo {
                induct: self.name(induct),
                induct_text: self.string(induct),
                cidx,
                num_params: 1,
                num_fields: 65536 + 3,
            },
            ..c
        }
    }

    fn recursor(&mut self, name: &str, all: &[&str], ctors: &[&str]) -> ConstantInfo {
        let c = self.constant(KIND_REC, name, all);
        let mut rules = Vec::new();
        for ctor in ctors {
            rules.push(RuleInfo { ctor: self.name(ctor), num_fields: 2, rhs: c.ty });
        }
        ConstantInfo {
            rec: RecursorInfo {
                num_params: 1,
                num_indices: 2,
                num_motives: 3,
                num_minors: 4,
                k: 0,
                all: self.names(all),
                all_texts: self.texts(all),
                rules,
            },
            ..c
        }
    }
}

/// The dotted form of a name.
fn dotted(e: &ExportFile, p: NamePtr) -> String {
    match e.dag.names.get_index(p.idx) {
        Name::Anon => String::new(),
        Name::Str(pre, s, _) => {
            let s = e.dag.strings.get_index(s.idx);
            if pre.idx == 0 { s.clone() } else { format!("{}.{}", dotted(e, *pre), s) }
        }
        Name::Num(pre, n, _) => {
            if pre.idx == 0 { format!("{n}") } else { format!("{}.{}", dotted(e, *pre), n) }
        }
    }
}

fn declared(e: &ExportFile) -> Vec<String> {
    e.declars.values().iter().map(|d| dotted(e, d.info().name)).collect()
}

fn build(o: &Objects, cs: &Vec<ConstantInfo>, selected: &[&str]) -> Result<(ExportFile, usize), ExtractError> {
    let selected: Vec<String> = selected.iter().map(|s| s.to_string()).collect();
    build_environment(&o.heap, cs, &selected, 3)
}

fn build_error(o: &Objects, cs: &Vec<ConstantInfo>) -> ExtractError {
    match build(o, cs, &[]) {
        Ok(_) => panic!("no error"),
        Err(e) => e,
    }
}

/// The error of an expression.
fn expr_error(o: &Objects, e: usize) -> ExtractError {
    let mut w = Walker::new(&o.heap, Builder::new(Config::default()));
    w.walk_expr(e).unwrap_err()
}

// --- readers ----------------------------------------------------------------

#[test]
fn strings_lose_their_last_byte() {
    assert_eq!(string_of(b"abc\0"), "abc");
    assert_eq!(string_of(b"\0"), "");
    assert_eq!(string_of(b""), "");
    assert_eq!(string_of("αβ\0".as_bytes()), "αβ");
}

#[test]
fn invalid_bytes_are_replaced() {
    assert_eq!(string_of(&[b'a', 0xFF, b'b', 0]), "a\u{FFFD}b");
}

#[test]
fn read_string_of_objects() {
    let mut o = Objects::new();
    let s = o.string("h\u{e9}");
    let n = o.scalar(1);
    assert_eq!(o.heap.read_string(s), Ok("h\u{e9}".to_string()));
    assert_eq!(o.heap.read_string(n), Err(ExtractError::Malformed(n)));
    assert_eq!(o.heap.read_string(99), Err(ExtractError::Malformed(99)));
}

#[test]
fn numbers_are_cut_off_at_64_bits() {
    let mut o = Objects::new();
    let small = o.scalar(42);
    let big = o.big(&[1, 2, 0, 0, 0, 0, 0, 0]);
    let huge = o.big(&[0, 0, 0, 0, 0, 0, 0, 0, 1]);
    assert_eq!(o.heap.nat_to_u64(small), Ok(42));
    assert_eq!(o.heap.nat_to_u64(big), Ok(513));
    assert_eq!(o.heap.nat_to_u64(huge), Ok(u64::MAX));
    assert_eq!(o.heap.nat_to_u64(9), Err(ExtractError::Malformed(9)));
    assert_eq!(o.heap.nat_to_biguint(small).unwrap().as_bytes_le(), &[42]);
    assert_eq!(o.heap.nat_to_biguint(big).unwrap().as_bytes_le(), &[1, 2]);
    assert_eq!(o.heap.nat_to_biguint(huge).unwrap().as_bytes_le(), &[0, 0, 0, 0, 0, 0, 0, 0, 1]);
}

#[test]
fn children_lie_before_their_parents() {
    let mut o = Objects::new();
    let a = o.scalar(0);
    let p = o.ctor(1, &[a, 7]);
    assert_eq!(o.heap.child(p, 0), Ok(a));
    assert_eq!(o.heap.child(p, 1), Err(ExtractError::Malformed(p)));
    assert_eq!(o.heap.child(p, 2), Err(ExtractError::Malformed(p)));
    assert_eq!(o.heap.child(a, 0), Err(ExtractError::Malformed(a)));
    assert_eq!(o.heap.array_elems(p), Ok(&vec![a, 7]));
    assert_eq!(o.heap.array_elems(a), Err(ExtractError::Malformed(a)));
}

#[test]
fn scalar_byte_follows_the_cached_word() {
    let mut o = Objects::new();
    let e = o.flagged(6, &[], 3);
    let short = o.ctor(6, &[]);
    assert_eq!(o.heap.scalar_u8(e), Ok(3));
    assert_eq!(o.heap.scalar_u8(short), Err(ExtractError::Malformed(short)));
}

#[test]
fn binder_styles() {
    assert_eq!(binder_style(0), Ok(BinderStyle::Default));
    assert_eq!(binder_style(1), Ok(BinderStyle::Implicit));
    assert_eq!(binder_style(2), Ok(BinderStyle::StrictImplicit));
    assert_eq!(binder_style(3), Ok(BinderStyle::InstanceImplicit));
    assert_eq!(binder_style(4), Err(ExtractError::BinderInfo(4)));
}

// --- walkers ----------------------------------------------------------------

#[test]
fn walk_names() {
    let mut o = Objects::new();
    let anon = o.scalar(0);
    let foo = o.name("Foo.bar");
    let five = o.scalar(5);
    let num = o.ctor(2, &[foo, five]);
    let bad = o.ctor(3, &[foo]);
    let mut w = Walker::new(&o.heap, Builder::new(Config::default()));
    let a = w.walk_name(anon).unwrap();
    let f = w.walk_name(foo).unwrap();
    let n = w.walk_name(num).unwrap();
    assert_eq!(w.walk_name(bad), Err(ExtractError::NameTag(3)));
    let mut b = w.into_builder();
    assert_eq!(a, b.name_anon());
    let expect = b.name_str(a, "Foo");
    let expect = b.name_str(expect, "bar");
    assert_eq!(f, expect);
    assert_eq!(n, b.name_num(expect, 5));
}

#[test]
fn walk_levels() {
    let mut o = Objects::new();
    let zero = o.scalar(0);
    let u = o.name("u");
    let param = o.ctor(4, &[u]);
    let succ = o.ctor(1, &[param]);
    let max = o.ctor(2, &[succ, zero]);
    let imax = o.ctor(3, &[max, param]);
    let mvar = o.ctor(5, &[u]);
    let nil = o.scalar(0);
    let tail = o.ctor(1, &[imax, nil]);
    let list = o.ctor(1, &[zero, tail]);
    let mut w = Walker::new(&o.heap, Builder::new(Config::default()));
    let l = w.walk_level(imax).unwrap();
    let ls = w.walk_level_list(list).unwrap();
    assert_eq!(w.walk_level(mvar), Err(ExtractError::LevelTag(5)));
    let mut b = w.into_builder();
    let anon = b.name_anon();
    let z = b.level_zero();
    let un = b.name_str(anon, "u");
    let p = b.level_param(un);
    let s = b.level_succ(p);
    let m = b.level_max(s, z);
    let expect = b.level_imax(m, p);
    assert_eq!(l, expect);
    assert_eq!(ls, vec![z, expect]);
}

#[test]
fn walk_exprs() {
    let mut o = Objects::new();
    let x = o.name("x");
    let idx = o.scalar(65536 + 7);
    let var = o.ctor(0, &[idx]);
    let prop = o.prop();
    let nil = o.scalar(0);
    let con = o.ctor(4, &[x, nil]);
    let app = o.ctor(5, &[con, var]);
    let lam = o.flagged(6, &[x, prop, app], 1);
    let pi = o.flagged(7, &[x, prop, lam], 3);
    let lett = o.flagged(8, &[x, prop, con, pi], 2);
    let meta = o.scalar(0);
    let mdata = o.ctor(10, &[meta, lett]);
    let two = o.scalar(2);
    let proj = o.ctor(11, &[x, two, mdata]);
    let number = o.big(&[0, 0, 0, 0, 0, 0, 0, 0, 3]);
    let nat_val = o.ctor(0, &[number]);
    let nat = o.ctor(9, &[nat_val]);
    let text = o.string("hi");
    let str_val = o.ctor(1, &[text]);
    let string = o.ctor(9, &[str_val]);
    let mut w = Walker::new(&o.heap, Builder::new(Config::default()));
    let got_proj = w.walk_expr(proj).unwrap();
    let got_let = w.walk_expr(lett).unwrap();
    let got_mdata = w.walk_expr(mdata).unwrap();
    let got_nat = w.walk_expr(nat).unwrap();
    let got_string = w.walk_expr(string).unwrap();
    assert_eq!(got_let, got_mdata);
    assert_eq!(w.walk_expr(proj), Ok(got_proj));
    let mut b = w.into_builder();
    let anon = b.name_anon();
    let xn = b.name_str(anon, "x");
    let zero = b.level_zero();
    let bvar = b.expr_var(7);
    let bprop = b.expr_sort(zero);
    let none = b.levels(&[]);
    let bcon = b.expr_const(xn, none);
    let bapp = b.expr_app(bcon, bvar);
    let blam = b.expr_lambda(xn, BinderStyle::Implicit, bprop, bapp);
    let bpi = b.expr_pi(xn, BinderStyle::InstanceImplicit, bprop, blam);
    let blet = b.expr_let(xn, bprop, bcon, bpi, true);
    assert_eq!(got_let, blet);
    assert_eq!(got_proj, b.expr_proj(xn, 2, blet));
    assert_eq!(got_nat, b.expr_nat_lit(BigNat::from_bytes_le(&[0, 0, 0, 0, 0, 0, 0, 0, 3])));
    assert_eq!(got_string, b.expr_string_lit("hi"));
    assert_eq!(b.num_loose_bvars(got_proj), 5);
}

#[test]
fn shared_expressions_are_walked_once() {
    let mut o = Objects::new();
    let mut e = o.prop();
    for _ in 0..40 {
        e = o.ctor(5, &[e, e]);
    }
    let mut w = Walker::new(&o.heap, Builder::new(Config::default()));
    w.walk_expr(e).unwrap();
    let export = w.into_builder().finish();
    assert_eq!(export.dag.exprs.len(), 41);
}

#[test]
fn walk_arrays_of_names() {
    let mut o = Objects::new();
    let arr = o.names(&["u", "v.w"]);
    let mut w = Walker::new(&o.heap, Builder::new(Config::default()));
    let names = w.walk_name_array(arr).unwrap();
    let us = w.uparams(arr).unwrap();
    let mut b = w.into_builder();
    let levels: Vec<_> = names.iter().map(|n| b.level_param(*n)).collect();
    assert_eq!(us, b.levels(&levels));
    let export = b.finish();
    let texts: Vec<String> = names.iter().map(|n| dotted(&export, *n)).collect();
    assert_eq!(texts, vec!["u", "v.w"]);
}

#[test]
fn bad_expressions() {
    let mut o = Objects::new();
    let x = o.name("x");
    let prop = o.prop();
    let fvar = o.ctor(1, &[x]);
    let mvar = o.ctor(2, &[x]);
    let unknown = o.ctor(12, &[x]);
    let lam = o.flagged(6, &[x, prop, prop], 9);
    let lit = o.ctor(2, &[x]);
    let literal = o.ctor(9, &[lit]);
    let app = o.ctor(5, &[prop, fvar]);
    assert_eq!(expr_error(&o, fvar), ExtractError::FreeVariable);
    assert_eq!(expr_error(&o, mvar), ExtractError::MetaVariable);
    assert_eq!(expr_error(&o, unknown), ExtractError::ExprTag(12));
    assert_eq!(expr_error(&o, lam), ExtractError::BinderInfo(9));
    assert_eq!(expr_error(&o, literal), ExtractError::LiteralTag(2));
    assert_eq!(expr_error(&o, app), ExtractError::FreeVariable);
    assert_eq!(expr_error(&o, 1000), ExtractError::Malformed(1000));
}

#[test]
fn number_literals_need_the_extension() {
    let mut o = Objects::new();
    let one = o.scalar(1);
    let lit = o.ctor(0, &[one]);
    let config = Config { nat_extension: false, ..Config::default() };
    let mut w = Walker::new(&o.heap, Builder::new(config));
    assert_eq!(w.walk_literal(lit), Err(ExtractError::NatLiteral));
    let mut w = Walker::new(&o.heap, Builder::new(Config::default()));
    assert!(w.walk_literal(lit).is_ok());
}

#[test]
fn definition_hints() {
    let hint = |hint_kind, hint_height| def_hint(&ConstantInfo { hint_kind, hint_height, ..ConstantInfo::default() });
    assert_eq!(hint(0, 5), ReducibilityHint::Opaque);
    assert_eq!(hint(1, 5), ReducibilityHint::Abbrev);
    assert_eq!(hint(2, 5), ReducibilityHint::Regular(5));
    assert_eq!(hint(200, 65536 + 6), ReducibilityHint::Regular(6));
}

// --- environments -----------------------------------------------------------

#[test]
fn metadata_is_gathered() {
    let mut o = Objects::new();
    let cs = vec![
        o.inductive("T", &["T", "S"], &["T.mk"], &["S"]),
        o.constructor("T.mk", "T", 0),
        o.recursor("T.rec", &["S", "T"], &["T.mk"]),
    ];
    let metas = gather_consts(&o.heap, &cs).unwrap();
    assert_eq!(metas.len(), 3);
    assert_eq!(metas[0].name, "T");
    assert_eq!(metas[0].kind, KIND_INDUCT);
    assert_eq!(metas[0].deps, vec!["S"]);
    assert_eq!(metas[0].induct_all, vec!["T", "S"]);
    assert_eq!(metas[1].induct, "T");
    assert_eq!(metas[2].rec_all, vec!["S", "T"]);
}

#[test]
fn singletons_of_each_kind() {
    let mut o = Objects::new();
    let mut def = o.constant(KIND_DEF, "d", &["o"]);
    def.hint_kind = 2;
    def.hint_height = 9;
    let u = o.name("u");
    def.level_params = o.array(&[u]);
    let cs = vec![
        def,
        o.constant(KIND_AXIOM, "a", &[]),
        o.constant(KIND_THM, "t", &[]),
        o.constant(KIND_OPAQUE, "o", &[]),
        o.constant(KIND_QUOT, "q", &[]),
    ];
    let (export, count) = build(&o, &cs, &[]).ok().unwrap();
    assert_eq!(count, 5);
    assert_eq!(export.config.num_threads, 3);
    assert_eq!(declared(&export), vec!["o", "d", "a", "t", "q"]);
    let values = export.declars.values();
    assert!(matches!(values[0], Declar::Opaque { .. }));
    assert!(matches!(values[2], Declar::Axiom { .. }));
    assert!(matches!(values[3], Declar::Theorem { .. }));
    assert!(matches!(values[4], Declar::Quot { .. }));
    match &values[1] {
        Declar::Definition { info, val, hint } => {
            assert_eq!(*hint, ReducibilityHint::Regular(9));
            assert_eq!(*val, info.ty);
            assert!(matches!(export.dag.exprs.get_index(val.idx), Expr::Sort { .. }));
            assert_eq!(export.dag.uparams.get_index(info.uparams.idx).len(), 1);
        }
        _ => panic!("not a definition"),
    }
}

#[test]
fn mutual_block_of_constants() {
    let mut o = Objects::new();
    let cs = vec![
        o.recursor("T.rec", &["T", "S"], &["T.mk", "S.mk"]),
        o.constructor("S.mk", "S", 1),
        o.constant(KIND_AXIOM, "user", &["T.rec"]),
        o.inductive("T", &["T", "S"], &["T.mk"], &["base"]),
        o.constructor("T.mk", "T", 65536),
        o.inductive("S", &["S", "T"], &["S.mk"], &[]),
        o.constant(KIND_AXIOM, "base", &[]),
    ];
    let (export, count) = build(&o, &cs, &[]).ok().unwrap();
    assert_eq!(count, 7);
    assert_eq!(declared(&export), vec!["base", "T", "S", "S.mk", "T.mk", "T.rec", "user"]);
    let values = export.declars.values();
    for i in 1..3 {
        let name = values[i].info().name;
        assert_eq!(export.mutual_block_sizes[&name.idx], (1, 5));
    }
    assert_eq!(export.mutual_block_sizes.len(), 2);
    match &values[1] {
        Declar::Inductive(x) => {
            assert!(x.is_recursive);
            assert!(!x.is_nested);
            assert_eq!((x.num_params, x.num_indices), (1, 2));
            assert_eq!(x.all_ind_names, vec![values[1].info().name, values[2].info().name]);
            assert_eq!(x.all_ctor_names, vec![values[4].info().name]);
        }
        _ => panic!("not an inductive type"),
    }
    match &values[4] {
        Declar::Constructor(x) => {
            assert_eq!(x.inductive_name, values[1].info().name);
            assert_eq!((x.ctor_idx, x.num_params, x.num_fields), (0, 1, 3));
        }
        _ => panic!("not a constructor"),
    }
    match &values[5] {
        Declar::Recursor(x) => {
            assert_eq!((x.num_params, x.num_indices, x.num_motives, x.num_minors), (1, 2, 3, 4));
            assert!(!x.is_k);
            assert_eq!(x.rec_rules.len(), 2);
            assert_eq!(x.rec_rules[1].ctor_name, values[3].info().name);
            assert_eq!(x.rec_rules[1].ctor_telescope_size_wo_params, 2);
        }
        _ => panic!("not a recursor"),
    }
}

#[test]
fn selection_takes_dependencies_along() {
    let mut o = Objects::new();
    let cs = vec![
        o.constant(KIND_AXIOM, "top", &["mid", "missing"]),
        o.constant(KIND_AXIOM, "other", &["low"]),
        o.constant(KIND_AXIOM, "mid", &["low", "low", "mid"]),
        o.constant(KIND_AXIOM, "low", &[]),
    ];
    let (export, count) = build(&o, &cs, &["top"]).ok().unwrap();
    assert_eq!(declared(&export), vec!["low", "mid", "top"]);
    assert_eq!(count, 3);
    let (export, count) = build(&o, &cs, &["low", "mid", "low", "absent"]).ok().unwrap();
    assert_eq!(declared(&export), vec!["low", "mid"]);
    assert_eq!(count, 2);
    let (export, count) = build(&o, &cs, &["absent"]).ok().unwrap();
    assert_eq!(export.declars.len(), 0);
    assert_eq!(count, 0);
    let (export, count) = build(&o, &cs, &[]).ok().unwrap();
    assert_eq!(declared(&export), vec!["low", "mid", "top", "other"]);
    assert_eq!(count, 4);
}

#[test]
fn cycles_are_broken() {
    let mut o = Objects::new();
    let cs = vec![
        o.constant(KIND_AXIOM, "a", &["b"]),
        o.constant(KIND_AXIOM, "b", &["c"]),
        o.constant(KIND_AXIOM, "c", &["a"]),
    ];
    let (export, _) = build(&o, &cs, &[]).ok().unwrap();
    assert_eq!(declared(&export), vec!["c", "b", "a"]);
}

#[test]
fn building_twice_gives_the_same() {
    let mut o = Objects::new();
    let cs = vec![
        o.inductive("T", &["T"], &["T.mk"], &[]),
        o.constructor("T.mk", "T", 0),
        o.constant(KIND_DEF, "d", &["T.mk"]),
    ];
    let (a, n) = build(&o, &cs, &[]).ok().unwrap();
    let (b, m) = build(&o, &cs, &[]).ok().unwrap();
    assert_eq!(n, m);
    assert_eq!(declared(&a), declared(&b));
    assert_eq!(a.dag.exprs.len(), b.dag.exprs.len());
}

#[test]
fn duplicate_names_are_refused() {
    let mut o = Objects::new();
    let cs = vec![o.constant(KIND_AXIOM, "a", &[]), o.constant(KIND_AXIOM, "a", &[])];
    assert_eq!(build_error(&o, &cs), ExtractError::Duplicate);
    assert_eq!(
        error_message(ExtractError::Duplicate, &o.heap, &cs),
        "duplicate declaration submitted to builder"
    );
    let cs = vec![o.inductive("T", &["T"], &[], &[]), o.inductive("T", &["T"], &[], &[])];
    assert_eq!(build_error(&o, &cs), ExtractError::Duplicate);
}

#[test]
fn unexpected_kinds() {
    let mut o = Objects::new();
    let cs = vec![o.constant(KIND_AXIOM, "ok", &[]), o.constant(8, "odd", &[])];
    let e = build_error(&o, &cs);
    assert_eq!(e, ExtractError::SingletonKind { constant: 1, kind: 8 });
    assert_eq!(error_message(e, &o.heap, &cs), "constant odd has unexpected singleton kind 8");
    let e = ExtractError::BlockKind { constant: 0, kind: 250 };
    assert_eq!(error_message(e, &o.heap, &cs), "constant ok has unexpected block kind 250");
}

#[test]
fn values_are_expected() {
    let mut o = Objects::new();
    for kind in [KIND_DEF, KIND_THM, KIND_OPAQUE] {
        let mut c = o.constant(kind, "c", &[]);
        c.value = o.scalar(0);
        let cs = vec![c];
        assert_eq!(build_error(&o, &cs), ExtractError::NoValue);
    }
    let mut c = o.constant(KIND_AXIOM, "c", &[]);
    c.value = o.scalar(0);
    let cs = vec![c];
    assert!(build(&o, &cs, &[]).is_ok());
}

#[test]
fn constructor_without_its_type() {
    let mut o = Objects::new();
    let cs = vec![o.constructor("T.mk", "T", 0), o.constructor("T.mk2", "T", 1)];
    let (export, count) = build(&o, &cs, &[]).ok().unwrap();
    assert_eq!(count, 2);
    assert_eq!(declared(&export), vec!["T.mk", "T.mk2"]);
    assert!(export.mutual_block_sizes.is_empty());
}

#[test]
fn blocks_hold_no_other_kinds() {
    let mut o = Objects::new();
    let cs = vec![o.constant(KIND_AXIOM, "a", &[])];
    let mut w = Walker::new(&o.heap, Builder::new(Config::default()));
    let unit = Unit { members: vec![0], is_block: true };
    let e = w.emit_block(&cs, &unit).unwrap_err();
    assert_eq!(e, ExtractError::BlockKind { constant: 0, kind: KIND_AXIOM });
    assert_eq!(error_message(e, &o.heap, &cs), "constant a has unexpected block kind 0");
}

#[test]
fn second_walk_changes_nothing() {
    let mut o = Objects::new();
    let x = o.name("x");
    let prop = o.prop();
    let zero = o.scalar(0);
    let var = o.ctor(0, &[zero]);
    let lam = o.flagged(6, &[x, prop, var], 0);
    let app = o.ctor(5, &[lam, prop]);
    let other = o.ctor(5, &[prop, prop]);
    let mut w = Walker::new(&o.heap, Builder::new(Config::default()));
    assert!(w.expr_memo.is_empty());
    let first = w.walk_expr(app).unwrap();
    let mut seen: Vec<usize> = w.expr_memo.keys().copied().collect();
    seen.sort();
    assert_eq!(seen, vec![prop, var, lam, app]);
    assert_eq!(w.expr_memo[&app], first);
    w.walk_expr(other).unwrap();
    let memo = w.expr_memo.clone();
    assert_eq!(w.walk_expr(app), Ok(first));
    assert_eq!(w.expr_memo, memo);
    let export = w.into_builder().finish();
    assert_eq!(export.dag.exprs.len(), 5);
    assert_eq!(export.dag.names.len(), 2);
    assert_eq!(export.dag.levels.len(), 1);
    assert_eq!(export.dag.strings.len(), 1);
    assert_eq!(export.dag.uparams.len(), 0);
}

#[test]
fn literals_are_not_remembered() {
    let mut o = Objects::new();
    let text = o.string("hi");
    let lit = o.ctor(1, &[text]);
    let e = o.ctor(9, &[lit]);
    let mut w = Walker::new(&o.heap, Builder::new(Config::default()));
    let a = w.walk_literal(lit).unwrap();
    assert!(w.expr_memo.is_empty());
    assert_eq!(w.walk_expr(e), Ok(a));
    assert_eq!(w.expr_memo.len(), 1);
}

#[test]
fn graph_holds_only_what_is_declared() {
    let mut o = Objects::new();
    let cs = vec![o.constant(KIND_AXIOM, "a.b", &[]), o.constant(KIND_AXIOM, "unused", &[])];
    let (export, _) = build(&o, &cs, &["a.b"]).ok().unwrap();
    assert_eq!(export.dag.names.len(), 3);
    assert_eq!(export.dag.strings.len(), 2);
    assert_eq!(export.dag.levels.len(), 1);
    assert_eq!(export.dag.uparams.len(), 1);
    assert_eq!(export.dag.exprs.len(), 1);
    assert_eq!(export.dag.bignums.unwrap().len(), 0);
}

#[test]
fn submissions_keep_blocks_together() {
    let mut o = Objects::new();
    let cs = vec![
        o.constant(KIND_AXIOM, "a", &[]),
        o.inductive("T", &["T", "S"], &["T.mk"], &[]),
        o.inductive("S", &["S", "T"], &[], &[]),
        o.constructor("T.mk", "T", 0),
        o.recursor("T.rec", &["T", "S"], &["T.mk"]),
        o.constant(KIND_DEF, "d", &["T"]),
        o.constructor("X.mk", "X", 0),
        o.inductive("U", &["U"], &[], &[]),
    ];
    let (export, _) = build(&o, &cs, &[]).ok().unwrap();
    assert_eq!(export.submissions(), vec![(0, 1), (1, 5), (5, 6), (6, 7), (7, 8)]);
    let (export, _) = build(&o, &Vec::new(), &[]).ok().unwrap();
    assert!(export.submissions().is_empty());
}
