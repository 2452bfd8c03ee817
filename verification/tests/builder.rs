use lean_checker::bignat::BigNat;
use lean_checker::builder::Builder;
use lean_checker::builder::ConstructorInput;
use lean_checker::builder::InductiveInput;
use lean_checker::builder::RecRuleInput;
use lean_checker::builder::RecursorInput;
use lean_checker::env::Config;
use lean_checker::env::Declar;
use lean_checker::env::ExportFile;
use lean_checker::node::BinderStyle;
use lean_checker::node::Expr;
use lean_checker::node::Level;
use lean_checker::node::Name;
use lean_checker::node::ReducibilityHint;
use lean_checker::table::Intern;

fn test_config() -> Config {
    Config {
        nat_extension: false,
        string_extension: false,
        print_success_message: true,
        print_axioms: true,
        ..Config::default()
    }
}

fn empty_export_file() -> ExportFile {
    Builder::new(test_config()).finish()
}

/// A small generator, so that runs repeat.
struct Random {
    state: u64,
}

impl Random {
    fn next(&mut self) -> u64 {
        self.state = self.state.wrapping_mul(6364136223846793005).wrapping_add(1442695040888963407);
        self.state >> 33
    }

    fn string(&mut self, size: usize) -> String {
        let letters: Vec<char> =
            "ABCDEFGHIJKLMNOPQRSTUVWXYZabcdefghijklmnopqrstuvwxyz0123456789".chars().collect();
        (0..size).map(|_| letters[(self.next() % 62) as usize]).collect()
    }

    fn bytes(&mut self, bits: usize) -> Vec<u8> {
        (0..(bits + 7) / 8).map(|_| self.next() as u8).collect()
    }
}

/// `def Foo : Type 0 := Prop`.
#[test]
fn builder_checks_a_definition() {
    let mut b = Builder::new(Config::default());

    let anon = b.name_anon();
    let foo = b.name_str(anon, "Foo");
    let uparams = b.levels(&[]);
    let zero = b.level_zero();
    let one = b.level_succ(zero);
    let type0 = b.expr_sort(one);
    let zero = b.level_zero();
    let prop = b.expr_sort(zero);
    assert!(!b.is_declared(foo));
    b.add_definition(foo, uparams, type0, prop, ReducibilityHint::Regular(0));
    assert!(b.is_declared(foo));

    let export = b.finish();
    assert_eq!(export.declars.len(), 1);
    let declar = export.declars.get(foo).unwrap();
    assert_eq!(declar.info().name, foo);
    assert_eq!(declar.info().uparams, uparams);
    assert_eq!(declar.info().ty, type0);
    match declar {
        Declar::Definition { val, hint, .. } => {
            assert_eq!(*val, prop);
            assert_eq!(*hint, ReducibilityHint::Regular(0));
        }
        _ => panic!("not a definition"),
    }
    match export.dag.exprs.get_index(type0.idx) {
        Expr::Sort { level, .. } => {
            assert!(matches!(export.dag.levels.get_index(level.idx), Level::Succ(l, _) if l.idx == 0));
        }
        _ => panic!("not a sort"),
    }
    assert!(matches!(export.dag.exprs.get_index(prop.idx), Expr::Sort { level, .. } if level.idx == 0));
    match export.dag.names.get_index(foo.idx) {
        Name::Str(pre, s, _) => {
            assert_eq!(*pre, anon);
            assert_eq!(export.dag.strings.get_index(s.idx).as_str(), "Foo");
        }
        _ => panic!("not a string component"),
    }
}

#[test]
fn check_empty() {
    let export = empty_export_file();
    let mut checked = 0;
    for _declar in export.declars.values() {
        checked += 1;
    }
    assert_eq!(checked, 0);
    assert!(export.mutual_block_sizes.is_empty());
    assert!(!export.config.nat_extension);
    assert!(!export.config.string_extension);
    assert!(export.config.print_success_message);
    assert!(export.config.print_axioms);
    assert_eq!(export.config.num_threads, 1);
}

#[test]
fn hash_test0() {
    let mut random = Random { state: 2024 };
    let mut b = Builder::new(Config::default());
    let mut pairs = Vec::new();
    for size in 0..100 {
        for _ in 0..100 {
            let s = random.string(size);
            let (l, r) = (b.expr_string_lit(&s.clone()), b.expr_string_lit(&s));
            assert_eq!(l, r);
            pairs.push((l, r));
        }
        for _ in 0..100 {
            let bytes = random.bytes(size);
            let l = b.expr_nat_lit(BigNat::from_bytes_le(&bytes));
            let r = b.expr_nat_lit(BigNat::from_bytes_le(&bytes));
            assert_eq!(l, r);
            pairs.push((l, r));
        }
    }
    let export = b.finish();
    for (l, r) in pairs {
        let (l, r) = (export.dag.exprs.get_index(l.idx), export.dag.exprs.get_index(r.idx));
        assert_eq!(l.hash_code(), r.hash_code());
    }
}

#[test]
fn default_config() {
    let c = Config::default();
    assert!(c.nat_extension);
    assert!(c.string_extension);
    assert!(!c.print_success_message);
    assert!(!c.print_axioms);
    assert_eq!(c.num_threads, 1);
}

#[test]
fn fresh_builder_is_seeded() {
    let export = empty_export_file();
    assert_eq!(export.dag.names.len(), 1);
    assert_eq!(*export.dag.names.get_index(0), Name::Anon);
    assert_eq!(export.dag.levels.len(), 1);
    assert_eq!(*export.dag.levels.get_index(0), Level::Zero);
    assert_eq!(export.dag.exprs.len(), 0);
    assert_eq!(export.dag.strings.len(), 0);
    assert_eq!(export.dag.uparams.len(), 0);
    assert!(export.dag.bignums.is_none());
    let with_numbers = Builder::new(Config::default()).finish();
    assert_eq!(with_numbers.dag.bignums.unwrap().len(), 0);
}

#[test]
fn equal_terms_share() {
    let mut b = Builder::new(Config::default());
    let anon = b.name_anon();
    let x = b.name_str(anon, "x");
    assert_eq!(x, b.name_str(anon, "x"));
    assert_ne!(x, b.name_str(anon, "y"));
    let x1 = b.name_num(x, 1);
    assert_eq!(x1, b.name_num(x, 1));
    assert_ne!(x1, b.name_num(x, 2));
    assert_ne!(x1, b.name_num(anon, 1));

    let zero = b.level_zero();
    let u = b.level_param(x);
    let one = b.level_succ(zero);
    assert_eq!(one, b.level_succ(zero));
    let max = b.level_max(u, one);
    assert_eq!(max, b.level_max(u, one));
    assert_ne!(max, b.level_max(one, u));
    assert_ne!(max, b.level_imax(u, one));
    let us = b.levels(&[u, max]);
    assert_eq!(us, b.levels(&[u, max]));
    assert_ne!(us, b.levels(&[max, u]));
    assert_ne!(us, b.levels(&[]));

    let c = b.expr_const(x, us);
    assert_eq!(c, b.expr_const(x, us));
    let v = b.expr_var(0);
    let app = b.expr_app(c, v);
    assert_eq!(app, b.expr_app(c, v));
    assert_ne!(app, b.expr_app(v, c));
    let lambda = b.expr_lambda(x, BinderStyle::Default, c, v);
    assert_eq!(lambda, b.expr_lambda(x, BinderStyle::Default, c, v));
    assert_ne!(lambda, b.expr_lambda(x, BinderStyle::Implicit, c, v));
    assert_ne!(lambda, b.expr_lambda(x1, BinderStyle::Default, c, v));
    assert_ne!(lambda, b.expr_pi(x, BinderStyle::Default, c, v));
    let l = b.expr_let(x, c, c, v, false);
    assert_eq!(l, b.expr_let(x, c, c, v, false));
    assert_ne!(l, b.expr_let(x, c, c, v, true));
    let proj = b.expr_proj(x, 3, c);
    assert_eq!(proj, b.expr_proj(x, 3, c));
    assert_ne!(proj, b.expr_proj(x, 4, c));
    let s = b.expr_string_lit("x");
    assert_eq!(s, b.expr_string_lit("x"));
    assert_ne!(s, b.expr_string_lit(""));
    let n = b.expr_nat_lit(BigNat::from_u64(300));
    assert_eq!(n, b.expr_nat_lit(BigNat::from_bytes_le(&[44, 1, 0, 0])));
    assert_ne!(n, b.expr_nat_lit(BigNat::from_u64(301)));
    let export = b.finish();
    assert_eq!(export.dag.bignums.unwrap().len(), 2);
}

#[test]
fn names_and_string_literals_share_strings() {
    let mut b = Builder::new(Config::default());
    let anon = b.name_anon();
    b.name_str(anon, "same");
    b.expr_string_lit("same");
    b.name_str(anon, "other");
    let export = b.finish();
    assert_eq!(export.dag.strings.len(), 2);
}

#[test]
fn loose_bound_variables() {
    let mut b = Builder::new(Config::default());
    let anon = b.name_anon();
    let zero = b.level_zero();
    let sort = b.expr_sort(zero);
    let v0 = b.expr_var(0);
    let v4 = b.expr_var(4);
    let last = b.expr_var(65535);
    assert_eq!(b.num_loose_bvars(sort), 0);
    assert_eq!(b.num_loose_bvars(v0), 1);
    assert_eq!(b.num_loose_bvars(v4), 5);
    assert_eq!(b.num_loose_bvars(last), 65536);
    let app = b.expr_app(v0, v4);
    assert_eq!(b.num_loose_bvars(app), 5);
    let closed = b.expr_lambda(anon, BinderStyle::Default, sort, v0);
    assert_eq!(b.num_loose_bvars(closed), 0);
    let open = b.expr_pi(anon, BinderStyle::Implicit, v0, v4);
    assert_eq!(b.num_loose_bvars(open), 4);
    let by_type = b.expr_pi(anon, BinderStyle::Implicit, v4, v0);
    assert_eq!(b.num_loose_bvars(by_type), 5);
    let by_value = b.expr_let(anon, sort, v4, v0, false);
    assert_eq!(b.num_loose_bvars(by_value), 5);
    let by_body = b.expr_let(anon, v0, sort, v4, false);
    assert_eq!(b.num_loose_bvars(by_body), 4);
    let proj = b.expr_proj(anon, 0, v4);
    assert_eq!(b.num_loose_bvars(proj), 5);
    assert!(!b.has_fvars(app));
    assert!(!b.has_fvars(proj));
}

#[test]
fn declarations_keep_their_order() {
    let mut b = Builder::new(Config::default());
    let anon = b.name_anon();
    let us = b.levels(&[]);
    let zero = b.level_zero();
    let prop = b.expr_sort(zero);
    let names: Vec<_> = ["a", "q", "t", "d", "o"].iter().map(|s| b.name_str(anon, s)).collect();
    b.add_axiom(names[0], us, prop);
    b.add_quot(names[1], us, prop);
    b.add_theorem(names[2], us, prop, prop);
    b.add_definition(names[3], us, prop, prop, ReducibilityHint::Abbrev);
    b.add_opaque(names[4], us, prop, prop);
    let export = b.finish();
    let found: Vec<_> = export.declars.values().iter().map(|d| d.info().name).collect();
    assert_eq!(found, names);
    let values = export.declars.values();
    assert!(matches!(values[0], Declar::Axiom { .. }));
    assert!(matches!(values[1], Declar::Quot { .. }));
    assert!(matches!(values[2], Declar::Theorem { val, .. } if val == prop));
    assert!(matches!(values[3], Declar::Definition { hint: ReducibilityHint::Abbrev, .. }));
    assert!(matches!(values[4], Declar::Opaque { val, .. } if val == prop));
    assert!(export.declars.get(anon).is_none());
    assert!(export.mutual_block_sizes.is_empty());
}

#[test]
fn mutual_block_is_contiguous() {
    let mut b = Builder::new(Config::default());
    let anon = b.name_anon();
    let us = b.levels(&[]);
    let zero = b.level_zero();
    let prop = b.expr_sort(zero);
    let before = b.name_str(anon, "before");
    b.add_axiom(before, us, prop);
    let even = b.name_str(anon, "Even");
    let odd = b.name_str(anon, "Odd");
    let zero_ctor = b.name_str(even, "zero");
    let even_rec = b.name_str(even, "rec");
    let ind = |name| InductiveInput {
        name,
        uparams: us,
        ty: prop,
        is_recursive: true,
        is_nested: false,
        num_params: 1,
        num_indices: 2,
        all_ind_names: vec![even, odd],
        all_ctor_names: vec![zero_ctor],
    };
    let ctor = ConstructorInput {
        name: zero_ctor,
        uparams: us,
        ty: prop,
        inductive_name: even,
        ctor_idx: 7,
        num_params: 8,
        num_fields: 9,
    };
    let rec = RecursorInput {
        name: even_rec,
        uparams: us,
        ty: prop,
        all_inductives: vec![even, odd],
        num_params: 1,
        num_indices: 2,
        num_motives: 3,
        num_minors: 4,
        rec_rules: vec![RecRuleInput { ctor_name: zero_ctor, num_fields: 5, rhs: prop }],
        is_k: true,
    };
    b.add_inductive_block(vec![ind(even), ind(odd)], vec![ctor], vec![rec]);
    let export = b.finish();
    let found: Vec<_> = export.declars.values().iter().map(|d| d.info().name).collect();
    assert_eq!(found, vec![before, even, odd, zero_ctor, even_rec]);
    assert_eq!(export.mutual_block_sizes.len(), 2);
    assert_eq!(export.mutual_block_sizes[&even.idx], (1, 4));
    assert_eq!(export.mutual_block_sizes[&odd.idx], (1, 4));
    match &export.declars.values()[1] {
        Declar::Inductive(x) => {
            assert!(x.is_recursive && !x.is_nested);
            assert_eq!((x.num_params, x.num_indices), (1, 2));
            assert_eq!(x.all_ind_names, vec![even, odd]);
            assert_eq!(x.all_ctor_names, vec![zero_ctor]);
        }
        _ => panic!("not an inductive type"),
    }
    match &export.declars.values()[3] {
        Declar::Constructor(x) => {
            assert_eq!(x.inductive_name, even);
            assert_eq!((x.ctor_idx, x.num_params, x.num_fields), (7, 8, 9));
        }
        _ => panic!("not a constructor"),
    }
    match &export.declars.values()[4] {
        Declar::Recursor(x) => {
            assert_eq!(x.all_inductives, vec![even, odd]);
            assert_eq!((x.num_params, x.num_indices, x.num_motives, x.num_minors), (1, 2, 3, 4));
            assert_eq!(x.rec_rules.len(), 1);
            assert_eq!(x.rec_rules[0].ctor_name, zero_ctor);
            assert_eq!(x.rec_rules[0].ctor_telescope_size_wo_params, 5);
            assert_eq!(x.rec_rules[0].val, prop);
            assert!(x.is_k);
        }
        _ => panic!("not a recursor"),
    }
}

#[test]
fn empty_block_declares_nothing() {
    let mut b = Builder::new(Config::default());
    b.add_inductive_block(vec![], vec![], vec![]);
    let export = b.finish();
    assert_eq!(export.declars.len(), 0);
    assert!(export.mutual_block_sizes.is_empty());
}

#[test]
fn big_numbers() {
    assert_eq!(BigNat::from_u64(0).as_bytes_le(), &[0]);
    assert_eq!(BigNat::from_bytes_le(&[]).as_bytes_le(), &[0]);
    assert_eq!(BigNat::from_u64(258).as_bytes_le(), &[2, 1]);
    assert_eq!(BigNat::from_bytes_le(&[5, 0, 0]).as_bytes_le(), &[5]);
    assert_eq!(BigNat::from_bytes_le(&[5, 0, 0]).to_u64(), Some(5));
    assert_eq!(BigNat::from_u64(u64::MAX).to_u64(), Some(u64::MAX));
    assert_eq!(BigNat::from_bytes_le(&[255; 8]).to_u64(), Some(u64::MAX));
    assert_eq!(BigNat::from_bytes_le(&[0, 0, 0, 0, 0, 0, 0, 0, 1]).to_u64(), None);
    assert!(BigNat::from_u64(7).same(&BigNat::from_bytes_le(&[7, 0])));
    assert!(!BigNat::from_u64(7).same(&BigNat::from_u64(8)));
}
