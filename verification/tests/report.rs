use lean_checker::hash::mix;
use lean_checker::hash::mix_bytes;
use lean_checker::heap::ExtractError;
use lean_checker::heap::Heap;
use lean_checker::node::hash1;
use lean_checker::node::hash2;
use lean_checker::report::decimal_text;
use lean_checker::report::error_message;
use lean_checker::report::kernel_verdict;
use lean_checker::report::named_kinds;
use lean_checker::report::require_modules;
use lean_checker::report::KernelOutcome;
use lean_checker::report::Report;

fn message(e: ExtractError) -> String {
    error_message(e, &Heap { objs: Vec::new() }, &Vec::new())
}

#[test]
fn decimals() {
    assert_eq!(decimal_text(0), "0");
    assert_eq!(decimal_text(9), "9");
    assert_eq!(decimal_text(10), "10");
    assert_eq!(decimal_text(1234567890), "1234567890");
    assert_eq!(decimal_text(usize::MAX), format!("{}", usize::MAX));
}

#[test]
fn verdicts() {
    assert_eq!(kernel_verdict(12, KernelOutcome::Accepted), Ok(12));
    assert_eq!(
        kernel_verdict(12, KernelOutcome::Rejected(Some("bad type".to_string()))),
        Err("kernel check failed: bad type".to_string())
    );
    assert_eq!(
        kernel_verdict(12, KernelOutcome::Rejected(None)),
        Err("kernel check failed: kernel rejected a declaration".to_string())
    );
}

#[test]
fn summaries() {
    let good = Report { total: 41, failures: Vec::new() };
    assert!(good.passed());
    assert_eq!(good.summary(), "Checked 41 declarations with no errors");
    let bad = Report { total: 100, failures: vec![("a".to_string(), "b".to_string()); 2] };
    assert!(!bad.passed());
    assert_eq!(bad.summary(), "Checked 100 declarations: 2 failed");
}

#[test]
fn modules_are_required() {
    assert_eq!(
        require_modules(&Vec::new()),
        Err("no modules given; pass at least one, e.g. `lean-checker Init`".to_string())
    );
    assert_eq!(require_modules(&vec!["Init".to_string()]), Ok(()));
}

#[test]
fn error_messages() {
    assert_eq!(message(ExtractError::Malformed(17)), "malformed object 17");
    assert_eq!(message(ExtractError::NameTag(3)), "unexpected Name tag 3");
    assert_eq!(
        message(ExtractError::LevelTag(5)),
        "unexpected Level tag 5 (uninstantiated universe metavariable?)"
    );
    assert_eq!(message(ExtractError::ExprTag(255)), "unexpected Expr tag 255");
    assert_eq!(message(ExtractError::LiteralTag(2)), "unexpected Literal tag 2");
    assert_eq!(message(ExtractError::FreeVariable), "free variable in exported term");
    assert_eq!(message(ExtractError::MetaVariable), "metavariable in exported term");
    assert_eq!(message(ExtractError::BinderInfo(4)), "unexpected binderInfo 4");
    assert_eq!(message(ExtractError::NatLiteral), "expr_nat_lit requires config.nat_extension");
    assert_eq!(message(ExtractError::NoValue), "expected a value");
    assert_eq!(
        message(ExtractError::SingletonKind { constant: 0, kind: 9 }),
        "constant  has unexpected singleton kind 9"
    );
}

#[test]
fn names_are_paired_with_kinds() {
    let names = vec!["a".to_string(), "b".to_string()];
    let kinds = vec!["axiom".to_string(), "def".to_string(), "thm".to_string()];
    let pairs = named_kinds(&names, &kinds);
    assert_eq!(
        pairs,
        vec![("a".to_string(), "axiom".to_string()), ("b".to_string(), "def".to_string())]
    );
    assert!(named_kinds(&Vec::new(), &kinds).is_empty());
    assert_eq!(named_kinds(&kinds, &names).len(), 2);
}

#[test]
fn hashes_depend_on_each_word() {
    assert_ne!(hash1(1, 2), hash1(2, 1));
    assert_ne!(hash2(1, 2, 3), hash2(1, 3, 2));
    assert_eq!(hash2(1, 2, 3), mix(hash1(1, 2), 3));
    assert_eq!(mix(0, 1), 0x517c_c1b7_2722_0a95);
    assert_eq!(hash1(1, 0), 0x517c_c1b7_2722_0a95u64.rotate_left(5).wrapping_mul(0x517c_c1b7_2722_0a95));
    assert_ne!(mix_bytes(0, &[1, 2]), mix_bytes(0, &[2, 1]));
}
