//! What a run of the checker says: the kernel's verdict, the report on it, and the
//! texts of errors.
use vstd::prelude::*;

use crate::heap::ExtractError;
use crate::heap::Heap;
use crate::snapshot::ConstantInfo;

verus! {

/// The character for a decimal digit.
pub open spec fn digit(d: nat) -> char {
    (48 + d) as char
}

/// The decimal digits of a number.
pub open spec fn decimal(n: nat) -> Seq<char>
    decreases n,
{
    if n < 10 {
        seq![digit(n)]
    } else {
        decimal(n / 10).push(digit(n % 10))
    }
}

/// The number that decimal digits stand for.
pub open spec fn decimal_value(s: Seq<char>) -> int
    decreases s.len(),
{
    if s.len() == 0 {
        0
    } else {
        decimal_value(s.drop_last()) * 10 + (s.last() as int - 48)
    }
}

/// Law: the digits of a number stand for that number, so different numbers have
/// different digits.
pub proof fn law_decimal_reads_back(n: nat)
    ensures
        decimal_value(decimal(n)) == n,
    decreases n,
{
    let s = decimal(n);
    if n < 10 {
        assert(s.drop_last() =~= Seq::<char>::empty());
        assert(decimal_value(s.drop_last()) == 0);
    } else {
        law_decimal_reads_back(n / 10);
        assert(s.drop_last() =~= decimal(n / 10));
    }
}

/// Law: a number is written with decimal digits only, and without a leading zero.
pub proof fn law_decimal_is_plain(n: nat)
    ensures
        decimal(n).len() > 0,
        forall|i: int| 0 <= i < decimal(n).len() ==> '0' <= #[trigger] decimal(n)[i] <= '9',
        n > 0 ==> decimal(n)[0] != '0',
    decreases n,
{
    if n >= 10 {
        law_decimal_is_plain(n / 10);
    }
}

fn digit_text(d: usize) -> (s: &'static str)
    requires
        d < 10,
    ensures
        s@ == seq![digit(d as nat)],
{
    proof {
        reveal_strlit("0");
        reveal_strlit("1");
        reveal_strlit("2");
        reveal_strlit("3");
        reveal_strlit("4");
        reveal_strlit("5");
        reveal_strlit("6");
        reveal_strlit("7");
        reveal_strlit("8");
        reveal_strlit("9");
    }
    let s = match d {
        0 => "0",
        1 => "1",
        2 => "2",
        3 => "3",
        4 => "4",
        5 => "5",
        6 => "6",
        7 => "7",
        8 => "8",
        _ => "9",
    };
    assert(s@ =~= seq![digit(d as nat)]);
    s
}

/// The decimal digits of a number.
pub fn decimal_text(n: usize) -> (s: String)
    ensures
        s@ == decimal(n as nat),
    decreases n,
{
    if n < 10 {
        String::from_str(digit_text(n))
    } else {
        let mut s = decimal_text(n / 10);
        s.append(digit_text(n % 10));
        assert(s@ =~= decimal((n / 10) as nat).push(digit((n % 10) as nat)));
        s
    }
}

/// How a run of the kernel ended.
#[derive(Debug)]
pub enum KernelOutcome {
    Accepted,
    /// The kernel rejected a declaration, with or without saying why.
    Rejected(Option<String>),
}

/// What is said of a run of the kernel on `count` declarations.
pub open spec fn verdict(count: usize, outcome: KernelOutcome) -> Result<usize, Seq<char>> {
    match outcome {
        KernelOutcome::Accepted => Ok(count),
        KernelOutcome::Rejected(Some(why)) => Err("kernel check failed: "@ + why@),
        KernelOutcome::Rejected(None) => Err(
            "kernel check failed: "@ + "kernel rejected a declaration"@,
        ),
    }
}

/// The number of declarations that were checked, or why the check failed.
pub fn kernel_verdict(count: usize, outcome: KernelOutcome) -> (r: Result<usize, String>)
    ensures
        match (r, verdict(count, outcome)) {
            (Ok(n), Ok(m)) => n == m,
            (Err(s), Err(t)) => s@ == t,
            _ => false,
        },
{
    match outcome {
        KernelOutcome::Accepted => Ok(count),
        KernelOutcome::Rejected(why) => {
            let mut s = String::from_str("kernel check failed: ");
            match why {
                Some(why) => s.append(why.as_str()),
                None => s.append("kernel rejected a declaration"),
            }
            Err(s)
        },
    }
}

/// Law: what is said of a rejection ends with the kernel's own words, and an accepted
/// run is said to have checked all that was counted.
pub proof fn law_verdict_passes_on(count: usize, why: String)
    ensures
        verdict(count, KernelOutcome::Accepted) == Ok::<usize, Seq<char>>(count),
        verdict(count, KernelOutcome::Rejected(Some(why))) is Err,
        verdict(count, KernelOutcome::Rejected(None)) is Err,
        why@.len() <= verdict(count, KernelOutcome::Rejected(Some(why)))->Err_0.len(),
        ({
            let text = verdict(count, KernelOutcome::Rejected(Some(why)))->Err_0;
            text.skip(text.len() - why@.len()) == why@ && text.take(text.len() - why@.len())
                == "kernel check failed: "@
        }),
{
    let text = verdict(count, KernelOutcome::Rejected(Some(why)))->Err_0;
    assert(text.skip(text.len() - why@.len()) =~= why@);
    assert(text.take(text.len() - why@.len()) =~= "kernel check failed: "@);
}

/// What was checked, and what failed: names and reasons.
#[derive(Debug)]
pub struct Report {
    pub total: usize,
    pub failures: Vec<(String, String)>,
}

impl Report {
    /// Whether nothing failed.
    pub fn passed(&self) -> (r: bool)
        ensures
            r == (self.failures@.len() == 0),
    {
        self.failures.len() == 0
    }

    /// The line that a report ends with.
    pub open spec fn summary_text(&self) -> Seq<char> {
        if self.failures@.len() == 0 {
            "Checked "@ + decimal(self.total as nat) + " declarations with no errors"@
        } else {
            "Checked "@ + decimal(self.total as nat) + " declarations: "@ + decimal(
                self.failures@.len(),
            ) + " failed"@
        }
    }

    /// The line that a report ends with.
    pub fn summary(&self) -> (s: String)
        ensures
            s@ == self.summary_text(),
    {
        let mut s = String::from_str("Checked ");
        s.append(decimal_text(self.total).as_str());
        if self.failures.len() == 0 {
            s.append(" declarations with no errors");
        } else {
            s.append(" declarations: ");
            s.append(decimal_text(self.failures.len()).as_str());
            s.append(" failed");
        }
        s
    }
}

/// Law: the last line of a report tells how many declarations were checked, and how
/// many failed where some did.
pub proof fn law_summary_tells_numbers(r: Report)
    ensures
        ({
            let text = r.summary_text();
            let total = decimal(r.total as nat);
            let failed = decimal(r.failures@.len());
            &&& text.len() >= 8 + total.len()
            &&& text.subrange(8, 8int + total.len()) == total
            &&& r.failures@.len() == 0 ==> text.skip(8int + total.len())
                == " declarations with no errors"@
            &&& r.failures@.len() > 0 ==> text.skip(8int + total.len()) == " declarations: "@ + failed
                + " failed"@
        }),
{
    reveal_strlit("Checked ");
    let text = r.summary_text();
    let total = decimal(r.total as nat);
    let failed = decimal(r.failures@.len());
    assert(text.subrange(8, 8int + total.len()) =~= total);
    if r.failures@.len() == 0 {
        assert(text.skip(8int + total.len()) =~= " declarations with no errors"@);
    } else {
        assert(text.skip(8int + total.len()) =~= " declarations: "@ + failed + " failed"@);
    }
}

/// Ask for at least one module.
pub fn require_modules(modules: &Vec<String>) -> (r: Result<(), String>)
    ensures
        match r {
            Ok(_) => modules@.len() > 0,
            Err(s) => modules@.len() == 0 && s@
                == "no modules given; pass at least one, e.g. `lean-checker Init`"@,
        },
{
    if modules.len() == 0 {
        Err(String::from_str("no modules given; pass at least one, e.g. `lean-checker Init`"))
    } else {
        Ok(())
    }
}

/// Names with the kinds at the same positions, as far as there are both.
pub open spec fn paired(names: Seq<String>, kinds: Seq<String>) -> Seq<(Seq<char>, Seq<char>)> {
    Seq::new(
        if names.len() < kinds.len() {
            names.len()
        } else {
            kinds.len()
        },
        |i: int| (names[i]@, kinds[i]@),
    )
}

/// Names with the kinds at the same positions, as far as there are both.
pub fn named_kinds(names: &Vec<String>, kinds: &Vec<String>) -> (r: Vec<(String, String)>)
    ensures
        r@.map_values(|p: (String, String)| (p.0@, p.1@)) == paired(names@, kinds@),
{
    let mut out: Vec<(String, String)> = Vec::new();
    let mut i: usize = 0;
    while i < names.len() && i < kinds.len()
        invariant
            i <= names@.len(),
            i <= kinds@.len(),
            out@.len() == i,
            forall|k: int|
                0 <= k < i ==> (#[trigger] out@[k]).0@ == names@[k]@ && out@[k].1@ == kinds@[k]@,
        decreases names@.len() - i,
    {
        out.push((names[i].clone(), kinds[i].clone()));
        i = i + 1;
    }
    assert(out@.map_values(|p: (String, String)| (p.0@, p.1@)) =~= paired(names@, kinds@));
    out
}

/// Law: each name is paired with the kind at its position, as long as both lists go
/// on.
pub proof fn law_pairs(names: Seq<String>, kinds: Seq<String>, i: int)
    ensures
        paired(names, kinds).len() <= names.len(),
        paired(names, kinds).len() <= kinds.len(),
        paired(names, kinds).len() == names.len() || paired(names, kinds).len() == kinds.len(),
        0 <= i < paired(names, kinds).len() ==> paired(names, kinds)[i] == (
            names[i]@,
            kinds[i]@,
        ),
{
}

/// The name of a constant, as far as there is one.
pub open spec fn constant_name(h: &Heap, cs: Seq<ConstantInfo>, i: usize) -> Seq<char> {
    if i < cs.len() {
        match h.text(cs[i as int].name_text) {
            Ok(t) => t,
            Err(_) => Seq::empty(),
        }
    } else {
        Seq::empty()
    }
}

/// What is said of an error in the constants `cs`.
pub open spec fn error_text(e: ExtractError, h: &Heap, cs: Seq<ConstantInfo>) -> Seq<char> {
    match e {
        ExtractError::Malformed(o) => "malformed object "@ + decimal(o as nat),
        ExtractError::NameTag(t) => "unexpected Name tag "@ + decimal(t as nat),
        ExtractError::LevelTag(t) => "unexpected Level tag "@ + decimal(t as nat)
            + " (uninstantiated universe metavariable?)"@,
        ExtractError::ExprTag(t) => "unexpected Expr tag "@ + decimal(t as nat),
        ExtractError::LiteralTag(t) => "unexpected Literal tag "@ + decimal(t as nat),
        ExtractError::FreeVariable => "free variable in exported term"@,
        ExtractError::MetaVariable => "metavariable in exported term"@,
        ExtractError::BinderInfo(b) => "unexpected binderInfo "@ + decimal(b as nat),
        ExtractError::NatLiteral => "expr_nat_lit requires config.nat_extension"@,
        ExtractError::NoValue => "expected a value"@,
        ExtractError::SingletonKind { constant, kind } => "constant "@ + constant_name(
            h,
            cs,
            constant,
        ) + " has unexpected singleton kind "@ + decimal(kind as nat),
        ExtractError::BlockKind { constant, kind } => "constant "@ + constant_name(h, cs, constant)
            + " has unexpected block kind "@ + decimal(kind as nat),
        ExtractError::Duplicate => "duplicate declaration submitted to builder"@,
    }
}

/// Law: the message on a constant of an unexpected kind tells the constant's name and
/// the kind; the other messages tell the number that was not expected.
pub proof fn law_messages_tell(
    h: &Heap,
    cs: Seq<ConstantInfo>,
    i: usize,
    k: u8,
    o: usize,
    name: Seq<char>,
)
    requires
        i < cs.len(),
        crate::layout::spells(h, cs[i as int].name_text, name),
    ensures
        error_text(ExtractError::SingletonKind { constant: i, kind: k }, h, cs) == "constant "@
            + name + " has unexpected singleton kind "@ + decimal(k as nat),
        error_text(ExtractError::BlockKind { constant: i, kind: k }, h, cs) == "constant "@ + name
            + " has unexpected block kind "@ + decimal(k as nat),
        error_text(ExtractError::NameTag(k), h, cs) == "unexpected Name tag "@ + decimal(
            k as nat,
        ),
        error_text(ExtractError::LevelTag(k), h, cs) == "unexpected Level tag "@ + decimal(
            k as nat,
        ) + " (uninstantiated universe metavariable?)"@,
        error_text(ExtractError::ExprTag(k), h, cs) == "unexpected Expr tag "@ + decimal(
            k as nat,
        ),
        error_text(ExtractError::LiteralTag(k), h, cs) == "unexpected Literal tag "@ + decimal(
            k as nat,
        ),
        error_text(ExtractError::BinderInfo(k), h, cs) == "unexpected binderInfo "@ + decimal(
            k as nat,
        ),
        error_text(ExtractError::Malformed(o), h, cs) == "malformed object "@ + decimal(o as nat),
{
    crate::layout::law_text_read(h, cs[i as int].name_text, name);
}

fn read_constant_name(h: &Heap, cs: &Vec<ConstantInfo>, i: usize) -> (s: String)
    ensures
        s@ == constant_name(h, cs@, i),
{
    if i < cs.len() {
        match h.read_string(cs[i].name_text) {
            Ok(t) => t,
            Err(_) => String::new(),
        }
    } else {
        String::new()
    }
}

fn numbered(before: &str, n: usize) -> (s: String)
    ensures
        s@ == before@ + decimal(n as nat),
{
    let mut s = String::from_str(before);
    s.append(decimal_text(n).as_str());
    s
}

/// What is said of an error in the constants `cs`.
pub fn error_message(e: ExtractError, h: &Heap, cs: &Vec<ConstantInfo>) -> (s: String)
    ensures
        s@ == error_text(e, h, cs@),
{
    match e {
        ExtractError::Malformed(o) => numbered("malformed object ", o),
        ExtractError::NameTag(t) => numbered("unexpected Name tag ", t as usize),
        ExtractError::LevelTag(t) => {
            let mut s = numbered("unexpected Level tag ", t as usize);
            s.append(" (uninstantiated universe metavariable?)");
            s
        },
        ExtractError::ExprTag(t) => numbered("unexpected Expr tag ", t as usize),
        ExtractError::LiteralTag(t) => numbered("unexpected Literal tag ", t as usize),
        ExtractError::FreeVariable => String::from_str("free variable in exported term"),
        ExtractError::MetaVariable => String::from_str("metavariable in exported term"),
        ExtractError::BinderInfo(b) => numbered("unexpected binderInfo ", b as usize),
        ExtractError::NatLiteral => String::from_str("expr_nat_lit requires config.nat_extension"),
        ExtractError::NoValue => String::from_str("expected a value"),
        ExtractError::SingletonKind { constant, kind } => {
            let mut s = String::from_str("constant ");
            s.append(read_constant_name(h, cs, constant).as_str());
            s.append(" has unexpected singleton kind ");
            s.append(decimal_text(kind as usize).as_str());
            s
        },
        ExtractError::BlockKind { constant, kind } => {
            let mut s = String::from_str("constant ");
            s.append(read_constant_name(h, cs, constant).as_str());
            s.append(" has unexpected block kind ");
            s.append(decimal_text(kind as usize).as_str());
            s
        },
        ExtractError::Duplicate => String::from_str("duplicate declaration submitted to builder"),
    }
}

} // verus!
