//! The constants of an imported environment as plain values, and what is known of
//! each before any expression is walked.
use vstd::prelude::*;

use crate::heap::ExtractError;
use crate::heap::Heap;
use crate::key::texts;

verus! {

pub const KIND_AXIOM: u8 = 0;
pub const KIND_DEF: u8 = 1;
pub const KIND_THM: u8 = 2;
pub const KIND_OPAQUE: u8 = 3;
pub const KIND_QUOT: u8 = 4;
pub const KIND_INDUCT: u8 = 5;
pub const KIND_CTOR: u8 = 6;
pub const KIND_REC: u8 = 7;

/// What an inductive type has besides what every constant has. Fields that hold
/// objects hold addresses in the heap.
#[derive(Debug, Default)]
pub struct InductiveInfo {
    pub num_params: u32,
    pub num_indices: u32,
    pub is_rec: u8,
    pub num_nested: u32,
    /// An array with the names of the inductive types of the mutual block.
    pub all: usize,
    /// The same names as strings.
    pub all_texts: Vec<usize>,
    /// An array with the names of the constructors.
    pub ctors: usize,
}

/// What a constructor has besides what every constant has.
#[derive(Debug, Default)]
pub struct ConstructorInfo {
    /// The name of the inductive type.
    pub induct: usize,
    /// The same name as a string.
    pub induct_text: usize,
    pub cidx: u32,
    pub num_params: u32,
    pub num_fields: u32,
}

/// A computation rule of a recursor.
#[derive(Debug, Default)]
pub struct RuleInfo {
    /// The name of the constructor.
    pub ctor: usize,
    pub num_fields: u32,
    pub rhs: usize,
}

/// What a recursor has besides what every constant has.
#[derive(Debug, Default)]
pub struct RecursorInfo {
    pub num_params: u32,
    pub num_indices: u32,
    pub num_motives: u32,
    pub num_minors: u32,
    pub k: u8,
    /// An array with the names of the inductive types of the mutual block.
    pub all: usize,
    /// The same names as strings.
    pub all_texts: Vec<usize>,
    pub rules: Vec<RuleInfo>,
}

/// A constant. What belongs to one kind is read for constants of that kind only.
#[derive(Debug, Default)]
pub struct ConstantInfo {
    pub name: usize,
    /// The name as a string.
    pub name_text: usize,
    pub kind: u8,
    /// The names, as strings, of the constants that this one mentions.
    pub deps: Vec<usize>,
    /// An array with the names of the universe parameters.
    pub level_params: usize,
    pub ty: usize,
    /// An optional expression: the value of a definition, theorem or opaque constant.
    pub value: usize,
    pub hint_kind: u8,
    pub hint_height: u32,
    pub induct: InductiveInfo,
    pub ctor: ConstructorInfo,
    pub rec: RecursorInfo,
}

/// What is known of a constant before any expression is walked.
#[derive(Debug)]
pub struct ConstMeta {
    pub name: String,
    pub kind: u8,
    pub deps: Vec<String>,
    /// The inductive types of the mutual block of an inductive type.
    pub induct_all: Vec<String>,
    /// The inductive types of the mutual block of a recursor.
    pub rec_all: Vec<String>,
    /// The inductive type of a constructor.
    pub induct: String,
}

/// [`ConstMeta`], mathematically.
#[verifier::ext_equal]
pub struct Meta {
    pub name: Seq<char>,
    pub kind: u8,
    pub deps: Seq<Seq<char>>,
    pub induct_all: Seq<Seq<char>>,
    pub rec_all: Seq<Seq<char>>,
    pub induct: Seq<char>,
}

impl View for ConstMeta {
    type V = Meta;

    open spec fn view(&self) -> Meta {
        Meta {
            name: self.name@,
            kind: self.kind,
            deps: texts(self.deps@),
            induct_all: texts(self.induct_all@),
            rec_all: texts(self.rec_all@),
            induct: self.induct@,
        }
    }
}

/// The views of a sequence of them.
pub open spec fn metas_of(ms: Seq<ConstMeta>) -> Seq<Meta> {
    ms.map_values(|m: ConstMeta| m@)
}

/// The texts that a sequence of objects stands for.
pub open spec fn decode_texts(h: &Heap, os: Seq<usize>) -> Result<Seq<Seq<char>>, ExtractError>
    decreases os.len(),
{
    if os.len() == 0 {
        Ok(Seq::empty())
    } else {
        match decode_texts(h, os.drop_last()) {
            Err(e) => Err(e),
            Ok(ts) => match h.text(os.last()) {
                Err(e) => Err(e),
                Ok(t) => Ok(ts.push(t)),
            },
        }
    }
}

/// The text of the inductive type of a constructor; of any other constant, nothing.
pub open spec fn decode_induct(h: &Heap, c: ConstantInfo) -> Result<Seq<char>, ExtractError> {
    if c.kind == KIND_CTOR {
        h.text(c.ctor.induct_text)
    } else {
        Ok(Seq::empty())
    }
}

/// What is known of a constant before any expression is walked.
pub open spec fn decode_meta(h: &Heap, c: ConstantInfo) -> Result<Meta, ExtractError> {
    match (
        h.text(c.name_text),
        decode_texts(h, c.deps@),
        decode_texts(h, c.induct.all_texts@),
        decode_texts(h, c.rec.all_texts@),
        decode_induct(h, c),
    ) {
        (Err(e), _, _, _, _) => Err(e),
        (_, Err(e), _, _, _) => Err(e),
        (_, _, Err(e), _, _) => Err(e),
        (_, _, _, Err(e), _) => Err(e),
        (_, _, _, _, Err(e)) => Err(e),
        (Ok(name), Ok(deps), Ok(induct_all), Ok(rec_all), Ok(induct)) => Ok(
            Meta { name, kind: c.kind, deps, induct_all, rec_all, induct },
        ),
    }
}

/// What is known of the constants before any expression is walked.
pub open spec fn decode_metas(h: &Heap, cs: Seq<ConstantInfo>) -> Result<Seq<Meta>, ExtractError>
    decreases cs.len(),
{
    if cs.len() == 0 {
        Ok(Seq::empty())
    } else {
        match decode_metas(h, cs.drop_last()) {
            Err(e) => Err(e),
            Ok(ms) => match decode_meta(h, cs.last()) {
                Err(e) => Err(e),
                Ok(m) => Ok(ms.push(m)),
            },
        }
    }
}

proof fn lemma_texts_stop(h: &Heap, os: Seq<usize>, n: int, e: ExtractError)
    requires
        0 < n <= os.len(),
        decode_texts(h, os.take(n)) == Err::<Seq<Seq<char>>, ExtractError>(e),
    ensures
        decode_texts(h, os) == Err::<Seq<Seq<char>>, ExtractError>(e),
    decreases os.len(),
{
    if n == os.len() {
        assert(os.take(n) =~= os);
    } else {
        assert(os.drop_last().take(n) =~= os.take(n));
        lemma_texts_stop(h, os.drop_last(), n, e);
    }
}

proof fn lemma_metas_stop(h: &Heap, cs: Seq<ConstantInfo>, n: int, e: ExtractError)
    requires
        0 < n <= cs.len(),
        decode_metas(h, cs.take(n)) == Err::<Seq<Meta>, ExtractError>(e),
    ensures
        decode_metas(h, cs) == Err::<Seq<Meta>, ExtractError>(e),
    decreases cs.len(),
{
    if n == cs.len() {
        assert(cs.take(n) =~= cs);
    } else {
        assert(cs.drop_last().take(n) =~= cs.take(n));
        lemma_metas_stop(h, cs.drop_last(), n, e);
    }
}

/// Read a list of strings.
pub fn read_strings(h: &Heap, os: &Vec<usize>) -> (r: Result<Vec<String>, ExtractError>)
    ensures
        match (r, decode_texts(h, os@)) {
            (Ok(v), Ok(ts)) => texts(v@) == ts,
            (Err(e), Err(f)) => e == f,
            _ => false,
        },
{
    let mut out: Vec<String> = Vec::new();
    let n: usize = os.len();
    let mut i: usize = 0;
    assert(os@.take(0) =~= Seq::<usize>::empty());
    assert(texts(out@) =~= Seq::<Seq<char>>::empty());
    while i < n
        invariant
            n == os@.len(),
            i <= n,
            decode_texts(h, os@.take(i as int)) == Ok::<Seq<Seq<char>>, ExtractError>(texts(out@)),
        decreases n - i,
    {
        let ghost out0 = out@;
        assert(os@.take(i + 1).drop_last() =~= os@.take(i as int));
        match h.read_string(os[i]) {
            Ok(s) => {
                let ghost t = s@;
                out.push(s);
                assert(texts(out@) =~= texts(out0).push(t));
            },
            Err(e) => {
                proof {
                    lemma_texts_stop(h, os@, i + 1, e);
                }
                return Err(e);
            },
        }
        i = i + 1;
    }
    assert(os@.take(n as int) =~= os@);
    Ok(out)
}

/// Read what is known of a constant before any expression is walked.
pub fn read_meta(h: &Heap, c: &ConstantInfo) -> (r: Result<ConstMeta, ExtractError>)
    ensures
        match (r, decode_meta(h, *c)) {
            (Ok(m), Ok(t)) => m@ == t,
            (Err(e), Err(f)) => e == f,
            _ => false,
        },
{
    let name = h.read_string(c.name_text)?;
    let deps = read_strings(h, &c.deps)?;
    let induct_all = read_strings(h, &c.induct.all_texts)?;
    let rec_all = read_strings(h, &c.rec.all_texts)?;
    let induct: String = if c.kind == KIND_CTOR {
        h.read_string(c.ctor.induct_text)?
    } else {
        String::new()
    };
    Ok(ConstMeta { name, kind: c.kind, deps, induct_all, rec_all, induct })
}

/// Read what is known of the constants before any expression is walked.
pub fn gather_consts(h: &Heap, cs: &Vec<ConstantInfo>) -> (r: Result<Vec<ConstMeta>, ExtractError>)
    ensures
        match (r, decode_metas(h, cs@)) {
            (Ok(v), Ok(ms)) => metas_of(v@) == ms && v@.len() == cs@.len(),
            (Err(e), Err(f)) => e == f,
            _ => false,
        },
{
    let mut out: Vec<ConstMeta> = Vec::new();
    let n: usize = cs.len();
    let mut i: usize = 0;
    assert(cs@.take(0) =~= Seq::<ConstantInfo>::empty());
    assert(metas_of(out@) =~= Seq::<Meta>::empty());
    while i < n
        invariant
            n == cs@.len(),
            i <= n,
            out@.len() == i,
            decode_metas(h, cs@.take(i as int)) == Ok::<Seq<Meta>, ExtractError>(metas_of(out@)),
        decreases n - i,
    {
        let ghost out0 = out@;
        assert(cs@.take(i + 1).drop_last() =~= cs@.take(i as int));
        match read_meta(h, &cs[i]) {
            Ok(m) => {
                let ghost t = m@;
                out.push(m);
                assert(metas_of(out@) =~= metas_of(out0).push(t));
            },
            Err(e) => {
                proof {
                    lemma_metas_stop(h, cs@, i + 1, e);
                }
                return Err(e);
            },
        }
        i = i + 1;
    }
    assert(cs@.take(n as int) =~= cs@);
    Ok(out)
}

} // verus!
