//! Pointers into the term graph, and the nodes that they point to.
use vstd::prelude::*;

use crate::hash::mix;
use crate::hash::mixed;
use crate::hash::SEED;
use crate::table::Intern;

verus! {

/// Points to a name of the graph that made it.
#[derive(Clone, Copy, Debug, PartialEq, Eq, Structural)]
pub struct NamePtr {
    pub idx: usize,
}

/// Points to a universe level of the graph that made it.
#[derive(Clone, Copy, Debug, PartialEq, Eq, Structural)]
pub struct LevelPtr {
    pub idx: usize,
}

/// Points to a list of universe levels of the graph that made it.
#[derive(Clone, Copy, Debug, PartialEq, Eq, Structural)]
pub struct LevelsPtr {
    pub idx: usize,
}

/// Points to an expression of the graph that made it.
#[derive(Clone, Copy, Debug, PartialEq, Eq, Structural)]
pub struct ExprPtr {
    pub idx: usize,
}

/// Points to a string of the graph that made it.
#[derive(Clone, Copy, Debug, PartialEq, Eq, Structural)]
pub struct StringPtr {
    pub idx: usize,
}

/// Points to a big number of the graph that made it.
#[derive(Clone, Copy, Debug, PartialEq, Eq, Structural)]
pub struct BigUintPtr {
    pub idx: usize,
}

/// How the argument of a binder is written or found.
#[derive(Clone, Copy, Debug, PartialEq, Eq, Structural)]
pub enum BinderStyle {
    Default,
    Implicit,
    StrictImplicit,
    InstanceImplicit,
}

/// How eagerly a definition is unfolded.
#[derive(Clone, Copy, Debug, PartialEq, Eq, Structural)]
pub enum ReducibilityHint {
    Opaque,
    Regular(u16),
    Abbrev,
}

pub const ANON_HASH: u64 = 41;
pub const STR_HASH: u64 = 43;
pub const NUM_HASH: u64 = 47;

pub const ZERO_HASH: u64 = 53;
pub const SUCC_HASH: u64 = 59;
pub const MAX_HASH: u64 = 61;
pub const IMAX_HASH: u64 = 67;
pub const PARAM_HASH: u64 = 71;

pub const VAR_HASH: u64 = 73;
pub const SORT_HASH: u64 = 79;
pub const CONST_HASH: u64 = 83;
pub const APP_HASH: u64 = 89;
pub const LAMBDA_HASH: u64 = 97;
pub const PI_HASH: u64 = 101;
pub const LET_HASH: u64 = 103;
pub const PROJ_HASH: u64 = 107;
pub const NAT_LIT_HASH: u64 = 109;
pub const STRING_LIT_HASH: u64 = 113;

/// A name: a component on top of another name. The last field is the hash.
#[derive(Clone, Copy, Debug, PartialEq, Eq, Structural)]
pub enum Name {
    Anon,
    Str(NamePtr, StringPtr, u64),
    Num(NamePtr, u64, u64),
}

/// A universe level. The last field is the hash.
#[derive(Clone, Copy, Debug, PartialEq, Eq, Structural)]
pub enum Level {
    Zero,
    Succ(LevelPtr, u64),
    Max(LevelPtr, LevelPtr, u64),
    IMax(LevelPtr, LevelPtr, u64),
    Param(NamePtr, u64),
}

/// An expression. `num_loose_bvars` is one more than the largest index of a loose
/// bound variable; it has more bits than an index, so that it always fits.
#[allow(inconsistent_fields)]
#[derive(Clone, Copy, Debug, PartialEq, Eq, Structural)]
pub enum Expr {
    Var { dbj_idx: u16, hash: u64 },
    Sort { level: LevelPtr, hash: u64 },
    Const { name: NamePtr, levels: LevelsPtr, hash: u64 },
    App { fun: ExprPtr, arg: ExprPtr, num_loose_bvars: u32, has_fvars: bool, hash: u64 },
    Lambda {
        binder_name: NamePtr,
        binder_style: BinderStyle,
        binder_type: ExprPtr,
        body: ExprPtr,
        num_loose_bvars: u32,
        has_fvars: bool,
        hash: u64,
    },
    Pi {
        binder_name: NamePtr,
        binder_style: BinderStyle,
        binder_type: ExprPtr,
        body: ExprPtr,
        num_loose_bvars: u32,
        has_fvars: bool,
        hash: u64,
    },
    Let {
        binder_name: NamePtr,
        binder_type: ExprPtr,
        val: ExprPtr,
        body: ExprPtr,
        num_loose_bvars: u32,
        has_fvars: bool,
        hash: u64,
        nondep: bool,
    },
    Proj {
        ty_name: NamePtr,
        idx: usize,
        structure: ExprPtr,
        num_loose_bvars: u32,
        has_fvars: bool,
        hash: u64,
    },
    NatLit { ptr: BigUintPtr, hash: u64 },
    StringLit { ptr: StringPtr, hash: u64 },
}

/// The hash of a tag and one word.
pub open spec fn hashed1(tag: u64, a: u64) -> u64 {
    mixed(mixed(SEED, tag), a)
}

/// The hash of a tag and two words.
pub open spec fn hashed2(tag: u64, a: u64, b: u64) -> u64 {
    mixed(hashed1(tag, a), b)
}

/// The hash of a tag and three words.
pub open spec fn hashed3(tag: u64, a: u64, b: u64, c: u64) -> u64 {
    mixed(hashed2(tag, a, b), c)
}

/// The hash of a tag and four words.
pub open spec fn hashed4(tag: u64, a: u64, b: u64, c: u64, d: u64) -> u64 {
    mixed(hashed3(tag, a, b, c), d)
}

/// The hash of a tag and five words.
pub open spec fn hashed5(tag: u64, a: u64, b: u64, c: u64, d: u64, e: u64) -> u64 {
    mixed(hashed4(tag, a, b, c, d), e)
}

pub fn hash1(tag: u64, a: u64) -> (h: u64)
    ensures
        h == hashed1(tag, a),
{
    mix(mix(SEED, tag), a)
}

pub fn hash2(tag: u64, a: u64, b: u64) -> (h: u64)
    ensures
        h == hashed2(tag, a, b),
{
    mix(hash1(tag, a), b)
}

pub fn hash3(tag: u64, a: u64, b: u64, c: u64) -> (h: u64)
    ensures
        h == hashed3(tag, a, b, c),
{
    mix(hash2(tag, a, b), c)
}

pub fn hash4(tag: u64, a: u64, b: u64, c: u64, d: u64) -> (h: u64)
    ensures
        h == hashed4(tag, a, b, c, d),
{
    mix(hash3(tag, a, b, c), d)
}

pub fn hash5(tag: u64, a: u64, b: u64, c: u64, d: u64, e: u64) -> (h: u64)
    ensures
        h == hashed5(tag, a, b, c, d, e),
{
    mix(hash4(tag, a, b, c, d), e)
}

impl BinderStyle {
    /// The number of the style in hashes and in the compiled form of a binder.
    pub open spec fn code(self) -> u8 {
        match self {
            BinderStyle::Default => 0,
            BinderStyle::Implicit => 1,
            BinderStyle::StrictImplicit => 2,
            BinderStyle::InstanceImplicit => 3,
        }
    }

    pub fn to_code(self) -> (c: u8)
        ensures
            c == self.code(),
    {
        match self {
            BinderStyle::Default => 0,
            BinderStyle::Implicit => 1,
            BinderStyle::StrictImplicit => 2,
            BinderStyle::InstanceImplicit => 3,
        }
    }
}

pub open spec fn bool_word(b: bool) -> u64 {
    if b {
        1
    } else {
        0
    }
}

pub fn word_of_bool(b: bool) -> (w: u64)
    ensures
        w == bool_word(b),
{
    if b {
        1
    } else {
        0
    }
}

impl View for Name {
    type V = Name;

    open spec fn view(&self) -> Name {
        *self
    }
}

impl View for Level {
    type V = Level;

    open spec fn view(&self) -> Level {
        *self
    }
}

impl View for Expr {
    type V = Expr;

    open spec fn view(&self) -> Expr {
        *self
    }
}

impl Name {
    pub open spec fn hash(self) -> u64 {
        match self {
            Name::Anon => ANON_HASH,
            Name::Str(_, _, h) => h,
            Name::Num(_, _, h) => h,
        }
    }

    /// The stored hash is the one of the other fields.
    pub open spec fn hash_ok(self) -> bool {
        match self {
            Name::Anon => true,
            Name::Str(pre, sfx, h) => h == hashed2(STR_HASH, pre.idx as u64, sfx.idx as u64),
            Name::Num(pre, n, h) => h == hashed2(NUM_HASH, pre.idx as u64, n),
        }
    }
}

impl Level {
    pub open spec fn hash(self) -> u64 {
        match self {
            Level::Zero => ZERO_HASH,
            Level::Succ(_, h) => h,
            Level::Max(_, _, h) => h,
            Level::IMax(_, _, h) => h,
            Level::Param(_, h) => h,
        }
    }

    /// The stored hash is the one of the other fields.
    pub open spec fn hash_ok(self) -> bool {
        match self {
            Level::Zero => true,
            Level::Succ(l, h) => h == hashed1(SUCC_HASH, l.idx as u64),
            Level::Max(l, r, h) => h == hashed2(MAX_HASH, l.idx as u64, r.idx as u64),
            Level::IMax(l, r, h) => h == hashed2(IMAX_HASH, l.idx as u64, r.idx as u64),
            Level::Param(n, h) => h == hashed1(PARAM_HASH, n.idx as u64),
        }
    }
}

impl Expr {
    pub open spec fn hash(self) -> u64 {
        match self {
            Expr::Var { hash, .. } => hash,
            Expr::Sort { hash, .. } => hash,
            Expr::Const { hash, .. } => hash,
            Expr::App { hash, .. } => hash,
            Expr::Lambda { hash, .. } => hash,
            Expr::Pi { hash, .. } => hash,
            Expr::Let { hash, .. } => hash,
            Expr::Proj { hash, .. } => hash,
            Expr::NatLit { hash, .. } => hash,
            Expr::StringLit { hash, .. } => hash,
        }
    }

    /// The stored hash is the one of the fields that identify the expression.
    pub open spec fn hash_ok(self) -> bool {
        match self {
            Expr::Var { dbj_idx, hash } => hash == hashed1(VAR_HASH, dbj_idx as u64),
            Expr::Sort { level, hash } => hash == hashed1(SORT_HASH, level.idx as u64),
            Expr::Const { name, levels, hash } => hash == hashed2(
                CONST_HASH,
                name.idx as u64,
                levels.idx as u64,
            ),
            Expr::App { fun, arg, hash, .. } => hash == hashed2(
                APP_HASH,
                fun.idx as u64,
                arg.idx as u64,
            ),
            Expr::Lambda { binder_name, binder_style, binder_type, body, hash, .. } => hash
                == hashed4(
                LAMBDA_HASH,
                binder_name.idx as u64,
                binder_style.code() as u64,
                binder_type.idx as u64,
                body.idx as u64,
            ),
            Expr::Pi { binder_name, binder_style, binder_type, body, hash, .. } => hash == hashed4(
                PI_HASH,
                binder_name.idx as u64,
                binder_style.code() as u64,
                binder_type.idx as u64,
                body.idx as u64,
            ),
            Expr::Let { binder_name, binder_type, val, body, nondep, hash, .. } => hash == hashed5(
                LET_HASH,
                binder_name.idx as u64,
                binder_type.idx as u64,
                val.idx as u64,
                body.idx as u64,
                bool_word(nondep),
            ),
            Expr::Proj { ty_name, idx, structure, hash, .. } => hash == hashed3(
                PROJ_HASH,
                ty_name.idx as u64,
                idx as u64,
                structure.idx as u64,
            ),
            Expr::NatLit { ptr, hash } => hash == hashed1(NAT_LIT_HASH, ptr.idx as u64),
            Expr::StringLit { ptr, hash } => hash == hashed1(STRING_LIT_HASH, ptr.idx as u64),
        }
    }

    /// The number that [`Expr::num_loose_bvars`] returns.
    pub open spec fn loose_bvars(self) -> u32 {
        match self {
            Expr::Var { dbj_idx, .. } => (dbj_idx + 1) as u32,
            Expr::App { num_loose_bvars, .. } => num_loose_bvars,
            Expr::Lambda { num_loose_bvars, .. } => num_loose_bvars,
            Expr::Pi { num_loose_bvars, .. } => num_loose_bvars,
            Expr::Let { num_loose_bvars, .. } => num_loose_bvars,
            Expr::Proj { num_loose_bvars, .. } => num_loose_bvars,
            _ => 0,
        }
    }

    /// The answer of [`Expr::has_fvars`].
    pub open spec fn fvars(self) -> bool {
        match self {
            Expr::App { has_fvars, .. } => has_fvars,
            Expr::Lambda { has_fvars, .. } => has_fvars,
            Expr::Pi { has_fvars, .. } => has_fvars,
            Expr::Let { has_fvars, .. } => has_fvars,
            Expr::Proj { has_fvars, .. } => has_fvars,
            _ => false,
        }
    }

    /// One more than the largest index of a loose bound variable.
    pub fn num_loose_bvars(&self) -> (n: u32)
        ensures
            n == self.loose_bvars(),
    {
        match *self {
            Expr::Var { dbj_idx, .. } => dbj_idx as u32 + 1,
            Expr::App { num_loose_bvars, .. } => num_loose_bvars,
            Expr::Lambda { num_loose_bvars, .. } => num_loose_bvars,
            Expr::Pi { num_loose_bvars, .. } => num_loose_bvars,
            Expr::Let { num_loose_bvars, .. } => num_loose_bvars,
            Expr::Proj { num_loose_bvars, .. } => num_loose_bvars,
            _ => 0,
        }
    }

    /// Whether a free variable occurs.
    pub fn has_fvars(&self) -> (b: bool)
        ensures
            b == self.fvars(),
    {
        match *self {
            Expr::App { has_fvars, .. } => has_fvars,
            Expr::Lambda { has_fvars, .. } => has_fvars,
            Expr::Pi { has_fvars, .. } => has_fvars,
            Expr::Let { has_fvars, .. } => has_fvars,
            Expr::Proj { has_fvars, .. } => has_fvars,
            _ => false,
        }
    }
}

impl Intern for Name {
    open spec fn code(v: Name) -> u64 {
        v.hash()
    }

    fn hash_code(&self) -> (h: u64) {
        match *self {
            Name::Anon => ANON_HASH,
            Name::Str(_, _, h) => h,
            Name::Num(_, _, h) => h,
        }
    }

    fn same(&self, other: &Self) -> (b: bool) {
        *self == *other
    }
}

impl Intern for Level {
    open spec fn code(v: Level) -> u64 {
        v.hash()
    }

    fn hash_code(&self) -> (h: u64) {
        match *self {
            Level::Zero => ZERO_HASH,
            Level::Succ(_, h) => h,
            Level::Max(_, _, h) => h,
            Level::IMax(_, _, h) => h,
            Level::Param(_, h) => h,
        }
    }

    fn same(&self, other: &Self) -> (b: bool) {
        *self == *other
    }
}

impl Intern for Expr {
    open spec fn code(v: Expr) -> u64 {
        v.hash()
    }

    fn hash_code(&self) -> (h: u64) {
        match *self {
            Expr::Var { hash, .. } => hash,
            Expr::Sort { hash, .. } => hash,
            Expr::Const { hash, .. } => hash,
            Expr::App { hash, .. } => hash,
            Expr::Lambda { hash, .. } => hash,
            Expr::Pi { hash, .. } => hash,
            Expr::Let { hash, .. } => hash,
            Expr::Proj { hash, .. } => hash,
            Expr::NatLit { hash, .. } => hash,
            Expr::StringLit { hash, .. } => hash,
        }
    }

    fn same(&self, other: &Self) -> (b: bool) {
        *self == *other
    }
}

impl Intern for String {
    open spec fn code(v: Seq<char>) -> u64 {
        crate::hash::mixed_bytes(SEED, vstd::utf8::encode_utf8(v))
    }

    fn hash_code(&self) -> (h: u64) {
        crate::hash::mix_bytes(SEED, self.as_str().as_bytes())
    }

    fn same(&self, other: &Self) -> (b: bool) {
        *self == *other
    }
}

/// The hash of a list of universe levels: the fold of the pointers.
pub open spec fn mixed_levels(ls: Seq<LevelPtr>) -> u64
    decreases ls.len(),
{
    if ls.len() == 0 {
        SEED
    } else {
        mixed(mixed_levels(ls.drop_last()), ls.last().idx as u64)
    }
}

impl Intern for Vec<LevelPtr> {
    open spec fn code(v: Seq<LevelPtr>) -> u64 {
        mixed_levels(v)
    }

    fn hash_code(&self) -> (h: u64) {
        let mut acc: u64 = SEED;
        let n: usize = self.len();
        let mut i: usize = 0;
        while i < n
            invariant
                n == self@.len(),
                i <= n,
                acc == mixed_levels(self@.take(i as int)),
            decreases n - i,
        {
            assert(self@.take(i + 1).drop_last() =~= self@.take(i as int));
            acc = mix(acc, self[i].idx as u64);
            i = i + 1;
        }
        assert(self@.take(n as int) =~= self@);
        acc
    }

    fn same(&self, other: &Self) -> (b: bool) {
        if self.len() != other.len() {
            return false;
        }
        let n: usize = self.len();
        let mut i: usize = 0;
        while i < n
            invariant
                n == self@.len(),
                n == other@.len(),
                i <= n,
                forall|k: int| 0 <= k < i ==> self@[k] == other@[k],
            decreases n - i,
        {
            if self[i].idx != other[i].idx {
                return false;
            }
            i = i + 1;
        }
        assert(self@ =~= other@);
        true
    }
}

} // verus!
