//! A snapshot of runtime objects as plain values, and readers for the primitive
//! values in it.
use vstd::prelude::*;

use crate::bignat::le_value;
use crate::bignat::BigNat;

verus! {

/// Why a snapshot could not be turned into declarations.
#[derive(Clone, Copy, Debug, PartialEq, Eq, Structural)]
pub enum ExtractError {
    /// The object is missing, or does not have the field that its type has.
    Malformed(usize),
    NameTag(u8),
    LevelTag(u8),
    ExprTag(u8),
    LiteralTag(u8),
    FreeVariable,
    MetaVariable,
    BinderInfo(u8),
    /// A number literal, with the literal extension for numbers off.
    NatLiteral,
    /// A definition, theorem or opaque constant without a value.
    NoValue,
    /// A constant outside a mutual block with a kind that does not belong there.
    SingletonKind { constant: usize, kind: u8 },
    /// A constant in a mutual block with a kind that does not belong there.
    BlockKind { constant: usize, kind: u8 },
    /// A constant with a name that is declared already.
    Duplicate,
}

/// One runtime object.
#[derive(Debug)]
pub enum LeanObj {
    /// A value that needs no memory: a small number, or a constructor without fields.
    Scalar(usize),
    /// An object in memory. `fields` are the objects that it points to: the object
    /// fields of a constructor, or the elements of an array. `data` are its bytes:
    /// those behind the object fields of a constructor, the bytes of a string with
    /// the zero byte that ends it, or the little-endian bytes of a big number.
    Boxed { tag: u8, fields: Vec<usize>, data: Vec<u8> },
}

/// Runtime objects by address. An object lies behind those that it points to.
#[derive(Debug)]
pub struct Heap {
    pub objs: Vec<LeanObj>,
}

/// What `String::from_utf8_lossy` makes of a sequence of bytes.
pub uninterp spec fn utf8_lossy(bytes: Seq<u8>) -> Seq<char>;

/// Trusted: `String::from_utf8_lossy` of std. The string is a function of the bytes
/// alone; of valid UTF-8 it is what the bytes encode. What stands for bytes that are
/// not valid UTF-8 is not stated.
#[verifier::external_body]
fn string_from_utf8_lossy(bytes: &[u8]) -> (s: String)
    ensures
        s@ == utf8_lossy(bytes@),
        vstd::utf8::valid_utf8(bytes@) ==> s@ == vstd::utf8::decode_utf8(bytes@),
{
    String::from_utf8_lossy(bytes).into_owned()
}

/// The text that bytes stand for: what they encode where they are valid UTF-8, and
/// what `String::from_utf8_lossy` makes of them elsewhere.
pub open spec fn text_of(bytes: Seq<u8>) -> Seq<char> {
    if vstd::utf8::valid_utf8(bytes) {
        vstd::utf8::decode_utf8(bytes)
    } else {
        utf8_lossy(bytes)
    }
}

/// The bytes of a string object without the zero byte that ends it.
pub open spec fn without_last(data: Seq<u8>) -> Seq<u8> {
    if data.len() == 0 {
        data
    } else {
        data.drop_last()
    }
}

/// The text of a string object with the bytes `data`, the last of which is the zero
/// byte that ends it.
pub fn string_of(data: &[u8]) -> (s: String)
    ensures
        s@ == text_of(without_last(data@)),
{
    let len: usize = data.len().saturating_sub(1);
    let bytes = vstd::slice::slice_subrange(data, 0, len);
    assert(bytes@ =~= without_last(data@));
    string_from_utf8_lossy(bytes)
}

impl Heap {
    pub open spec fn has(&self, o: usize) -> bool {
        o < self.objs@.len()
    }

    /// Field `i` of the object, which has to lie before the object.
    pub open spec fn field(&self, o: usize, i: int) -> Result<usize, ExtractError> {
        if !self.has(o) {
            Err(ExtractError::Malformed(o))
        } else {
            match self.objs@[o as int] {
                LeanObj::Scalar(_) => Err(ExtractError::Malformed(o)),
                LeanObj::Boxed { fields, .. } => if 0 <= i < fields@.len() && fields@[i] < o {
                    Ok(fields@[i])
                } else {
                    Err(ExtractError::Malformed(o))
                },
            }
        }
    }

    /// The elements of an array.
    pub open spec fn elems(&self, o: usize) -> Result<Seq<usize>, ExtractError> {
        if !self.has(o) {
            Err(ExtractError::Malformed(o))
        } else {
            match self.objs@[o as int] {
                LeanObj::Scalar(_) => Err(ExtractError::Malformed(o)),
                LeanObj::Boxed { fields, .. } => Ok(fields@),
            }
        }
    }

    /// The text of a string.
    pub open spec fn text(&self, o: usize) -> Result<Seq<char>, ExtractError> {
        if !self.has(o) {
            Err(ExtractError::Malformed(o))
        } else {
            match self.objs@[o as int] {
                LeanObj::Scalar(_) => Err(ExtractError::Malformed(o)),
                LeanObj::Boxed { data, .. } => Ok(text_of(without_last(data@))),
            }
        }
    }

    /// The value of a natural number.
    pub open spec fn nat_value(&self, o: usize) -> Result<nat, ExtractError> {
        if !self.has(o) {
            Err(ExtractError::Malformed(o))
        } else {
            match self.objs@[o as int] {
                LeanObj::Scalar(n) => Ok(n as nat),
                LeanObj::Boxed { data, .. } => Ok(le_value(data@)),
            }
        }
    }

    /// The value of a natural number, or the largest `u64` where it is above that.
    pub open spec fn nat_u64(&self, o: usize) -> Result<u64, ExtractError> {
        match self.nat_value(o) {
            Ok(n) => Ok(
                if n > u64::MAX {
                    u64::MAX
                } else {
                    n as u64
                },
            ),
            Err(e) => Err(e),
        }
    }

    /// The byte that follows the cached word of an expression: the binder info of a
    /// binder, or the flag of a `let`.
    pub open spec fn byte(&self, o: usize) -> Result<u8, ExtractError> {
        if !self.has(o) {
            Err(ExtractError::Malformed(o))
        } else {
            match self.objs@[o as int] {
                LeanObj::Scalar(_) => Err(ExtractError::Malformed(o)),
                LeanObj::Boxed { data, .. } => if data@.len() > 8 {
                    Ok(data@[8])
                } else {
                    Err(ExtractError::Malformed(o))
                },
            }
        }
    }

    pub fn child(&self, o: usize, i: usize) -> (r: Result<usize, ExtractError>)
        ensures
            r == self.field(o, i as int),
    {
        if o >= self.objs.len() {
            return Err(ExtractError::Malformed(o));
        }
        match &self.objs[o] {
            LeanObj::Scalar(_) => Err(ExtractError::Malformed(o)),
            LeanObj::Boxed { fields, .. } => if i < fields.len() && fields[i] < o {
                Ok(fields[i])
            } else {
                Err(ExtractError::Malformed(o))
            },
        }
    }

    /// The elements of an array.
    pub fn array_elems(&self, o: usize) -> (r: Result<&Vec<usize>, ExtractError>)
        ensures
            match (r, self.elems(o)) {
                (Ok(v), Ok(s)) => v@ == s,
                (Err(e), Err(f)) => e == f,
                _ => false,
            },
    {
        if o >= self.objs.len() {
            return Err(ExtractError::Malformed(o));
        }
        match &self.objs[o] {
            LeanObj::Scalar(_) => Err(ExtractError::Malformed(o)),
            LeanObj::Boxed { fields, .. } => Ok(fields),
        }
    }

    /// A string, without the zero byte that ends it.
    pub fn read_string(&self, o: usize) -> (r: Result<String, ExtractError>)
        ensures
            match (r, self.text(o)) {
                (Ok(s), Ok(t)) => s@ == t,
                (Err(e), Err(f)) => e == f,
                _ => false,
            },
    {
        if o >= self.objs.len() {
            return Err(ExtractError::Malformed(o));
        }
        match &self.objs[o] {
            LeanObj::Scalar(_) => Err(ExtractError::Malformed(o)),
            LeanObj::Boxed { data, .. } => Ok(string_of(data.as_slice())),
        }
    }

    /// A natural number of any size.
    pub fn nat_to_biguint(&self, o: usize) -> (r: Result<BigNat, ExtractError>)
        ensures
            match (r, self.nat_value(o)) {
                (Ok(n), Ok(v)) => n.value() == v,
                (Err(e), Err(f)) => e == f,
                _ => false,
            },
    {
        if o >= self.objs.len() {
            return Err(ExtractError::Malformed(o));
        }
        match &self.objs[o] {
            LeanObj::Scalar(n) => Ok(BigNat::from_u64(*n as u64)),
            LeanObj::Boxed { data, .. } => Ok(BigNat::from_bytes_le(data.as_slice())),
        }
    }

    /// A natural number, cut off at the largest `u64`.
    pub fn nat_to_u64(&self, o: usize) -> (r: Result<u64, ExtractError>)
        ensures
            r == self.nat_u64(o),
    {
        if o >= self.objs.len() {
            return Err(ExtractError::Malformed(o));
        }
        match &self.objs[o] {
            LeanObj::Scalar(n) => Ok(*n as u64),
            LeanObj::Boxed { data, .. } => match BigNat::from_bytes_le(data.as_slice()).to_u64() {
                Some(x) => Ok(x),
                None => Ok(u64::MAX),
            },
        }
    }

    /// The byte that follows the cached word of an expression.
    pub fn scalar_u8(&self, o: usize) -> (r: Result<u8, ExtractError>)
        ensures
            r == self.byte(o),
    {
        if o >= self.objs.len() {
            return Err(ExtractError::Malformed(o));
        }
        match &self.objs[o] {
            LeanObj::Scalar(_) => Err(ExtractError::Malformed(o)),
            LeanObj::Boxed { data, .. } => if data.len() > 8 {
                Ok(data[8])
            } else {
                Err(ExtractError::Malformed(o))
            },
        }
    }
}

} // verus!
