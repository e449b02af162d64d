//! The parts of a parsed Mojom file that name lookups read: the byte range of
//! every declared name, nested as the declarations are.

use vstd::prelude::*;
use vstd::utf8::encode_utf8;

verus! {

/// A byte range `start..end` of the source text.
#[derive(Clone, Copy, Debug, PartialEq, Eq, Structural)]
pub struct Range {
    pub start: usize,
    pub end: usize,
}

/// `module a.b.c;`
#[derive(Debug)]
pub struct Module {
    pub name: Range,
}

/// `import "path";`
#[derive(Debug)]
pub struct Import {
    pub path: Range,
}

/// `const type NAME = value;`
#[derive(Debug)]
pub struct Const {
    pub name: Range,
}

/// A method of an interface.
#[derive(Debug)]
pub struct Method {
    pub name: Range,
}

/// A field of a struct.
#[derive(Debug)]
pub struct StructField {
    pub name: Range,
}

/// A field of a union.
#[derive(Debug)]
pub struct UnionField {
    pub name: Range,
}

/// A value of an enum.
#[derive(Debug)]
pub struct EnumValue {
    pub name: Range,
}

/// `enum Name { values }`
#[derive(Debug)]
pub struct Enum {
    pub name: Range,
    pub values: Vec<EnumValue>,
}

/// A member of an interface.
#[derive(Debug)]
pub enum InterfaceMember {
    Const(Const),
    Enum(Enum),
    Method(Method),
}

/// `interface Name { members }`
#[derive(Debug)]
pub struct Interface {
    pub name: Range,
    pub members: Vec<InterfaceMember>,
}

/// A member of a struct.
#[derive(Debug)]
pub enum StructBody {
    Const(Const),
    Enum(Enum),
    Field(StructField),
}

/// `struct Name { members }`
#[derive(Debug)]
pub struct Struct {
    pub name: Range,
    pub members: Vec<StructBody>,
}

/// `union Name { fields }`
#[derive(Debug)]
pub struct Union {
    pub name: Range,
    pub fields: Vec<UnionField>,
}

/// A top-level statement of a Mojom file.
#[derive(Debug)]
pub enum Statement {
    Module(Module),
    Import(Import),
    Interface(Interface),
    Struct(Struct),
    Union(Union),
    Enum(Enum),
    Const(Const),
}

/// The statements of a Mojom file.
#[derive(Debug)]
pub struct Mojom {
    pub stmts: Vec<Statement>,
}

/// A parsed Mojom file with its source text.
#[derive(Debug)]
pub struct MojomAst {
    pub text: String,
    pub mojom: Mojom,
}

/// `r` lies within a text of `n` bytes.
pub open spec fn range_ok(r: Range, n: int) -> bool {
    r.start <= r.end <= n
}

/// The enum's name and its values' names lie within a text of `n` bytes.
pub open spec fn enum_ok(e: Enum, n: int) -> bool {
    &&& range_ok(e.name, n)
    &&& forall|i: int| 0 <= i < e.values@.len() ==> range_ok(#[trigger] e.values@[i].name, n)
}

/// The names of an interface member lie within a text of `n` bytes.
pub open spec fn interface_member_ok(m: InterfaceMember, n: int) -> bool {
    match m {
        InterfaceMember::Const(c) => range_ok(c.name, n),
        InterfaceMember::Enum(e) => enum_ok(e, n),
        InterfaceMember::Method(m) => range_ok(m.name, n),
    }
}

/// The names of a struct member lie within a text of `n` bytes.
pub open spec fn struct_member_ok(m: StructBody, n: int) -> bool {
    match m {
        StructBody::Const(c) => range_ok(c.name, n),
        StructBody::Enum(e) => enum_ok(e, n),
        StructBody::Field(f) => range_ok(f.name, n),
    }
}

/// Every name range of the statement lies within a text of `n` bytes.
pub open spec fn statement_ok(s: Statement, n: int) -> bool {
    match s {
        Statement::Module(m) => range_ok(m.name, n),
        Statement::Import(_) => true,
        Statement::Interface(i) => {
            &&& range_ok(i.name, n)
            &&& forall|k: int| 0 <= k < i.members@.len() ==> interface_member_ok(#[trigger] i.members@[k], n)
        },
        Statement::Struct(st) => {
            &&& range_ok(st.name, n)
            &&& forall|k: int| 0 <= k < st.members@.len() ==> struct_member_ok(#[trigger] st.members@[k], n)
        },
        Statement::Union(u) => {
            &&& range_ok(u.name, n)
            &&& forall|k: int| 0 <= k < u.fields@.len() ==> range_ok(#[trigger] u.fields@[k].name, n)
        },
        Statement::Enum(e) => enum_ok(e, n),
        Statement::Const(c) => range_ok(c.name, n),
    }
}

impl MojomAst {
    /// The UTF-8 bytes of the source text.
    pub open spec fn bytes(&self) -> Seq<u8> {
        encode_utf8(self.text@)
    }

    /// Every name range of every statement lies within the source text.
    pub open spec fn wf(&self) -> bool {
        forall|i: int| 0 <= i < self.mojom.stmts@.len() ==> statement_ok(#[trigger] self.mojom.stmts@[i], self.bytes().len() as int)
    }

    /// The bytes of the source text in `range`.
    pub fn text(&self, range: &Range) -> (r: &[u8])
        requires
            range_ok(*range, self.bytes().len() as int),
        ensures
            r@ == self.bytes().subrange(range.start as int, range.end as int),
    {
        let bytes = self.text.as_str().as_bytes();
        &bytes[range.start..range.end]
    }
}


fn range_in(range: &Range, n: usize) -> (r: bool)
    ensures
        r == range_ok(*range, n as int),
{
    range.start <= range.end && range.end <= n
}

fn enum_in(e: &Enum, n: usize) -> (r: bool)
    ensures
        r == enum_ok(*e, n as int),
{
    if !range_in(&e.name, n) {
        return false;
    }
    let mut k: usize = 0;
    while k < e.values.len()
        invariant
            k <= e.values@.len(),
            forall|i: int| 0 <= i < k ==> range_ok(#[trigger] e.values@[i].name, n as int),
        decreases e.values@.len() - k,
    {
        if !range_in(&e.values[k].name, n) {
            return false;
        }
        k = k + 1;
    }
    true
}

fn statement_in(s: &Statement, n: usize) -> (r: bool)
    ensures
        r == statement_ok(*s, n as int),
{
    match s {
        Statement::Module(m) => range_in(&m.name, n),
        Statement::Import(_) => true,
        Statement::Interface(i) => {
            if !range_in(&i.name, n) {
                return false;
            }
            let mut k: usize = 0;
            while k < i.members.len()
                invariant
                    *s == Statement::Interface(*i),
                    k <= i.members@.len(),
                    forall|j: int| 0 <= j < k ==> interface_member_ok(#[trigger] i.members@[j], n as int),
                decreases i.members@.len() - k,
            {
                let ok = match &i.members[k] {
                    InterfaceMember::Const(c) => range_in(&c.name, n),
                    InterfaceMember::Enum(e) => enum_in(e, n),
                    InterfaceMember::Method(m) => range_in(&m.name, n),
                };
                if !ok {
                    assert(!interface_member_ok(i.members@[k as int], n as int));
                    return false;
                }
                k = k + 1;
            }
            true
        },
        Statement::Struct(st) => {
            if !range_in(&st.name, n) {
                return false;
            }
            let mut k: usize = 0;
            while k < st.members.len()
                invariant
                    *s == Statement::Struct(*st),
                    k <= st.members@.len(),
                    forall|j: int| 0 <= j < k ==> struct_member_ok(#[trigger] st.members@[j], n as int),
                decreases st.members@.len() - k,
            {
                let ok = match &st.members[k] {
                    StructBody::Const(c) => range_in(&c.name, n),
                    StructBody::Enum(e) => enum_in(e, n),
                    StructBody::Field(f) => range_in(&f.name, n),
                };
                if !ok {
                    assert(!struct_member_ok(st.members@[k as int], n as int));
                    return false;
                }
                k = k + 1;
            }
            true
        },
        Statement::Union(u) => {
            if !range_in(&u.name, n) {
                return false;
            }
            let mut k: usize = 0;
            while k < u.fields.len()
                invariant
                    *s == Statement::Union(*u),
                    k <= u.fields@.len(),
                    forall|j: int| 0 <= j < k ==> range_ok(#[trigger] u.fields@[j].name, n as int),
                decreases u.fields@.len() - k,
            {
                if !range_in(&u.fields[k].name, n) {
                    assert(!range_ok(u.fields@[k as int].name, n as int));
                    return false;
                }
                k = k + 1;
            }
            true
        },
        Statement::Enum(e) => enum_in(e, n),
        Statement::Const(c) => range_in(&c.name, n),
    }
}

impl MojomAst {
    /// Whether every name range of every statement lies within the source text.
    pub fn ranges_within_text(&self) -> (r: bool)
        ensures
            r == self.wf(),
    {
        let n = self.text.as_str().as_bytes().len();
        let mut k: usize = 0;
        while k < self.mojom.stmts.len()
            invariant
                n == self.bytes().len(),
                k <= self.mojom.stmts@.len(),
                forall|j: int| 0 <= j < k ==> statement_ok(#[trigger] self.mojom.stmts@[j], n as int),
            decreases self.mojom.stmts@.len() - k,
        {
            if !statement_in(&self.mojom.stmts[k], n) {
                return false;
            }
            k = k + 1;
        }
        true
    }
}

} // verus!
