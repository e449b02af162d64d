//! Lookups behind hovers: the declared name that an identifier or a position
//! denotes, and the documentation shown for it.

use vstd::prelude::*;
use vstd::utf8::encode_utf8;
use crate::bytes::DOT;
use crate::docs::{
    join_with, join_bytes, lines_view, push_window, copy_window, documentation_defined,
    spec_leading_documentation, extract_leading_documentation,
};
use crate::lines::{offset_from_line_col, spec_offset_from_position};
use crate::syntax::{
    Range, Enum, EnumValue, InterfaceMember, StructBody, UnionField, Statement, MojomAst, range_ok,
    enum_ok, interface_member_ok, struct_member_ok, statement_ok,
};

verus! {

/// A declared name: its range and the names of the declarations that enclose it.
pub type Candidate = (Range, Seq<Seq<u8>>);

/// The bytes of `t` in `r`.
pub open spec fn name_of(t: Seq<u8>, r: Range) -> Seq<u8> {
    t.subrange(r.start as int, r.end as int)
}

/// `name` qualified by the enclosing names in `path`, joined with `'.'`.
pub open spec fn qualified_name(path: Seq<Seq<u8>>, name: Seq<u8>) -> Seq<u8> {
    if path.len() == 0 {
        name
    } else {
        join_with(path, DOT) + seq![DOT] + name
    }
}

/// The declared name `c` answers `ident`: its name or its qualified name is `ident`.
pub open spec fn names(ident: Seq<u8>, t: Seq<u8>, c: Candidate) -> bool {
    ident == name_of(t, c.0) || ident == qualified_name(c.1, name_of(t, c.0))
}

/// The range of the first declared name in `cs` that answers `ident`.
pub open spec fn first_named(ident: Seq<u8>, t: Seq<u8>, cs: Seq<Candidate>) -> Option<Range>
    decreases cs.len(),
{
    if cs.len() == 0 {
        None
    } else if names(ident, t, cs[0]) {
        Some(cs[0].0)
    } else {
        first_named(ident, t, cs.drop_first())
    }
}

/// The ranges `rs`, each declared under `path`.
pub open spec fn at_path(rs: Seq<Range>, path: Seq<Seq<u8>>) -> Seq<Candidate> {
    rs.map_values(|r: Range| (r, path))
}

pub open spec fn enum_value_ranges(vs: Seq<EnumValue>) -> Seq<Range> {
    vs.map_values(|v: EnumValue| v.name)
}

pub open spec fn union_field_ranges(fs: Seq<UnionField>) -> Seq<Range> {
    fs.map_values(|f: UnionField| f.name)
}

/// The names an enum declares, in order: its own, then its values under it.
pub open spec fn enum_candidates(e: Enum, t: Seq<u8>, path: Seq<Seq<u8>>) -> Seq<Candidate> {
    seq![(e.name, path)] + at_path(enum_value_ranges(e.values@), path.push(name_of(t, e.name)))
}

pub open spec fn interface_member_candidates(m: InterfaceMember, t: Seq<u8>, path: Seq<Seq<u8>>) -> Seq<Candidate> {
    match m {
        InterfaceMember::Const(c) => seq![(c.name, path)],
        InterfaceMember::Enum(e) => enum_candidates(e, t, path),
        InterfaceMember::Method(m) => seq![(m.name, path)],
    }
}

pub open spec fn interface_members_candidates(ms: Seq<InterfaceMember>, t: Seq<u8>, path: Seq<Seq<u8>>) -> Seq<Candidate>
    decreases ms.len(),
{
    if ms.len() == 0 {
        seq![]
    } else {
        interface_member_candidates(ms[0], t, path) + interface_members_candidates(ms.drop_first(), t, path)
    }
}

pub open spec fn struct_member_candidates(m: StructBody, t: Seq<u8>, path: Seq<Seq<u8>>) -> Seq<Candidate> {
    match m {
        StructBody::Const(c) => seq![(c.name, path)],
        StructBody::Enum(e) => enum_candidates(e, t, path),
        StructBody::Field(f) => seq![(f.name, path)],
    }
}

pub open spec fn struct_members_candidates(ms: Seq<StructBody>, t: Seq<u8>, path: Seq<Seq<u8>>) -> Seq<Candidate>
    decreases ms.len(),
{
    if ms.len() == 0 {
        seq![]
    } else {
        struct_member_candidates(ms[0], t, path) + struct_members_candidates(ms.drop_first(), t, path)
    }
}

/// The names a statement declares, in document order, each with the names of
/// the declarations that enclose it.
pub open spec fn statement_candidates(s: Statement, t: Seq<u8>, path: Seq<Seq<u8>>) -> Seq<Candidate> {
    match s {
        Statement::Module(m) => seq![(m.name, path)],
        Statement::Import(_) => seq![],
        Statement::Interface(i) => seq![(i.name, path)] + interface_members_candidates(
            i.members@,
            t,
            path.push(name_of(t, i.name)),
        ),
        Statement::Struct(st) => seq![(st.name, path)] + struct_members_candidates(
            st.members@,
            t,
            path.push(name_of(t, st.name)),
        ),
        Statement::Union(u) => seq![(u.name, path)] + at_path(
            union_field_ranges(u.fields@),
            path.push(name_of(t, u.name)),
        ),
        Statement::Enum(e) => enum_candidates(e, t, path),
        Statement::Const(c) => seq![(c.name, path)],
    }
}

/// The names declared by the statements, in document order.
pub open spec fn statements_candidates(ss: Seq<Statement>, t: Seq<u8>) -> Seq<Candidate>
    decreases ss.len(),
{
    if ss.len() == 0 {
        seq![]
    } else {
        statement_candidates(ss[0], t, seq![]) + statements_candidates(ss.drop_first(), t)
    }
}

/// The first match in a concatenation is the first match of its first part,
/// or else that of its second.
pub proof fn lemma_first_named_concat(ident: Seq<u8>, t: Seq<u8>, a: Seq<Candidate>, b: Seq<Candidate>)
    ensures
        first_named(ident, t, a + b) == match first_named(ident, t, a) {
            Some(r) => Some(r),
            None => first_named(ident, t, b),
        },
    decreases a.len(),
{
    if a.len() == 0 {
        assert(a + b =~= b);
    } else {
        assert((a + b)[0] == a[0]);
        assert((a + b).drop_first() =~= a.drop_first() + b);
        lemma_first_named_concat(ident, t, a.drop_first(), b);
    }
}

proof fn lemma_first_named_single(ident: Seq<u8>, t: Seq<u8>, c: Candidate)
    ensures
        first_named(ident, t, seq![c]) == if names(ident, t, c) {
            Some(c.0)
        } else {
            None
        },
{
    reveal_with_fuel(first_named, 2);
    assert(seq![c].drop_first() =~= Seq::<Candidate>::empty());
    assert(seq![c][0] == c);
}

proof fn lemma_skip_step<T>(s: Seq<T>, k: int)
    requires
        0 <= k < s.len(),
    ensures
        s.skip(k) =~= seq![s[k]] + s.skip(k + 1),
{
}

/// Whether two byte strings are equal.
pub fn bytes_eq(a: &[u8], b: &[u8]) -> (r: bool)
    ensures
        r == (a@ == b@),
{
    if a.len() != b.len() {
        return false;
    }
    let mut i: usize = 0;
    while i < a.len()
        invariant
            a@.len() == b@.len(),
            i <= a@.len(),
            forall|j: int| 0 <= j < i ==> a@[j] == b@[j],
        decreases a@.len() - i,
    {
        if a[i] != b[i] {
            return false;
        }
        i = i + 1;
    }
    assert(a@ =~= b@);
    true
}

/// `Some(name_range)` when `ident` is the name at `name_range` or that name
/// qualified by the enclosing names in `path` joined with `'.'`.
pub fn match_name(ident: &str, ast: &MojomAst, name_range: &Range, path: &Vec<Vec<u8>>) -> (r: Option<Range>)
    requires
        range_ok(*name_range, ast.bytes().len() as int),
    ensures
        r == if names(encode_utf8(ident@), ast.bytes(), (*name_range, lines_view(path@))) {
            Some(*name_range)
        } else {
            None
        },
{
    let name = ast.text(name_range);
    let id = ident.as_bytes();
    if bytes_eq(id, name) {
        return Some(*name_range);
    }
    if path.len() == 0 {
        return None;
    }
    let mut qualified = join_bytes(path, DOT);
    qualified.push(DOT);
    push_window(&mut qualified, name, 0, name.len());
    proof {
        assert(name@.subrange(0, name@.len() as int) =~= name@);
        assert(lines_view(path@).len() == path@.len());
        assert(qualified@ =~= join_with(lines_view(path@), DOT) + seq![DOT] + name@);
    }
    if bytes_eq(id, qualified.as_slice()) {
        Some(*name_range)
    } else {
        None
    }
}

/// The range of the first name that `enumeration` declares (its own, then
/// those of its values under it) that answers `ident`.
pub fn find_enum_name_range(ident: &str, ast: &MojomAst, enumeration: &Enum, path: &mut Vec<Vec<u8>>) -> (r: Option<Range>)
    requires
        enum_ok(*enumeration, ast.bytes().len() as int),
    ensures
        r == first_named(encode_utf8(ident@), ast.bytes(), enum_candidates(*enumeration, ast.bytes(), lines_view(old(path)@))),
        lines_view(final(path)@) == lines_view(old(path)@),
{
    let ghost id = encode_utf8(ident@);
    let ghost t = ast.bytes();
    let ghost p = lines_view(path@);
    let ghost cs = enum_candidates(*enumeration, t, p);
    proof {
        assert(cs[0] == (enumeration.name, p));
        assert(cs.drop_first() =~= at_path(enum_value_ranges(enumeration.values@), p.push(name_of(t, enumeration.name))));
    }
    if let Some(range) = match_name(ident, ast, &enumeration.name, path) {
        return Some(range);
    }
    let name = ast.text(&enumeration.name);
    path.push(copy_window(name, 0, name.len()));
    proof {
        assert(name@.subrange(0, name@.len() as int) =~= name@);
        assert(lines_view(path@) =~= p.push(name_of(t, enumeration.name)));
    }
    let ghost vs = at_path(enum_value_ranges(enumeration.values@), lines_view(path@));
    let n = enumeration.values.len();
    let mut k: usize = 0;
    proof {
        assert(vs.skip(0) =~= vs);
    }
    while k < n
        invariant
            n == enumeration.values@.len(),
            k <= n,
            t == ast.bytes(),
            id == encode_utf8(ident@),
            enum_ok(*enumeration, t.len() as int),
            p == lines_view(old(path)@),
            cs == enum_candidates(*enumeration, t, p),
            lines_view(path@) == p.push(name_of(t, enumeration.name)),
            vs == at_path(enum_value_ranges(enumeration.values@), lines_view(path@)),
            first_named(id, t, vs) == first_named(id, t, vs.skip(k as int)),
            first_named(id, t, cs) == first_named(id, t, vs),
        decreases n - k,
    {
        let value = &enumeration.values[k];
        proof {
            lemma_skip_step(vs, k as int);
            lemma_first_named_concat(id, t, seq![vs[k as int]], vs.skip(k + 1));
            lemma_first_named_single(id, t, vs[k as int]);
            assert(vs[k as int] == (value.name, lines_view(path@)));
            assert(range_ok(enumeration.values@[k as int].name, t.len() as int));
        }
        if let Some(range) = match_name(ident, ast, &value.name, path) {
            let ghost before = path@;
            path.pop();
            proof {
                assert(path@ =~= before.drop_last());
                assert(lines_view(before.drop_last()) =~= lines_view(before).drop_last());
                assert(lines_view(path@) =~= p);
            }
            return Some(range);
        }
        k = k + 1;
    }
    let ghost before = path@;
    path.pop();
    proof {
        assert(path@ =~= before.drop_last());
        assert(lines_view(before.drop_last()) =~= lines_view(before).drop_last());
        assert(lines_view(path@) =~= p);
        assert(vs.skip(n as int) =~= Seq::<Candidate>::empty());
    }
    None
}


proof fn lemma_interface_members_step(ms: Seq<InterfaceMember>, k: int, t: Seq<u8>, p: Seq<Seq<u8>>)
    requires
        0 <= k < ms.len(),
    ensures
        interface_members_candidates(ms.skip(k), t, p) == interface_member_candidates(ms[k], t, p)
            + interface_members_candidates(ms.skip(k + 1), t, p),
{
    assert(ms.skip(k).drop_first() =~= ms.skip(k + 1));
    assert(ms.skip(k)[0] == ms[k]);
}

proof fn lemma_struct_members_step(ms: Seq<StructBody>, k: int, t: Seq<u8>, p: Seq<Seq<u8>>)
    requires
        0 <= k < ms.len(),
    ensures
        struct_members_candidates(ms.skip(k), t, p) == struct_member_candidates(ms[k], t, p)
            + struct_members_candidates(ms.skip(k + 1), t, p),
{
    assert(ms.skip(k).drop_first() =~= ms.skip(k + 1));
    assert(ms.skip(k)[0] == ms[k]);
}

proof fn lemma_pop_restores(before: Seq<Vec<u8>>, after: Seq<Vec<u8>>, p: Seq<Seq<u8>>, x: Seq<u8>)
    requires
        lines_view(before) == p.push(x),
        after == before.drop_last(),
    ensures
        lines_view(after) == p,
{
    assert(lines_view(before.drop_last()) =~= lines_view(before).drop_last());
    assert(p.push(x).drop_last() =~= p);
}

/// The range of the first name that `statement` declares, in document order,
/// that answers `ident`; the names inside a declaration are qualified by the
/// enclosing names after those in `path`. `path` is left as it was.
pub fn find_statement_name_range(ident: &str, ast: &MojomAst, statement: &Statement, path: &mut Vec<Vec<u8>>) -> (r: Option<Range>)
    requires
        statement_ok(*statement, ast.bytes().len() as int),
    ensures
        r == first_named(encode_utf8(ident@), ast.bytes(), statement_candidates(*statement, ast.bytes(), lines_view(old(path)@))),
        lines_view(final(path)@) == lines_view(old(path)@),
{
    let ghost id = encode_utf8(ident@);
    let ghost t = ast.bytes();
    let ghost p = lines_view(path@);
    let ghost cs = statement_candidates(*statement, t, p);
    match statement {
        Statement::Module(module) => {
            proof {
                lemma_first_named_single(id, t, (module.name, p));
            }
            match_name(ident, ast, &module.name, path)
        },
        Statement::Import(_) => None,
        Statement::Interface(interface) => {
            proof {
                lemma_first_named_concat(id, t, seq![(interface.name, p)], cs.drop_first());
                lemma_first_named_single(id, t, (interface.name, p));
                assert(cs =~= seq![(interface.name, p)] + cs.drop_first());
            }
            if let Some(range) = match_name(ident, ast, &interface.name, path) {
                return Some(range);
            }
            let name = ast.text(&interface.name);
            path.push(copy_window(name, 0, name.len()));
            proof {
                assert(name@.subrange(0, name@.len() as int) =~= name@);
                assert(lines_view(path@) =~= p.push(name_of(t, interface.name)));
                assert(interface.members@.skip(0) =~= interface.members@);
            }
            let ghost q = lines_view(path@);
            proof {
                assert(cs.drop_first() =~= interface_members_candidates(interface.members@, t, q));
            }
            let n = interface.members.len();
            let mut k: usize = 0;
            while k < n
                invariant
                    n == interface.members@.len(),
                    k <= n,
                    t == ast.bytes(),
                    id == encode_utf8(ident@),
                    p == lines_view(old(path)@),
                    statement_ok(*statement, t.len() as int),
                    *statement == Statement::Interface(*interface),
                    q == p.push(name_of(t, interface.name)),
                    lines_view(path@) == q,
                    first_named(id, t, cs) == first_named(id, t, interface_members_candidates(interface.members@.skip(k as int), t, q)),
                    cs == statement_candidates(*statement, t, p),
                decreases n - k,
            {
                let member = &interface.members[k];
                proof {
                    lemma_interface_members_step(interface.members@, k as int, t, q);
                    lemma_first_named_concat(
                        id,
                        t,
                        interface_member_candidates(interface.members@[k as int], t, q),
                        interface_members_candidates(interface.members@.skip(k + 1), t, q),
                    );
                    assert(interface_member_ok(interface.members@[k as int], t.len() as int));
                }
                let range = match member {
                    InterfaceMember::Const(constant) => {
                        proof {
                            lemma_first_named_single(id, t, (constant.name, q));
                        }
                        match_name(ident, ast, &constant.name, path)
                    },
                    InterfaceMember::Enum(enumeration) => find_enum_name_range(ident, ast, enumeration, path),
                    InterfaceMember::Method(method) => {
                        proof {
                            lemma_first_named_single(id, t, (method.name, q));
                        }
                        match_name(ident, ast, &method.name, path)
                    },
                };
                if range.is_some() {
                    let ghost before = path@;
                    assert(lines_view(path@).len() == path@.len());
                    path.pop();
                    proof {
                        lemma_pop_restores(before, path@, p, name_of(t, interface.name));
                    }
                    return range;
                }
                k = k + 1;
            }
            let ghost before = path@;
            path.pop();
            proof {
                lemma_pop_restores(before, path@, p, name_of(t, interface.name));
                assert(interface.members@.skip(n as int) =~= Seq::<InterfaceMember>::empty());
            }
            None
        },
        Statement::Struct(structure) => {
            proof {
                lemma_first_named_concat(id, t, seq![(structure.name, p)], cs.drop_first());
                lemma_first_named_single(id, t, (structure.name, p));
                assert(cs =~= seq![(structure.name, p)] + cs.drop_first());
            }
            if let Some(range) = match_name(ident, ast, &structure.name, path) {
                return Some(range);
            }
            let name = ast.text(&structure.name);
            path.push(copy_window(name, 0, name.len()));
            proof {
                assert(name@.subrange(0, name@.len() as int) =~= name@);
                assert(lines_view(path@) =~= p.push(name_of(t, structure.name)));
                assert(structure.members@.skip(0) =~= structure.members@);
            }
            let ghost q = lines_view(path@);
            proof {
                assert(cs.drop_first() =~= struct_members_candidates(structure.members@, t, q));
            }
            let n = structure.members.len();
            let mut k: usize = 0;
            while k < n
                invariant
                    n == structure.members@.len(),
                    k <= n,
                    t == ast.bytes(),
                    id == encode_utf8(ident@),
                    p == lines_view(old(path)@),
                    statement_ok(*statement, t.len() as int),
                    *statement == Statement::Struct(*structure),
                    q == p.push(name_of(t, structure.name)),
                    lines_view(path@) == q,
                    first_named(id, t, cs) == first_named(id, t, struct_members_candidates(structure.members@.skip(k as int), t, q)),
                    cs == statement_candidates(*statement, t, p),
                decreases n - k,
            {
                let member = &structure.members[k];
                proof {
                    lemma_struct_members_step(structure.members@, k as int, t, q);
                    lemma_first_named_concat(
                        id,
                        t,
                        struct_member_candidates(structure.members@[k as int], t, q),
                        struct_members_candidates(structure.members@.skip(k + 1), t, q),
                    );
                    assert(struct_member_ok(structure.members@[k as int], t.len() as int));
                }
                let range = match member {
                    StructBody::Const(constant) => {
                        proof {
                            lemma_first_named_single(id, t, (constant.name, q));
                        }
                        match_name(ident, ast, &constant.name, path)
                    },
                    StructBody::Enum(enumeration) => find_enum_name_range(ident, ast, enumeration, path),
                    StructBody::Field(field) => {
                        proof {
                            lemma_first_named_single(id, t, (field.name, q));
                        }
                        match_name(ident, ast, &field.name, path)
                    },
                };
                if range.is_some() {
                    let ghost before = path@;
                    assert(lines_view(path@).len() == path@.len());
                    path.pop();
                    proof {
                        lemma_pop_restores(before, path@, p, name_of(t, structure.name));
                    }
                    return range;
                }
                k = k + 1;
            }
            let ghost before = path@;
            path.pop();
            proof {
                lemma_pop_restores(before, path@, p, name_of(t, structure.name));
                assert(structure.members@.skip(n as int) =~= Seq::<StructBody>::empty());
            }
            None
        },
        Statement::Union(union) => {
            proof {
                lemma_first_named_concat(id, t, seq![(union.name, p)], cs.drop_first());
                lemma_first_named_single(id, t, (union.name, p));
                assert(cs =~= seq![(union.name, p)] + cs.drop_first());
            }
            if let Some(range) = match_name(ident, ast, &union.name, path) {
                return Some(range);
            }
            let name = ast.text(&union.name);
            path.push(copy_window(name, 0, name.len()));
            proof {
                assert(name@.subrange(0, name@.len() as int) =~= name@);
                assert(lines_view(path@) =~= p.push(name_of(t, union.name)));
            }
            let ghost q = lines_view(path@);
            let ghost fs = at_path(union_field_ranges(union.fields@), q);
            proof {
                assert(cs.drop_first() =~= fs);
                assert(fs.skip(0) =~= fs);
            }
            let n = union.fields.len();
            let mut k: usize = 0;
            while k < n
                invariant
                    n == union.fields@.len(),
                    k <= n,
                    t == ast.bytes(),
                    id == encode_utf8(ident@),
                    p == lines_view(old(path)@),
                    statement_ok(*statement, t.len() as int),
                    *statement == Statement::Union(*union),
                    q == p.push(name_of(t, union.name)),
                    lines_view(path@) == q,
                    fs == at_path(union_field_ranges(union.fields@), q),
                    cs == statement_candidates(*statement, t, p),
                    first_named(id, t, cs) == first_named(id, t, fs.skip(k as int)),
                decreases n - k,
            {
                let field = &union.fields[k];
                proof {
                    lemma_skip_step(fs, k as int);
                    lemma_first_named_concat(id, t, seq![fs[k as int]], fs.skip(k + 1));
                    lemma_first_named_single(id, t, fs[k as int]);
                    assert(fs[k as int] == (field.name, q));
                    assert(range_ok(union.fields@[k as int].name, t.len() as int));
                }
                if let Some(range) = match_name(ident, ast, &field.name, path) {
                    let ghost before = path@;
                    assert(lines_view(path@).len() == path@.len());
                    path.pop();
                    proof {
                        lemma_pop_restores(before, path@, p, name_of(t, union.name));
                    }
                    return Some(range);
                }
                k = k + 1;
            }
            let ghost before = path@;
            path.pop();
            proof {
                lemma_pop_restores(before, path@, p, name_of(t, union.name));
                assert(fs.skip(n as int) =~= Seq::<Candidate>::empty());
            }
            None
        },
        Statement::Enum(enumeration) => find_enum_name_range(ident, ast, enumeration, path),
        Statement::Const(constant) => {
            proof {
                lemma_first_named_single(id, t, (constant.name, p));
            }
            match_name(ident, ast, &constant.name, path)
        },
    }
}

/// The range of the first name declared in the file, in document order, that
/// answers `ident`: a name matches by itself or qualified by the names of the
/// declarations that enclose it, joined with `'.'` (`Interface.Method`,
/// `Struct.Enum.VALUE`).
pub fn find_documented_name_range(ident: &str, ast: &MojomAst) -> (r: Option<Range>)
    requires
        ast.wf(),
    ensures
        r == first_named(encode_utf8(ident@), ast.bytes(), statements_candidates(ast.mojom.stmts@, ast.bytes())),
{
    let ghost id = encode_utf8(ident@);
    let ghost t = ast.bytes();
    let ghost ss = ast.mojom.stmts@;
    let mut path: Vec<Vec<u8>> = Vec::new();
    let n = ast.mojom.stmts.len();
    let mut k: usize = 0;
    proof {
        assert(ss.skip(0) =~= ss);
    }
    while k < n
        invariant
            n == ss.len(),
            ss == ast.mojom.stmts@,
            k <= n,
            t == ast.bytes(),
            id == encode_utf8(ident@),
            ast.wf(),
            lines_view(path@) == Seq::<Seq<u8>>::empty(),
            first_named(id, t, statements_candidates(ss, t)) == first_named(id, t, statements_candidates(ss.skip(k as int), t)),
        decreases n - k,
    {
        let statement = &ast.mojom.stmts[k];
        proof {
            assert(ss.skip(k as int).drop_first() =~= ss.skip(k + 1));
            assert(ss.skip(k as int)[0] == ss[k as int]);
            lemma_first_named_concat(id, t, statement_candidates(ss[k as int], t, seq![]), statements_candidates(ss.skip(k + 1), t));
            assert(statement_ok(ss[k as int], t.len() as int));
        }
        if let Some(range) = find_statement_name_range(ident, ast, statement, &mut path) {
            return Some(range);
        }
        k = k + 1;
    }
    proof {
        assert(ss.skip(n as int) =~= Seq::<Statement>::empty());
    }
    None
}


/// `offset` lies within `r`, its end included.
pub open spec fn contains_offset(r: Range, offset: int) -> bool {
    r.start <= offset <= r.end
}

/// The first range in `rs` that contains `offset`.
pub open spec fn first_containing(rs: Seq<Range>, offset: int) -> Option<Range>
    decreases rs.len(),
{
    if rs.len() == 0 {
        None
    } else if contains_offset(rs[0], offset) {
        Some(rs[0])
    } else {
        first_containing(rs.drop_first(), offset)
    }
}

/// The name ranges of an enum, in order: its own, then those of its values.
pub open spec fn enum_ranges(e: Enum) -> Seq<Range> {
    seq![e.name] + enum_value_ranges(e.values@)
}

pub open spec fn interface_member_ranges(m: InterfaceMember) -> Seq<Range> {
    match m {
        InterfaceMember::Const(c) => seq![c.name],
        InterfaceMember::Enum(e) => enum_ranges(e),
        InterfaceMember::Method(m) => seq![m.name],
    }
}

pub open spec fn interface_members_ranges(ms: Seq<InterfaceMember>) -> Seq<Range>
    decreases ms.len(),
{
    if ms.len() == 0 {
        seq![]
    } else {
        interface_member_ranges(ms[0]) + interface_members_ranges(ms.drop_first())
    }
}

pub open spec fn struct_member_ranges(m: StructBody) -> Seq<Range> {
    match m {
        StructBody::Const(c) => seq![c.name],
        StructBody::Enum(e) => enum_ranges(e),
        StructBody::Field(f) => seq![f.name],
    }
}

pub open spec fn struct_members_ranges(ms: Seq<StructBody>) -> Seq<Range>
    decreases ms.len(),
{
    if ms.len() == 0 {
        seq![]
    } else {
        struct_member_ranges(ms[0]) + struct_members_ranges(ms.drop_first())
    }
}

/// The name ranges a statement declares, in document order.
pub open spec fn statement_ranges(s: Statement) -> Seq<Range> {
    match s {
        Statement::Module(m) => seq![m.name],
        Statement::Import(_) => seq![],
        Statement::Interface(i) => seq![i.name] + interface_members_ranges(i.members@),
        Statement::Struct(st) => seq![st.name] + struct_members_ranges(st.members@),
        Statement::Union(u) => seq![u.name] + union_field_ranges(u.fields@),
        Statement::Enum(e) => enum_ranges(e),
        Statement::Const(c) => seq![c.name],
    }
}

/// The name ranges declared by the statements, in document order.
pub open spec fn statements_ranges(ss: Seq<Statement>) -> Seq<Range>
    decreases ss.len(),
{
    if ss.len() == 0 {
        seq![]
    } else {
        statement_ranges(ss[0]) + statements_ranges(ss.drop_first())
    }
}

/// The first range containing an offset in a concatenation is the first in its
/// first part, or else the first in its second.
pub proof fn lemma_first_containing_concat(a: Seq<Range>, b: Seq<Range>, offset: int)
    ensures
        first_containing(a + b, offset) == match first_containing(a, offset) {
            Some(r) => Some(r),
            None => first_containing(b, offset),
        },
    decreases a.len(),
{
    if a.len() == 0 {
        assert(a + b =~= b);
    } else {
        assert((a + b)[0] == a[0]);
        assert((a + b).drop_first() =~= a.drop_first() + b);
        lemma_first_containing_concat(a.drop_first(), b, offset);
    }
}

proof fn lemma_first_containing_single(r: Range, offset: int)
    ensures
        first_containing(seq![r], offset) == if contains_offset(r, offset) {
            Some(r)
        } else {
            None
        },
{
    reveal_with_fuel(first_containing, 2);
    assert(seq![r].drop_first() =~= Seq::<Range>::empty());
    assert(seq![r][0] == r);
}

/// `Some(name_range)` when `offset` lies within it, its end included.
pub fn match_offset(offset: usize, name_range: &Range) -> (r: Option<Range>)
    ensures
        r == if contains_offset(*name_range, offset as int) {
            Some(*name_range)
        } else {
            None
        },
{
    if name_range.start <= offset && offset <= name_range.end {
        Some(*name_range)
    } else {
        None
    }
}

/// The first name range of `enumeration` (its own, then those of its values)
/// that contains `offset`.
pub fn find_enum_name_range_at_offset(offset: usize, enumeration: &Enum) -> (r: Option<Range>)
    ensures
        r == first_containing(enum_ranges(*enumeration), offset as int),
{
    let ghost rs = enum_ranges(*enumeration);
    let ghost vs = enum_value_ranges(enumeration.values@);
    proof {
        lemma_first_containing_concat(seq![enumeration.name], vs, offset as int);
        lemma_first_containing_single(enumeration.name, offset as int);
        assert(vs.skip(0) =~= vs);
    }
    if let Some(range) = match_offset(offset, &enumeration.name) {
        return Some(range);
    }
    let n = enumeration.values.len();
    let mut k: usize = 0;
    while k < n
        invariant
            n == enumeration.values@.len(),
            k <= n,
            vs == enum_value_ranges(enumeration.values@),
            rs == enum_ranges(*enumeration),
            first_containing(rs, offset as int) == first_containing(vs.skip(k as int), offset as int),
        decreases n - k,
    {
        let value = &enumeration.values[k];
        proof {
            lemma_skip_step(vs, k as int);
            lemma_first_containing_concat(seq![vs[k as int]], vs.skip(k + 1), offset as int);
            lemma_first_containing_single(vs[k as int], offset as int);
        }
        if let Some(range) = match_offset(offset, &value.name) {
            return Some(range);
        }
        k = k + 1;
    }
    proof {
        assert(vs.skip(n as int) =~= Seq::<Range>::empty());
    }
    None
}

proof fn lemma_interface_members_ranges_step(ms: Seq<InterfaceMember>, k: int)
    requires
        0 <= k < ms.len(),
    ensures
        interface_members_ranges(ms.skip(k)) == interface_member_ranges(ms[k]) + interface_members_ranges(ms.skip(k + 1)),
{
    assert(ms.skip(k).drop_first() =~= ms.skip(k + 1));
    assert(ms.skip(k)[0] == ms[k]);
}

proof fn lemma_struct_members_ranges_step(ms: Seq<StructBody>, k: int)
    requires
        0 <= k < ms.len(),
    ensures
        struct_members_ranges(ms.skip(k)) == struct_member_ranges(ms[k]) + struct_members_ranges(ms.skip(k + 1)),
{
    assert(ms.skip(k).drop_first() =~= ms.skip(k + 1));
    assert(ms.skip(k)[0] == ms[k]);
}

/// The first name range that `statement` declares, in document order, that
/// contains `offset`.
pub fn find_statement_name_range_at_offset(offset: usize, statement: &Statement) -> (r: Option<Range>)
    ensures
        r == first_containing(statement_ranges(*statement), offset as int),
{
    let ghost o = offset as int;
    let ghost rs = statement_ranges(*statement);
    match statement {
        Statement::Module(module) => {
            proof {
                lemma_first_containing_single(module.name, o);
            }
            match_offset(offset, &module.name)
        },
        Statement::Import(_) => None,
        Statement::Interface(interface) => {
            let ghost ms = interface.members@;
            proof {
                lemma_first_containing_concat(seq![interface.name], interface_members_ranges(ms), o);
                lemma_first_containing_single(interface.name, o);
                assert(ms.skip(0) =~= ms);
            }
            if let Some(range) = match_offset(offset, &interface.name) {
                return Some(range);
            }
            let n = interface.members.len();
            let mut k: usize = 0;
            while k < n
                invariant
                    n == ms.len(),
                    ms == interface.members@,
                    k <= n,
                    o == offset as int,
                    rs == statement_ranges(*statement),
                    first_containing(rs, o) == first_containing(interface_members_ranges(ms.skip(k as int)), o),
                decreases n - k,
            {
                let member = &interface.members[k];
                proof {
                    lemma_interface_members_ranges_step(ms, k as int);
                    lemma_first_containing_concat(interface_member_ranges(ms[k as int]), interface_members_ranges(ms.skip(k + 1)), o);
                }
                let range = match member {
                    InterfaceMember::Const(constant) => {
                        proof {
                            lemma_first_containing_single(constant.name, o);
                        }
                        match_offset(offset, &constant.name)
                    },
                    InterfaceMember::Enum(enumeration) => find_enum_name_range_at_offset(offset, enumeration),
                    InterfaceMember::Method(method) => {
                        proof {
                            lemma_first_containing_single(method.name, o);
                        }
                        match_offset(offset, &method.name)
                    },
                };
                if range.is_some() {
                    return range;
                }
                k = k + 1;
            }
            proof {
                assert(ms.skip(n as int) =~= Seq::<InterfaceMember>::empty());
            }
            None
        },
        Statement::Struct(structure) => {
            let ghost ms = structure.members@;
            proof {
                lemma_first_containing_concat(seq![structure.name], struct_members_ranges(ms), o);
                lemma_first_containing_single(structure.name, o);
                assert(ms.skip(0) =~= ms);
            }
            if let Some(range) = match_offset(offset, &structure.name) {
                return Some(range);
            }
            let n = structure.members.len();
            let mut k: usize = 0;
            while k < n
                invariant
                    n == ms.len(),
                    ms == structure.members@,
                    k <= n,
                    o == offset as int,
                    rs == statement_ranges(*statement),
                    first_containing(rs, o) == first_containing(struct_members_ranges(ms.skip(k as int)), o),
                decreases n - k,
            {
                let member = &structure.members[k];
                proof {
                    lemma_struct_members_ranges_step(ms, k as int);
                    lemma_first_containing_concat(struct_member_ranges(ms[k as int]), struct_members_ranges(ms.skip(k + 1)), o);
                }
                let range = match member {
                    StructBody::Const(constant) => {
                        proof {
                            lemma_first_containing_single(constant.name, o);
                        }
                        match_offset(offset, &constant.name)
                    },
                    StructBody::Enum(enumeration) => find_enum_name_range_at_offset(offset, enumeration),
                    StructBody::Field(field) => {
                        proof {
                            lemma_first_containing_single(field.name, o);
                        }
                        match_offset(offset, &field.name)
                    },
                };
                if range.is_some() {
                    return range;
                }
                k = k + 1;
            }
            proof {
                assert(ms.skip(n as int) =~= Seq::<StructBody>::empty());
            }
            None
        },
        Statement::Union(union) => {
            let ghost fs = union_field_ranges(union.fields@);
            proof {
                lemma_first_containing_concat(seq![union.name], fs, o);
                lemma_first_containing_single(union.name, o);
                assert(fs.skip(0) =~= fs);
            }
            if let Some(range) = match_offset(offset, &union.name) {
                return Some(range);
            }
            let n = union.fields.len();
            let mut k: usize = 0;
            while k < n
                invariant
                    n == union.fields@.len(),
                    fs == union_field_ranges(union.fields@),
                    k <= n,
                    o == offset as int,
                    rs == statement_ranges(*statement),
                    first_containing(rs, o) == first_containing(fs.skip(k as int), o),
                decreases n - k,
            {
                let field = &union.fields[k];
                proof {
                    lemma_skip_step(fs, k as int);
                    lemma_first_containing_concat(seq![fs[k as int]], fs.skip(k + 1), o);
                    lemma_first_containing_single(fs[k as int], o);
                }
                if let Some(range) = match_offset(offset, &field.name) {
                    return Some(range);
                }
                k = k + 1;
            }
            proof {
                assert(fs.skip(n as int) =~= Seq::<Range>::empty());
            }
            None
        },
        Statement::Enum(enumeration) => find_enum_name_range_at_offset(offset, enumeration),
        Statement::Const(constant) => {
            proof {
                lemma_first_containing_single(constant.name, o);
            }
            match_offset(offset, &constant.name)
        },
    }
}

/// The first name range declared in the statements, in document order, that
/// contains `offset`.
pub fn find_documented_name_range_at_offset(offset: usize, ast: &MojomAst) -> (r: Option<Range>)
    ensures
        r == first_containing(statements_ranges(ast.mojom.stmts@), offset as int),
{
    let ghost ss = ast.mojom.stmts@;
    let n = ast.mojom.stmts.len();
    let mut k: usize = 0;
    proof {
        assert(ss.skip(0) =~= ss);
    }
    while k < n
        invariant
            n == ss.len(),
            ss == ast.mojom.stmts@,
            k <= n,
            first_containing(statements_ranges(ss), offset as int) == first_containing(statements_ranges(ss.skip(k as int)), offset as int),
        decreases n - k,
    {
        let statement = &ast.mojom.stmts[k];
        proof {
            assert(ss.skip(k as int).drop_first() =~= ss.skip(k + 1));
            assert(ss.skip(k as int)[0] == ss[k as int]);
            lemma_first_containing_concat(statement_ranges(ss[k as int]), statements_ranges(ss.skip(k + 1)), offset as int);
        }
        if let Some(range) = find_statement_name_range_at_offset(offset, statement) {
            return Some(range);
        }
        k = k + 1;
    }
    proof {
        assert(ss.skip(n as int) =~= Seq::<Statement>::empty());
    }
    None
}


/// A position in a document as an editor reports it: a zero-based line and a
/// zero-based column, the column counted in bytes.
#[derive(Clone, Copy, Debug, PartialEq, Eq, Structural)]
pub struct Position {
    pub line: u32,
    pub character: u32,
}

/// A span of a document between two editor positions.
#[derive(Clone, Copy, Debug, PartialEq, Eq, Structural)]
pub struct PositionRange {
    pub start: Position,
    pub end: Position,
}

/// The byte offset of `position` in `text`: the start of line `position.line`
/// (lines split at `'\n'`) plus `position.character`, clamped to the line's
/// length; `None` when the text has fewer lines.
pub fn offset_from_position(text: &str, position: &Position) -> (r: Option<usize>)
    ensures
        r matches Some(o) ==> spec_offset_from_position(encode_utf8(text@), position.line as int, position.character as int) == Some(o as int),
        r is None ==> spec_offset_from_position(encode_utf8(text@), position.line as int, position.character as int) is None,
{
    offset_from_line_col(text.as_bytes(), position.line, position.character)
}

/// The first name range declared in the file, in document order, that
/// contains the offset of `position` in `text`.
pub fn find_documented_name_range_at_position(text: &str, position: &Position, ast: &MojomAst) -> (r: Option<Range>)
    ensures
        r == match spec_offset_from_position(encode_utf8(text@), position.line as int, position.character as int) {
            Some(o) => first_containing(statements_ranges(ast.mojom.stmts@), o),
            None => None,
        },
{
    let offset = match offset_from_position(text, position) {
        Some(o) => o,
        None => return None,
    };
    find_documented_name_range_at_offset(offset, ast)
}

/// The markdown shown when hovering the declaration whose name is at `range`:
/// the documentation right above the declaration.
pub fn hover_from_syntax_range(text: &str, range: &Range) -> (r: Option<String>)
    requires
        documentation_defined(encode_utf8(text@), range.start as int),
    ensures
        r is Some <==> spec_leading_documentation(encode_utf8(text@), range.start as int) is Some,
        r matches Some(s) ==> Some(encode_utf8(s@)) == spec_leading_documentation(encode_utf8(text@), range.start as int),
{
    extract_leading_documentation(text, range.start)
}

/// The markdown shown when hovering the declaration that starts at
/// `range.start`: the documentation right above it; `None` when the position
/// is past the text's last line.
pub fn hover_from_lsp_range(text: &str, range: &PositionRange) -> (r: Option<String>)
    requires
        spec_offset_from_position(encode_utf8(text@), range.start.line as int, range.start.character as int) matches Some(o)
            ==> documentation_defined(encode_utf8(text@), o),
    ensures
        spec_offset_from_position(encode_utf8(text@), range.start.line as int, range.start.character as int) is None ==> r is None,
        spec_offset_from_position(encode_utf8(text@), range.start.line as int, range.start.character as int) matches Some(o) ==> {
            &&& (r is Some <==> spec_leading_documentation(encode_utf8(text@), o) is Some)
            &&& (r matches Some(s) ==> Some(encode_utf8(s@)) == spec_leading_documentation(encode_utf8(text@), o))
        },
{
    let offset = match offset_from_position(text, &range.start) {
        Some(o) => o,
        None => return None,
    };
    extract_leading_documentation(text, offset)
}


/// The first match of `cs` is a declared name that answers `ident` with none
/// before it; there is none exactly when no declared name answers `ident`.
pub proof fn lemma_first_named_spec(ident: Seq<u8>, t: Seq<u8>, cs: Seq<Candidate>)
    ensures
        first_named(ident, t, cs) matches Some(r) ==> exists|i: int|
            0 <= i < cs.len() && cs[i].0 == r && names(ident, t, #[trigger] cs[i])
                && forall|j: int| 0 <= j < i ==> !names(ident, t, #[trigger] cs[j]),
        first_named(ident, t, cs) is None ==> forall|i: int| 0 <= i < cs.len() ==> !names(ident, t, #[trigger] cs[i]),
    decreases cs.len(),
{
    if cs.len() > 0 {
        let rest = cs.drop_first();
        lemma_first_named_spec(ident, t, rest);
        if names(ident, t, cs[0]) {
            assert(cs[0].0 == cs[0].0 && names(ident, t, cs[0]));
        } else {
            if first_named(ident, t, rest) is Some {
                let r = first_named(ident, t, rest).unwrap();
                let i = choose|i: int|
                    0 <= i < rest.len() && rest[i].0 == r && names(ident, t, #[trigger] rest[i])
                        && forall|j: int| 0 <= j < i ==> !names(ident, t, #[trigger] rest[j]);
                assert(cs[i + 1] == rest[i]);
                assert forall|j: int| 0 <= j < i + 1 implies !names(ident, t, #[trigger] cs[j]) by {
                    if j > 0 {
                        assert(cs[j] == rest[j - 1]);
                    }
                }
            } else {
                assert forall|i: int| 0 <= i < cs.len() implies !names(ident, t, #[trigger] cs[i]) by {
                    if i > 0 {
                        assert(cs[i] == rest[i - 1]);
                    }
                }
            }
        }
    }
}

/// The first range of `rs` containing `offset` contains it, with none before
/// it that does; there is none exactly when no range contains `offset`.
pub proof fn lemma_first_containing_spec(rs: Seq<Range>, offset: int)
    ensures
        first_containing(rs, offset) matches Some(r) ==> exists|i: int|
            0 <= i < rs.len() && rs[i] == r && contains_offset(#[trigger] rs[i], offset)
                && forall|j: int| 0 <= j < i ==> !contains_offset(#[trigger] rs[j], offset),
        first_containing(rs, offset) is None ==> forall|i: int| 0 <= i < rs.len() ==> !contains_offset(#[trigger] rs[i], offset),
    decreases rs.len(),
{
    if rs.len() > 0 {
        let rest = rs.drop_first();
        lemma_first_containing_spec(rest, offset);
        if !contains_offset(rs[0], offset) {
            if first_containing(rest, offset) is Some {
                let r = first_containing(rest, offset).unwrap();
                let i = choose|i: int|
                    0 <= i < rest.len() && rest[i] == r && contains_offset(#[trigger] rest[i], offset)
                        && forall|j: int| 0 <= j < i ==> !contains_offset(#[trigger] rest[j], offset);
                assert(rs[i + 1] == rest[i]);
                assert forall|j: int| 0 <= j < i + 1 implies !contains_offset(#[trigger] rs[j], offset) by {
                    if j > 0 {
                        assert(rs[j] == rest[j - 1]);
                    }
                }
            } else {
                assert forall|i: int| 0 <= i < rs.len() implies !contains_offset(#[trigger] rs[i], offset) by {
                    if i > 0 {
                        assert(rs[i] == rest[i - 1]);
                    }
                }
            }
        }
    }
}

/// Looking up an identifier gives the range of the first declared name, in
/// document order, whose name or qualified name is the identifier; it gives
/// nothing exactly when no declared name is.
pub proof fn law_lookup_by_name(ident: Seq<char>, ast: MojomAst)
    ensures
        ({
            let cs = statements_candidates(ast.mojom.stmts@, ast.bytes());
            let id = encode_utf8(ident);
            &&& first_named(id, ast.bytes(), cs) matches Some(r) ==> exists|i: int|
                0 <= i < cs.len() && cs[i].0 == r && names(id, ast.bytes(), #[trigger] cs[i])
                    && forall|j: int| 0 <= j < i ==> !names(id, ast.bytes(), #[trigger] cs[j])
            &&& first_named(id, ast.bytes(), cs) is None ==> forall|i: int|
                0 <= i < cs.len() ==> !names(id, ast.bytes(), #[trigger] cs[i])
        }),
{
    lemma_first_named_spec(encode_utf8(ident), ast.bytes(), statements_candidates(ast.mojom.stmts@, ast.bytes()));
}

/// Looking up an offset gives the first declared name range, in document
/// order, that contains it; it gives nothing exactly when none does.
pub proof fn law_lookup_by_offset(offset: int, ast: MojomAst)
    ensures
        ({
            let rs = statements_ranges(ast.mojom.stmts@);
            &&& first_containing(rs, offset) matches Some(r) ==> exists|i: int|
                0 <= i < rs.len() && rs[i] == r && contains_offset(#[trigger] rs[i], offset)
                    && forall|j: int| 0 <= j < i ==> !contains_offset(#[trigger] rs[j], offset)
            &&& first_containing(rs, offset) is None ==> forall|i: int|
                0 <= i < rs.len() ==> !contains_offset(#[trigger] rs[i], offset)
        }),
{
    lemma_first_containing_spec(statements_ranges(ast.mojom.stmts@), offset);
}


/// The ranges of the candidates.
pub open spec fn candidate_ranges(cs: Seq<Candidate>) -> Seq<Range> {
    cs.map_values(|c: Candidate| c.0)
}

/// Every range lies within a text of `n` bytes.
pub open spec fn all_ranges_ok(rs: Seq<Range>, n: int) -> bool {
    forall|i: int| 0 <= i < rs.len() ==> range_ok(#[trigger] rs[i], n)
}

proof fn lemma_candidate_ranges_concat(a: Seq<Candidate>, b: Seq<Candidate>)
    ensures
        candidate_ranges(a + b) == candidate_ranges(a) + candidate_ranges(b),
{
    assert(candidate_ranges(a + b) =~= candidate_ranges(a) + candidate_ranges(b));
}

proof fn lemma_enum_candidate_ranges(e: Enum, t: Seq<u8>, p: Seq<Seq<u8>>)
    ensures
        candidate_ranges(enum_candidates(e, t, p)) == enum_ranges(e),
{
    assert(candidate_ranges(enum_candidates(e, t, p)) =~= enum_ranges(e));
}

proof fn lemma_interface_members_candidate_ranges(ms: Seq<InterfaceMember>, t: Seq<u8>, p: Seq<Seq<u8>>)
    ensures
        candidate_ranges(interface_members_candidates(ms, t, p)) == interface_members_ranges(ms),
    decreases ms.len(),
{
    if ms.len() > 0 {
        lemma_interface_members_candidate_ranges(ms.drop_first(), t, p);
        lemma_candidate_ranges_concat(interface_member_candidates(ms[0], t, p), interface_members_candidates(ms.drop_first(), t, p));
        match ms[0] {
            InterfaceMember::Enum(e) => lemma_enum_candidate_ranges(e, t, p),
            _ => {},
        }
        assert(candidate_ranges(interface_member_candidates(ms[0], t, p)) =~= interface_member_ranges(ms[0]));
    } else {
        assert(candidate_ranges(interface_members_candidates(ms, t, p)) =~= interface_members_ranges(ms));
    }
}

proof fn lemma_struct_members_candidate_ranges(ms: Seq<StructBody>, t: Seq<u8>, p: Seq<Seq<u8>>)
    ensures
        candidate_ranges(struct_members_candidates(ms, t, p)) == struct_members_ranges(ms),
    decreases ms.len(),
{
    if ms.len() > 0 {
        lemma_struct_members_candidate_ranges(ms.drop_first(), t, p);
        lemma_candidate_ranges_concat(struct_member_candidates(ms[0], t, p), struct_members_candidates(ms.drop_first(), t, p));
        match ms[0] {
            StructBody::Enum(e) => lemma_enum_candidate_ranges(e, t, p),
            _ => {},
        }
        assert(candidate_ranges(struct_member_candidates(ms[0], t, p)) =~= struct_member_ranges(ms[0]));
    } else {
        assert(candidate_ranges(struct_members_candidates(ms, t, p)) =~= struct_members_ranges(ms));
    }
}

proof fn lemma_statement_candidate_ranges(s: Statement, t: Seq<u8>, p: Seq<Seq<u8>>)
    ensures
        candidate_ranges(statement_candidates(s, t, p)) == statement_ranges(s),
{
    match s {
        Statement::Interface(i) => {
            let q = p.push(name_of(t, i.name));
            lemma_interface_members_candidate_ranges(i.members@, t, q);
            lemma_candidate_ranges_concat(seq![(i.name, p)], interface_members_candidates(i.members@, t, q));
            assert(candidate_ranges(seq![(i.name, p)]) =~= seq![i.name]);
        },
        Statement::Struct(st) => {
            let q = p.push(name_of(t, st.name));
            lemma_struct_members_candidate_ranges(st.members@, t, q);
            lemma_candidate_ranges_concat(seq![(st.name, p)], struct_members_candidates(st.members@, t, q));
            assert(candidate_ranges(seq![(st.name, p)]) =~= seq![st.name]);
        },
        Statement::Enum(e) => lemma_enum_candidate_ranges(e, t, p),
        _ => {},
    }
    assert(candidate_ranges(statement_candidates(s, t, p)) =~= statement_ranges(s));
}

proof fn lemma_statements_candidate_ranges(ss: Seq<Statement>, t: Seq<u8>)
    ensures
        candidate_ranges(statements_candidates(ss, t)) == statements_ranges(ss),
    decreases ss.len(),
{
    if ss.len() > 0 {
        lemma_statements_candidate_ranges(ss.drop_first(), t);
        lemma_statement_candidate_ranges(ss[0], t, seq![]);
        lemma_candidate_ranges_concat(statement_candidates(ss[0], t, seq![]), statements_candidates(ss.drop_first(), t));
    } else {
        assert(candidate_ranges(statements_candidates(ss, t)) =~= statements_ranges(ss));
    }
}

proof fn lemma_all_ranges_ok_concat(a: Seq<Range>, b: Seq<Range>, n: int)
    requires
        all_ranges_ok(a, n),
        all_ranges_ok(b, n),
    ensures
        all_ranges_ok(a + b, n),
{
    assert forall|i: int| 0 <= i < (a + b).len() implies range_ok(#[trigger] (a + b)[i], n) by {
        if i >= a.len() {
            assert((a + b)[i] == b[i - a.len()]);
        }
    }
}

proof fn lemma_enum_ranges_ok(e: Enum, n: int)
    requires
        enum_ok(e, n),
    ensures
        all_ranges_ok(enum_ranges(e), n),
{
    let vs = enum_value_ranges(e.values@);
    assert(all_ranges_ok(vs, n)) by {
        assert forall|i: int| 0 <= i < vs.len() implies range_ok(#[trigger] vs[i], n) by {
            assert(range_ok(e.values@[i].name, n));
        }
    }
    lemma_all_ranges_ok_concat(seq![e.name], vs, n);
}

proof fn lemma_interface_members_ranges_ok(ms: Seq<InterfaceMember>, n: int)
    requires
        forall|k: int| 0 <= k < ms.len() ==> interface_member_ok(#[trigger] ms[k], n),
    ensures
        all_ranges_ok(interface_members_ranges(ms), n),
    decreases ms.len(),
{
    if ms.len() > 0 {
        let rest = ms.drop_first();
        assert forall|k: int| 0 <= k < rest.len() implies interface_member_ok(#[trigger] rest[k], n) by {
            assert(rest[k] == ms[k + 1]);
        }
        lemma_interface_members_ranges_ok(rest, n);
        assert(interface_member_ok(ms[0], n));
        match ms[0] {
            InterfaceMember::Enum(e) => lemma_enum_ranges_ok(e, n),
            _ => {},
        }
        lemma_all_ranges_ok_concat(interface_member_ranges(ms[0]), interface_members_ranges(rest), n);
    }
}

proof fn lemma_struct_members_ranges_ok(ms: Seq<StructBody>, n: int)
    requires
        forall|k: int| 0 <= k < ms.len() ==> struct_member_ok(#[trigger] ms[k], n),
    ensures
        all_ranges_ok(struct_members_ranges(ms), n),
    decreases ms.len(),
{
    if ms.len() > 0 {
        let rest = ms.drop_first();
        assert forall|k: int| 0 <= k < rest.len() implies struct_member_ok(#[trigger] rest[k], n) by {
            assert(rest[k] == ms[k + 1]);
        }
        lemma_struct_members_ranges_ok(rest, n);
        assert(struct_member_ok(ms[0], n));
        match ms[0] {
            StructBody::Enum(e) => lemma_enum_ranges_ok(e, n),
            _ => {},
        }
        lemma_all_ranges_ok_concat(struct_member_ranges(ms[0]), struct_members_ranges(rest), n);
    }
}

proof fn lemma_statement_ranges_ok(s: Statement, n: int)
    requires
        statement_ok(s, n),
    ensures
        all_ranges_ok(statement_ranges(s), n),
{
    match s {
        Statement::Interface(i) => {
            lemma_interface_members_ranges_ok(i.members@, n);
            lemma_all_ranges_ok_concat(seq![i.name], interface_members_ranges(i.members@), n);
        },
        Statement::Struct(st) => {
            lemma_struct_members_ranges_ok(st.members@, n);
            lemma_all_ranges_ok_concat(seq![st.name], struct_members_ranges(st.members@), n);
        },
        Statement::Union(u) => {
            let fs = union_field_ranges(u.fields@);
            assert(all_ranges_ok(fs, n)) by {
                assert forall|i: int| 0 <= i < fs.len() implies range_ok(#[trigger] fs[i], n) by {
                    assert(range_ok(u.fields@[i].name, n));
                }
            }
            lemma_all_ranges_ok_concat(seq![u.name], fs, n);
        },
        Statement::Enum(e) => lemma_enum_ranges_ok(e, n),
        _ => {},
    }
}

proof fn lemma_statements_ranges_ok(ss: Seq<Statement>, n: int)
    requires
        forall|k: int| 0 <= k < ss.len() ==> statement_ok(#[trigger] ss[k], n),
    ensures
        all_ranges_ok(statements_ranges(ss), n),
    decreases ss.len(),
{
    if ss.len() > 0 {
        let rest = ss.drop_first();
        assert forall|k: int| 0 <= k < rest.len() implies statement_ok(#[trigger] rest[k], n) by {
            assert(rest[k] == ss[k + 1]);
        }
        lemma_statements_ranges_ok(rest, n);
        lemma_statement_ranges_ok(ss[0], n);
        lemma_all_ranges_ok_concat(statement_ranges(ss[0]), statements_ranges(rest), n);
    }
}

/// A name found by identifier can be hovered: looking up the offset where the
/// found name starts finds a declared name range that contains that offset
/// (the found one, or one declared before it that also contains it).
pub proof fn law_found_name_is_found_at_its_start(ident: Seq<char>, ast: MojomAst)
    requires
        ast.wf(),
    ensures
        first_named(encode_utf8(ident), ast.bytes(), statements_candidates(ast.mojom.stmts@, ast.bytes())) matches Some(r)
            ==> first_containing(statements_ranges(ast.mojom.stmts@), r.start as int) matches Some(r2)
            && contains_offset(r2, r.start as int),
{
    let t = ast.bytes();
    let ss = ast.mojom.stmts@;
    let cs = statements_candidates(ss, t);
    let rs = statements_ranges(ss);
    let id = encode_utf8(ident);
    lemma_first_named_spec(id, t, cs);
    lemma_statements_candidate_ranges(ss, t);
    lemma_statements_ranges_ok(ss, t.len() as int);
    lemma_first_containing_spec(rs, first_named(id, t, cs).unwrap().start as int);
    if first_named(id, t, cs) is Some {
        let r = first_named(id, t, cs).unwrap();
        let i = choose|i: int|
            0 <= i < cs.len() && cs[i].0 == r && names(id, t, #[trigger] cs[i])
                && forall|j: int| 0 <= j < i ==> !names(id, t, #[trigger] cs[j]);
        assert(candidate_ranges(cs)[i] == r);
        assert(rs[i] == r);
        assert(range_ok(rs[i], t.len() as int));
        assert(contains_offset(rs[i], r.start as int));
    }
}

/// The first statement, in order, with a name that answers `ident` when it is
/// searched from the top level (no enclosing names), and the range found there.
pub open spec fn first_statement_match(ident: Seq<u8>, t: Seq<u8>, ss: Seq<Statement>) -> Option<Range>
    decreases ss.len(),
{
    if ss.len() == 0 {
        None
    } else {
        match first_named(ident, t, statement_candidates(ss[0], t, seq![])) {
            Some(r) => Some(r),
            None => first_statement_match(ident, t, ss.drop_first()),
        }
    }
}

/// Looking up an identifier in the file gives what the first statement that
/// has a match gives when searched with no enclosing names; qualified names
/// start at the top-level declarations.
pub proof fn law_lookup_is_first_statement_match(ident: Seq<char>, ast: MojomAst)
    ensures
        first_named(encode_utf8(ident), ast.bytes(), statements_candidates(ast.mojom.stmts@, ast.bytes()))
            == first_statement_match(encode_utf8(ident), ast.bytes(), ast.mojom.stmts@),
{
    lemma_statements_first_match(encode_utf8(ident), ast.bytes(), ast.mojom.stmts@);
}

proof fn lemma_statements_first_match(ident: Seq<u8>, t: Seq<u8>, ss: Seq<Statement>)
    ensures
        first_named(ident, t, statements_candidates(ss, t)) == first_statement_match(ident, t, ss),
    decreases ss.len(),
{
    if ss.len() > 0 {
        lemma_first_named_concat(ident, t, statement_candidates(ss[0], t, seq![]), statements_candidates(ss.drop_first(), t));
        lemma_statements_first_match(ident, t, ss.drop_first());
    }
}

/// `name` qualified by `path` is the names of `path` and `name` joined with `'.'`.
proof fn lemma_qualified_is_joined(path: Seq<Seq<u8>>, name: Seq<u8>)
    ensures
        qualified_name(path, name) == join_with(path.push(name), DOT),
{
    let full = path.push(name);
    if path.len() > 0 {
        assert(full.drop_last() =~= path);
        assert(full.last() == name);
    } else {
        assert(full =~= seq![name]);
    }
}

/// An enum declared under the enclosing names `path` answers its own name
/// qualified by those names alone (the names of `path` and its name joined with
/// `'.'`, as `I.E` for enum `E` in interface `I`); each of its values answers
/// its name qualified by those names and the enum's (`I.E.V`).
pub proof fn law_enum_qualified_names(e: Enum, t: Seq<u8>, path: Seq<Seq<u8>>)
    ensures
        first_named(join_with(path.push(name_of(t, e.name)), DOT), t, enum_candidates(e, t, path)) == Some(e.name),
        forall|k: int| 0 <= k < e.values@.len() ==> {
            let c = #[trigger] enum_candidates(e, t, path)[k + 1];
            &&& c.0 == e.values@[k].name
            &&& names(join_with(path.push(name_of(t, e.name)).push(name_of(t, e.values@[k].name)), DOT), t, c)
        },
{
    let n = name_of(t, e.name);
    let cs = enum_candidates(e, t, path);
    lemma_qualified_is_joined(path, n);
    assert(cs[0] == (e.name, path));
    assert forall|k: int| 0 <= k < e.values@.len() implies {
        let c = #[trigger] enum_candidates(e, t, path)[k + 1];
        &&& c.0 == e.values@[k].name
        &&& names(join_with(path.push(n).push(name_of(t, e.values@[k].name)), DOT), t, c)
    } by {
        lemma_qualified_is_joined(path.push(n), name_of(t, e.values@[k].name));
        assert(cs[k + 1] == (e.values@[k].name, path.push(n)));
    }
}

proof fn lemma_first_named_some(ident: Seq<u8>, t: Seq<u8>, a: Seq<Candidate>, b: Seq<Candidate>)
    requires
        first_named(ident, t, a) is Some || first_named(ident, t, b) is Some,
    ensures
        first_named(ident, t, a + b) is Some,
{
    lemma_first_named_concat(ident, t, a, b);
}

proof fn lemma_interface_member_found(ident: Seq<u8>, t: Seq<u8>, ms: Seq<InterfaceMember>, p: Seq<Seq<u8>>, k: int)
    requires
        0 <= k < ms.len(),
        first_named(ident, t, interface_member_candidates(ms[k], t, p)) is Some,
    ensures
        first_named(ident, t, interface_members_candidates(ms, t, p)) is Some,
    decreases k,
{
    let rest = ms.drop_first();
    if k > 0 {
        assert(rest[k - 1] == ms[k]);
        lemma_interface_member_found(ident, t, rest, p, k - 1);
    }
    lemma_first_named_some(ident, t, interface_member_candidates(ms[0], t, p), interface_members_candidates(rest, t, p));
}

proof fn lemma_struct_member_found(ident: Seq<u8>, t: Seq<u8>, ms: Seq<StructBody>, p: Seq<Seq<u8>>, k: int)
    requires
        0 <= k < ms.len(),
        first_named(ident, t, struct_member_candidates(ms[k], t, p)) is Some,
    ensures
        first_named(ident, t, struct_members_candidates(ms, t, p)) is Some,
    decreases k,
{
    let rest = ms.drop_first();
    if k > 0 {
        assert(rest[k - 1] == ms[k]);
        lemma_struct_member_found(ident, t, rest, p, k - 1);
    }
    lemma_first_named_some(ident, t, struct_member_candidates(ms[0], t, p), struct_members_candidates(rest, t, p));
}

/// An enum declared in a top-level interface or struct is found by the name of
/// that declaration and its own name joined with `'.'` (`I.E`).
pub proof fn law_nested_enum_found_qualified(s: Statement, t: Seq<u8>, k: int)
    ensures
        s matches Statement::Interface(i) ==> (0 <= k < i.members@.len() ==> (i.members@[k] matches InterfaceMember::Enum(e)
            ==> first_named(join_with(seq![name_of(t, i.name), name_of(t, e.name)], DOT), t, statement_candidates(s, t, seq![])) is Some)),
        s matches Statement::Struct(st) ==> (0 <= k < st.members@.len() ==> (st.members@[k] matches StructBody::Enum(e)
            ==> first_named(join_with(seq![name_of(t, st.name), name_of(t, e.name)], DOT), t, statement_candidates(s, t, seq![])) is Some)),
{
    match s {
        Statement::Interface(i) => {
            if 0 <= k < i.members@.len() {
                if let InterfaceMember::Enum(e) = i.members@[k] {
                    let p = seq![].push(name_of(t, i.name));
                    law_enum_qualified_names(e, t, p);
                    assert(p.push(name_of(t, e.name)) =~= seq![name_of(t, i.name), name_of(t, e.name)]);
                    let ident = join_with(seq![name_of(t, i.name), name_of(t, e.name)], DOT);
                    lemma_interface_member_found(ident, t, i.members@, p, k);
                    lemma_first_named_some(ident, t, seq![(i.name, seq![])], interface_members_candidates(i.members@, t, p));
                }
            }
        },
        Statement::Struct(st) => {
            if 0 <= k < st.members@.len() {
                if let StructBody::Enum(e) = st.members@[k] {
                    let p = seq![].push(name_of(t, st.name));
                    law_enum_qualified_names(e, t, p);
                    assert(p.push(name_of(t, e.name)) =~= seq![name_of(t, st.name), name_of(t, e.name)]);
                    let ident = join_with(seq![name_of(t, st.name), name_of(t, e.name)], DOT);
                    lemma_struct_member_found(ident, t, st.members@, p, k);
                    lemma_first_named_some(ident, t, seq![(st.name, seq![])], struct_members_candidates(st.members@, t, p));
                }
            }
        },
        _ => {},
    }
}

} // verus!
