//! From the type system to the entities of the object file: every class,
//! field and method gets a name for the linker, fields get their place in
//! the object, and methods the number of their parameters and results.
use super::graph::{Entity, EntityId, EntityKind, Graph};
use crate::asciifile::Spanned;
use crate::ast;
use crate::strtab::{StringTable, Symbol};
use crate::type_checking::type_system::{
    CheckedType, ClassDef, ClassFieldDef, ClassMethodDef, TypeSystem,
};
use vstd::prelude::*;
use vstd::slice::slice_to_vec;

verus! {

/// A field of a class in the program that is generated.
pub struct Field {
    pub name: Symbol,
    pub ld_name: Vec<u8>,
    pub entity: EntityId,
}

/// A method of a class in the program that is generated.
pub struct Method {
    pub name: Symbol,
    pub ld_name: Vec<u8>,
    pub entity: EntityId,
    /// The graph of the method body, once it is built.
    pub graph: Option<Graph>,
}

/// A class in the program that is generated.
pub struct Class {
    pub name: Symbol,
    pub ld_name: Vec<u8>,
    pub entity: EntityId,
    pub fields: Vec<Field>,
    pub methods: Vec<Method>,
}

/// The program that is generated: its classes and the table of its
/// entities.
pub struct Program {
    pub classes: Vec<Class>,
    pub entities: Vec<Entity>,
}

/// The text `.F.`, which stands between a class and a field in the name
/// of the field for the linker.
pub open spec fn field_infix() -> Seq<u8> {
    seq![46u8, 70u8, 46u8]
}

/// The text `.M.`, which stands between a class and a method in the name
/// of the method for the linker.
pub open spec fn method_infix() -> Seq<u8> {
    seq![46u8, 77u8, 46u8]
}

/// The text `mj_main`, the name of the main method for the linker.
pub open spec fn main_name() -> Seq<u8> {
    seq![109u8, 106u8, 95u8, 109u8, 97u8, 105u8, 110u8]
}

/// The number of bytes that a value of type `ty` takes in an object.
pub open spec fn spec_size_of(ty: CheckedType) -> int {
    match ty {
        CheckedType::Int => 4,
        CheckedType::Boolean => 1,
        CheckedType::Void => 0,
        _ => 8,
    }
}

/// `offset` rounded up to the next multiple of `size`, which is a size
/// that `spec_size_of` yields.
pub open spec fn aligned(offset: int, size: int) -> int {
    if size <= 1 {
        offset
    } else if offset % size == 0 {
        offset
    } else {
        offset + size - offset % size
    }
}

/// `x` if it fits in 32 signed bits, and else the largest number that
/// does.
pub open spec fn clamp(x: int) -> int {
    if x > i32::MAX {
        i32::MAX as int
    } else {
        x
    }
}

/// The offset behind the first `upto` fields: each field stands at the
/// next offset that is a multiple of its size. Offsets that do not fit in
/// 32 signed bits are the largest number that does.
pub open spec fn spec_end_offset(fields: Seq<ClassFieldDef>, upto: int) -> int
    decreases upto, 0nat,
{
    if upto <= 0 {
        0
    } else {
        clamp(spec_offset(fields, upto - 1) + spec_size_of(fields[upto - 1].ty))
    }
}

/// The offset of field number `f`.
pub open spec fn spec_offset(fields: Seq<ClassFieldDef>, f: int) -> int
    decreases f, 1nat,
{
    if f < 0 {
        0
    } else {
        clamp(aligned(spec_end_offset(fields, f), spec_size_of(fields[f].ty)))
    }
}

/// The number of bytes that a value of type `ty` takes in an object.
pub fn size_of(ty: &CheckedType) -> (n: i32)
    ensures
        n == spec_size_of(*ty),
{
    match ty {
        CheckedType::Int => 4,
        CheckedType::Boolean => 1,
        CheckedType::Void => 0,
        _ => 8,
    }
}

/// The next offset at or behind `offset` at which a value of `size` bytes
/// can stand, and the offset behind that value.
pub fn place_field(offset: i32, size: i32) -> (r: (i32, i32))
    requires
        0 <= offset,
        size == 0 || size == 1 || size == 4 || size == 8,
    ensures
        r.0 == clamp(aligned(offset as int, size as int)),
        r.1 == clamp(r.0 + size),
        0 <= r.0,
        0 <= r.1,
{
    let rem = if size <= 1 {
        0
    } else {
        offset % size
    };
    let at = if rem == 0 {
        offset
    } else if offset <= i32::MAX - (size - rem) {
        offset + (size - rem)
    } else {
        i32::MAX
    };
    let end = if at <= i32::MAX - size {
        at + size
    } else {
        i32::MAX
    };
    (at, end)
}

/// The bytes of `a`, `b` and `c` one after the other.
pub fn concat3(a: &[u8], b: &[u8], c: &[u8]) -> (r: Vec<u8>)
    ensures
        r@ == a@ + b@ + c@,
{
    let mut r: Vec<u8> = Vec::new();
    let mut i: usize = 0;
    while i < a.len()
        invariant
            i <= a@.len(),
            r@ == a@.subrange(0, i as int),
        decreases a@.len() - i,
    {
        r.push(a[i]);
        assert(r@ =~= a@.subrange(0, i + 1));
        i += 1;
    }
    assert(r@ =~= a@);
    let mut j: usize = 0;
    while j < b.len()
        invariant
            j <= b@.len(),
            r@ == a@ + b@.subrange(0, j as int),
        decreases b@.len() - j,
    {
        r.push(b[j]);
        assert(r@ =~= a@ + b@.subrange(0, j + 1));
        j += 1;
    }
    assert(r@ =~= a@ + b@);
    let mut k: usize = 0;
    while k < c.len()
        invariant
            k <= c@.len(),
            r@ == a@ + b@ + c@.subrange(0, k as int),
        decreases c@.len() - k,
    {
        r.push(c[k]);
        assert(r@ =~= a@ + b@ + c@.subrange(0, k + 1));
        k += 1;
    }
    assert(r@ =~= a@ + b@ + c@);
    r
}

/// Every name of the type system belongs to the string table.
pub open spec fn names_owned(ts: &TypeSystem, strtab: &StringTable) -> bool {
    forall|c: int|
        0 <= c < ts.defined_classes@.len() ==> {
            let class = #[trigger] ts.defined_classes@[c];
            &&& strtab.owns(class.name)
            &&& forall|f: int| 0 <= f < class.fields@.len() ==> strtab.owns((#[trigger] class.fields@[f]).name)
            &&& forall|m: int|
                0 <= m < class.methods@.len() ==> strtab.owns((#[trigger] class.methods@[m]).name)
        }
}

/// Field number `f` of the class `def` was built as `field`: it has the
/// name of the class, `.F.` and its own name as its name for the linker,
/// and an entity with that name and its offset in the object.
pub open spec fn field_built(
    strtab: &StringTable,
    def: &ClassDef,
    f: int,
    field: &Field,
    entities: Seq<Entity>,
) -> bool {
    &&& field.name == def.fields@[f].name
    &&& field.ld_name@ == strtab.bytes(def.name) + field_infix() + strtab.bytes(def.fields@[f].name)
    &&& field.entity < entities.len()
    &&& entities[field.entity as int].ld_name@ == field.ld_name@
    &&& entities[field.entity as int].kind == (EntityKind::Field {
        offset: spec_offset(def.fields@, f) as i32,
    })
}

/// The name of a method for the linker.
pub open spec fn method_ld_name(strtab: &StringTable, def: &ClassDef, m: int) -> Seq<u8> {
    if def.methods@[m].is_main {
        main_name()
    } else {
        strtab.bytes(def.name) + method_infix() + strtab.bytes(def.methods@[m].name)
    }
}

/// The number of parameters of a method for the machine: the object comes
/// before the parameters of the source, but not in the main method. The
/// number stops at the largest number of a machine word.
pub open spec fn machine_params(method: &ClassMethodDef) -> int {
    if method.is_main {
        method.params@.len() as int
    } else if method.params@.len() < usize::MAX {
        (method.params@.len() + 1) as int
    } else {
        usize::MAX as int
    }
}

/// Method number `m` of the class `def` was built as `method`: it has its
/// name for the linker and an entity with that name, the number of its
/// parameters and the number of its results, and no graph yet.
pub open spec fn method_built(
    strtab: &StringTable,
    def: &ClassDef,
    m: int,
    method: &Method,
    entities: Seq<Entity>,
) -> bool {
    &&& method.name == def.methods@[m].name
    &&& method.ld_name@ == method_ld_name(strtab, def, m)
    &&& method.graph is None
    &&& method.entity < entities.len()
    &&& entities[method.entity as int].ld_name@ == method.ld_name@
    &&& entities[method.entity as int].kind == (EntityKind::Method {
        n_params: machine_params(&def.methods@[m]) as usize,
        n_res: if def.methods@[m].return_ty is Void {
            0usize
        } else {
            1usize
        },
    })
}

/// The class `def` was built as `class`.
pub open spec fn class_built(strtab: &StringTable, def: &ClassDef, class: &Class, entities: Seq<Entity>) -> bool {
    &&& class.name == def.name
    &&& class.ld_name@ == strtab.bytes(def.name)
    &&& class.entity < entities.len()
    &&& entities[class.entity as int].ld_name@ == class.ld_name@
    &&& entities[class.entity as int].kind == EntityKind::Class
    &&& class.fields@.len() == def.fields@.len()
    &&& forall|f: int|
        0 <= f < class.fields@.len() ==> field_built(strtab, def, f, #[trigger] &class.fields@[f], entities)
    &&& class.methods@.len() == def.methods@.len()
    &&& forall|m: int|
        0 <= m < class.methods@.len() ==> method_built(
            strtab,
            def,
            m,
            #[trigger] &class.methods@[m],
            entities,
        )
}

/// The entities of the class stand in the table from index `at` on: the
/// entity of the class itself, then those of its fields, then those of
/// its methods, each in the order of the declarations.
pub open spec fn class_placed(def: &ClassDef, class: &Class, at: int) -> bool {
    &&& class.entity == at
    &&& class.fields@.len() == def.fields@.len()
    &&& class.methods@.len() == def.methods@.len()
    &&& forall|f: int| 0 <= f < class.fields@.len() ==> (#[trigger] class.fields@[f]).entity == at + 1 + f
    &&& forall|m: int|
        0 <= m < class.methods@.len() ==> (#[trigger] class.methods@[m]).entity == at + 1
            + def.fields@.len() + m
}

/// The number of entities of the first `c` classes: one for each class,
/// each field and each method.
pub open spec fn entities_before(defs: Seq<ClassDef>, c: nat) -> nat
    decreases c,
{
    if c == 0 || c > defs.len() {
        0
    } else {
        entities_before(defs, (c - 1) as nat) + 1 + defs[c - 1].fields@.len() + defs[c
            - 1].methods@.len()
    }
}

/// A class that was built stays built when entities are added.
pub proof fn lemma_class_built_kept(
    strtab: &StringTable,
    def: &ClassDef,
    class: &Class,
    old: Seq<Entity>,
    new: Seq<Entity>,
)
    requires
        class_built(strtab, def, class, old),
        old.len() <= new.len(),
        new.subrange(0, old.len() as int) == old,
    ensures
        class_built(strtab, def, class, new),
{
    assert forall|i: int| 0 <= i < old.len() implies new[i] == old[i] by {
        assert(new.subrange(0, old.len() as int)[i] == new[i]);
    }
    assert forall|f: int| 0 <= f < class.fields@.len() implies field_built(
        strtab,
        def,
        f,
        #[trigger] &class.fields@[f],
        new,
    ) by {
        assert(field_built(strtab, def, f, &class.fields@[f], old));
    }
    assert forall|m: int| 0 <= m < class.methods@.len() implies method_built(
        strtab,
        def,
        m,
        #[trigger] &class.methods@[m],
        new,
    ) by {
        assert(method_built(strtab, def, m, &class.methods@[m], old));
    }
}

/// Counts the local variables that a method body declares.
pub struct LocalVarDefVisitor {
    pub count: usize,
}

/// `a + b` if it fits in a machine word, and else the largest number that
/// does.
pub open spec fn capped(a: int, b: int) -> int {
    if a + b > usize::MAX {
        usize::MAX as int
    } else {
        a + b
    }
}

/// The count behind the statement `stmt` if it was `count` before it: one
/// more for each local variable that the statement declares, however deep
/// inside. The count stops at the largest number of a machine word.
pub open spec fn count_stmt(stmt: &Spanned<ast::Stmt>, count: int) -> int
    decreases stmt, 0nat,
{
    match &stmt.data {
        ast::Stmt::Block(block) => count_stmts(&block.data.statements, 0, count),
        ast::Stmt::If(_, then, otherwise) => match otherwise {
            Some(o) => count_stmt(o, count_stmt(then, count)),
            None => count_stmt(then, count),
        },
        ast::Stmt::While(_, body) => count_stmt(body, count),
        ast::Stmt::LocalVariableDeclaration(_, _, _) => capped(count, 1),
        _ => count,
    }
}

/// The count behind the statements `stmts[i..]`.
pub open spec fn count_stmts(stmts: &Vec<Spanned<ast::Stmt>>, i: int, count: int) -> int
    decreases stmts, stmts@.len() - i,
{
    if 0 <= i < stmts@.len() {
        count_stmts(stmts, i + 1, count_stmt(&stmts@[i], count))
    } else {
        count
    }
}

impl LocalVarDefVisitor {
    pub fn new() -> (v: Self)
        ensures
            v.count == 0,
    {
        Self { count: 0 }
    }

    /// Counts the local variables that the statement declares.
    pub fn visit(&mut self, stmt: &Spanned<ast::Stmt>)
        ensures
            final(self).count == count_stmt(stmt, old(self).count as int),
        decreases stmt, 0nat,
    {
        match &stmt.data {
            ast::Stmt::Block(block) => {
                self.visit_block(&block.data);
            },
            ast::Stmt::If(_, then, otherwise) => {
                self.visit(then);
                match otherwise {
                    Some(o) => {
                        self.visit(o);
                    },
                    None => {},
                }
            },
            ast::Stmt::While(_, body) => {
                self.visit(body);
            },
            ast::Stmt::LocalVariableDeclaration(_, _, _) => {
                if self.count < usize::MAX {
                    self.count += 1;
                }
            },
            _ => {},
        }
    }

    /// Counts the local variables that the statements of the block
    /// declare.
    pub fn visit_block(&mut self, block: &ast::Block)
        ensures
            final(self).count == count_stmts(&block.statements, 0, old(self).count as int),
        decreases block.statements, block.statements@.len() + 1,
    {
        let stmts = &block.statements;
        let mut i: usize = 0;
        while i < stmts.len()
            invariant
                i <= stmts@.len(),
                stmts == &block.statements,
                count_stmts(stmts, 0, old(self).count as int) == count_stmts(
                    stmts,
                    i as int,
                    self.count as int,
                ),
            decreases stmts@.len() - i,
        {
            self.visit(&stmts[i]);
            i += 1;
        }
    }
}

/// The number of value slots that the graph of a method needs: one for
/// the object unless the method is the main method, one for each
/// parameter, and one for each local variable that the body declares.
pub fn slot_count(method: &ClassMethodDef, body: &ast::Block) -> (n: usize)
    ensures
        n == capped(
            capped(if method.is_main {
                0
            } else {
                1
            }, method.params@.len() as int),
            count_stmts(&body.statements, 0, 0),
        ),
{
    let this_param: usize = if method.is_main {
        0
    } else {
        1
    };
    let mut visitor = LocalVarDefVisitor::new();
    visitor.visit_block(body);
    let params = if method.params.len() <= usize::MAX - this_param {
        this_param + method.params.len()
    } else {
        usize::MAX
    };
    if visitor.count <= usize::MAX - params {
        params + visitor.count
    } else {
        usize::MAX
    }
}

/// Makes the entities of a program from its type system.
pub struct ProgramGenerator<'a> {
    type_system: &'a TypeSystem,
    strtab: &'a StringTable,
}

impl<'a> ProgramGenerator<'a> {
    pub closed spec fn spec_type_system(&self) -> &'a TypeSystem {
        self.type_system
    }

    pub closed spec fn spec_strtab(&self) -> &'a StringTable {
        self.strtab
    }

    pub fn new(type_system: &'a TypeSystem, strtab: &'a StringTable) -> (g: Self)
        ensures
            g.spec_type_system() == type_system,
            g.spec_strtab() == strtab,
    {
        Self { type_system, strtab }
    }

    /// The program with the entities of all classes, fields and methods,
    /// class by class: the entity of a class, then those of its fields,
    /// then those of its methods. The graphs of the methods are yet to be
    /// built.
    pub fn generate(self) -> (p: Program)
        requires
            names_owned(self.spec_type_system(), self.spec_strtab()),
        ensures
            p.classes@.len() == self.spec_type_system().defined_classes@.len(),
            forall|c: int|
                0 <= c < p.classes@.len() ==> class_built(
                    self.spec_strtab(),
                    &self.spec_type_system().defined_classes@[c],
                    #[trigger] &p.classes@[c],
                    p.entities@,
                ),
            forall|c: int|
                0 <= c < p.classes@.len() ==> class_placed(
                    &self.spec_type_system().defined_classes@[c],
                    #[trigger] &p.classes@[c],
                    entities_before(self.spec_type_system().defined_classes@, c as nat) as int,
                ),
            p.entities@.len() == entities_before(
                self.spec_type_system().defined_classes@,
                p.classes@.len(),
            ),
    {
        self.build_entities()
    }

    /// Builds the entities of the class `def`, puts them behind
    /// `entities`, and returns the class.
    fn build_class(&self, def: &ClassDef, entities: &mut Vec<Entity>) -> (class: Class)
        requires
            self.spec_strtab().owns(def.name),
            forall|f: int| 0 <= f < def.fields@.len() ==> self.spec_strtab().owns((#[trigger] def.fields@[f]).name),
            forall|m: int|
                0 <= m < def.methods@.len() ==> self.spec_strtab().owns((#[trigger] def.methods@[m]).name),
        ensures
            class_built(self.spec_strtab(), def, &class, final(entities)@),
            old(entities)@.len() <= final(entities)@.len(),
            final(entities)@.subrange(0, old(entities)@.len() as int) == old(entities)@,
            class_placed(def, &class, old(entities)@.len() as int),
            final(entities)@.len() == old(entities)@.len() + 1 + def.fields@.len()
                + def.methods@.len(),
    {
        let strtab = self.strtab;
        let class_bytes = strtab.get(def.name);
        let ghost e0 = entities@;
        let class_entity = entities.len();
        entities.push(Entity { ld_name: slice_to_vec(class_bytes), kind: EntityKind::Class });
        let mut class = Class {
            name: def.name,
            ld_name: slice_to_vec(class_bytes),
            entity: class_entity,
            fields: Vec::new(),
            methods: Vec::new(),
        };
        let infix_f: [u8; 3] = [46, 70, 46];
        let infix_m: [u8; 3] = [46, 77, 46];
        let main: [u8; 7] = [109, 106, 95, 109, 97, 105, 110];
        let mut end: i32 = 0;
        let mut f: usize = 0;
        assert(entities@.subrange(0, e0.len() as int) =~= e0);
        while f < def.fields.len()
            invariant
                f <= def.fields@.len(),
                strtab == self.spec_strtab(),
                strtab.owns(def.name),
                class_bytes@ == strtab.bytes(def.name),
                infix_f@ == field_infix(),
                forall|k: int| 0 <= k < def.fields@.len() ==> strtab.owns((#[trigger] def.fields@[k]).name),
                e0.len() < entities@.len(),
                entities@.subrange(0, e0.len() as int) == e0,
                class.name == def.name,
                class.ld_name@ == strtab.bytes(def.name),
                class.entity == e0.len(),
                entities@[class.entity as int].ld_name@ == class.ld_name@,
                entities@[class.entity as int].kind == EntityKind::Class,
                class.methods@.len() == 0,
                class.fields@.len() == f,
                entities@.len() == e0.len() + 1 + f,
                forall|k: int| 0 <= k < f ==> (#[trigger] class.fields@[k]).entity == e0.len() + 1 + k,
                0 <= end,
                end == spec_end_offset(def.fields@, f as int),
                forall|k: int|
                    0 <= k < f ==> field_built(strtab, def, k, #[trigger] &class.fields@[k], entities@),
            decreases def.fields@.len() - f,
        {
            let field = &def.fields[f];
            let ld_name = concat3(class_bytes, infix_f.as_slice(), strtab.get(field.name));
            let (at, next) = place_field(end, size_of(&field.ty));
            let ghost before = entities@;
            let ghost fields_before = class.fields@;
            let entity = entities.len();
            entities.push(
                Entity {
                    ld_name: slice_to_vec(ld_name.as_slice()),
                    kind: EntityKind::Field { offset: at },
                },
            );
            class.fields.push(Field { name: field.name, ld_name, entity });
            proof {
                assert(entities@.subrange(0, e0.len() as int) =~= e0) by {
                    assert forall|i: int| 0 <= i < e0.len() implies entities@[i] == e0[i] by {
                        assert(before.subrange(0, e0.len() as int)[i] == before[i]);
                    }
                }
                assert forall|k: int| 0 <= k < f + 1 implies field_built(
                    strtab,
                    def,
                    k,
                    #[trigger] &class.fields@[k],
                    entities@,
                ) by {
                    if k < f {
                        assert(class.fields@[k] == fields_before[k]);
                        assert(field_built(strtab, def, k, &fields_before[k], before));
                        assert(entities@[fields_before[k].entity as int]
                            == before[fields_before[k].entity as int]);
                    }
                }
            }
            end = next;
            f += 1;
        }
        let mut m: usize = 0;
        while m < def.methods.len()
            invariant
                m <= def.methods@.len(),
                strtab == self.spec_strtab(),
                strtab.owns(def.name),
                class_bytes@ == strtab.bytes(def.name),
                infix_m@ == method_infix(),
                main@ == main_name(),
                forall|k: int|
                    0 <= k < def.methods@.len() ==> strtab.owns((#[trigger] def.methods@[k]).name),
                e0.len() < entities@.len(),
                entities@.subrange(0, e0.len() as int) == e0,
                class.name == def.name,
                class.ld_name@ == strtab.bytes(def.name),
                class.entity == e0.len(),
                entities@[class.entity as int].ld_name@ == class.ld_name@,
                entities@[class.entity as int].kind == EntityKind::Class,
                class.fields@.len() == def.fields@.len(),
                entities@.len() == e0.len() + 1 + def.fields@.len() + m,
                forall|k: int|
                    0 <= k < class.fields@.len() ==> (#[trigger] class.fields@[k]).entity == e0.len()
                        + 1 + k,
                forall|k: int|
                    0 <= k < m ==> (#[trigger] class.methods@[k]).entity == e0.len() + 1
                        + def.fields@.len() + k,
                forall|k: int|
                    0 <= k < class.fields@.len() ==> field_built(
                        strtab,
                        def,
                        k,
                        #[trigger] &class.fields@[k],
                        entities@,
                    ),
                class.methods@.len() == m,
                forall|k: int|
                    0 <= k < m ==> method_built(strtab, def, k, #[trigger] &class.methods@[k], entities@),
            decreases def.methods@.len() - m,
        {
            let method = &def.methods[m];
            let ld_name = if method.is_main {
                slice_to_vec(main.as_slice())
            } else {
                concat3(class_bytes, infix_m.as_slice(), strtab.get(method.name))
            };
            let n_params = if method.is_main {
                method.params.len()
            } else if method.params.len() < usize::MAX {
                method.params.len() + 1
            } else {
                usize::MAX
            };
            let n_res: usize = if matches!(method.return_ty, CheckedType::Void) {
                0
            } else {
                1
            };
            let ghost before = entities@;
            let ghost methods_before = class.methods@;
            let ghost fields_before = class.fields@;
            let entity = entities.len();
            entities.push(
                Entity {
                    ld_name: slice_to_vec(ld_name.as_slice()),
                    kind: EntityKind::Method { n_params, n_res },
                },
            );
            class.methods.push(Method { name: method.name, ld_name, entity, graph: None });
            proof {
                assert(entities@.subrange(0, e0.len() as int) =~= e0) by {
                    assert forall|i: int| 0 <= i < e0.len() implies entities@[i] == e0[i] by {
                        assert(before.subrange(0, e0.len() as int)[i] == before[i]);
                    }
                }
                assert forall|k: int| 0 <= k < class.fields@.len() implies field_built(
                    strtab,
                    def,
                    k,
                    #[trigger] &class.fields@[k],
                    entities@,
                ) by {
                    assert(field_built(strtab, def, k, &fields_before[k], before));
                    assert(entities@[fields_before[k].entity as int]
                        == before[fields_before[k].entity as int]);
                }
                assert forall|k: int| 0 <= k < m + 1 implies method_built(
                    strtab,
                    def,
                    k,
                    #[trigger] &class.methods@[k],
                    entities@,
                ) by {
                    if k < m {
                        assert(class.methods@[k] == methods_before[k]);
                        assert(method_built(strtab, def, k, &methods_before[k], before));
                        assert(entities@[methods_before[k].entity as int]
                            == before[methods_before[k].entity as int]);
                    }
                }
            }
            m += 1;
        }
        class
    }

    /// The entities of all classes, fields and methods of the type
    /// system.
    fn build_entities(&self) -> (p: Program)
        requires
            names_owned(self.spec_type_system(), self.spec_strtab()),
        ensures
            p.classes@.len() == self.spec_type_system().defined_classes@.len(),
            forall|c: int|
                0 <= c < p.classes@.len() ==> class_built(
                    self.spec_strtab(),
                    &self.spec_type_system().defined_classes@[c],
                    #[trigger] &p.classes@[c],
                    p.entities@,
                ),
            forall|c: int|
                0 <= c < p.classes@.len() ==> class_placed(
                    &self.spec_type_system().defined_classes@[c],
                    #[trigger] &p.classes@[c],
                    entities_before(self.spec_type_system().defined_classes@, c as nat) as int,
                ),
            p.entities@.len() == entities_before(
                self.spec_type_system().defined_classes@,
                p.classes@.len(),
            ),
    {
        let ts = self.type_system;
        let mut classes: Vec<Class> = Vec::new();
        let mut entities: Vec<Entity> = Vec::new();
        let mut c: usize = 0;
        while c < ts.defined_classes.len()
            invariant
                c <= ts.defined_classes@.len(),
                ts == self.spec_type_system(),
                names_owned(ts, self.spec_strtab()),
                classes@.len() == c,
                entities@.len() == entities_before(ts.defined_classes@, c as nat),
                forall|k: int|
                    0 <= k < c ==> class_placed(
                        &ts.defined_classes@[k],
                        #[trigger] &classes@[k],
                        entities_before(ts.defined_classes@, k as nat) as int,
                    ),
                forall|k: int|
                    0 <= k < c ==> class_built(
                        self.spec_strtab(),
                        &ts.defined_classes@[k],
                        #[trigger] &classes@[k],
                        entities@,
                    ),
            decreases ts.defined_classes@.len() - c,
        {
            let ghost before = entities@;
            let ghost classes_before = classes@;
            let def = &ts.defined_classes[c];
            assert(ts.defined_classes@[c as int] == *def);
            let class = self.build_class(def, &mut entities);
            classes.push(class);
            proof {
                assert(entities_before(ts.defined_classes@, (c + 1) as nat) == entities_before(
                    ts.defined_classes@,
                    c as nat,
                ) + 1 + def.fields@.len() + def.methods@.len());
                assert forall|k: int| 0 <= k < c + 1 implies class_placed(
                    &ts.defined_classes@[k],
                    #[trigger] &classes@[k],
                    entities_before(ts.defined_classes@, k as nat) as int,
                ) by {
                    if k < c {
                        assert(classes@[k] == classes_before[k]);
                    }
                }
                assert forall|k: int| 0 <= k < c + 1 implies class_built(
                    self.spec_strtab(),
                    &ts.defined_classes@[k],
                    #[trigger] &classes@[k],
                    entities@,
                ) by {
                    if k < c {
                        assert(classes@[k] == classes_before[k]);
                        lemma_class_built_kept(
                            self.spec_strtab(),
                            &ts.defined_classes@[k],
                            &classes_before[k],
                            before,
                            entities@,
                        );
                    }
                }
            }
            c += 1;
        }
        Program { classes, entities }
    }
}

} // verus!
