//! Declarations, and the context that holds them.

use vstd::prelude::*;

use crate::ast::{Ident, TyKind};

verus! {

/// The numeric range of a variable, both ends included.
#[derive(Clone, Copy, PartialEq, Eq, Structural, Debug)]
pub struct Range {
    pub lower: i64,
    pub upper: i64,
}

/// The roles of a variable.
#[derive(Clone, Copy, PartialEq, Eq, Structural, Debug)]
pub enum VarKind {
    Input,
    Output,
    Mut,
}

/// A parameter of a function.
#[derive(Debug)]
pub struct Param {
    pub name: Ident,
    pub ty: TyKind,
    pub range: Option<Range>,
}

/// The declaration of a variable.
#[derive(Debug)]
pub struct VarDecl {
    pub name: Ident,
    pub ty: TyKind,
    pub kind: VarKind,
    pub range: Option<Range>,
}

/// The declaration of a function.
#[derive(Debug)]
pub struct FuncDecl {
    pub name: Ident,
    pub output: TyKind,
}

/// A declaration.
#[derive(Debug)]
pub enum DeclKind {
    VarDecl(VarDecl),
    FuncDecl(FuncDecl),
}

/// The model of a declaration, without its name.
pub enum DeclModel {
    Var { ty: TyKind, kind: VarKind, range: Option<Range> },
    Func { output: TyKind },
}

impl VarDecl {
    /// The declaration of the parameter `param` as a variable.
    pub fn from_param(param: &Param, kind: VarKind) -> (r: VarDecl)
        ensures
            r.name@ == param.name@,
            r.ty == param.ty,
            r.kind == kind,
            r.range == param.range,
    {
        VarDecl { name: param.name.copy(), ty: param.ty, kind, range: param.range }
    }

    /// The model of this declaration.
    pub open spec fn model(self) -> DeclModel {
        DeclModel::Var { ty: self.ty, kind: self.kind, range: self.range }
    }
}

impl DeclKind {
    /// The name declared.
    pub open spec fn name(self) -> Seq<char> {
        match self {
            DeclKind::VarDecl(d) => d.name@,
            DeclKind::FuncDecl(d) => d.name@,
        }
    }

    /// The model of this declaration.
    pub open spec fn model(self) -> DeclModel {
        match self {
            DeclKind::VarDecl(d) => d.model(),
            DeclKind::FuncDecl(d) => DeclModel::Func { output: d.output },
        }
    }
}

/// What a name means after the declarations `decls`, the last one of a name
/// counting.
pub open spec fn scope(decls: Seq<DeclKind>) -> Map<Seq<char>, DeclModel>
    decreases decls.len(),
{
    if decls.len() == 0 {
        Map::empty()
    } else {
        scope(decls.drop_last()).insert(decls.last().name(), decls.last().model())
    }
}

/// The declarations in force.
#[derive(Debug)]
pub struct TyCtx {
    decls: Vec<DeclKind>,
}

impl View for TyCtx {
    type V = Map<Seq<char>, DeclModel>;

    closed spec fn view(&self) -> Map<Seq<char>, DeclModel> {
        scope(self.decls@)
    }
}

impl TyCtx {
    /// A context without declarations.
    pub fn new() -> (r: TyCtx)
        ensures
            r@ == Map::<Seq<char>, DeclModel>::empty(),
    {
        TyCtx { decls: Vec::new() }
    }

    /// Declares `decl`.
    pub fn declare(&mut self, decl: DeclKind)
        ensures
            final(self)@ == old(self)@.insert(decl.name(), decl.model()),
    {
        let ghost before = self.decls@;
        self.decls.push(decl);
        assert(self.decls@.drop_last() =~= before);
    }

    /// The declaration of `name`.
    pub fn get(&self, name: &Ident) -> (r: Option<&DeclKind>)
        ensures
            r is Some <==> self@.dom().contains(name@),
            r matches Some(d) ==> d.name() == name@ && d.model() == self@[name@],
    {
        let mut i: usize = self.decls.len();
        assert(self.decls@.take(i as int) =~= self.decls@);
        while i > 0
            invariant
                i <= self.decls@.len(),
                self@.dom().contains(name@) == scope(self.decls@.take(i as int)).dom().contains(
                    name@,
                ),
                self@.dom().contains(name@) ==> self@[name@] == scope(
                    self.decls@.take(i as int),
                )[name@],
            decreases i,
        {
            assert(self.decls@.take(i as int).drop_last() =~= self.decls@.take(i - 1));
            i = i - 1;
            let declared = match &self.decls[i] {
                DeclKind::VarDecl(d) => d.name.same(name),
                DeclKind::FuncDecl(d) => d.name.same(name),
            };
            if declared {
                return Some(&self.decls[i]);
            }
        }
        None
    }

    /// The type of the variable `name`.
    pub fn var_type(&self, name: &Ident) -> (r: Option<TyKind>)
        ensures
            r == (if self@.dom().contains(name@) && self@[name@] is Var {
                Some(self@[name@]->ty)
            } else {
                None
            }),
    {
        match self.get(name) {
            Some(DeclKind::VarDecl(d)) => Some(d.ty),
            _ => None,
        }
    }
}

} // verus!
