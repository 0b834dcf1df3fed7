//! Expression trees.

use vstd::prelude::*;

verus! {

/// A prefix operator.
#[derive(Clone, Copy, Debug, PartialEq, Eq, Structural)]
pub enum UnaryOp {
    Neg,
    Not,
}

/// An infix operator.
#[derive(Clone, Copy, Debug, PartialEq, Eq, Structural)]
pub enum BinaryOp {
    Add,
    Sub,
    Mul,
    Div,
    Rem,
    Pow,
    Lt,
    Le,
    Gt,
    Ge,
    Eq,
    Ne,
    And,
    Or,
}

/// A function of the expression language.
#[derive(Clone, Copy, Debug, PartialEq, Eq, Structural)]
pub enum Func {
    Min,
    Max,
    Abs,
    Clamp,
    Floor,
    Ceil,
    Round,
    Sqrt,
}

/// The name of a function.
pub open spec fn func_name(f: Func) -> Seq<char> {
    match f {
        Func::Min => "min"@,
        Func::Max => "max"@,
        Func::Abs => "abs"@,
        Func::Clamp => "clamp"@,
        Func::Floor => "floor"@,
        Func::Ceil => "ceil"@,
        Func::Round => "round"@,
        Func::Sqrt => "sqrt"@,
    }
}

/// Whether a function takes `n` arguments.
pub open spec fn takes(f: Func, n: int) -> bool {
    match f {
        Func::Min | Func::Max => n >= 2,
        Func::Clamp => n == 3,
        _ => n == 1,
    }
}

/// How many arguments a function takes, in words.
pub open spec fn arity_text(f: Func) -> Seq<char> {
    match f {
        Func::Min | Func::Max => "2 or more"@,
        Func::Clamp => "exactly 3"@,
        _ => "exactly 1"@,
    }
}

/// The function of a name.
pub open spec fn func_named(name: Seq<char>) -> Option<Func> {
    if name == "min"@ {
        Some(Func::Min)
    } else if name == "max"@ {
        Some(Func::Max)
    } else if name == "abs"@ {
        Some(Func::Abs)
    } else if name == "clamp"@ {
        Some(Func::Clamp)
    } else if name == "floor"@ {
        Some(Func::Floor)
    } else if name == "ceil"@ {
        Some(Func::Ceil)
    } else if name == "round"@ {
        Some(Func::Round)
    } else if name == "sqrt"@ {
        Some(Func::Sqrt)
    } else {
        None
    }
}

/// A function's name leads back to it.
pub proof fn law_function_names_lead_back(f: Func)
    ensures
        func_named(func_name(f)) == Some(f),
{
    reveal_strlit("min");
    reveal_strlit("max");
    reveal_strlit("abs");
    reveal_strlit("clamp");
    reveal_strlit("floor");
    reveal_strlit("ceil");
    reveal_strlit("round");
    reveal_strlit("sqrt");
    let name = func_name(f);
    assert(name[0] == name[0] && name[1] == name[1]);
    assert("min"@[1] == 'i' && "max"@[1] == 'a');
    assert("abs"@[0] == 'a' && "clamp"@[1] == 'l' && "ceil"@[1] == 'e');
    assert("floor"@[0] == 'f' && "round"@[0] == 'r' && "sqrt"@[0] == 's');
    assert("clamp"@[0] == 'c' && "ceil"@[0] == 'c' && "min"@[0] == 'm' && "max"@[0] == 'm');
}

impl Func {
    /// The function of a name.
    pub fn from_name(name: &str) -> (f: Option<Func>)
        ensures
            f == func_named(name@),
    {
        let name = name.to_owned();
        if name == "min".to_owned() {
            Some(Func::Min)
        } else if name == "max".to_owned() {
            Some(Func::Max)
        } else if name == "abs".to_owned() {
            Some(Func::Abs)
        } else if name == "clamp".to_owned() {
            Some(Func::Clamp)
        } else if name == "floor".to_owned() {
            Some(Func::Floor)
        } else if name == "ceil".to_owned() {
            Some(Func::Ceil)
        } else if name == "round".to_owned() {
            Some(Func::Round)
        } else if name == "sqrt".to_owned() {
            Some(Func::Sqrt)
        } else {
            None
        }
    }

    /// The name of a function.
    pub fn name(self) -> (name: &'static str)
        ensures
            name@ == func_name(self),
    {
        match self {
            Func::Min => "min",
            Func::Max => "max",
            Func::Abs => "abs",
            Func::Clamp => "clamp",
            Func::Floor => "floor",
            Func::Ceil => "ceil",
            Func::Round => "round",
            Func::Sqrt => "sqrt",
        }
    }

    /// Accepts the number of arguments of a call, or gives the function's
    /// name and the number it takes, in words.
    pub fn check_arity(self, found: usize) -> (r: Result<(), (&'static str, &'static str)>)
        ensures
            match r {
                Ok(_) => takes(self, found as int),
                Err((name, expected)) => {
                    &&& !takes(self, found as int)
                    &&& name@ == func_name(self)
                    &&& expected@ == arity_text(self)
                },
            },
    {
        let ok = match self {
            Func::Min | Func::Max => found >= 2,
            Func::Clamp => found == 3,
            _ => found == 1,
        };
        if ok {
            Ok(())
        } else {
            let expected = match self {
                Func::Min | Func::Max => "2 or more",
                Func::Clamp => "exactly 3",
                _ => "exactly 1",
            };
            Err((self.name(), expected))
        }
    }
}

/// An expression over numbers `N` and stat references `R`.
#[derive(Debug, PartialEq)]
pub enum Tree<N, R> {
    Num(N),
    Stat(R),
    Unary(UnaryOp, Box<Tree<N, R>>),
    Binary(BinaryOp, Box<Tree<N, R>>, Box<Tree<N, R>>),
    Call(Func, Vec<Tree<N, R>>),
}

/// What a [`Tree`] says.
pub enum Formula<N, R> {
    Num(N),
    Stat(R),
    Unary(UnaryOp, Box<Formula<N, R>>),
    Binary(BinaryOp, Box<Formula<N, R>>, Box<Formula<N, R>>),
    Call(Func, Seq<Formula<N, R>>),
}

/// What a list of trees says.
pub open spec fn formulas<N: View, R: View>(trees: Seq<Tree<N, R>>) -> Seq<Formula<N::V, R::V>>
    decreases trees,
{
    if trees.len() == 0 {
        Seq::empty()
    } else {
        formulas(trees.drop_last()).push(trees.last().view())
    }
}

/// The formulas of a list of trees are the formulas of its members.
pub proof fn lemma_formulas<N: View, R: View>(trees: Seq<Tree<N, R>>)
    ensures
        formulas(trees).len() == trees.len(),
        forall|i: int| 0 <= i < trees.len() ==> #[trigger] formulas(trees)[i] == trees[i].view(),
    decreases trees.len(),
{
    if trees.len() > 0 {
        lemma_formulas(trees.drop_last());
    }
}

impl<N: View, R: View> Tree<N, R> {
    /// What the tree says.
    pub open spec fn view(&self) -> Formula<N::V, R::V>
        decreases self,
    {
        match self {
            Tree::Num(n) => Formula::Num(n@),
            Tree::Stat(r) => Formula::Stat(r@),
            Tree::Unary(op, e) => Formula::Unary(*op, Box::new(e.view())),
            Tree::Binary(op, a, b) => Formula::Binary(*op, Box::new(a.view()), Box::new(b.view())),
            Tree::Call(f, args) => Formula::Call(*f, formulas(args@)),
        }
    }
}

/// The stat references of a formula, from left to right.
pub open spec fn refs<N, R>(f: Formula<N, R>) -> Seq<R>
    decreases f,
{
    match f {
        Formula::Num(_) => Seq::empty(),
        Formula::Stat(r) => seq![r],
        Formula::Unary(_, e) => refs(*e),
        Formula::Binary(_, a, b) => refs(*a) + refs(*b),
        Formula::Call(_, args) => refs_of(args),
    }
}

/// The stat references of a list of formulas, from left to right.
pub open spec fn refs_of<N, R>(args: Seq<Formula<N, R>>) -> Seq<R>
    decreases args,
{
    if args.len() == 0 {
        Seq::empty()
    } else {
        refs_of(args.drop_last()) + refs(args.last())
    }
}

/// What a list of borrowed values says.
pub open spec fn borrowed<R: View>(list: Seq<&R>) -> Seq<R::V> {
    list.map_values(|r: &R| r@)
}

/// Appends every stat reference of a tree to `out`, from left to right.
pub fn collect_refs<'a, N: View, R: View>(tree: &'a Tree<N, R>, out: &mut Vec<&'a R>)
    ensures
        borrowed(final(out)@) == borrowed(old(out)@) + refs(tree@),
    decreases tree,
{
    match tree {
        Tree::Num(_) => {
            assert(borrowed(out@) =~= borrowed(old(out)@) + refs(tree@));
        },
        Tree::Stat(r) => {
            out.push(r);
            assert(borrowed(out@) =~= borrowed(old(out)@) + refs(tree@));
        },
        Tree::Unary(_, e) => collect_refs(e, out),
        Tree::Binary(_, a, b) => {
            collect_refs(a, out);
            collect_refs(b, out);
            assert(borrowed(out@) =~= borrowed(old(out)@) + refs(tree@));
        },
        Tree::Call(_, args) => {
            let mut i: usize = 0;
            assert(formulas(args@.take(0)) =~= Seq::empty());
            assert(borrowed(out@) =~= borrowed(old(out)@) + refs_of(formulas(args@.take(0))));
            while i < args.len()
                invariant
                    i <= args.len(),
                    borrowed(out@) == borrowed(old(out)@) + refs_of(formulas(args@.take(i as int))),
                    decreases_to!(tree => args),
                decreases args.len() - i,
            {
                proof {
                    let next = args@.take(i + 1);
                    assert(next.drop_last() =~= args@.take(i as int));
                    assert(formulas(next).drop_last() =~= formulas(args@.take(i as int)));
                    assert(decreases_to!(args => args@));
                    assert(decreases_to!(args@ => args@[i as int]));
                }
                collect_refs(&args[i], out);
                i = i + 1;
                assert(borrowed(out@) =~= borrowed(old(out)@) + refs_of(formulas(args@.take(i as int))));
            }
            assert(args@.take(i as int) =~= args@);
        },
    }
}

} // verus!
