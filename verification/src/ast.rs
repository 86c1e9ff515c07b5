//! AST for category theory descriptions: statements declaring objects and
//! morphisms, and assertions that two composition paths commute.

use vstd::prelude::*;

verus! {

/// AST node representing a category theory statement.
#[derive(Debug, Clone)]
pub enum Statement {
    /// Object declaration: `object A`
    Object(String),
    /// Morphism declaration: `morphism f: A -> B`
    Morphism { name: String, from: String, to: String },
    /// Commutativity assertion: `assert commute: g ∘ f == h`
    AssertCommute { lhs: Vec<String>, rhs: Vec<String> },
}

/// Complete AST representing a category theory description.
#[derive(Debug, Clone)]
pub struct CategoryAST {
    pub statements: Vec<Statement>,
}

/// The names of the object declarations in `stmts`, in declaration order.
pub open spec fn object_names(stmts: Seq<Statement>) -> Seq<Seq<char>>
    decreases stmts.len(),
{
    if stmts.len() == 0 {
        Seq::empty()
    } else {
        object_names(stmts.drop_last()) + (match stmts.last() {
            Statement::Object(name) => seq![name@],
            _ => Seq::empty(),
        })
    }
}

/// The (name, from, to) triples of the morphism declarations in `stmts`,
/// in declaration order.
pub open spec fn morphism_triples(stmts: Seq<Statement>) -> Seq<(Seq<char>, Seq<char>, Seq<char>)>
    decreases stmts.len(),
{
    if stmts.len() == 0 {
        Seq::empty()
    } else {
        morphism_triples(stmts.drop_last()) + (match stmts.last() {
            Statement::Morphism { name, from, to } => seq![(name@, from@, to@)],
            _ => Seq::empty(),
        })
    }
}

/// The (lhs, rhs) path pairs of the commutativity assertions in `stmts`,
/// in declaration order; a path is a sequence of morphism names.
pub open spec fn commute_pairs(stmts: Seq<Statement>) -> Seq<(Seq<Seq<char>>, Seq<Seq<char>>)>
    decreases stmts.len(),
{
    if stmts.len() == 0 {
        Seq::empty()
    } else {
        commute_pairs(stmts.drop_last()) + (match stmts.last() {
            Statement::AssertCommute { lhs, rhs } => seq![
                (lhs@.map_values(|s: String| s@), rhs@.map_values(|s: String| s@)),
            ],
            _ => Seq::empty(),
        })
    }
}

impl CategoryAST {
    pub fn new() -> (r: Self)
        ensures
            r.statements@ == Seq::<Statement>::empty(),
    {
        Self { statements: Vec::new() }
    }

    /// Get all object names from the AST, in declaration order.
    pub fn get_objects(&self) -> (r: Vec<String>)
        ensures
            r@.len() == object_names(self.statements@).len(),
            forall|i: int|
                0 <= i < r@.len() ==> r@[i]@ == object_names(self.statements@)[i],
    {
        let mut r: Vec<String> = Vec::new();
        let mut k: usize = 0;
        while k < self.statements.len()
            invariant
                k <= self.statements@.len(),
                r@.len() == object_names(self.statements@.subrange(0, k as int)).len(),
                forall|i: int|
                    0 <= i < r@.len()
                        ==> r@[i]@ == object_names(self.statements@.subrange(0, k as int))[i],
            decreases self.statements@.len() - k,
        {
            let ghost pre = self.statements@.subrange(0, k as int);
            assert(self.statements@.subrange(0, k as int + 1).drop_last() =~= pre);
            match &self.statements[k] {
                Statement::Object(name) => {
                    r.push(name.clone());
                }
                _ => {}
            }
            k = k + 1;
        }
        assert(self.statements@.subrange(0, self.statements@.len() as int) =~= self.statements@);
        r
    }

    /// Get all morphism declarations as (name, from, to) triples, in
    /// declaration order.
    pub fn get_morphisms(&self) -> (r: Vec<(String, String, String)>)
        ensures
            r@.len() == morphism_triples(self.statements@).len(),
            forall|i: int|
                0 <= i < r@.len()
                    ==> (r@[i].0@, r@[i].1@, r@[i].2@) == morphism_triples(self.statements@)[i],
    {
        let mut r: Vec<(String, String, String)> = Vec::new();
        let mut k: usize = 0;
        while k < self.statements.len()
            invariant
                k <= self.statements@.len(),
                r@.len() == morphism_triples(self.statements@.subrange(0, k as int)).len(),
                forall|i: int|
                    0 <= i < r@.len()
                        ==> (r@[i].0@, r@[i].1@, r@[i].2@)
                            == morphism_triples(self.statements@.subrange(0, k as int))[i],
            decreases self.statements@.len() - k,
        {
            let ghost pre = self.statements@.subrange(0, k as int);
            assert(self.statements@.subrange(0, k as int + 1).drop_last() =~= pre);
            match &self.statements[k] {
                Statement::Morphism { name, from, to } => {
                    r.push((name.clone(), from.clone(), to.clone()));
                }
                _ => {}
            }
            k = k + 1;
        }
        assert(self.statements@.subrange(0, self.statements@.len() as int) =~= self.statements@);
        r
    }

    /// Get all commutativity assertions as (lhs, rhs) path pairs, in
    /// declaration order.
    pub fn get_commute_assertions(&self) -> (r: Vec<(Vec<String>, Vec<String>)>)
        ensures
            r@.len() == commute_pairs(self.statements@).len(),
            forall|i: int|
                0 <= i < r@.len()
                    ==> (
                        r@[i].0@.map_values(|s: String| s@),
                        r@[i].1@.map_values(|s: String| s@),
                    ) == commute_pairs(self.statements@)[i],
    {
        let mut r: Vec<(Vec<String>, Vec<String>)> = Vec::new();
        let mut k: usize = 0;
        while k < self.statements.len()
            invariant
                k <= self.statements@.len(),
                r@.len() == commute_pairs(self.statements@.subrange(0, k as int)).len(),
                forall|i: int|
                    0 <= i < r@.len()
                        ==> (
                            r@[i].0@.map_values(|s: String| s@),
                            r@[i].1@.map_values(|s: String| s@),
                        ) == commute_pairs(self.statements@.subrange(0, k as int))[i],
            decreases self.statements@.len() - k,
        {
            let ghost pre = self.statements@.subrange(0, k as int);
            assert(self.statements@.subrange(0, k as int + 1).drop_last() =~= pre);
            match &self.statements[k] {
                Statement::AssertCommute { lhs, rhs } => {
                    let l = clone_names(lhs);
                    let rr = clone_names(rhs);
                    r.push((l, rr));
                }
                _ => {}
            }
            k = k + 1;
        }
        assert(self.statements@.subrange(0, self.statements@.len() as int) =~= self.statements@);
        r
    }
}

/// Clone a list of names, element by element.
fn clone_names(v: &Vec<String>) -> (r: Vec<String>)
    ensures
        r@.map_values(|s: String| s@) == v@.map_values(|s: String| s@),
{
    let mut r: Vec<String> = Vec::new();
    let mut k: usize = 0;
    while k < v.len()
        invariant
            k <= v@.len(),
            r@.len() == k,
            forall|i: int| 0 <= i < k ==> r@[i]@ == v@[i]@,
        decreases v@.len() - k,
    {
        r.push(v[k].clone());
        k = k + 1;
    }
    assert(r@.map_values(|s: String| s@) =~= v@.map_values(|s: String| s@));
    r
}

} // verus!
