//! The catalogue of named recipes.
use vstd::prelude::*;

verus! {

broadcast use vstd::string::group_string_axioms;

/// A named, described recipe.
#[derive(Debug, Clone)]
pub struct BoutiqueRecipe {
    pub name: String,
    pub description: String,
}

impl BoutiqueRecipe {
    /// The recipe's name and description.
    pub open spec fn view(&self) -> (Seq<char>, Seq<char>) {
        (self.name@, self.description@)
    }

    /// A copy with the same name and description.
    pub fn duplicate(&self) -> (r: BoutiqueRecipe)
        ensures
            r.view() == self.view(),
    {
        BoutiqueRecipe { name: self.name.clone(), description: self.description.clone() }
    }
}

/// The names and descriptions of a list of recipes.
pub open spec fn recipe_views(rs: Seq<BoutiqueRecipe>) -> Seq<(Seq<char>, Seq<char>)> {
    rs.map_values(|r: BoutiqueRecipe| r.view())
}

/// Recipes by name; no two share a name.
pub struct RecipeRegistry {
    recipes: Vec<BoutiqueRecipe>,
}

/// No two entries share a name.
pub open spec fn names_unique(rs: Seq<(Seq<char>, Seq<char>)>) -> bool {
    forall|i: int, j: int| 0 <= i < rs.len() && 0 <= j < rs.len() && i != j ==> rs[i].0 != rs[j].0
}

/// The name of the recipe that turns CommonJS `require` calls into imports.
pub open spec fn cjs_to_esm_name() -> Seq<char> {
    "cjs-to-esm"@
}

/// The name of the recipe that turns class components into hook components.
pub open spec fn class_to_hooks_name() -> Seq<char> {
    "react-class-to-hooks"@
}

/// The recipes a new registry holds, as (name, description).
pub open spec fn built_in_recipes() -> Seq<(Seq<char>, Seq<char>)> {
    seq![
        (
            cjs_to_esm_name(),
            "Structurally converts CommonJS require() statements to ES6 top-level imports."@,
        ),
        (
            class_to_hooks_name(),
            "Refactors class components into functional components utilizing useState/useEffect."@,
        ),
    ]
}

/// The recipe named `name` among `rs`, if any.
pub open spec fn recipe_named(rs: Seq<(Seq<char>, Seq<char>)>, name: Seq<char>) -> Option<
    (Seq<char>, Seq<char>),
> {
    if exists|i: int| 0 <= i < rs.len() && rs[i].0 == name {
        Some(rs[choose|i: int| 0 <= i < rs.len() && rs[i].0 == name])
    } else {
        None
    }
}

impl RecipeRegistry {
    /// The recipes, as (name, description), in the registry's order.
    pub closed spec fn view(&self) -> Seq<(Seq<char>, Seq<char>)> {
        recipe_views(self.recipes@)
    }

    /// Every registry holds recipes with distinct names.
    #[verifier::type_invariant]
    spec fn names_are_unique(self) -> bool {
        names_unique(recipe_views(self.recipes@))
    }

    /// A registry holding the two built-in recipes.
    pub fn new() -> (reg: Self)
        ensures
            names_unique(reg.view()),
            reg.view() == built_in_recipes(),
    {
        let mut recipes: Vec<BoutiqueRecipe> = Vec::new();
        recipes.push(
            BoutiqueRecipe {
                name: "cjs-to-esm".to_string(),
                description: "Structurally converts CommonJS require() statements to ES6 top-level imports.".to_string(),
            },
        );
        recipes.push(
            BoutiqueRecipe {
                name: "react-class-to-hooks".to_string(),
                description: "Refactors class components into functional components utilizing useState/useEffect.".to_string(),
            },
        );
        proof {
            reveal_strlit("cjs-to-esm");
            reveal_strlit("react-class-to-hooks");
            assert(recipe_views(recipes@) =~= built_in_recipes());
            assert(cjs_to_esm_name()[0] != class_to_hooks_name()[0]);
        }
        RecipeRegistry { recipes }
    }

    /// The recipe named `name`, if the registry holds one.
    pub fn get(&self, name: &str) -> (r: Option<&BoutiqueRecipe>)
        ensures
            names_unique(self.view()),
            match r {
                Some(rec) => recipe_named(self.view(), name@) == Some(rec.view()),
                None => recipe_named(self.view(), name@) is None,
            },
    {
        proof {
            use_type_invariant(self);
        }
        let key = name.to_string();
        let mut i: usize = 0;
        while i < self.recipes.len()
            invariant
                i <= self.recipes@.len(),
                key@ == name@,
                names_unique(self.view()),
                forall|j: int| 0 <= j < i ==> #[trigger] self.view()[j].0 != name@,
            decreases self.recipes@.len() - i,
        {
            if self.recipes[i].name == key {
                let r = &self.recipes[i];
                proof {
                    assert(self.view()[i as int].0 == name@);
                    let k = choose|k: int| 0 <= k < self.view().len() && self.view()[k].0 == name@;
                    if k != i {
                        assert(self.view()[k].0 == self.view()[i as int].0);
                    }
                }
                return Some(r);
            }
            i = i + 1;
        }
        None
    }

    /// All recipes, as copies, in the registry's order.
    pub fn list(&self) -> (out: Vec<BoutiqueRecipe>)
        ensures
            recipe_views(out@) == self.view(),
            names_unique(self.view()),
    {
        proof {
            use_type_invariant(self);
        }
        let mut out: Vec<BoutiqueRecipe> = Vec::new();
        let mut i: usize = 0;
        while i < self.recipes.len()
            invariant
                i <= self.recipes@.len(),
                out@.len() == i,
                recipe_views(out@) == self.view().take(i as int),
            decreases self.recipes@.len() - i,
        {
            let ghost before = out@;
            let d = self.recipes[i].duplicate();
            out.push(d);
            assert(out@ == before.push(d));
            assert(self.view()[i as int] == self.recipes@[i as int].view());
            assert forall|j: int| 0 <= j <= i implies #[trigger] recipe_views(out@)[j] == self.view()[j] by {
                assert(out@.len() == i + 1);
                assert(recipe_views(out@)[j] == out@[j].view());
                if j < i {
                    assert(out@[j] == before[j]);
                    assert(recipe_views(before)[j] == before[j].view());
                    assert(recipe_views(before)[j] == self.view().take(
                        i as int,
                    )[j]);
                } else {
                    assert(out@[j] == d);
                }
            }
            assert(recipe_views(out@) =~= self.view().take(i + 1));
            i = i + 1;
        }
        assert(self.view().take(i as int) =~= self.view());
        out
    }
}

/// Law: in a registry (whose names are unique, as `new`, `get` and `list`
/// ensure), every recipe that `list` reports is what `get` finds by its
/// name, and `get` finds nothing for a name that no listed recipe has.
pub proof fn law_list_and_get_agree(reg: &RecipeRegistry, name: Seq<char>)
    requires
        names_unique(reg.view()),
    ensures
        forall|i: int|
            0 <= i < reg.view().len() ==> recipe_named(reg.view(), #[trigger] reg.view()[i].0)
                == Some(reg.view()[i]),
        recipe_named(reg.view(), name) is None <==> forall|i: int|
            0 <= i < reg.view().len() ==> #[trigger] reg.view()[i].0 != name,
{
    let rs = reg.view();
    assert forall|i: int| 0 <= i < rs.len() implies recipe_named(rs, #[trigger] rs[i].0) == Some(
        rs[i],
    ) by {
        let k = choose|k: int| 0 <= k < rs.len() && rs[k].0 == rs[i].0;
        assert(rs[k].0 == rs[i].0);
        if k != i {
            assert(names_unique(rs));
        }
    }
}

} // verus!
