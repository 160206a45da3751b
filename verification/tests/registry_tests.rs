use patchiest::registry::RecipeRegistry;

#[test]
fn registry_test_registry_new() {
    let registry = RecipeRegistry::new();
    let recipes = registry.list();
    assert!(recipes.len() >= 2);
}

#[test]
fn registry_test_registry_get() {
    let registry = RecipeRegistry::new();
    let recipe = registry.get("cjs-to-esm");
    assert!(recipe.is_some());
    assert_eq!(recipe.unwrap().name, "cjs-to-esm");
}

#[test]
fn registry_test_registry_get_nonexistent() {
    let registry = RecipeRegistry::new();
    assert!(registry.get("nonexistent").is_none());
}

#[test]
fn tests_test_registry_new() {
    let registry = RecipeRegistry::new();
    let recipes = registry.list();
    assert!(recipes.len() >= 2);
}

#[test]
fn tests_test_registry_get() {
    let registry = RecipeRegistry::new();
    let recipe = registry.get("cjs-to-esm");
    assert!(recipe.is_some());
    assert_eq!(recipe.unwrap().name, "cjs-to-esm");
}

#[test]
fn tests_test_registry_get_nonexistent() {
    let registry = RecipeRegistry::new();
    assert!(registry.get("nonexistent").is_none());
}

#[test]
fn registry_list_and_get_agree() {
    let registry = RecipeRegistry::new();
    let recipes = registry.list();
    assert_eq!(recipes.len(), 2);
    for r in &recipes {
        let found = registry.get(&r.name).unwrap();
        assert_eq!(found.name, r.name);
        assert_eq!(found.description, r.description);
    }
    assert_eq!(recipes[1].name, "react-class-to-hooks");
    assert!(registry.get("").is_none());
}
