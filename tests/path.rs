use bevy_prototype_animation::field::{IndexErrorKind, ReflectPathError};
use bevy_prototype_animation::path::{AccessPath, EntityPath, ParsePathError, PropertyPath};
use bevy_reflect::TypeRegistry;
use std::any::TypeId;

struct Test;

fn names(path: &EntityPath) -> Vec<&str> {
    path.iter().iter().map(|s| s.as_str()).collect()
}

#[test]
fn path_test_parse_entity_path() {
    let path = EntityPath::parse("a/b/c/d/e/f//g");
    assert_eq!(names(&path), vec!["a", "b", "c", "d", "e", "f", "", "g"]);
}

#[test]
fn path_test_parse_entity_path_ignore_leading_backslash() {
    let path = EntityPath::parse("///a/b/c/dead/e/f//g");
    assert_eq!(names(&path), vec!["a", "b", "c", "dead", "e", "f", "", "g"]);
}

#[test]
fn mod_test_parse_entity_path() {
    let path = EntityPath::parse("a/b/c/d/e/f//g");
    assert_eq!(names(&path), vec!["a", "b", "c", "d", "e", "f", "", "g"]);
}

#[test]
fn mod_test_parse_entity_path_ignore_leading_backslash() {
    let path = EntityPath::parse("///a/b/c/dead/e/f//g");
    assert_eq!(names(&path), vec!["a", "b", "c", "dead", "e", "f", "", "g"]);
}

#[test]
fn test_parse_access_path() {
    let path_str = "bevy_prototype_animation::path::test::Test.b.c.d.e.f.g";
    let path = AccessPath::parse_with(path_str, Some(TypeId::of::<Test>())).unwrap();
    assert_eq!(
        path.to_path_string().as_str(),
        "bevy_prototype_animation::path::test::Test.b.c.d.e.f.g",
    );
    assert_eq!(path.component_type_id(), TypeId::of::<Test>());
    assert_eq!(path.component_name(), "bevy_prototype_animation::path::test::Test");
    assert_eq!(path.field_path().to_path_string(), "b.c.d.e.f.g");
}

#[test]
fn test_parse_access_path_fails_on_empty_field() {
    let path_str = "bevy_prototype_animation::path::test::Test.b.c.d.e.f..g";
    let path = AccessPath::parse_with(path_str, Some(TypeId::of::<Test>()));
    assert_eq!(
        path,
        Err(ParsePathError::InvalidFieldPath(ReflectPathError::ExpectedIdent { index: 10 }))
    );
}

#[test]
fn test_parse_access_path_invalid_typek() {
    let registry = TypeRegistry::default();
    let path_str = "bevy_prototype_animation::path::test::Test.b.c.d.e.f a.g";
    let path = AccessPath::parse(&registry, path_str);
    assert_eq!(path, Err(ParsePathError::InvalidComponentType));
}

#[test]
fn test_parse_field_path_invalid_typek() {
    let registry = TypeRegistry::default();
    let path_str = "bevy_prototype_animation::path::test::Test.b.c.d.e.f a.g";
    let path = AccessPath::parse(&registry, path_str);
    assert_eq!(path, Err(ParsePathError::InvalidComponentType));
}

#[test]
fn mod_test_parse_property_path() {
    let path_str = "a/b/c/d/e/f//g@bevy_prototype_animation::path::test::Test.b.c.d.e.f.g";
    let path = PropertyPath::parse_with(path_str, Some(TypeId::of::<Test>())).unwrap();
    assert_eq!(names(path.entity()), vec!["a", "b", "c", "d", "e", "f", "", "g"]);
    assert_eq!(
        path.access().to_path_string().as_str(),
        "bevy_prototype_animation::path::test::Test.b.c.d.e.f.g",
    );
}

#[test]
fn mod_test_parse_property_path_works_with_empty_entity() {
    let path_str = "@bevy_prototype_animation::path::test::Test.b.c.d.e.f.g";
    let path = PropertyPath::parse_with(path_str, Some(TypeId::of::<Test>())).unwrap();
    assert!(path.entity().is_empty());
    assert_eq!(
        path.access().to_path_string().as_str(),
        "bevy_prototype_animation::path::test::Test.b.c.d.e.f.g",
    );
}

#[test]
fn mod_test_parse_property_path_fails_on_empty_field() {
    let path_str = "a/b/c/d/e/f//g@bevy_prototype_animation::path::test::Test.b.c.d.e.f..g";
    let path = PropertyPath::parse_with(path_str, Some(TypeId::of::<Test>()));
    assert_eq!(
        path,
        Err(ParsePathError::InvalidFieldPath(ReflectPathError::ExpectedIdent { index: 10 }))
    );
}

#[test]
fn access_path_parse_looks_up_registered_component() {
    let registry = TypeRegistry::default();
    let path = AccessPath::parse(&registry, "u32.x[3]").unwrap();
    assert_eq!(path.component_type_id(), TypeId::of::<u32>());
    assert_eq!(path.component_name(), "u32");
    assert_eq!(path.to_path_string(), "u32.x.[3]");
}

#[test]
fn property_path_parse_looks_up_registered_component() {
    let registry = TypeRegistry::default();
    let path = PropertyPath::parse(&registry, "root/hips@bool.0").unwrap();
    assert_eq!(names(path.entity()), vec!["root", "hips"]);
    assert_eq!(path.access().component_type_id(), TypeId::of::<bool>());
    let path = PropertyPath::parse(&registry, "root/hips@NotAType.0");
    assert_eq!(path, Err(ParsePathError::InvalidComponentType));
}

#[test]
fn access_path_without_dot_has_no_component_name() {
    let path = AccessPath::parse_with("Transform", Some(TypeId::of::<Test>()));
    assert_eq!(path, Err(ParsePathError::NoComponentName));
    let registry = TypeRegistry::default();
    assert_eq!(AccessPath::parse(&registry, "u32"), Err(ParsePathError::NoComponentName));
}

#[test]
fn access_path_unknown_component_is_refused() {
    let path = AccessPath::parse_with("Transform.x", None);
    assert_eq!(path, Err(ParsePathError::InvalidComponentType));
}

#[test]
fn property_path_without_at_is_refused() {
    let path = PropertyPath::parse_with("a/b/Transform.x", Some(TypeId::of::<Test>()));
    assert_eq!(path, Err(ParsePathError::MissingDelimiter));
}

#[test]
fn property_path_splits_at_first_at() {
    let path = PropertyPath::parse_with("a@T.b@c", Some(TypeId::of::<Test>())).unwrap();
    assert_eq!(names(path.entity()), vec!["a"]);
    assert_eq!(path.access().component_name(), "T");
    assert_eq!(path.access().to_path_string(), "T.b@c");
    let (entity, access) = path.clone().into_parts();
    let rebuilt = PropertyPath::from_parts(entity, access);
    assert_eq!(rebuilt, path);
}

#[test]
fn entity_path_edge_cases() {
    assert!(EntityPath::parse("").is_empty());
    assert!(EntityPath::parse("///").is_empty());
    assert_eq!(names(&EntityPath::parse("a/")), vec!["a", ""]);
    assert_eq!(names(&EntityPath::parse("/a//")), vec!["a", "", ""]);
    assert_eq!(EntityPath::parse("root//hips").len(), 3);
}

#[test]
fn entity_path_push_and_pop() {
    let mut path = EntityPath::from_parts(vec!["root".to_string()]);
    path.push("hips".to_string());
    assert_eq!(names(&path), vec!["root", "hips"]);
    assert_eq!(path.pop(), Some("hips".to_string()));
    assert_eq!(path.pop(), Some("root".to_string()));
    assert_eq!(path.pop(), None);
    assert!(path.is_empty());
}

#[test]
fn list_index_error_is_reported() {
    let path = AccessPath::parse_with("T.a[x]", Some(TypeId::of::<Test>()));
    assert_eq!(
        path,
        Err(ParsePathError::InvalidFieldPath(ReflectPathError::IndexParseError(
            IndexErrorKind::InvalidDigit
        )))
    );
}

/// The component name, then each field name of an access path.
fn access_parts(path: &AccessPath) -> Vec<String> {
    let mut parts = vec![path.component_name().to_string()];
    for (access, _) in path.field_path().iter() {
        if let bevy_prototype_animation::field::Access::Field(name) = access {
            parts.push(name.clone());
        }
    }
    parts
}

#[test]
fn test_parse_field_path() {
    let path_str = "bevy_prototype_animation::path::test::Test.b.c.d.e.f.g";
    let path = AccessPath::parse_with(path_str, Some(TypeId::of::<Test>())).unwrap();
    assert_eq!(
        access_parts(&path),
        vec!["bevy_prototype_animation::path::test::Test", "b", "c", "d", "e", "f", "g"]
    );
}

#[test]
fn path_test_parse_property_path() {
    let path_str = "a/b/c/d/e/f//g@bevy_prototype_animation::path::test::Test.b.c.d.e.f.g";
    let path = PropertyPath::parse_with(path_str, Some(TypeId::of::<Test>())).unwrap();
    assert_eq!(names(path.entity()), vec!["a", "b", "c", "d", "e", "f", "", "g"]);
    assert_eq!(
        access_parts(path.access()),
        vec!["bevy_prototype_animation::path::test::Test", "b", "c", "d", "e", "f", "g"]
    );
}

#[test]
fn path_test_parse_property_path_works_with_empty_entity() {
    let path_str = "@bevy_prototype_animation::path::test::Test.b.c.d.e.f.g";
    let path = PropertyPath::parse_with(path_str, Some(TypeId::of::<Test>())).unwrap();
    assert!(path.entity().iter().is_empty());
    assert_eq!(
        access_parts(path.access()),
        vec!["bevy_prototype_animation::path::test::Test", "b", "c", "d", "e", "f", "g"]
    );
}

#[test]
fn entity_path_writes_names_with_slashes() {
    assert_eq!(EntityPath::parse("///root//hips").to_path_string(), "root//hips");
    assert_eq!(EntityPath::parse("").to_path_string(), "");
    assert_eq!(EntityPath::parse("a").to_path_string(), "a");
}
