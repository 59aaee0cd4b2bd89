use std::collections::HashSet;

use structfs::path::{Path, PathComponent, PathError};

fn p(s: &str) -> Path {
    Path::parse(s).unwrap()
}

#[test]
fn parse_basic_paths() {
    assert_eq!(Path::parse("").unwrap().len(), 0);
    assert_eq!(Path::parse("foo").unwrap().len(), 1);
    assert_eq!(Path::parse("foo/bar").unwrap().len(), 2);
    assert_eq!(Path::parse("foo/bar/baz").unwrap().len(), 3);
}

#[test]
fn normalize_slashes() {
    assert_eq!(Path::parse("foo/bar/").unwrap(), Path::parse("foo/bar").unwrap());
    assert_eq!(Path::parse("foo//bar").unwrap(), Path::parse("foo/bar").unwrap());
    assert_eq!(Path::parse("/foo/bar").unwrap(), Path::parse("foo/bar").unwrap());
}

#[test]
fn numeric_components_allowed() {
    let path = Path::parse("items/0/name").unwrap();
    assert_eq!(path.len(), 3);
    assert_eq!(path.component(1), "0");
}

#[test]
fn unicode_identifiers_allowed() {
    let path = Path::parse("usuarios/名前").unwrap();
    assert_eq!(path.len(), 2);
}

#[test]
fn invalid_components_rejected() {
    assert!(Path::parse("foo/bar baz").is_err());
    assert!(Path::parse("foo/bar-baz").is_err());
    assert!(Path::parse("foo/.hidden").is_err());
    assert!(Path::parse("foo/123abc").is_err());
}

#[test]
fn has_prefix_works() {
    let path = p("foo/bar/baz");
    assert!(path.has_prefix(&p("")));
    assert!(path.has_prefix(&p("foo")));
    assert!(path.has_prefix(&p("foo/bar")));
    assert!(path.has_prefix(&p("foo/bar/baz")));
    assert!(!path.has_prefix(&p("bar")));
    assert!(!path.has_prefix(&p("foo/bar/baz/qux")));
}

#[test]
fn strip_prefix_works() {
    let path = p("foo/bar/baz");
    assert_eq!(path.strip_prefix(&p("foo")), Some(p("bar/baz")));
    assert_eq!(path.strip_prefix(&p("foo/bar")), Some(p("baz")));
    assert_eq!(path.strip_prefix(&p("other")), None);
}

#[test]
fn ll_conversion_roundtrips() {
    let path = p("users/123/name");
    let ll = path.to_ll_path();
    let p2 = Path::try_from_ll_path(&ll).unwrap();
    assert_eq!(path, p2);
}

#[test]
fn path_error_display_invalid_component() {
    let err = PathError::InvalidComponent {
        component: "bad-name".to_string(),
        position: 2,
        message: "test message".to_string(),
    };
    let display = err.to_string();
    assert!(display.contains("bad-name"));
    assert!(display.contains("position 2"));
    assert!(display.contains("test message"));
}

#[test]
fn path_error_display_invalid_path() {
    let err = PathError::InvalidPath { message: "some reason".to_string() };
    let display = err.to_string();
    assert!(display.contains("invalid path"));
    assert!(display.contains("some reason"));
}

#[test]
fn from_components_valid() {
    let path = Path::from_components(vec!["foo".to_string(), "bar".to_string()]);
    assert_eq!(path.len(), 2);
}

#[test]
fn try_from_components_valid() {
    let path = Path::try_from_components(vec!["foo".to_string(), "bar".to_string()]).unwrap();
    assert_eq!(path.len(), 2);
}

#[test]
fn try_from_components_invalid() {
    let result = Path::try_from_components(vec!["foo".to_string(), "bad-name".to_string()]);
    assert!(result.is_err());
}

#[test]
fn validate_empty_component_rejected() {
    let result = Path::try_from_components(vec!["".to_string()]);
    assert!(result.is_err());
    let err = result.unwrap_err();
    assert!(err.to_string().contains("empty component"));
}

#[test]
fn validate_underscore_alone_rejected() {
    let result = Path::parse("_");
    assert!(result.is_err());
}

#[test]
fn validate_underscore_with_continuation_allowed() {
    let path = Path::parse("_foo").unwrap();
    assert_eq!(path.len(), 1);
}

#[test]
fn validate_invalid_character_in_middle() {
    let result = Path::parse("foo$bar");
    assert!(result.is_err());
    let err = result.unwrap_err();
    assert!(err.to_string().contains("invalid character"));
}

#[test]
fn index_trait() {
    let path = p("foo/bar/baz");
    assert_eq!(path.component(0), "foo");
    assert_eq!(path.component(1), "bar");
    assert_eq!(path.component(2), "baz");
}

#[test]
fn slice_method() {
    let path = p("a/b/c/d");
    let sliced = path.slice(1, 3);
    assert_eq!(sliced.len(), 2);
    assert_eq!(sliced.to_string(), "b/c");
}

#[test]
fn join_method() {
    let p1 = p("foo/bar");
    let p2 = p("baz/qux");
    let joined = p1.join(&p2);
    assert_eq!(joined.to_string(), "foo/bar/baz/qux");
}

#[test]
fn join_with_empty() {
    let p1 = p("foo");
    let p2 = p("");
    assert_eq!(p1.join(&p2), p1);

    let p3 = p("");
    let p4 = p("bar");
    assert_eq!(p3.join(&p4), p4);
}

#[test]
fn iter_method() {
    let path = p("a/b/c");
    let components: Vec<String> = path.iter();
    assert_eq!(components.len(), 3);
    assert_eq!(components[0], "a");
    assert_eq!(components[1], "b");
    assert_eq!(components[2], "c");
}

#[test]
fn path_is_empty() {
    assert!(p("").is_empty());
    assert!(!p("foo").is_empty());
}

#[test]
fn display_impl() {
    let path = p("foo/bar/baz");
    assert_eq!(path.to_string(), "foo/bar/baz");
}

#[test]
fn display_empty() {
    let path = p("");
    assert_eq!(path.to_string(), "");
}

#[test]
fn ll_conversion_invalid_utf8() {
    let invalid_utf8: Vec<Vec<u8>> = vec![vec![0xff, 0xfe]];
    let result = Path::try_from_ll_path(&invalid_utf8);
    assert!(result.is_err());
    let err = result.unwrap_err();
    assert!(err.to_string().contains("not valid UTF-8"));
}

#[test]
fn path_ord() {
    let p1 = p("a/b");
    let p2 = p("a/c");
    let p3 = p("b/a");
    assert!(p1 < p2);
    assert!(p2 < p3);
}

#[test]
fn path_hash() {
    let mut set = HashSet::new();
    set.insert(p("foo"));
    set.insert(p("bar"));
    set.insert(p("foo"));
    assert_eq!(set.len(), 2);
}

#[test]
fn macro_component_style() {
    let path = p("users").child(PathComponent::from(123usize)).child(PathComponent::try_new("name").unwrap());
    assert_eq!(path.to_string(), "users/123/name");
    assert_eq!(path, p("users/123/name"));
}

#[test]
fn macro_empty() {
    let path = Path::root();
    assert!(path.is_empty());
}

#[test]
fn macro_with_runtime_component() {
    let name = PathComponent::try_new("alice").unwrap();
    let path = p("users").child(name).child(PathComponent::try_new("profile").unwrap());
    assert_eq!(path.to_string(), "users/alice/profile");
}

#[test]
fn macro_mixed_literal_forms() {
    let path = p("a/b").join(&p("c"));
    assert_eq!(path.to_string(), "a/b/c");
}

#[test]
fn path_component_validates() {
    assert!(PathComponent::try_new("accounts").is_ok());
    assert!(PathComponent::try_new("42").is_ok());
    assert!(PathComponent::try_new("café").is_ok());
    assert!(PathComponent::try_new("_private").is_ok());
    assert!(PathComponent::try_new("").is_err());
    assert!(PathComponent::try_new("my-account").is_err());
    assert!(PathComponent::try_new("my account").is_err());
    assert!(PathComponent::try_new(".hidden").is_err());
    assert!(PathComponent::try_new("_").is_err());
    assert!(PathComponent::try_new("a/b").is_err());
}

#[test]
fn path_component_encode_roundtrip() {
    for original in ["plain", "my-account", "hello world", "slashes/and spaces", "oxide-🦀", "123-456"] {
        let component = PathComponent::encode(original);
        assert!(PathComponent::try_new(component.as_str()).is_ok());
        assert_eq!(component.decode().unwrap(), original);
    }
}

#[test]
fn path_component_encode_passthrough() {
    let component = PathComponent::encode("plain");
    assert_eq!(component.as_str(), "plain");
    assert_eq!(component.decode().unwrap(), "plain");
}

#[test]
fn path_component_from_index() {
    let c: PathComponent = 7usize.into();
    assert_eq!(c.as_str(), "7");
    let c: PathComponent = 7u64.into();
    assert_eq!(c.as_str(), "7");
}

#[test]
fn child_and_push() {
    let base = p("users");
    let path = base.child(PathComponent::try_new("alice").unwrap());
    assert_eq!(path.to_string(), "users/alice");

    let mut p2 = p("items");
    p2.push(PathComponent::from(3usize));
    assert_eq!(p2.to_string(), "items/3");
}

#[test]
fn validate_component_public() {
    assert!(Path::validate_component("foo", 0).is_ok());
    let err = Path::validate_component("bad-name", 2).unwrap_err();
    assert!(err.to_string().contains("position 2"));
}

#[test]
fn path_clone() {
    let p1 = p("foo/bar");
    let p2 = p1.clone();
    assert_eq!(p1, p2);
}

#[test]
fn path_debug() {
    let path = p("foo/bar");
    let debug = format!("{:?}", path);
    assert!(debug.contains("foo"));
    assert!(debug.contains("bar"));
}

#[test]
fn as_ll_and_into_ll_widen_losslessly() {
    let path = p("users/123/name");
    let ll = path.as_ll();
    assert_eq!(ll.len(), 3);
    assert_eq!(ll[0].as_slice(), b"users");
    assert_eq!(ll[2].as_slice(), b"name");
    assert_eq!(path.clone().into_ll(), ll.clone());
}

#[test]
fn validate_narrows_and_rejects() {
    let ll: Vec<Vec<u8>> = vec![b"a".to_vec(), b"b".to_vec()];
    assert_eq!(Path::validate(ll).unwrap(), p("a/b"));

    let bad: Vec<Vec<u8>> = vec![b"a-b".to_vec()];
    assert!(Path::validate(bad).is_err());

    let non_utf8: Vec<Vec<u8>> = vec![vec![0xff, 0xfe]];
    assert!(Path::validate(non_utf8).is_err());
}

#[test]
fn widen_then_narrow_roundtrips() {
    let path = p("users/名前/0");
    assert_eq!(Path::validate(path.clone().into_ll()).unwrap(), path);
    assert_eq!(Path::from_ll_unchecked(path.clone().into_ll()), path);
}

#[test]
fn string_form_parses_back() {
    for s in ["", "a", "users/123/name", "usuarios/名前/_x"] {
        let path = p(s);
        assert_eq!(Path::parse(&path.to_string()).unwrap(), path);
    }
}

#[test]
fn join_then_strip_gives_back() {
    let a = p("x/y");
    let b = p("z/0");
    assert_eq!(a.join(&b).strip_prefix(&a), Some(b));
}

#[test]
fn invalid_component_reports_position() {
    let err = Path::parse("ok/also_ok/bad-one/fine").unwrap_err();
    match err {
        PathError::InvalidComponent { component, position, message } => {
            assert_eq!(component, "bad-one");
            assert_eq!(position, 2);
            assert_eq!(message, "invalid character '-' at index 3");
        },
        _ => panic!("expected an invalid component"),
    }
}

#[test]
fn path_component_encode_is_idempotent_on_encodings() {
    let once = PathComponent::encode("hello world");
    assert_eq!(once.as_str(), "_N_helloworld__fa0b");
    let twice = PathComponent::encode(once.as_str());
    assert_eq!(twice.as_str(), once.as_str());
}

#[test]
fn path_component_encode_refuses_non_canonical_prefix() {
    assert!(PathComponent::try_encode("_N_ ").is_err());
    assert_eq!(PathComponent::try_encode("my-account").unwrap(), PathComponent::encode("my-account"));
}

#[test]
fn path_component_encode_refuses_empty_and_lone_underscore() {
    assert!(PathComponent::try_encode("").is_err());
    assert!(PathComponent::try_encode("_").is_err());
}
