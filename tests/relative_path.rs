use flatten::path::{Component, FsPath};
use flatten::relative::{RelativeError, RelativePath};

fn path(s: &str) -> FsPath {
    let mut parts = Vec::new();
    for c in std::path::Path::new(s).components() {
        parts.push(match c {
            std::path::Component::RootDir => Component::RootDir,
            std::path::Component::CurDir => Component::CurDir,
            std::path::Component::ParentDir => Component::ParentDir,
            std::path::Component::Normal(n) => Component::Normal(n.to_str().unwrap().to_string()),
            std::path::Component::Prefix(p) => {
                Component::Normal(p.as_os_str().to_str().unwrap().to_string())
            }
        });
    }
    FsPath::new(parts)
}

fn same(a: &FsPath, b: &FsPath) -> bool {
    a.same(b)
}

#[test]
fn relative_path_to_deeper() {
    let from = path("/hello/world/say/goodbye");
    let to = path("/hello/world/tell/the/world");

    let result = from.relative(&to).unwrap();

    assert!(same(&result, &path("../../tell/the/world")));
}

#[test]
fn relative_path_to_shallower() {
    let from = path("/hello/world/say/goodbye");
    let to = path("/hello/world/tell");

    let result = from.relative(&to).unwrap();

    assert!(same(&result, &path("../../tell")));
}

#[test]
fn relative_path_not_deep() {
    let from = path("/hello/world/say/goodbye");
    let to = path("/hello/world/");

    let result = from.relative(&to).unwrap();

    assert!(same(&result, &path("../..")));
}

#[test]
fn relative_path_down() {
    let from = path("/hello/");
    let to = path("/hello/world/bro/sup");

    let result = from.relative(&to).unwrap();

    assert!(same(&result, &path("./world/bro/sup")));
}

#[test]
fn relative_path_same() {
    let from = path("/hello/world/bro/sup");
    let to = path("/hello/world/bro/sup");

    let result = from.relative(&to).unwrap();

    assert!(same(&result, &path(".")));
}

#[test]
fn relative_path_needs_absolute_paths() {
    let from = path("hello/world");
    let to = path("/hello");
    assert!(matches!(from.relative(&to), Err(RelativeError::NotAbsolute)));
    assert!(matches!(to.relative(&from), Err(RelativeError::NotAbsolute)));
}

#[test]
fn relative_path_from_root() {
    let from = path("/");
    let to = path("/a/b");
    let result = from.relative(&to).unwrap();
    assert!(same(&result, &path("./a/b")));
}

#[test]
fn relative_path_stops_matching_at_first_difference() {
    let from = path("/a/b/c");
    let to = path("/a/c/x");
    let result = from.relative(&to).unwrap();
    assert!(same(&result, &path("../../c/x")));
}
