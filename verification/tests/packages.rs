use spwn::packages::{DependencyError, DependencySource};

fn name(n: &str) -> DependencySource {
    DependencySource::Name(n.to_string())
}

#[test]
fn an_address_is_itself() {
    let d = DependencySource::Url("https://example.org/lib".to_string());
    assert!(!d.is_looked_up());
    assert_eq!(d.to_string("app".to_string(), None).unwrap(), "https://example.org/lib");
    assert_eq!(
        d.to_string("app".to_string(), Some("elsewhere".to_string())).unwrap(),
        "https://example.org/lib"
    );
}

#[test]
fn a_name_of_two_pieces_is_a_repository_on_the_host() {
    let d = name("owner/lib");
    assert!(!d.is_looked_up());
    assert_eq!(d.to_string("app".to_string(), None).unwrap(), "https://github.com/owner/lib");
    assert_eq!(name("/").to_string("app".to_string(), None).unwrap(), "https://github.com//");
}

#[test]
fn a_name_of_one_piece_is_looked_up() {
    let d = name("lib");
    assert!(d.is_looked_up());
    assert_eq!(
        d.to_string("app".to_string(), Some("https://example.org/lib".to_string())).unwrap(),
        "https://example.org/lib"
    );
    match d.to_string("app".to_string(), None) {
        Err(DependencyError::NotListed { name, parent }) => {
            assert_eq!(name, "lib");
            assert_eq!(parent, "app");
        }
        other => panic!("{:?}", other),
    }
    assert!(name("").is_looked_up());
}

#[test]
fn a_name_of_more_pieces_is_an_error() {
    for n in ["a/b/c", "a//", "///"] {
        assert!(!name(n).is_looked_up());
        match name(n).to_string("app".to_string(), Some("x".to_string())) {
            Err(DependencyError::InvalidName { name, parent }) => {
                assert_eq!(name, n);
                assert_eq!(parent, "app");
            }
            other => panic!("{:?}", other),
        }
    }
}
