use ddot::naming::to_snake_case;
use ddot::paths::{default_output_path, output_file_name};

#[test]
fn builds_default_output_path_next_to_input() {
    assert_eq!(default_output_path("images/photo.jpg"), "images/photo_ddot.png");
}

#[test]
fn builds_default_output_path_for_extensionless_input() {
    assert_eq!(default_output_path("photo"), "photo_ddot.png");
}

#[test]
fn output_file_name_falls_back_without_stem() {
    assert_eq!(output_file_name(Some("cat")), "cat_ddot.png");
    assert_eq!(output_file_name(Some("")), "output_ddot.png");
    assert_eq!(output_file_name(None), "output_ddot.png");
}

#[test]
fn snake_case_of_type_names() {
    assert_eq!(to_snake_case("GaussianBlur"), "gaussian_blur");
    assert_eq!(to_snake_case("Adjustment"), "adjustment");
    assert_eq!(to_snake_case("KawaseBlur"), "kawase_blur");
    assert_eq!(to_snake_case("already_snake"), "already_snake");
    assert_eq!(to_snake_case(""), "");
}

#[test]
fn snake_case_splits_every_inner_capital() {
    assert_eq!(to_snake_case("HTTPServer"), "h_t_t_p_server");
    assert_eq!(to_snake_case("A"), "a");
    assert_eq!(to_snake_case("a-b"), "a-b");
    assert_eq!(to_snake_case("Kind-Of Name"), "kind-_of _name");
}

#[test]
fn snake_case_is_idempotent_on_ascii_names() {
    for name in ["GaussianBlur", "HTTPServer", "already_snake", "X9y_Z", "", "a-B", "Q.R s!"] {
        let once = to_snake_case(name);
        assert_eq!(to_snake_case(&once), once);
        assert!(!once.chars().any(|c| c.is_ascii_uppercase()));
        let inner = name.chars().skip(1).filter(|c| c.is_ascii_uppercase()).count();
        assert_eq!(once.len(), name.len() + inner);
        assert_eq!(once.replace('_', ""), name.replace('_', "").to_ascii_lowercase());
    }
}

#[test]
fn default_output_names_end_in_ddot_png() {
    for stem in [Some("a"), Some(""), None, Some("photo.tar")] {
        assert!(output_file_name(stem).ends_with("_ddot.png"));
    }
}

#[test]
fn default_output_path_without_stem_uses_output() {
    assert_eq!(default_output_path("/"), "/output_ddot.png");
}
