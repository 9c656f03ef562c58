use thrust_build::markers::{first_trait_ident, service_field_rewrites};
use thrust_build::messages::{cycle_message, join_names};
use thrust_build::utils::{derive_module_path, module_path_from_components, to_ascii_lower, to_snake_case};

fn names(xs: &[&str]) -> Vec<String> {
    xs.iter().map(|x| x.to_string()).collect()
}

#[test]
fn snake_case_of_type_names() {
    assert_eq!(to_snake_case("UserService"), "user_service");
    assert_eq!(to_snake_case("PostgresUserRepository"), "postgres_user_repository");
    assert_eq!(to_snake_case("DbPool"), "db_pool");
    assert_eq!(to_snake_case("A"), "a");
    assert_eq!(to_snake_case(""), "");
}

#[test]
fn snake_case_splits_every_capital() {
    assert_eq!(to_snake_case("HTTPServer"), "h_t_t_p_server");
    assert_eq!(to_snake_case("already_snake"), "already_snake");
}

#[test]
fn snake_case_keeps_non_ascii_letters() {
    assert_eq!(to_snake_case("ÉtatService"), "État_service");
    assert_eq!(to_snake_case("aÉ"), "a_É");
}

#[test]
fn ascii_lowercase_of_characters() {
    assert_eq!(to_ascii_lower('Q'), 'q');
    assert_eq!(to_ascii_lower('q'), 'q');
    assert_eq!(to_ascii_lower('_'), '_');
    assert_eq!(to_ascii_lower('É'), 'É');
}

#[test]
fn module_path_of_source_files() {
    assert_eq!(derive_module_path("src/services.rs", "src"), "crate::services");
    assert_eq!(derive_module_path("src/main.rs", "src"), "");
    assert_eq!(derive_module_path("src/api/users.rs", "src"), "crate::api::users");
    assert_eq!(derive_module_path("src/lib.rs", "src"), "crate::lib");
}

#[test]
fn module_path_outside_source_dir_keeps_whole_path() {
    assert_eq!(derive_module_path("other/x.rs", "src"), "crate::other::x");
}

#[test]
fn module_path_from_component_texts() {
    assert_eq!(module_path_from_components(&names(&["src", "a.b.rs"]), &names(&["src"])), "crate::a.b");
    assert_eq!(module_path_from_components(&names(&["src", ".hidden"]), &names(&["src"])), "crate::.hidden");
    assert_eq!(module_path_from_components(&names(&["src", "main.rs"]), &names(&["src"])), "");
    assert_eq!(module_path_from_components(&names(&["src", "x."]), &names(&["src"])), "crate::x");
}

#[test]
fn join_with_separator() {
    assert_eq!(join_names(&names(&["a", "b", "c"]), ", "), "a, b, c");
    assert_eq!(join_names(&names(&["a"]), ", "), "a");
    assert_eq!(join_names(&names(&[]), ", "), "");
}

#[test]
fn cycle_message_joins_with_arrows() {
    assert_eq!(
        cycle_message(&names(&["A", "B", "A"])),
        "thrust: dependency cycle detected: A -> B -> A"
    );
}

#[test]
fn first_trait_bound_is_chosen() {
    let bounds = vec![None, Some("UserRepository".to_string()), Some("Send".to_string())];
    assert_eq!(first_trait_ident(&bounds), Some("UserRepository".to_string()));
    assert_eq!(first_trait_ident(&vec![None]), None);
}

#[test]
fn only_bare_trait_object_fields_are_rewritten() {
    let fields = vec![
        Some(vec![Some("Repo".to_string()), Some("Send".to_string())]),
        None,
        Some(vec![None]),
    ];
    assert_eq!(service_field_rewrites(&fields), vec![Some("Repo".to_string()), None, None]);
}

#[test]
fn mod_rs_names_its_directory() {
    assert_eq!(derive_module_path("src/api/mod.rs", "src"), "crate::api");
    assert_eq!(derive_module_path("src/api/v1/mod.rs", "src"), "crate::api::v1");
    assert_eq!(derive_module_path("src/api/handlers.rs", "src"), "crate::api::handlers");
}

#[test]
fn snake_case_keeps_lower_case_and_underscores() {
    assert_eq!(to_snake_case("GreetingService"), "greeting_service");
    assert_eq!(to_snake_case("greeting_service"), "greeting_service");
    assert_eq!(to_snake_case("DbPool"), "db_pool");
}

#[test]
fn unicode_file_names_give_unicode_modules() {
    assert_eq!(derive_module_path("src/café.rs", "src"), "crate::café");
}
