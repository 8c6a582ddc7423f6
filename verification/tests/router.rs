use http_server::fields::Fields;
use http_server::request::HTTPMethod;
use http_server::router::{
    alphanumeric_word, any_variable, bind, compile, path_segments, pattern_accepts, Router,
    Segment,
};

fn value<'a>(fields: &'a Fields, name: &[u8]) -> Option<&'a [u8]> {
    fields.get(name).map(|v| v.as_slice())
}

fn handler_of(router: &Router<u32>, path: &[u8], method: HTTPMethod) -> Option<u32> {
    router.get_route(path, &method).map(|details| *details.handler)
}

#[test]
fn a_static_route_is_found_with_no_path_variables() {
    let mut router: Router<u32> = Router::new();
    router.insert_route(b"/", 1, HTTPMethod::Get);
    router.insert_route(b"/user-agent", 2, HTTPMethod::Get);
    router.insert_route(b"/submit", 3, HTTPMethod::Post);
    let found = router.get_route(b"/user-agent", &HTTPMethod::Get).unwrap();
    assert_eq!(*found.handler, 2);
    assert!(found.path_variables.is_empty());
    assert_eq!(handler_of(&router, b"/", HTTPMethod::Get), Some(1));
    assert_eq!(handler_of(&router, b"/submit", HTTPMethod::Post), Some(3));
}

#[test]
fn an_unregistered_path_is_not_found() {
    let mut router: Router<u32> = Router::new();
    assert!(router.get_route(b"/", &HTTPMethod::Get).is_none());
    router.insert_route(b"/a", 1, HTTPMethod::Get);
    assert!(router.get_route(b"/b", &HTTPMethod::Get).is_none());
    assert!(router.get_route(b"/a/", &HTTPMethod::Get).is_none());
    assert!(router.get_route(b"/A", &HTTPMethod::Get).is_none());
    assert!(router.get_route(b"", &HTTPMethod::Get).is_none());
}

#[test]
fn another_method_at_a_registered_path_is_not_found() {
    let mut router: Router<u32> = Router::new();
    router.insert_route(b"/a", 1, HTTPMethod::Get);
    router.insert_route(b"/items/:id", 2, HTTPMethod::Get);
    assert!(router.get_route(b"/a", &HTTPMethod::Post).is_none());
    assert!(router.get_route(b"/items/42", &HTTPMethod::Post).is_none());
}

#[test]
fn a_static_route_is_kept_per_method() {
    let mut router: Router<u32> = Router::new();
    router.insert_route(b"/a", 1, HTTPMethod::Get);
    router.insert_route(b"/a", 2, HTTPMethod::Post);
    assert_eq!(handler_of(&router, b"/a", HTTPMethod::Get), Some(1));
    assert_eq!(handler_of(&router, b"/a", HTTPMethod::Post), Some(2));
}

#[test]
fn the_last_static_route_for_a_pattern_and_method_stays() {
    let mut router: Router<u32> = Router::new();
    router.insert_route(b"/a", 1, HTTPMethod::Get);
    router.insert_route(b"/b", 2, HTTPMethod::Get);
    router.insert_route(b"/a", 3, HTTPMethod::Get);
    assert_eq!(handler_of(&router, b"/a", HTTPMethod::Get), Some(3));
    assert_eq!(handler_of(&router, b"/b", HTTPMethod::Get), Some(2));
}

#[test]
fn a_dynamic_route_binds_its_variable() {
    let mut router: Router<u32> = Router::new();
    router.insert_route(b"/items/:id", 7, HTTPMethod::Get);
    let found = router.get_route(b"/items/42", &HTTPMethod::Get).unwrap();
    assert_eq!(*found.handler, 7);
    assert_eq!(found.path_variables.len(), 1);
    assert_eq!(value(&found.path_variables, b"id"), Some(&b"42"[..]));
}

#[test]
fn a_dynamic_route_needs_the_same_number_of_segments() {
    let mut router: Router<u32> = Router::new();
    router.insert_route(b"/items/:id", 7, HTTPMethod::Get);
    assert!(router.get_route(b"/items/42/extra", &HTTPMethod::Get).is_none());
    assert!(router.get_route(b"/items", &HTTPMethod::Get).is_none());
    assert!(router.get_route(b"/items/", &HTTPMethod::Get).is_none());
    assert!(router.get_route(b"/", &HTTPMethod::Get).is_none());
}

#[test]
fn a_literal_segment_must_be_equal() {
    let mut router: Router<u32> = Router::new();
    router.insert_route(b"/items/:id", 7, HTTPMethod::Get);
    assert!(router.get_route(b"/item/42", &HTTPMethod::Get).is_none());
    assert!(router.get_route(b"/itemsx/42", &HTTPMethod::Get).is_none());
    assert!(router.get_route(b"/Items/42", &HTTPMethod::Get).is_none());
    assert!(router.get_route(b"/x/items/42", &HTTPMethod::Get).is_none());
    assert!(router.get_route(b"/items42", &HTTPMethod::Get).is_none());
}

#[test]
fn a_variable_segment_must_be_alphanumeric() {
    let mut router: Router<u32> = Router::new();
    router.insert_route(b"/items/:id", 7, HTTPMethod::Get);
    assert!(router.get_route(b"/items/a-b", &HTTPMethod::Get).is_none());
    assert!(router.get_route(b"/items/a.txt", &HTTPMethod::Get).is_none());
    assert!(router.get_route(b"/items/a%20b", &HTTPMethod::Get).is_none());
    assert!(router.get_route(b"/items/a_b", &HTTPMethod::Get).is_none());
    assert_eq!(handler_of(&router, b"/items/Az09", HTTPMethod::Get), Some(7));
}

#[test]
fn empty_segments_do_not_count() {
    let mut router: Router<u32> = Router::new();
    router.insert_route(b"/items/:id", 7, HTTPMethod::Get);
    assert_eq!(handler_of(&router, b"/items/42/", HTTPMethod::Get), Some(7));
    assert_eq!(handler_of(&router, b"//items//42", HTTPMethod::Get), Some(7));
    assert_eq!(handler_of(&router, b"items/42", HTTPMethod::Get), Some(7));
}

#[test]
fn a_pattern_may_hold_several_variables() {
    let mut router: Router<u32> = Router::new();
    router.insert_route(b"/users/:user/posts/:post", 9, HTTPMethod::Get);
    let found = router.get_route(b"/users/ann/posts/12", &HTTPMethod::Get).unwrap();
    assert_eq!(found.path_variables.len(), 2);
    assert_eq!(value(&found.path_variables, b"user"), Some(&b"ann"[..]));
    assert_eq!(value(&found.path_variables, b"post"), Some(&b"12"[..]));
    assert!(router.get_route(b"/users/ann/post/12", &HTTPMethod::Get).is_none());
}

#[test]
fn of_two_variables_with_one_name_the_later_stays() {
    let mut router: Router<u32> = Router::new();
    router.insert_route(b"/:x/:x", 9, HTTPMethod::Get);
    let found = router.get_route(b"/a/b", &HTTPMethod::Get).unwrap();
    assert_eq!(found.path_variables.len(), 1);
    assert_eq!(value(&found.path_variables, b"x"), Some(&b"b"[..]));
}

#[test]
fn the_first_registered_of_two_matching_dynamic_routes_wins() {
    let mut router: Router<u32> = Router::new();
    router.insert_route(b"/a/:x", 1, HTTPMethod::Get);
    router.insert_route(b"/:y/b", 2, HTTPMethod::Get);
    let found = router.get_route(b"/a/b", &HTTPMethod::Get).unwrap();
    assert_eq!(*found.handler, 1);
    assert_eq!(value(&found.path_variables, b"x"), Some(&b"b"[..]));
    assert_eq!(value(&found.path_variables, b"y"), None);
    assert_eq!(handler_of(&router, b"/c/b", HTTPMethod::Get), Some(2));

    let mut router: Router<u32> = Router::new();
    router.insert_route(b"/:y/b", 2, HTTPMethod::Get);
    router.insert_route(b"/a/:x", 1, HTTPMethod::Get);
    let found = router.get_route(b"/a/b", &HTTPMethod::Get).unwrap();
    assert_eq!(*found.handler, 2);
    assert_eq!(value(&found.path_variables, b"y"), Some(&b"a"[..]));
}

#[test]
fn the_same_dynamic_pattern_registered_twice_keeps_the_first() {
    let mut router: Router<u32> = Router::new();
    router.insert_route(b"/files/:name", 1, HTTPMethod::Get);
    router.insert_route(b"/files/:name", 2, HTTPMethod::Get);
    router.insert_route(b"/files/:name", 3, HTTPMethod::Post);
    assert_eq!(handler_of(&router, b"/files/a", HTTPMethod::Get), Some(1));
    assert_eq!(handler_of(&router, b"/files/a", HTTPMethod::Post), Some(3));
}

#[test]
fn static_routes_come_before_dynamic_routes() {
    let mut router: Router<u32> = Router::new();
    router.insert_route(b"/a/:x", 1, HTTPMethod::Get);
    router.insert_route(b"/a/b", 2, HTTPMethod::Get);
    let found = router.get_route(b"/a/b", &HTTPMethod::Get).unwrap();
    assert_eq!(*found.handler, 2);
    assert!(found.path_variables.is_empty());
    assert_eq!(handler_of(&router, b"/a/c", HTTPMethod::Get), Some(1));
}

#[test]
fn a_static_route_for_another_method_does_not_hide_a_dynamic_route() {
    let mut router: Router<u32> = Router::new();
    router.insert_route(b"/a/b", 1, HTTPMethod::Post);
    router.insert_route(b"/a/:x", 2, HTTPMethod::Get);
    assert_eq!(handler_of(&router, b"/a/b", HTTPMethod::Get), Some(2));
    assert_eq!(handler_of(&router, b"/a/b", HTTPMethod::Post), Some(1));
}

#[test]
fn a_colon_inside_a_segment_makes_no_variable() {
    let mut router: Router<u32> = Router::new();
    router.insert_route(b"/a:b", 1, HTTPMethod::Get);
    assert_eq!(handler_of(&router, b"/a:b", HTTPMethod::Get), Some(1));
    assert!(router.get_route(b"/a:b/", &HTTPMethod::Get).is_none());
}

#[test]
fn path_segments_leave_out_empty_parts() {
    assert_eq!(path_segments(b"/items/42"), vec![b"items".to_vec(), b"42".to_vec()]);
    assert_eq!(path_segments(b"//a///b/"), vec![b"a".to_vec(), b"b".to_vec()]);
    assert_eq!(path_segments(b"/"), Vec::<Vec<u8>>::new());
    assert_eq!(path_segments(b""), Vec::<Vec<u8>>::new());
}

#[test]
fn compile_tells_variables_from_literals() {
    let parts = vec![b"items".to_vec(), b":id".to_vec(), b":".to_vec()];
    assert!(any_variable(&parts));
    let compiled = compile(&parts);
    assert_eq!(compiled.len(), 3);
    assert!(matches!(&compiled[0], Segment::Literal(text) if text == b"items"));
    assert!(matches!(&compiled[1], Segment::Variable(name) if name == b"id"));
    assert!(matches!(&compiled[2], Segment::Variable(name) if name.is_empty()));
    assert!(!any_variable(&vec![b"items".to_vec(), b"a:b".to_vec()]));
    assert!(!any_variable(&Vec::new()));
}

#[test]
fn pattern_accepts_and_bind_work_segment_by_segment() {
    let pattern = compile(&vec![b"items".to_vec(), b":id".to_vec()]);
    let path = vec![b"items".to_vec(), b"42".to_vec()];
    assert!(pattern_accepts(&pattern, &path));
    let variables = bind(&pattern, &path);
    assert_eq!(value(&variables, b"id"), Some(&b"42"[..]));
    assert!(!pattern_accepts(&pattern, &vec![b"items".to_vec()]));
    assert!(!pattern_accepts(&pattern, &vec![b"items".to_vec(), b"4/2".to_vec()]));
}

#[test]
fn alphanumeric_words_are_letters_and_digits() {
    assert!(alphanumeric_word(b"abcXYZ019"));
    assert!(!alphanumeric_word(b""));
    assert!(!alphanumeric_word(b"a b"));
    assert!(!alphanumeric_word(b"a/b"));
    assert!(!alphanumeric_word(&[0xc3, 0xa9]));
    for b in 0u8..=255 {
        assert_eq!(alphanumeric_word(&[b]), b.is_ascii_alphanumeric());
    }
}

#[test]
fn a_default_router_has_no_routes() {
    let router: Router<u32> = Router::default();
    assert!(router.get_route(b"/", &HTTPMethod::Get).is_none());
}
