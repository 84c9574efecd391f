use hayaku::Error;
use hayaku::escape::escape_html;
use hayaku::forms::{form, parse_form, replace_special_characters};
use hayaku::method::Method;
use hayaku::pattern::{end_of_param, get_params_indices, splitn};
use hayaku::router::Router;
use hayaku::status::code_lookup;

#[test]
fn router_register_and_dispatch() {
    let mut router: Router<usize> = Router::new();
    router.get("/", 1).unwrap();
    router.get("/b/{board}", 2).unwrap();
    router.post("/b/{board}", 3).unwrap();

    let (h, caps) = router.dispatch(&Method::Get, "/");
    assert_eq!(h, Some(1));
    assert!(caps.get("board").is_none());

    let (h, caps) = router.dispatch(&Method::Get, "/b/tech");
    assert_eq!(h, Some(2));
    assert_eq!(caps.get("board"), Some("tech".to_string()));

    let (h, _) = router.dispatch(&Method::Post, "/b/tech");
    assert_eq!(h, Some(3));

    // no route for this method or path: no handler, no captures
    let (h, caps) = router.dispatch(&Method::Put, "/b/tech");
    assert_eq!(h, None);
    assert!(caps.get("board").is_none());
    let (h, _) = router.dispatch(&Method::Get, "/nope");
    assert_eq!(h, None);
}

#[test]
fn router_not_found_fallback() {
    let mut router: Router<usize> = Router::new();
    router.get("/", 1).unwrap();
    router.set_not_found_handler(99);

    let (h, caps) = router.dispatch(&Method::Get, "/missing");
    assert_eq!(h, Some(99));
    assert!(caps.get("x").is_none());

    let (h, _) = router.dispatch(&Method::Delete, "/");
    assert_eq!(h, Some(99));
}

#[test]
fn router_duplicate_and_slash() {
    let mut router: Router<usize> = Router::new();
    router.handle(Method::Get, "/a", 1).unwrap();
    assert_eq!(router.handle(Method::Get, "/a", 2), Err(Error::DuplicateRoute));
    // the earlier registration still answers
    let (h, _) = router.dispatch(&Method::Get, "/a");
    assert_eq!(h, Some(1));

    assert_eq!(router.handle(Method::Get, "a", 3), Err(Error::StartWithSlash));
    let (h, _) = router.dispatch(&Method::Get, "a");
    assert_eq!(h, None);
}

#[test]
fn router_shortcuts() {
    let mut router: Router<usize> = Router::new();
    router.head("/h", 1).unwrap();
    router.options("/o", 2).unwrap();
    router.put("/u", 3).unwrap();
    router.patch("/p", 4).unwrap();
    router.delete("/d", 5).unwrap();

    assert_eq!(router.dispatch(&Method::Head, "/h").0, Some(1));
    assert_eq!(router.dispatch(&Method::Options, "/o").0, Some(2));
    assert_eq!(router.dispatch(&Method::Put, "/u").0, Some(3));
    assert_eq!(router.dispatch(&Method::Patch, "/p").0, Some(4));
    assert_eq!(router.dispatch(&Method::Delete, "/d").0, Some(5));
}

#[test]
fn method_tokens() {
    assert_eq!(Method::from_token("GET"), Method::Get);
    assert_eq!(Method::from_token("POST"), Method::Post);
    assert_eq!(Method::from("PATCH"), Method::Patch);
    assert_eq!(Method::from_token("BREW"), Method::Other("BREW".to_string()));
    assert!(Method::Get != Method::Post);
    assert!(Method::Other("A".to_string()) != Method::Other("B".to_string()));
}

#[test]
fn percent_decoding() {
    assert_eq!(replace_special_characters(b"abc").unwrap(), b"abc".to_vec());
    assert_eq!(replace_special_characters(b"a+b").unwrap(), b"a b".to_vec());
    assert_eq!(replace_special_characters(b"%41%62").unwrap(), b"Ab".to_vec());
    // a decoded carriage return is dropped
    assert_eq!(replace_special_characters(b"a%0D%0Ab").unwrap(), b"a\nb".to_vec());
    assert!(replace_special_characters(b"abc%").is_err());
    assert!(replace_special_characters(b"abc%4").is_err());
    assert!(replace_special_characters(b"abc%GG").is_err());
}

#[test]
fn form_fields() {
    let fs = form(b"q=val&r=&action=go");
    assert_eq!(fs.len(), 3);
    assert_eq!(fs[0].name, b"q".to_vec());
    assert_eq!(fs[0].value, b"val".to_vec());
    assert_eq!(fs[1].name, b"r".to_vec());
    assert_eq!(fs[1].value, b"".to_vec());
    assert_eq!(fs[2].name, b"action".to_vec());
    assert_eq!(fs[2].value, b"go".to_vec());

    // data that fits no pair yields nothing
    assert!(form(b"justtext").is_empty());
    assert!(form(b"=oops").is_empty());
}

#[test]
fn form_parsing() {
    let m = parse_form(b"file+type=a%2Bb&q=hello+world").unwrap();
    assert_eq!(m.get("file type"), Some(b"a+b".to_vec()));
    assert_eq!(m.get("q"), Some(b"hello world".to_vec()));
    assert!(m.get("missing").is_none());

    // a later field with the same name wins
    let m = parse_form(b"k=1&k=2").unwrap();
    assert_eq!(m.get("k"), Some(b"2".to_vec()));

    // a truncated escape fails, as does a name that is not text
    assert!(parse_form(b"a=%4").is_err());
    assert!(parse_form(b"%FF=x").is_err());
}

#[test]
fn status_codes() {
    assert_eq!(code_lookup(200), Some("OK"));
    assert_eq!(code_lookup(404), Some("Not Found"));
    assert_eq!(code_lookup(301), Some("Moved Permanently"));
    assert_eq!(code_lookup(511), Some("Network Authentication Required"));
    assert_eq!(code_lookup(600), None);
    assert_eq!(code_lookup(99), None);
}

#[test]
fn html_escaping() {
    let escaped = escape_html("<hello>&world</hello>");
    assert_eq!(escaped, "&lt;hello&gt;&amp;world&lt;/hello&gt;");
    assert_eq!(escape_html(""), "");
}

#[test]
fn pattern_helpers() {
    assert_eq!(end_of_param("abc/def"), "/def".to_string());
    assert_eq!(end_of_param("abcdef"), "".to_string());

    assert_eq!(splitn("a/b/c", 2, '/'), vec!["a".to_string(), "/b/c".to_string()]);
    assert_eq!(
        splitn("a/b/c", 3, '/'),
        vec!["a".to_string(), "/b".to_string(), "/c".to_string()]
    );

    assert_eq!(get_params_indices("/b/{board}").unwrap(), vec![(3, 10)]);
    assert_eq!(
        get_params_indices("/{a}/{b:[0-9]{2}}").unwrap(),
        vec![(1, 4), (5, 17)]
    );
    assert_eq!(get_params_indices("/{a").unwrap_err(), Error::UnbalancedBrace);
    assert_eq!(get_params_indices("/a}").unwrap_err(), Error::UnbalancedBrace);
}
