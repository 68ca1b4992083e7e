use pocket_kindle::http::{
    is_http_url_exec, resolve_redirect, CookieJar, HttpError, HttpReply, HttpRequest, HttpStep,
    MAX_HOPS,
};

fn reply(status: u16, error_status: bool, cookies: &[&str], location: Option<&str>) -> HttpReply {
    HttpReply {
        status,
        error_status,
        set_cookies: cookies.iter().map(|s| s.to_string()).collect(),
        location: location.map(|s| s.to_string()),
    }
}

#[test]
fn cookie_header_pairs_skip_attributes() {
    let mut jar = CookieJar::new();
    jar.absorb_cookie_pairs("a=1; Path=/; b = 2 ;; c; max-age=5; SameSite=Lax; =x; d=");
    assert_eq!(jar.header(), "a=1; b=2; d=");
    assert_eq!(jar.len(), 3);
}

#[test]
fn jar_replaces_in_place() {
    let mut jar = CookieJar::new();
    jar.insert("a".to_string(), "1".to_string());
    jar.insert("b".to_string(), "2".to_string());
    jar.insert("a".to_string(), "3".to_string());
    assert_eq!(jar.header(), "a=3; b=2");
    assert_eq!(CookieJar::new().header(), "");
}

#[test]
fn set_cookie_takes_the_first_pair() {
    let mut jar = CookieJar::new();
    let vals: Vec<String> = ["sid=xyz; HttpOnly; Path=/", "=bad", "novalue", " t = 1 ;x=y", "sid=new"]
        .iter()
        .map(|s| s.to_string())
        .collect();
    jar.absorb_set_cookies(&vals);
    assert_eq!(jar.header(), "sid=new; t=1");
}

#[test]
fn redirects_resolve_against_the_current_url() {
    assert_eq!(resolve_redirect("http://h:8/a/b", "https://o/x"), "https://o/x");
    assert_eq!(resolve_redirect("http://h:8/a/b?q", "/login"), "http://h:8/login");
    assert_eq!(resolve_redirect("http://h", "/login"), "http://h/login");
    assert_eq!(resolve_redirect("http://h/a/b", "c"), "http://h/a/c");
    assert_eq!(resolve_redirect("nohost", "c"), "c");
    assert_eq!(resolve_redirect("a/b", "/c"), "a//c");
}

#[test]
fn only_http_urls() {
    assert!(is_http_url_exec("http://x"));
    assert!(is_http_url_exec("https://x"));
    assert!(!is_http_url_exec("ftp://x"));
    assert!(!is_http_url_exec("HTTP://x"));
}

#[test]
fn begin_checks_scheme_then_method() {
    assert!(matches!(HttpRequest::begin("GET", "ftp://x", "{}", ""), Err(HttpError::NotHttp)));
    match HttpRequest::begin("patch", "http://x", "{}", "") {
        Err(HttpError::UnsupportedMethod(m)) => assert_eq!(m, "PATCH"),
        _ => panic!("expected an unsupported method"),
    }
    let r = HttpRequest::begin("get", "http://x/y", "{}", "body").ok().unwrap();
    assert_eq!(r.method(), "GET");
    assert_eq!(r.url(), "http://x/y");
    assert!(!r.sends_body());
}

#[test]
fn hop_headers_put_the_jar_last() {
    let r = HttpRequest::begin(
        "post",
        "http://h/login",
        "{\"cookie\":\"s=1\",\"Accept\":\"x\",\"User-Agent\":\"mine\"}",
        "u=a",
    )
    .ok()
    .unwrap();
    assert!(r.sends_body());
    assert_eq!(
        r.hop_headers(),
        vec![
            ("User-Agent".to_string(), "PocketJS-Kindle-Manga/0.1".to_string()),
            ("Accept".to_string(), "x".to_string()),
            ("User-Agent".to_string(), "mine".to_string()),
            ("Cookie".to_string(), "s=1".to_string()),
        ]
    );
}

#[test]
fn post_redirect_keeps_cookies_and_becomes_get() {
    let mut r = HttpRequest::begin("POST", "http://h/api/login", "{\"Cookie\":\"s=1\"}", "u=a")
        .ok()
        .unwrap();
    let step = r.on_reply(&reply(302, true, &["sid=2; Path=/"], Some("/home")));
    assert!(matches!(step, HttpStep::Redirect));
    assert_eq!(r.url(), "http://h/home");
    assert_eq!(r.method(), "GET");
    assert_eq!(r.body(), "");
    let step = r.on_reply(&reply(200, false, &[], None));
    assert!(matches!(step, HttpStep::Finish(200)));
    let res = r.finish(200, "ok".to_string()).ok().unwrap();
    assert_eq!(res.status, 200);
    assert_eq!(res.body, "ok");
    assert_eq!(res.set_cookie, "s=1; sid=2");
}

#[test]
fn see_other_turns_put_into_get_but_307_keeps_it() {
    let mut r = HttpRequest::begin("PUT", "http://h/a", "{}", "x").ok().unwrap();
    assert!(matches!(r.on_reply(&reply(307, true, &[], Some("b"))), HttpStep::Redirect));
    assert_eq!((r.method(), r.url(), r.body()), ("PUT", "http://h/b", "x"));
    assert!(matches!(r.on_reply(&reply(303, true, &[], Some("c"))), HttpStep::Redirect));
    assert_eq!((r.method(), r.url(), r.body()), ("GET", "http://h/c", ""));
}

#[test]
fn error_statuses_finish_and_redirects_need_a_location() {
    let mut r = HttpRequest::begin("GET", "http://h/a", "{}", "").ok().unwrap();
    match r.on_reply(&reply(301, true, &[], None)) {
        HttpStep::Fail(HttpError::RedirectWithoutLocation { code, url }) => {
            assert_eq!(code, 301);
            assert_eq!(url, "http://h/a");
        }
        _ => panic!("expected a failure"),
    }
    let mut r2 = HttpRequest::begin("GET", "http://h/a", "{}", "").ok().unwrap();
    assert!(matches!(r2.on_reply(&reply(404, true, &["k=v"], None)), HttpStep::Finish(404)));
    // A 3xx the transport returned as a response finishes the request.
    assert!(matches!(r2.on_reply(&reply(302, false, &[], Some("/x"))), HttpStep::Finish(302)));
    assert_eq!(r2.finish(404, String::new()).ok().unwrap().set_cookie, "k=v");
}

#[test]
fn gives_up_after_the_last_hop() {
    let mut r = HttpRequest::begin("GET", "http://h/0", "{}", "").ok().unwrap();
    for hop in 1..MAX_HOPS {
        assert!(matches!(r.on_reply(&reply(302, true, &[], Some("/n"))), HttpStep::Redirect), "hop {hop}");
    }
    match r.on_reply(&reply(302, true, &[], Some("/last"))) {
        HttpStep::Fail(HttpError::GaveUp { url }) => assert_eq!(url, "http://h/last"),
        _ => panic!("expected to give up"),
    }
    let r2 = HttpRequest::begin("GET", "http://h/0", "{}", "").ok().unwrap();
    assert!(matches!(r2.finish(0, String::new()), Err(HttpError::GaveUp { .. })));
}

#[test]
fn begin_upper_checks_the_method_as_given() {
    assert!(matches!(
        HttpRequest::begin_upper("GET".to_string(), "https://x/a", "{}", ""),
        Ok(_)
    ));
    match HttpRequest::begin_upper("get".to_string(), "http://x", "{}", "") {
        Err(HttpError::UnsupportedMethod(m)) => assert_eq!(m, "get"),
        _ => panic!("expected a refusal"),
    }
    match HttpRequest::begin_upper("GÉT".to_string(), "http://x", "{}", "") {
        Err(HttpError::UnsupportedMethod(m)) => assert_eq!(m, "GÉT"),
        _ => panic!("expected a refusal"),
    }
    assert!(matches!(
        HttpRequest::begin_upper("PUT".to_string(), "ftp://x", "{}", ""),
        Err(HttpError::NotHttp)
    ));
}
