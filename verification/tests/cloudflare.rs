use wraith_dom::{
    can_extract_scripts, handle_cloudflare_response, is_cloudflare_challenge, solve_challenge, CloudflareStep, SolveStep,
};

const PAGE: &str = r#"<html><head><title>Just a moment...</title></head><body>
<form id="challenge-form" action="/cdn-cgi/l/chk_jschl?__cf_chl_f_tk=abc" method="POST">
<input type="hidden" name="r" value="xyz"/>
<input type="hidden" name="jschl_vc" value="123"/>
<input type="submit">
</form>
<script src="/cdn.js"></script>
<script>var a = 1;</script>
<script>document.cookie="cf_clearance=abc123; path=/";</script>
</body></html>"#;

#[test]
fn detects_challenge_pages() {
    assert!(is_cloudflare_challenge("<title>Just a moment...</title>"));
    assert!(is_cloudflare_challenge("<div id=\"cf-browser-verification\"></div>"));
    assert!(is_cloudflare_challenge("https://challenges.cloudflare.com/x"));
    assert!(!is_cloudflare_challenge("<html><body>Hello</body></html>"));
    assert!(!is_cloudflare_challenge(""));
}

#[test]
fn non_challenge_page_needs_no_evaluation() {
    match solve_challenge("<html><body>Hi</body></html>", "example.com", "/", "") {
        SolveStep::Done(r) => {
            assert!(!r.is_challenge);
            assert!(r.cookie.is_none());
            assert!(r.submit_url.is_none());
            assert!(r.form_fields.is_empty());
            assert_eq!(r.debug_info, "not a Cloudflare challenge page");
        }
        SolveStep::Evaluate(..) => panic!("unexpected evaluation"),
    }
}

#[test]
fn first_evaluation_is_the_challenge_script() {
    match solve_challenge(PAGE, "example.com", "/", "a=b") {
        SolveStep::Evaluate(_, call) => {
            assert_eq!(call.script, r#"document.cookie="cf_clearance=abc123; path=/";"#);
            assert_eq!(call.hostname, "example.com");
            assert_eq!(call.path, "/");
            assert_eq!(call.existing_cookies, "a=b");
        }
        SolveStep::Done(_) => panic!("expected an evaluation"),
    }
}

#[test]
fn cookie_from_evaluation_solves_challenge() {
    let solver = match solve_challenge(PAGE, "example.com", "/", "") {
        SolveStep::Evaluate(s, _) => s,
        SolveStep::Done(_) => panic!("expected an evaluation"),
    };
    match solver.resume(Ok((String::from("done"), String::from("cf_clearance=zzz")))) {
        SolveStep::Done(r) => {
            assert!(r.is_challenge);
            assert_eq!(r.cookie, Some(String::from("cf_clearance=zzz")));
            assert_eq!(
                r.submit_url,
                Some(String::from("/cdn-cgi/l/chk_jschl?__cf_chl_f_tk=abc"))
            );
            assert_eq!(
                r.form_fields,
                vec![
                    (String::from("r"), String::from("xyz")),
                    (String::from("jschl_vc"), String::from("123")),
                ]
            );
            assert_eq!(
                r.debug_info,
                "found 2 script blocks\nscript 1 looks like a challenge (46 bytes)\nchallenge solved via js-lite\nscript output: done\n"
            );
        }
        SolveStep::Evaluate(..) => panic!("expected the end"),
    }
}

#[test]
fn failed_evaluations_fall_back_to_inline_cookie() {
    let solver = match solve_challenge(PAGE, "example.com", "/", "") {
        SolveStep::Evaluate(s, _) => s,
        SolveStep::Done(_) => panic!("expected an evaluation"),
    };
    let solver = match solver.resume(Err(String::from("boom"))) {
        SolveStep::Evaluate(s, call) => {
            assert_eq!(
                call.script,
                "document.cookie=\"cf_clearance=abc123; path=/\";;\n"
            );
            s
        }
        SolveStep::Done(_) => panic!("expected the combined script"),
    };
    match solver.resume(Ok((String::new(), String::new()))) {
        SolveStep::Done(r) => {
            assert_eq!(r.cookie, Some(String::from("cf_clearance=abc123")));
            assert_eq!(
                r.debug_info,
                "found 2 script blocks\nscript 1 looks like a challenge (46 bytes)\nscript 1 failed: boom\ntrying combined script approach\nextracted cookie from inline pattern\n"
            );
        }
        SolveStep::Evaluate(..) => panic!("expected the end"),
    }
}

#[test]
fn unsolvable_challenge_reports_failure() {
    let page = "<p>Checking your browser</p><script>var jschl = 1;</script>";
    let solver = match solve_challenge(page, "h", "/", "") {
        SolveStep::Evaluate(s, call) => {
            assert_eq!(call.script, "var jschl = 1;");
            s
        }
        SolveStep::Done(_) => panic!("expected an evaluation"),
    };
    let solver = match solver.resume(Ok((String::from("x"), String::new()))) {
        SolveStep::Evaluate(s, _) => s,
        SolveStep::Done(_) => panic!("expected the combined script"),
    };
    match solver.resume(Err(String::from("bad"))) {
        SolveStep::Done(r) => {
            assert!(r.is_challenge);
            assert!(r.cookie.is_none());
            assert_eq!(
                r.debug_info,
                "found 1 script blocks\nscript 0 looks like a challenge (14 bytes)\nscript ran but no cookie was set\noutput: x\ntrying combined script approach\ncombined script failed: bad\ncould not solve challenge\n"
            );
        }
        SolveStep::Evaluate(..) => panic!("expected the end"),
    }
}

#[test]
fn long_outputs_are_cut_to_200_bytes() {
    let page = "<p>jschl_vc</p><script>jschl()</script>";
    let solver = match solve_challenge(page, "h", "/", "") {
        SolveStep::Evaluate(s, _) => s,
        SolveStep::Done(_) => panic!("expected an evaluation"),
    };
    let long = "y".repeat(250);
    match solver.resume(Err(long)) {
        SolveStep::Evaluate(s, _) => match s.resume(Ok((String::new(), String::from("k=v")))) {
            SolveStep::Done(r) => {
                let expected_cut = "y".repeat(200);
                assert!(r.debug_info.contains(&format!("script 0 failed: {}\n", expected_cut)));
                assert!(!r.debug_info.contains(&"y".repeat(201)));
                assert!(r.debug_info.ends_with("solved via combined scripts\n"));
                assert_eq!(r.cookie, Some(String::from("k=v")));
            }
            SolveStep::Evaluate(..) => panic!("expected the end"),
        },
        SolveStep::Done(_) => panic!("expected the combined script"),
    }
}

#[test]
fn challenge_without_scripts_tries_inline_cookie() {
    match solve_challenge("turnstile", "h", "/", "") {
        SolveStep::Done(r) => {
            assert!(r.is_challenge);
            assert!(r.cookie.is_none());
            assert_eq!(r.debug_info, "found 0 script blocks\ncould not solve challenge\n");
        }
        SolveStep::Evaluate(..) => panic!("no script to evaluate"),
    }
}

#[test]
fn other_statuses_are_ignored() {
    match handle_cloudflare_response(200, PAGE.as_bytes(), "example.com", "/", "") {
        CloudflareStep::Done(c) => assert!(c.is_none()),
        CloudflareStep::Evaluate(..) => panic!("unexpected evaluation"),
    }
}

#[test]
fn invalid_utf8_bodies_are_ignored() {
    let body: &[u8] = &[0xff, 0xfe, b'c', b'f', b'_', b'c', b'h', b'l', b'_', b'2'];
    match handle_cloudflare_response(503, body, "example.com", "/", "") {
        CloudflareStep::Done(c) => assert!(c.is_none()),
        CloudflareStep::Evaluate(..) => panic!("unexpected evaluation"),
    }
}

#[test]
fn plain_pages_are_ignored() {
    match handle_cloudflare_response(403, b"<html>Forbidden</html>", "example.com", "/", "") {
        CloudflareStep::Done(c) => assert!(c.is_none()),
        CloudflareStep::Evaluate(..) => panic!("unexpected evaluation"),
    }
}

#[test]
fn solved_challenge_gives_cookie_for_host() {
    let handler = match handle_cloudflare_response(503, PAGE.as_bytes(), "example.com", "/", "") {
        CloudflareStep::Evaluate(h, call) => {
            assert_eq!(call.script, r#"document.cookie="cf_clearance=abc123; path=/";"#);
            h
        }
        CloudflareStep::Done(_) => panic!("expected an evaluation"),
    };
    match handler.resume(Ok((String::new(), String::from("cf_clearance=q")))) {
        CloudflareStep::Done(Some(c)) => {
            assert_eq!(c.cookie, "cf_clearance=q");
            assert_eq!(c.domain, "example.com");
        }
        _ => panic!("expected a cookie"),
    }
}

#[test]
fn unsolved_challenge_gives_no_cookie() {
    let page = "<p>cf_chl_opt</p><script>challenge()</script>";
    let handler = match handle_cloudflare_response(503, page.as_bytes(), "h", "/", "") {
        CloudflareStep::Evaluate(h, _) => h,
        CloudflareStep::Done(_) => panic!("expected an evaluation"),
    };
    let handler = match handler.resume(Err(String::from("e"))) {
        CloudflareStep::Evaluate(h, _) => h,
        CloudflareStep::Done(_) => panic!("expected the combined script"),
    };
    match handler.resume(Err(String::from("e"))) {
        CloudflareStep::Done(c) => assert!(c.is_none()),
        CloudflareStep::Evaluate(..) => panic!("expected the end"),
    }
}

#[test]
fn script_end_followed_by_wide_character_cannot_be_extracted() {
    assert!(can_extract_scripts(PAGE));
    assert!(can_extract_scripts("<p>no scripts</p>"));
    assert!(can_extract_scripts("<script>a</script>"));
    assert!(can_extract_scripts("<script>a</script>é"));
    assert!(!can_extract_scripts("<script>a</scriptéx"));
    assert!(can_extract_scripts("<script src=\"x\"></scriptéx"));
}

#[test]
fn outcomes_are_accepted_when_they_cut_cleanly() {
    let solver = match solve_challenge(PAGE, "example.com", "/", "") {
        SolveStep::Evaluate(s, _) => s,
        SolveStep::Done(_) => panic!("expected an evaluation"),
    };
    let short = Ok((String::from("out"), String::new()));
    assert!(solver.accepts(&short));
    let mut wide = "a".repeat(199);
    wide.push('é');
    assert!(!solver.accepts(&Ok((wide.clone(), String::new()))));
    assert!(!solver.accepts(&Err(wide)));
    let mut exact = "a".repeat(198);
    exact.push('é');
    exact.push('b');
    assert!(solver.accepts(&Err(exact)));
}

#[test]
fn combined_attempt_accepts_any_output() {
    let page = "<p>cf_chl_opt</p><script>challenge()</script>";
    let handler = match handle_cloudflare_response(503, page.as_bytes(), "h", "/", "") {
        CloudflareStep::Evaluate(h, _) => h,
        CloudflareStep::Done(_) => panic!("expected an evaluation"),
    };
    let mut wide = "a".repeat(199);
    wide.push('é');
    let wide_output = Ok((wide.clone(), String::new()));
    assert!(!handler.accepts(&wide_output));
    let handler = match handler.resume(Err(String::from("e"))) {
        CloudflareStep::Evaluate(h, _) => h,
        CloudflareStep::Done(_) => panic!("expected the combined script"),
    };
    assert!(handler.accepts(&wide_output));
    assert!(!handler.accepts(&Err(wide)));
}

#[test]
fn challenge_result_can_be_debug_printed() {
    match solve_challenge("<p>plain</p>", "h", "/", "") {
        SolveStep::Done(r) => assert!(format!("{:?}", r).contains("not a Cloudflare challenge page")),
        SolveStep::Evaluate(..) => panic!("unexpected evaluation"),
    }
}
