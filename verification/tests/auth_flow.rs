use lily_nest::api::{
    auth_status, build_session_cookie, check_setup_request, ensure_admin, extract_session_token,
    finish_setup, login, logout, ApiError, EXPIRED_SESSION_COOKIE,
};
use lily_nest::auth::AuthState;
use lily_nest::model::{LoginRequest, SetupPasswordRequest};

fn token_of(cookie: &str) -> String {
    extract_session_token(cookie).expect("cookie carries a token")
}

#[test]
fn new_state_without_password_requires_setup() {
    let auth = AuthState::new(None);
    assert!(auth.requires_setup());
    assert!(!auth.verify_password(""));
    assert!(!auth.is_authenticated(None));
    assert!(!auth.is_authenticated(Some("anything")));
}

#[test]
fn password_is_set_only_once() {
    let mut auth = AuthState::new(None);
    assert!(auth.set_password_if_unset("secret1".to_string()));
    assert!(!auth.requires_setup());
    assert!(auth.verify_password("secret1"));
    assert!(!auth.verify_password("secret2"));
    assert!(!auth.set_password_if_unset("secret2".to_string()));
    assert!(auth.verify_password("secret1"));
}

#[test]
fn sessions_open_and_close() {
    let mut auth = AuthState::new(Some("pw".to_string()));
    let a = auth.create_session();
    let b = auth.create_session();
    assert_eq!(a.len(), 36);
    assert_eq!(&a[14..15], "4");
    assert_ne!(a, b);
    assert!(auth.is_authenticated(Some(&a)));
    assert!(auth.is_authenticated(Some(&b)));
    auth.revoke_session(&a);
    assert!(!auth.is_authenticated(Some(&a)));
    assert!(auth.is_authenticated(Some(&b)));
    auth.revoke_session("not-a-session");
    assert!(auth.is_authenticated(Some(&b)));
}

#[test]
fn session_token_is_read_from_the_cookie_header() {
    assert_eq!(extract_session_token("lily_nest_session=abc").as_deref(), Some("abc"));
    assert_eq!(
        extract_session_token("theme=dark;  lily_nest_session=x=y ; other=1").as_deref(),
        Some("x=y")
    );
    assert_eq!(extract_session_token("lily_nest_session=; lily_nest_session=b").as_deref(), Some("b"));
    assert_eq!(extract_session_token("lily_nest_sessionX=a"), None);
    assert_eq!(extract_session_token("lily_nest_session"), None);
    assert_eq!(extract_session_token(""), None);
}

#[test]
fn session_cookie_round_trip() {
    let cookie = build_session_cookie("tok-123");
    assert_eq!(cookie, "lily_nest_session=tok-123; Path=/; HttpOnly; SameSite=Lax");
    assert_eq!(extract_session_token(&cookie).as_deref(), Some("tok-123"));
    assert_eq!(
        EXPIRED_SESSION_COOKIE,
        "lily_nest_session=; Path=/; Max-Age=0; HttpOnly; SameSite=Lax"
    );
}

fn setup_request(p: &str, c: &str) -> SetupPasswordRequest {
    SetupPasswordRequest { password: p.to_string(), confirm_password: c.to_string() }
}

fn assert_error<T>(r: Result<T, ApiError>, status: u16, message: &str) {
    match r {
        Ok(_) => panic!("expected an error"),
        Err(e) => {
            assert_eq!(e.status, status);
            assert_eq!(e.message, message);
        }
    }
}

#[test]
fn setup_checks_length_and_confirmation() {
    let auth = AuthState::new(None);
    assert_error(
        check_setup_request(&auth, &setup_request(" abc ", "abc")),
        400,
        "admin password must be at least 6 characters",
    );
    assert_error(
        check_setup_request(&auth, &setup_request("abcdef", "abcdeg")),
        400,
        "password confirmation does not match",
    );
    // Length counts UTF-8 bytes: three CJK characters take nine.
    assert_eq!(check_setup_request(&auth, &setup_request(" 梨窝好 ", "梨窝好")).ok().as_deref(), Some("梨窝好"));
    assert_eq!(
        check_setup_request(&auth, &setup_request("  abcdef\n", "abcdef")).ok().as_deref(),
        Some("abcdef")
    );
    let configured = AuthState::new(Some("x".to_string()));
    assert_error(
        check_setup_request(&configured, &setup_request("abcdef", "abcdef")),
        400,
        "admin password already configured",
    );
}

#[test]
fn setup_then_login_then_logout() {
    let mut auth = AuthState::new(None);
    let password = check_setup_request(&auth, &setup_request("hunter22", "hunter22")).ok().unwrap();
    assert_error(finish_setup(&mut auth, password.clone(), false), 400, "admin password already configured");
    assert!(auth.requires_setup());
    let cookie = finish_setup(&mut auth, password, true).ok().unwrap();
    assert!(!auth.requires_setup());
    let token = token_of(&cookie);
    assert!(auth.is_authenticated(Some(&token)));

    assert_error(
        login(&mut auth, &LoginRequest { password: "wrong".to_string() }),
        401,
        "invalid admin password",
    );
    let second = login(&mut auth, &LoginRequest { password: "  hunter22 ".to_string() }).ok().unwrap();
    let header = format!("lily_nest_session={}", token_of(&second));
    let status = auth_status(&auth, Some(&header));
    assert!(status.authenticated);
    assert!(!status.setup_required);
    assert!(ensure_admin(&auth, Some(&header)).is_ok());

    let after = logout(&mut auth, Some(&header));
    assert!(!after.authenticated);
    assert!(!after.setup_required);
    assert!(!auth.is_authenticated(Some(&token_of(&second))));
    assert!(auth.is_authenticated(Some(&token)));
    assert_error(ensure_admin(&auth, Some(&header)), 401, "admin login required");
    assert_error(ensure_admin(&auth, None), 401, "admin login required");
}

#[test]
fn login_before_setup_is_refused() {
    let mut auth = AuthState::new(None);
    assert_error(
        login(&mut auth, &LoginRequest { password: "anything".to_string() }),
        400,
        "admin password has not been configured yet",
    );
    let status = auth_status(&auth, None);
    assert!(!status.authenticated);
    assert!(status.setup_required);
    let out = logout(&mut auth, None);
    assert!(out.setup_required);
}

#[test]
fn string_errors_are_internal() {
    let e: ApiError = ApiError::from("db down".to_string());
    assert_eq!(e.status, 500);
    assert_eq!(e.message, "db down");
    assert_eq!(ApiError::not_found("x".to_string()).status, 404);
    assert_eq!(ApiError::bad_request("x".to_string()).status, 400);
    assert_eq!(ApiError::unauthorized("x".to_string()).status, 401);
    assert_eq!(ApiError::internal("x".to_string()).status, 500);
}
